use rswc::counter::{Counts, Flags, StreamCounter};

fn all_flags() -> Flags {
    Flags { lines: true, words: true, bytes: true, chars: true }
}

fn no_char_flags() -> Flags {
    Flags { lines: true, words: true, bytes: true, chars: false }
}

fn count_chunks(chunks: &[&[u8]], flags: Flags) -> Counts {
    let mut sc = StreamCounter::new(flags);
    for chunk in chunks {
        sc.push_chunk(chunk);
    }
    sc.counts()
}

#[test]
fn test_bytes_equals_stream_length() {
    let data = b"some bytes\nwith a newline and \ttabs";
    let counts = count_chunks(&[data], no_char_flags());
    assert_eq!(counts.bytes, data.len());
    let counts2 = count_chunks(&[&data[..7], &data[7..]], no_char_flags());
    assert_eq!(counts2.bytes, data.len());
}

#[test]
fn test_lines_equals_newline_bytes() {
    let data = b"one\ntwo\n\nfour with no trailing newline";
    let counts = count_chunks(&[data], no_char_flags());
    assert_eq!(counts.lines, 3);
    let empty = count_chunks(&[b""], no_char_flags());
    assert_eq!(empty.lines, 0);
}

#[test]
fn test_word_count_invariant_to_chunking() {
    let data = b"alpha beta\n gamma\tdelta epsilon";
    let whole = count_chunks(&[data], no_char_flags());
    for split in 0..=data.len() {
        let parts = count_chunks(&[&data[..split], &data[split..]], no_char_flags());
        assert_eq!(parts.words, whole.words);
        assert_eq!(parts.lines, whole.lines);
        assert_eq!(parts.bytes, whole.bytes);
    }
    assert_eq!(whole.words, 5);
}

#[test]
fn test_word_split_at_boundary_not_double_counted() {
    // "abc" and "def " fed to one stream must form a single word,
    // while counting the two pieces separately yields two words.
    let joined = count_chunks(&[b"abc", b"def "], no_char_flags());
    assert_eq!(joined.words, 1);
    let first = count_chunks(&[b"abc"], no_char_flags());
    let second = count_chunks(&[b"def "], no_char_flags());
    assert_eq!(first.words + second.words, 2);
}

#[test]
fn test_empty_stream_all_zero() {
    let counts = count_chunks(&[], all_flags());
    assert_eq!(
        counts,
        Counts { lines: 0, words: 0, bytes: 0, chars: 0 }
    );
}

#[test]
fn test_char_count_valid_utf8() {
    let data = "h\u{e9}llo w\u{f6}rld".as_bytes();
    let counts = count_chunks(&[data], all_flags());
    assert_eq!(counts.chars, 11);
    assert_eq!(counts.bytes, 13);
}

#[test]
fn test_char_count_invalid_chunk_contributes_zero() {
    // A chunk that is not valid UTF-8 on its own adds no characters.
    let counts = count_chunks(&[b"ok ", b"\xff\xfe"], all_flags());
    assert_eq!(counts.chars, 3);
    // Splitting a two-byte character across chunks makes both chunks
    // invalid, so both undercount.
    let data = "h\u{e9}".as_bytes();
    let split = count_chunks(&[&data[..2], &data[2..]], all_flags());
    assert_eq!(split.chars, 0);
    let whole = count_chunks(&[data], all_flags());
    assert_eq!(whole.chars, 2);
}

#[test]
fn test_chars_stay_zero_when_disabled() {
    let counts = count_chunks(&[b"plain text"], no_char_flags());
    assert_eq!(counts.chars, 0);
    assert_eq!(counts.words, 2);
}

#[test]
fn test_whitespace_separators() {
    // space, tab, newline, vertical tab, form feed and carriage return
    // all end a word.
    let data = b"a b\tc\nd\x0be\x0cf\rg";
    let counts = count_chunks(&[data], no_char_flags());
    assert_eq!(counts.words, 7);
}
