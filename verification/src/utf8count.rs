//! Counting the Unicode scalar values encoded by a byte chunk.

use vstd::prelude::*;
use vstd::utf8::*;

verus! {

/// Characters contributed by one chunk: the number of Unicode scalar values
/// if the chunk on its own is valid UTF-8, and zero otherwise.
///
/// Because each chunk is judged on its own, a multi-byte character that
/// straddles a chunk boundary makes both chunks invalid and goes uncounted:
/// the character count can undercount depending on where the stream was
/// cut, unlike the line, word and byte counts.
pub open spec fn chunk_char_count_spec(s: Seq<u8>) -> nat {
    if valid_utf8(s) {
        decode_utf8(s).len()
    } else {
        0
    }
}

/// Checks whether the suffix of `chunk` starting at `i` begins with a
/// well-formed UTF-8 scalar encoding, and if so returns its width in bytes.
fn check_scalar(chunk: &[u8], i: usize) -> (r: Option<usize>)
    requires
        i < chunk@.len(),
    ensures
        ({
            let s = chunk@.subrange(i as int, chunk@.len() as int);
            match r {
                Some(w) => valid_first_scalar(s) && w == length_of_first_scalar(s) && 1 <= w <= 4
                    && i + w <= chunk@.len(),
                None => !valid_first_scalar(s),
            }
        }),
{
    let n = chunk.len();
    let ghost s = chunk@.subrange(i as int, chunk@.len() as int);
    let b0 = chunk[i];
    proof {
        assert(s[0] == chunk@[i as int]);
    }
    if b0 < 0x80 {
        Some(1)
    } else if 0xc0 <= b0 && b0 <= 0xdf {
        if i + 1 < n {
            let b1 = chunk[i + 1];
            proof {
                assert(s[1] == chunk@[i as int + 1]);
            }
            if 0x80 <= b1 && b1 <= 0xbf {
                let cp: u32 = (((b0 & 0x1f) as u32) << 6) | ((b1 & 0x3f) as u32);
                if 0x80 <= cp && !(0xd800 <= cp && cp <= 0xdfff) {
                    Some(2)
                } else {
                    None
                }
            } else {
                None
            }
        } else {
            None
        }
    } else if 0xe0 <= b0 && b0 <= 0xef {
        if n - i > 2 {
            let b1 = chunk[i + 1];
            let b2 = chunk[i + 2];
            proof {
                assert(s[1] == chunk@[i as int + 1]);
                assert(s[2] == chunk@[i as int + 2]);
            }
            if 0x80 <= b1 && b1 <= 0xbf && 0x80 <= b2 && b2 <= 0xbf {
                let cp: u32 = (((b0 & 0x0f) as u32) << 12) | (((b1 & 0x3f) as u32) << 6) | ((b2
                    & 0x3f) as u32);
                if 0x800 <= cp && !(0xd800 <= cp && cp <= 0xdfff) {
                    Some(3)
                } else {
                    None
                }
            } else {
                None
            }
        } else {
            None
        }
    } else if 0xf0 <= b0 && b0 <= 0xf7 {
        if n - i > 3 {
            let b1 = chunk[i + 1];
            let b2 = chunk[i + 2];
            let b3 = chunk[i + 3];
            proof {
                assert(s[1] == chunk@[i as int + 1]);
                assert(s[2] == chunk@[i as int + 2]);
                assert(s[3] == chunk@[i as int + 3]);
            }
            if 0x80 <= b1 && b1 <= 0xbf && 0x80 <= b2 && b2 <= 0xbf && 0x80 <= b3 && b3 <= 0xbf {
                let cp: u32 = (((b0 & 0x07) as u32) << 18) | (((b1 & 0x3f) as u32) << 12) | (((b2
                    & 0x3f) as u32) << 6) | ((b3 & 0x3f) as u32);
                if 0x10000 <= cp && cp <= 0x10ffff {
                    Some(4)
                } else {
                    None
                }
            } else {
                None
            }
        } else {
            None
        }
    } else {
        None
    }
}

/// The number of Unicode scalar values a chunk contributes to the character
/// count: scalars are counted left to right, and a chunk that is not valid
/// UTF-8 as a whole contributes zero.
pub fn chunk_char_count(chunk: &[u8]) -> (r: usize)
    ensures
        r == chunk_char_count_spec(chunk@),
        r <= chunk@.len(),
{
    let n = chunk.len();
    let mut i: usize = 0;
    let mut cnt: usize = 0;
    proof {
        assert(chunk@.subrange(0, n as int) =~= chunk@);
    }
    while i < n
        invariant
            i <= n,
            n == chunk@.len(),
            cnt <= i,
            valid_utf8(chunk@) <==> valid_utf8(chunk@.subrange(i as int, n as int)),
            valid_utf8(chunk@) ==> decode_utf8(chunk@).len() == cnt + decode_utf8(
                chunk@.subrange(i as int, n as int),
            ).len(),
        decreases n - i,
    {
        let ghost suf = chunk@.subrange(i as int, n as int);
        match check_scalar(chunk, i) {
            Some(w) => {
                proof {
                    assert(pop_first_scalar(suf) =~= chunk@.subrange(i + w, n as int));
                    assert(valid_utf8(suf) <==> valid_utf8(chunk@.subrange(i + w, n as int)));
                    if valid_utf8(chunk@) {
                        assert(decode_utf8(suf).len() == 1 + decode_utf8(
                            chunk@.subrange(i + w, n as int),
                        ).len());
                    }
                }
                i = i + w;
                cnt = cnt + 1;
            },
            None => {
                proof {
                    assert(!valid_utf8(suf));
                }
                return 0;
            },
        }
    }
    proof {
        assert(chunk@.subrange(i as int, n as int) =~= Seq::<u8>::empty());
        assert(valid_utf8(chunk@.subrange(i as int, n as int)));
        assert(decode_utf8(chunk@.subrange(i as int, n as int)).len() == 0);
    }
    cnt
}

/// A chunk never contributes more characters than it has bytes.
pub proof fn lemma_chunk_chars_le_len(s: Seq<u8>)
    ensures
        chunk_char_count_spec(s) <= s.len(),
    decreases s.len(),
{
    if valid_utf8(s) && s.len() != 0 {
        lemma_chunk_chars_le_len(pop_first_scalar(s));
    }
}

} // verus!
