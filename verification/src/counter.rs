//! The streaming counting engine: lines, words, bytes and characters.

use vstd::prelude::*;
use crate::utf8count::{chunk_char_count, chunk_char_count_spec};

verus! {

/// Aggregate counts for one byte stream.
#[derive(Clone, Copy, Debug, PartialEq, Eq, Structural)]
pub struct Counts {
    pub lines: usize,
    pub words: usize,
    pub bytes: usize,
    pub chars: usize,
}

/// Which counts are computed and printed.
#[derive(Clone, Copy, Debug, PartialEq, Eq, Structural)]
pub struct Flags {
    pub lines: bool,
    pub words: bool,
    pub bytes: bool,
    pub chars: bool,
}

/// The fixed ASCII whitespace set that separates words: space, tab,
/// newline, vertical tab, form feed and carriage return.
pub open spec fn is_word_separator(b: u8) -> bool {
    b == 32 || b == 9 || b == 10 || b == 11 || b == 12 || b == 13
}

/// The number of newline bytes in the sequence.
pub open spec fn newline_count(s: Seq<u8>) -> nat
    decreases s.len(),
{
    if s.len() == 0 {
        0
    } else {
        newline_count(s.drop_last()) + (if s.last() == 10 {
            1nat
        } else {
            0nat
        })
    }
}

/// Whether a left-to-right scan of the sequence ends inside a word, that is,
/// whether the sequence is nonempty and its last byte is not whitespace.
pub open spec fn ends_in_word(s: Seq<u8>) -> bool {
    s.len() > 0 && !is_word_separator(s.last())
}

/// The number of maximal runs of non-whitespace bytes in the sequence.
pub open spec fn word_count(s: Seq<u8>) -> nat
    decreases s.len(),
{
    if s.len() == 0 {
        0
    } else {
        word_count(s.drop_last()) + (if !is_word_separator(s.last()) && !ends_in_word(
            s.drop_last(),
        ) {
            1nat
        } else {
            0nat
        })
    }
}

/// Consumes a byte stream in chunks and accumulates its counts.
///
/// The ghost field `data` records every byte consumed so far; the line,
/// word and byte counters are functions of `data` alone, so they do not
/// depend on how the stream was cut into chunks. The character counter is
/// accumulated per chunk, because an invalid chunk contributes zero.
pub struct StreamCounter {
    pub counts: Counts,
    pub in_word: bool,
    pub flags: Flags,
    pub data: Ghost<Seq<u8>>,
}

impl StreamCounter {
    /// The counter's state is exactly what a single left-to-right scan of
    /// the consumed bytes produces.
    pub open spec fn well_formed(self) -> bool {
        &&& self.counts.bytes == self.data@.len()
        &&& self.counts.lines == newline_count(self.data@)
        &&& self.counts.words == word_count(self.data@)
        &&& self.in_word == ends_in_word(self.data@)
        &&& self.counts.chars <= self.counts.bytes
        &&& !self.flags.chars ==> self.counts.chars == 0
    }

    /// A fresh counter that has consumed nothing.
    pub fn new(flags: Flags) -> (c: StreamCounter)
        ensures
            c.well_formed(),
            c.data@ == Seq::<u8>::empty(),
            c.flags == flags,
            c.counts == (Counts { lines: 0, words: 0, bytes: 0, chars: 0 }),
    {
        StreamCounter {
            counts: Counts { lines: 0, words: 0, bytes: 0, chars: 0 },
            in_word: false,
            flags,
            data: Ghost(Seq::empty()),
        }
    }

    /// Consumes the next chunk of the stream.
    ///
    /// Bytes, lines and words afterwards are the scan results for the whole
    /// stream consumed so far, wherever the chunk boundaries fall. The
    /// character count grows by the chunk's own contribution when character
    /// counting is enabled, and stays zero otherwise.
    pub fn push_chunk(&mut self, chunk: &[u8])
        requires
            old(self).well_formed(),
            old(self).counts.bytes + chunk@.len() <= usize::MAX,
        ensures
            final(self).well_formed(),
            final(self).data@ == old(self).data@ + chunk@,
            final(self).flags == old(self).flags,
            final(self).counts.chars == old(self).counts.chars + (if old(self).flags.chars {
                chunk_char_count_spec(chunk@)
            } else {
                0
            }),
    {
        let ghost prior = self.data@;
        let n = chunk.len();
        self.counts.bytes = self.counts.bytes + n;
        let mut i: usize = 0;
        while i < n
            invariant
                i <= n,
                n == chunk@.len(),
                prior.len() + n <= usize::MAX,
                self.counts.bytes == prior.len() + n,
                self.counts.lines == newline_count(prior + chunk@.subrange(0, i as int)),
                self.counts.words == word_count(prior + chunk@.subrange(0, i as int)),
                self.in_word == ends_in_word(prior + chunk@.subrange(0, i as int)),
                self.counts.chars == old(self).counts.chars,
                self.flags == old(self).flags,
                self.data@ == prior,
            decreases n - i,
        {
            let ghost cur = prior + chunk@.subrange(0, i as int);
            let ghost cur2 = prior + chunk@.subrange(0, i as int + 1);
            let b = chunk[i];
            proof {
                assert(cur2 =~= cur.push(b));
                assert(cur.push(b).drop_last() =~= cur);
                assert(cur.push(b).last() == b);
                lemma_newline_count_le_len(cur);
                lemma_word_count_le_len(cur);
                assert(cur.len() == prior.len() + i);
            }
            if b == 10 {
                self.counts.lines = self.counts.lines + 1;
            }
            if b == 32 || b == 9 || b == 10 || b == 11 || b == 12 || b == 13 {
                self.in_word = false;
            } else if !self.in_word {
                self.counts.words = self.counts.words + 1;
                self.in_word = true;
            }
            proof {
                assert(self.counts.lines == newline_count(cur2));
                assert(self.counts.words == word_count(cur2));
                assert(self.in_word == ends_in_word(cur2));
            }
            i = i + 1;
        }
        proof {
            assert(prior + chunk@.subrange(0, n as int) =~= prior + chunk@);
        }
        if self.flags.chars {
            let k = chunk_char_count(chunk);
            self.counts.chars = self.counts.chars + k;
        }
        self.data = Ghost(prior + chunk@);
    }

    /// The counts accumulated so far.
    pub fn counts(&self) -> (c: Counts)
        ensures
            c == self.counts,
    {
        self.counts
    }
}

/// There cannot be more newlines in a sequence than bytes.
pub proof fn lemma_newline_count_le_len(s: Seq<u8>)
    ensures
        newline_count(s) <= s.len(),
    decreases s.len(),
{
    if s.len() != 0 {
        lemma_newline_count_le_len(s.drop_last());
    }
}

/// There cannot be more words in a sequence than bytes.
pub proof fn lemma_word_count_le_len(s: Seq<u8>)
    ensures
        word_count(s) <= s.len(),
    decreases s.len(),
{
    if s.len() != 0 {
        lemma_word_count_le_len(s.drop_last());
    }
}

/// Law: the byte count of a counter is exactly the length of the stream it
/// has consumed.
pub proof fn lemma_bytes_is_stream_length(c: StreamCounter)
    requires
        c.well_formed(),
    ensures
        c.counts.bytes == c.data@.len(),
{
}

/// Law: the line count of a counter is exactly the number of newline bytes
/// in the stream it has consumed.
pub proof fn lemma_lines_is_newline_count(c: StreamCounter)
    requires
        c.well_formed(),
    ensures
        c.counts.lines == newline_count(c.data@),
{
}

/// Law: two counters that consumed the same bytes agree on the line, word
/// and byte counts, no matter how differently the stream was cut into
/// chunks on the way in.
pub proof fn lemma_counts_independent_of_chunking(c1: StreamCounter, c2: StreamCounter)
    requires
        c1.well_formed(),
        c2.well_formed(),
        c1.data@ == c2.data@,
    ensures
        c1.counts.lines == c2.counts.lines,
        c1.counts.words == c2.counts.words,
        c1.counts.bytes == c2.counts.bytes,
{
}

/// Law: the word and line counts never exceed the byte count.
pub proof fn lemma_counts_bounded(c: StreamCounter)
    requires
        c.well_formed(),
    ensures
        c.counts.words <= c.counts.bytes,
        c.counts.lines <= c.counts.bytes,
        c.counts.chars <= c.counts.bytes,
{
    lemma_newline_count_le_len(c.data@);
    lemma_word_count_le_len(c.data@);
}

} // verus!
