//! Rendering outcomes as aligned text rows with an optional total row.

use vstd::prelude::*;
use vstd::string::*;
use crate::counter::{Counts, Flags};
use crate::strfmt::{
    dec_digits, dec_len, decimal_len, lemma_dec_len_monotone, lemma_dec_digits_no_newline,
    push_decimal, push_spaces, spaces,
};

verus! {

/// The smallest column width used for a numeric field.
pub const MIN_WIDTH: usize = 7;

/// Outcome of processing one input path: its counts, or the message of the
/// failure that prevented counting.
#[derive(Debug, PartialEq, Eq)]
pub enum FileResult {
    Success(String, Counts),
    Failure(String, String),
}

pub open spec fn nat_max(a: nat, b: nat) -> nat {
    if a >= b {
        a
    } else {
        b
    }
}

/// The counts of a successful outcome.
pub open spec fn counts_of(r: FileResult) -> Counts
    recommends
        r is Success,
{
    match r {
        FileResult::Success(_, c) => c,
        FileResult::Failure(_, _) => Counts { lines: 0, words: 0, bytes: 0, chars: 0 },
    }
}

/// Field-wise sums of the counts of all successful outcomes, as
/// (lines, words, bytes, chars).
pub open spec fn totals(rs: Seq<FileResult>) -> (nat, nat, nat, nat)
    decreases rs.len(),
{
    if rs.len() == 0 {
        (0, 0, 0, 0)
    } else {
        let t = totals(rs.drop_last());
        match rs.last() {
            FileResult::Success(_, c) => (
                (t.0 + c.lines) as nat,
                (t.1 + c.words) as nat,
                (t.2 + c.bytes) as nat,
                (t.3 + c.chars) as nat,
            ),
            FileResult::Failure(_, _) => t,
        }
    }
}

/// Field-wise maxima of the counts of all successful outcomes, as
/// (lines, words, bytes, chars).
pub open spec fn maxima(rs: Seq<FileResult>) -> (nat, nat, nat, nat)
    decreases rs.len(),
{
    if rs.len() == 0 {
        (0, 0, 0, 0)
    } else {
        let m = maxima(rs.drop_last());
        match rs.last() {
            FileResult::Success(_, c) => (
                nat_max(m.0, c.lines as nat),
                nat_max(m.1, c.words as nat),
                nat_max(m.2, c.bytes as nat),
                nat_max(m.3, c.chars as nat),
            ),
            FileResult::Failure(_, _) => m,
        }
    }
}

/// The column width for a field whose largest value is `m`: wide enough for
/// its numeral, but never below the fixed minimum.
pub open spec fn width_of(m: nat) -> nat {
    nat_max(dec_len(m), MIN_WIDTH as nat)
}

/// The four column widths of a multi-file rendering.
pub open spec fn widths(rs: Seq<FileResult>) -> (nat, nat, nat, nat) {
    (
        width_of(maxima(rs).0),
        width_of(maxima(rs).1),
        width_of(maxima(rs).2),
        width_of(maxima(rs).3),
    )
}

/// One numeric field: the numeral of `n` right-justified to `w` columns,
/// followed by a single space.
pub open spec fn field(n: nat, w: nat) -> Seq<char> {
    if dec_len(n) < w {
        spaces((w - dec_len(n)) as nat) + dec_digits(n) + seq![' ']
    } else {
        dec_digits(n) + seq![' ']
    }
}

/// The enabled numeric fields of one row, in the fixed order
/// lines, words, bytes, chars.
pub open spec fn fields4(
    ln: nat,
    wd: nat,
    by: nat,
    ch: nat,
    flags: Flags,
    ws: (nat, nat, nat, nat),
) -> Seq<char> {
    (if flags.lines {
        field(ln, ws.0)
    } else {
        Seq::<char>::empty()
    }) + (if flags.words {
        field(wd, ws.1)
    } else {
        Seq::<char>::empty()
    }) + (if flags.bytes {
        field(by, ws.2)
    } else {
        Seq::<char>::empty()
    }) + (if flags.chars {
        field(ch, ws.3)
    } else {
        Seq::<char>::empty()
    })
}

/// The row for a failed path.
pub open spec fn error_row(path: Seq<char>, msg: Seq<char>) -> Seq<char> {
    "rswc: "@ + path + ": "@ + msg + " \n"@
}

/// The row for one outcome.
pub open spec fn outcome_row(r: FileResult, flags: Flags, ws: (nat, nat, nat, nat)) -> Seq<char> {
    match r {
        FileResult::Success(path, c) => fields4(
            c.lines as nat,
            c.words as nat,
            c.bytes as nat,
            c.chars as nat,
            flags,
            ws,
        ) + path@ + "\n"@,
        FileResult::Failure(path, msg) => error_row(path@, msg@),
    }
}

/// The rows of all outcomes, in input order.
pub open spec fn outcome_rows(
    rs: Seq<FileResult>,
    flags: Flags,
    ws: (nat, nat, nat, nat),
) -> Seq<char>
    decreases rs.len(),
{
    if rs.len() == 0 {
        Seq::<char>::empty()
    } else {
        outcome_rows(rs.drop_last(), flags, ws) + outcome_row(rs.last(), flags, ws)
    }
}

/// The total row: the field-wise sums of all successful outcomes, in the
/// same columns, labelled "total".
pub open spec fn total_row(rs: Seq<FileResult>, flags: Flags, ws: (nat, nat, nat, nat)) -> Seq<
    char,
> {
    fields4(totals(rs).0, totals(rs).1, totals(rs).2, totals(rs).3, flags, ws) + "total\n"@
}

/// The complete multi-file rendering: one row per outcome in input order,
/// and a total row exactly when more than one outcome was processed.
pub open spec fn files_output(rs: Seq<FileResult>, flags: Flags) -> Seq<char> {
    outcome_rows(rs, flags, widths(rs)) + (if rs.len() > 1 {
        total_row(rs, flags, widths(rs))
    } else {
        Seq::<char>::empty()
    })
}

/// The rendering of a single stream read from standard input: each enabled
/// field is justified to its own numeral's width, the label is "-", and
/// there is never a total row.
pub open spec fn stdin_output(c: Counts, flags: Flags) -> Seq<char> {
    fields4(
        c.lines as nat,
        c.words as nat,
        c.bytes as nat,
        c.chars as nat,
        flags,
        (
            width_of(c.lines as nat),
            width_of(c.words as nat),
            width_of(c.bytes as nat),
            width_of(c.chars as nat),
        ),
    ) + "-\n"@
}

/// The column width for a field whose largest value is `m`.
fn field_width(m: usize) -> (w: usize)
    ensures
        w as nat == width_of(m as nat),
{
    let d = decimal_len(m);
    if d < MIN_WIDTH {
        MIN_WIDTH
    } else {
        d
    }
}

/// Appends one right-justified numeric field and its trailing space.
fn push_field(out: &mut String, n: usize, w: usize)
    ensures
        final(out)@ == old(out)@ + field(n as nat, w as nat),
{
    let d = decimal_len(n);
    if d < w {
        push_spaces(out, w - d);
    }
    push_decimal(out, n);
    out.append(" ");
    proof {
        reveal_strlit(" ");
        assert(" "@ =~= seq![' ']);
        assert(out@ =~= old(out)@ + field(n as nat, w as nat));
    }
}

/// Appends the enabled fields of one row.
fn push_fields4(
    out: &mut String,
    ln: usize,
    wd: usize,
    by: usize,
    ch: usize,
    flags: &Flags,
    wl: usize,
    ww: usize,
    wb: usize,
    wc: usize,
)
    ensures
        final(out)@ == old(out)@ + fields4(
            ln as nat,
            wd as nat,
            by as nat,
            ch as nat,
            *flags,
            (wl as nat, ww as nat, wb as nat, wc as nat),
        ),
{
    let ghost p1 = if flags.lines { field(ln as nat, wl as nat) } else { Seq::<char>::empty() };
    let ghost p2 = if flags.words { field(wd as nat, ww as nat) } else { Seq::<char>::empty() };
    let ghost p3 = if flags.bytes { field(by as nat, wb as nat) } else { Seq::<char>::empty() };
    let ghost p4 = if flags.chars { field(ch as nat, wc as nat) } else { Seq::<char>::empty() };
    if flags.lines {
        push_field(out, ln, wl);
    }
    proof {
        assert(out@ =~= old(out)@ + p1);
    }
    if flags.words {
        push_field(out, wd, ww);
    }
    proof {
        assert(out@ =~= old(out)@ + p1 + p2);
    }
    if flags.bytes {
        push_field(out, by, wb);
    }
    proof {
        assert(out@ =~= old(out)@ + p1 + p2 + p3);
    }
    if flags.chars {
        push_field(out, ch, wc);
    }
    proof {
        assert(out@ =~= old(out)@ + p1 + p2 + p3 + p4);
        assert(fields4(
            ln as nat,
            wd as nat,
            by as nat,
            ch as nat,
            *flags,
            (wl as nat, ww as nat, wb as nat, wc as nat),
        ) == p1 + p2 + p3 + p4);
        assert(old(out)@ + p1 + p2 + p3 + p4 =~= old(out)@ + (p1 + p2 + p3 + p4));
    }
}

/// Totals over a prefix never exceed the totals over the whole list.
proof fn lemma_totals_prefix_le(rs: Seq<FileResult>, i: int)
    requires
        0 <= i <= rs.len(),
    ensures
        totals(rs.subrange(0, i)).0 <= totals(rs).0,
        totals(rs.subrange(0, i)).1 <= totals(rs).1,
        totals(rs.subrange(0, i)).2 <= totals(rs).2,
        totals(rs.subrange(0, i)).3 <= totals(rs).3,
    decreases rs.len() - i,
{
    if i == rs.len() {
        assert(rs.subrange(0, i) =~= rs);
    } else {
        lemma_totals_prefix_le(rs, i + 1);
        assert(rs.subrange(0, i + 1).drop_last() =~= rs.subrange(0, i));
        assert(rs.subrange(0, i + 1).last() == rs[i]);
    }
}

/// Renders the outcomes of a multi-file run, one row per path in input
/// order, followed by a total row when more than one path was processed.
pub fn print_files_results(results: &Vec<FileResult>, flags: &Flags) -> (out: String)
    requires
        totals(results@).0 <= usize::MAX,
        totals(results@).1 <= usize::MAX,
        totals(results@).2 <= usize::MAX,
        totals(results@).3 <= usize::MAX,
    ensures
        out@ == files_output(results@, *flags),
{
    let n = results.len();
    let mut max_l: usize = 0;
    let mut max_w: usize = 0;
    let mut max_b: usize = 0;
    let mut max_c: usize = 0;
    let mut tot_l: usize = 0;
    let mut tot_w: usize = 0;
    let mut tot_b: usize = 0;
    let mut tot_c: usize = 0;
    let mut i: usize = 0;
    proof {
        assert(results@.subrange(0, 0) =~= Seq::<FileResult>::empty());
    }
    while i < n
        invariant
            i <= n,
            n == results@.len(),
            totals(results@).0 <= usize::MAX,
            totals(results@).1 <= usize::MAX,
            totals(results@).2 <= usize::MAX,
            totals(results@).3 <= usize::MAX,
            maxima(results@.subrange(0, i as int)) == (
                max_l as nat,
                max_w as nat,
                max_b as nat,
                max_c as nat,
            ),
            totals(results@.subrange(0, i as int)) == (
                tot_l as nat,
                tot_w as nat,
                tot_b as nat,
                tot_c as nat,
            ),
        decreases n - i,
    {
        proof {
            assert(results@.subrange(0, i as int + 1).drop_last() =~= results@.subrange(
                0,
                i as int,
            ));
            assert(results@.subrange(0, i as int + 1).last() == results@[i as int]);
            lemma_totals_prefix_le(results@, i as int + 1);
        }
        let r = &results[i];
        match r {
            FileResult::Success(_, c) => {
                if c.lines > max_l {
                    max_l = c.lines;
                }
                if c.words > max_w {
                    max_w = c.words;
                }
                if c.bytes > max_b {
                    max_b = c.bytes;
                }
                if c.chars > max_c {
                    max_c = c.chars;
                }
                tot_l = tot_l + c.lines;
                tot_w = tot_w + c.words;
                tot_b = tot_b + c.bytes;
                tot_c = tot_c + c.chars;
            },
            FileResult::Failure(_, _) => {},
        }
        i = i + 1;
    }
    proof {
        assert(results@.subrange(0, n as int) =~= results@);
    }
    let wl = field_width(max_l);
    let ww = field_width(max_w);
    let wb = field_width(max_b);
    let wc = field_width(max_c);
    let ghost ws = widths(results@);
    proof {
        assert(ws == (wl as nat, ww as nat, wb as nat, wc as nat));
    }
    let mut out = String::new();
    let mut j: usize = 0;
    proof {
        assert(results@.subrange(0, 0) =~= Seq::<FileResult>::empty());
        assert(out@ =~= outcome_rows(results@.subrange(0, 0), *flags, ws));
    }
    while j < n
        invariant
            j <= n,
            n == results@.len(),
            ws == (wl as nat, ww as nat, wb as nat, wc as nat),
            out@ == outcome_rows(results@.subrange(0, j as int), *flags, ws),
        decreases n - j,
    {
        let ghost prefix = results@.subrange(0, j as int);
        proof {
            assert(results@.subrange(0, j as int + 1).drop_last() =~= prefix);
            assert(results@.subrange(0, j as int + 1).last() == results@[j as int]);
        }
        let r = &results[j];
        match r {
            FileResult::Failure(path, msg) => {
                out.append("rswc: ");
                out.append(path.as_str());
                out.append(": ");
                out.append(msg.as_str());
                out.append(" \n");
            },
            FileResult::Success(path, c) => {
                push_fields4(&mut out, c.lines, c.words, c.bytes, c.chars, flags, wl, ww, wb, wc);
                out.append(path.as_str());
                out.append("\n");
            },
        }
        proof {
            assert(out@ =~= outcome_rows(results@.subrange(0, j as int + 1), *flags, ws));
        }
        j = j + 1;
    }
    proof {
        assert(results@.subrange(0, n as int) =~= results@);
    }
    if n > 1 {
        push_fields4(&mut out, tot_l, tot_w, tot_b, tot_c, flags, wl, ww, wb, wc);
        out.append("total\n");
        proof {
            assert(out@ =~= files_output(results@, *flags));
        }
    } else {
        proof {
            assert(out@ =~= files_output(results@, *flags));
        }
    }
    out
}

/// Renders the counts of a stream read from standard input as one row
/// labelled "-".
pub fn print_stdin_results(counts: &Counts, flags: &Flags) -> (out: String)
    ensures
        out@ == stdin_output(*counts, *flags),
{
    let wl = field_width(counts.lines);
    let ww = field_width(counts.words);
    let wb = field_width(counts.bytes);
    let wc = field_width(counts.chars);
    let mut out = String::new();
    push_fields4(&mut out, counts.lines, counts.words, counts.bytes, counts.chars, flags, wl, ww, wb, wc);
    out.append("-\n");
    proof {
        assert(out@ =~= stdin_output(*counts, *flags));
    }
    out
}


/// The number of occurrences of a character in a sequence.
pub open spec fn occurrences(s: Seq<char>, c: char) -> nat
    decreases s.len(),
{
    if s.len() == 0 {
        0
    } else {
        occurrences(s.drop_last(), c) + (if s.last() == c {
            1nat
        } else {
            0nat
        })
    }
}

proof fn lemma_occurrences_concat(a: Seq<char>, b: Seq<char>, c: char)
    ensures
        occurrences(a + b, c) == occurrences(a, c) + occurrences(b, c),
    decreases b.len(),
{
    if b.len() == 0 {
        assert(a + b =~= a);
    } else {
        lemma_occurrences_concat(a, b.drop_last(), c);
        assert((a + b).drop_last() =~= a + b.drop_last());
        assert((a + b).last() == b.last());
    }
}

proof fn lemma_no_newline_occurrences(s: Seq<char>)
    requires
        forall|i: int| 0 <= i < s.len() ==> s[i] != '\n',
    ensures
        occurrences(s, '\n') == 0,
    decreases s.len(),
{
    if s.len() != 0 {
        assert(forall|i: int| 0 <= i < s.drop_last().len() ==> s.drop_last()[i] == s[i]);
        lemma_no_newline_occurrences(s.drop_last());
    }
}

proof fn lemma_field_no_newline(n: nat, w: nat)
    ensures
        occurrences(field(n, w), '\n') == 0,
{
    assert forall|i: int| 0 <= i < dec_digits(n).len() implies dec_digits(n)[i] != '\n' by {
        lemma_dec_digits_no_newline(n, i);
    }
    lemma_no_newline_occurrences(dec_digits(n));
    assert(occurrences(seq![' '], '\n') == 0) by {
        assert(occurrences(Seq::<char>::empty(), '\n') == 0);
        assert(seq![' '].drop_last() =~= Seq::<char>::empty());
        assert(seq![' '].last() == ' ');
    }
    if dec_len(n) < w {
        let k = (w - dec_len(n)) as nat;
        lemma_no_newline_occurrences(spaces(k));
        lemma_occurrences_concat(spaces(k), dec_digits(n), '\n');
        lemma_occurrences_concat(spaces(k) + dec_digits(n), seq![' '], '\n');
    } else {
        lemma_occurrences_concat(dec_digits(n), seq![' '], '\n');
    }
}

proof fn lemma_fields4_no_newline(
    ln: nat,
    wd: nat,
    by: nat,
    ch: nat,
    flags: Flags,
    ws: (nat, nat, nat, nat),
)
    ensures
        occurrences(fields4(ln, wd, by, ch, flags, ws), '\n') == 0,
{
    let p1 = if flags.lines { field(ln, ws.0) } else { Seq::<char>::empty() };
    let p2 = if flags.words { field(wd, ws.1) } else { Seq::<char>::empty() };
    let p3 = if flags.bytes { field(by, ws.2) } else { Seq::<char>::empty() };
    let p4 = if flags.chars { field(ch, ws.3) } else { Seq::<char>::empty() };
    lemma_field_no_newline(ln, ws.0);
    lemma_field_no_newline(wd, ws.1);
    lemma_field_no_newline(by, ws.2);
    lemma_field_no_newline(ch, ws.3);
    lemma_occurrences_concat(p1, p2, '\n');
    lemma_occurrences_concat(p1 + p2, p3, '\n');
    lemma_occurrences_concat(p1 + p2 + p3, p4, '\n');
}

/// Law: the field-wise maxima dominate the counts of every successful
/// outcome in the list.
pub proof fn lemma_maxima_ge(rs: Seq<FileResult>, i: int)
    requires
        0 <= i < rs.len(),
        rs[i] is Success,
    ensures
        maxima(rs).0 >= counts_of(rs[i]).lines,
        maxima(rs).1 >= counts_of(rs[i]).words,
        maxima(rs).2 >= counts_of(rs[i]).bytes,
        maxima(rs).3 >= counts_of(rs[i]).chars,
    decreases rs.len(),
{
    if i < rs.len() - 1 {
        assert(rs.drop_last()[i] == rs[i]);
        lemma_maxima_ge(rs.drop_last(), i);
    }
}

/// Law: an enabled column is never narrower than the fixed minimum width,
/// and always wide enough for the numeral of every successful outcome's
/// value in that column.
pub proof fn lemma_column_widths_fit(rs: Seq<FileResult>, i: int)
    requires
        0 <= i < rs.len(),
        rs[i] is Success,
    ensures
        widths(rs).0 >= MIN_WIDTH && widths(rs).1 >= MIN_WIDTH && widths(rs).2 >= MIN_WIDTH
            && widths(rs).3 >= MIN_WIDTH,
        widths(rs).0 >= dec_len(counts_of(rs[i]).lines as nat),
        widths(rs).1 >= dec_len(counts_of(rs[i]).words as nat),
        widths(rs).2 >= dec_len(counts_of(rs[i]).bytes as nat),
        widths(rs).3 >= dec_len(counts_of(rs[i]).chars as nat),
{
    lemma_maxima_ge(rs, i);
    lemma_dec_len_monotone(counts_of(rs[i]).lines as nat, maxima(rs).0);
    lemma_dec_len_monotone(counts_of(rs[i]).words as nat, maxima(rs).1);
    lemma_dec_len_monotone(counts_of(rs[i]).bytes as nat, maxima(rs).2);
    lemma_dec_len_monotone(counts_of(rs[i]).chars as nat, maxima(rs).3);
}

/// Law: a failed outcome contributes nothing to the field-wise totals;
/// removing it from the list leaves every total unchanged.
pub proof fn lemma_failure_contributes_nothing(rs: Seq<FileResult>, i: int)
    requires
        0 <= i < rs.len(),
        rs[i] is Failure,
    ensures
        totals(rs) == totals(rs.remove(i)),
    decreases rs.len(),
{
    if i == rs.len() - 1 {
        assert(rs.remove(i) =~= rs.drop_last());
    } else {
        assert(rs.drop_last()[i] == rs[i]);
        lemma_failure_contributes_nothing(rs.drop_last(), i);
        assert(rs.remove(i).drop_last() =~= rs.drop_last().remove(i));
        assert(rs.remove(i).last() == rs.last());
    }
}

/// Law: rendering exactly one outcome emits that outcome's row alone, with
/// no total row after it.
pub proof fn lemma_single_outcome_no_total(rs: Seq<FileResult>, flags: Flags)
    requires
        rs.len() == 1,
    ensures
        files_output(rs, flags) == outcome_row(rs[0], flags, widths(rs)),
{
    assert(rs.drop_last() =~= Seq::<FileResult>::empty());
    assert(outcome_rows(rs.drop_last(), flags, widths(rs)) == Seq::<char>::empty());
    assert(rs.last() == rs[0]);
    assert(files_output(rs, flags) =~= outcome_row(rs[0], flags, widths(rs)));
}

/// Law: the stdin rendering is one single row: it contains exactly one
/// newline, which is its final character, so it can hold no total row.
pub proof fn lemma_stdin_single_row(c: Counts, flags: Flags)
    ensures
        occurrences(stdin_output(c, flags), '\n') == 1,
        stdin_output(c, flags).len() > 0,
        stdin_output(c, flags).last() == '\n',
{
    let ws = (
        width_of(c.lines as nat),
        width_of(c.words as nat),
        width_of(c.bytes as nat),
        width_of(c.chars as nat),
    );
    let fs = fields4(c.lines as nat, c.words as nat, c.bytes as nat, c.chars as nat, flags, ws);
    lemma_fields4_no_newline(c.lines as nat, c.words as nat, c.bytes as nat, c.chars as nat, flags, ws);
    reveal_strlit("-\n");
    assert(occurrences("-\n"@, '\n') == 1) by {
        assert(occurrences(Seq::<char>::empty(), '\n') == 0);
        assert(seq!['-'].drop_last() =~= Seq::<char>::empty());
        assert(seq!['-'].last() == '-');
        assert(occurrences(seq!['-'], '\n') == 0);
        assert("-\n"@.len() == 2);
        assert("-\n"@.drop_last() =~= seq!['-']);
        assert("-\n"@.last() == '\n');
    }
    lemma_occurrences_concat(fs, "-\n"@, '\n');
    assert(stdin_output(c, flags).last() == '\n');
}

} // verus!
