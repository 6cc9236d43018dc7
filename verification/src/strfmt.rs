//! Small string utilities: decimal numerals, padding, and string equality.

use vstd::prelude::*;
use vstd::string::*;
use vstd::utf8::*;

verus! {

/// Relies on `alloc::string::String::push`: appends the given character
/// to the end of the string.
pub assume_specification[ String::push ](s: &mut String, ch: char)
    ensures
        final(s)@ == old(s)@ + seq![ch],
;

/// The character for a single decimal digit.
pub open spec fn digit_char(d: nat) -> char
    recommends
        d < 10,
{
    if d == 0 {
        '0'
    } else if d == 1 {
        '1'
    } else if d == 2 {
        '2'
    } else if d == 3 {
        '3'
    } else if d == 4 {
        '4'
    } else if d == 5 {
        '5'
    } else if d == 6 {
        '6'
    } else if d == 7 {
        '7'
    } else if d == 8 {
        '8'
    } else {
        '9'
    }
}

/// The decimal numeral of `n`, most significant digit first, without sign
/// or leading zeros (the numeral of zero is "0").
pub open spec fn dec_digits(n: nat) -> Seq<char>
    decreases n,
{
    if n < 10 {
        seq![digit_char(n)]
    } else {
        dec_digits(n / 10) + seq![digit_char(n % 10)]
    }
}

/// The number of digits in the decimal numeral of `n`.
pub open spec fn dec_len(n: nat) -> nat
    decreases n,
{
    if n < 10 {
        1
    } else {
        1 + dec_len(n / 10)
    }
}

/// A run of `k` space characters.
pub open spec fn spaces(k: nat) -> Seq<char> {
    Seq::new(k, |i: int| ' ')
}

/// The numeral has exactly `dec_len` characters.
pub proof fn lemma_dec_digits_len(n: nat)
    ensures
        dec_digits(n).len() == dec_len(n),
    decreases n,
{
    if n >= 10 {
        lemma_dec_digits_len(n / 10);
    }
}

/// A numeral never contains a newline character.
pub proof fn lemma_dec_digits_no_newline(n: nat, i: int)
    requires
        0 <= i < dec_digits(n).len(),
    ensures
        dec_digits(n)[i] != '\n',
    decreases n,
{
    if n >= 10 {
        if i < dec_digits(n / 10).len() {
            lemma_dec_digits_no_newline(n / 10, i);
        }
    }
}

/// Larger numbers never have shorter numerals.
pub proof fn lemma_dec_len_monotone(a: nat, b: nat)
    requires
        a <= b,
    ensures
        dec_len(a) <= dec_len(b),
    decreases b,
{
    if b >= 10 {
        if a >= 10 {
            assert(a / 10 <= b / 10) by (nonlinear_arith)
                requires a <= b;
            lemma_dec_len_monotone(a / 10, b / 10);
        }
    }
}

fn digit_str(d: usize) -> (r: &'static str)
    requires
        d < 10,
    ensures
        r@ == seq![digit_char(d as nat)],
{
    let r: &'static str = if d == 0 {
        "0"
    } else if d == 1 {
        "1"
    } else if d == 2 {
        "2"
    } else if d == 3 {
        "3"
    } else if d == 4 {
        "4"
    } else if d == 5 {
        "5"
    } else if d == 6 {
        "6"
    } else if d == 7 {
        "7"
    } else if d == 8 {
        "8"
    } else {
        "9"
    };
    proof {
        reveal_strlit("0");
        reveal_strlit("1");
        reveal_strlit("2");
        reveal_strlit("3");
        reveal_strlit("4");
        reveal_strlit("5");
        reveal_strlit("6");
        reveal_strlit("7");
        reveal_strlit("8");
        reveal_strlit("9");
        assert(r@ =~= seq![digit_char(d as nat)]);
    }
    r
}

/// Appends the decimal numeral of `n` to `out`.
pub fn push_decimal(out: &mut String, n: usize)
    ensures
        final(out)@ == old(out)@ + dec_digits(n as nat),
    decreases n,
{
    if n < 10 {
        out.append(digit_str(n));
    } else {
        push_decimal(out, n / 10);
        out.append(digit_str(n % 10));
        proof {
            assert(out@ =~= old(out)@ + dec_digits(n as nat));
        }
    }
}

/// Appends `k` spaces to `out`.
pub fn push_spaces(out: &mut String, k: usize)
    ensures
        final(out)@ == old(out)@ + spaces(k as nat),
{
    let mut j: usize = 0;
    while j < k
        invariant
            j <= k,
            out@ == old(out)@ + spaces(j as nat),
        decreases k - j,
    {
        out.append(" ");
        proof {
            reveal_strlit(" ");
            assert(out@ =~= old(out)@ + spaces((j + 1) as nat));
        }
        j = j + 1;
    }
    proof {
        assert(out@ =~= old(out)@ + spaces(k as nat));
    }
}

/// A numeral has at least one digit.
pub proof fn lemma_dec_len_pos(n: nat)
    ensures
        dec_len(n) >= 1,
{
}

/// For numbers of two or more digits, the digit count is at most the number.
pub proof fn lemma_dec_len_le_self(n: nat)
    requires
        n >= 10,
    ensures
        dec_len(n) <= n,
    decreases n,
{
    assert(n / 10 < n) by (nonlinear_arith)
        requires n >= 10;
    if n / 10 >= 10 {
        lemma_dec_len_le_self(n / 10);
        assert(dec_len(n) == 1 + dec_len(n / 10));
    } else {
        assert(dec_len(n / 10) == 1);
        assert(dec_len(n) == 2);
    }
}

/// The number of decimal digits of `n`, as executable code.
pub fn decimal_len(n: usize) -> (r: usize)
    ensures
        r == dec_len(n as nat),
{
    let mut x: usize = n;
    let mut l: usize = 1;
    while x >= 10
        invariant
            l >= 1,
            x <= n,
            dec_len(n as nat) == dec_len(x as nat) + l - 1,
        decreases x,
    {
        proof {
            lemma_dec_len_le_self(n as nat);
            lemma_dec_len_pos((x / 10) as nat);
        }
        x = x / 10;
        l = l + 1;
    }
    l
}

/// Whether two string slices hold the same characters.
pub fn str_eq(a: &str, b: &str) -> (r: bool)
    ensures
        r == (a@ == b@),
{
    let ab = a.as_bytes();
    let bb = b.as_bytes();
    if ab.len() != bb.len() {
        proof {
            assert(a@ != b@);
        }
        return false;
    }
    let n = ab.len();
    let mut i: usize = 0;
    while i < n
        invariant
            i <= n,
            n == ab@.len() == bb@.len(),
            ab@ == a.spec_bytes(),
            bb@ == b.spec_bytes(),
            forall|j: int| 0 <= j < i ==> ab@[j] == bb@[j],
        decreases n - i,
    {
        if ab[i] != bb[i] {
            proof {
                assert(a.spec_bytes() != b.spec_bytes());
                assert(a@ != b@);
            }
            return false;
        }
        i = i + 1;
    }
    proof {
        assert(a.spec_bytes() =~= b.spec_bytes());
        encode_utf8_decode_utf8(a@);
        encode_utf8_decode_utf8(b@);
        assert(a@ == b@);
    }
    true
}

} // verus!
