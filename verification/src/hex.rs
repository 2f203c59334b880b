//! Lowercase hexadecimal rendering of machine words.

use vstd::arithmetic::power::*;
use vstd::prelude::*;
use vstd::string::*;

verus! {

/// The sixteen lowercase hexadecimal digits, in order of value.
pub open spec fn hex_alphabet() -> Seq<char> {
    seq!['0', '1', '2', '3', '4', '5', '6', '7', '8', '9', 'a', 'b', 'c', 'd', 'e', 'f']
}

/// The digit that stands for `d`.
pub open spec fn hex_char(d: int) -> char
    recommends
        0 <= d < 16,
{
    hex_alphabet()[d]
}

/// Whether `c` is one of the sixteen lowercase hexadecimal digits.
pub open spec fn is_hex_char(c: char) -> bool {
    exists|d: int| 0 <= d < 16 && c == #[trigger] hex_char(d)
}

/// The value of a digit; zero for any other character.
pub open spec fn digit_value(c: char) -> nat {
    if '0' <= c <= '9' {
        (c as u32 - '0' as u32) as nat
    } else if 'a' <= c <= 'f' {
        (c as u32 - 'a' as u32 + 10) as nat
    } else {
        0
    }
}

/// The shortest hexadecimal numeral of `n`, most significant digit first.
pub open spec fn hex_digits(n: nat) -> Seq<char>
    decreases n,
{
    if n < 16 {
        seq![hex_char(n as int)]
    } else {
        hex_digits(n / 16).push(hex_char((n % 16) as int))
    }
}

/// The number that a numeral denotes, read most significant digit first.
pub open spec fn hex_value(s: Seq<char>) -> nat
    decreases s.len(),
{
    if s.len() == 0 {
        0
    } else {
        hex_value(s.drop_last()) * 16 + digit_value(s.last())
    }
}

/// `count` zeros.
pub open spec fn zeros(count: nat) -> Seq<char> {
    Seq::new(count, |i: int| '0')
}

/// `s` with zeros in front of it until it is `width` long; `s` itself where
/// it is that long already.
pub open spec fn zero_padded(s: Seq<char>, width: nat) -> Seq<char> {
    if s.len() >= width {
        s
    } else {
        zeros((width - s.len()) as nat) + s
    }
}

/// The numeral of `n`, padded with zeros to at least `width` digits.
pub open spec fn hex_padded(n: nat, width: nat) -> Seq<char> {
    zero_padded(hex_digits(n), width)
}

/// Every digit of the alphabet has its own value.
pub proof fn lemma_digit_value(d: int)
    requires
        0 <= d < 16,
    ensures
        digit_value(hex_char(d)) == d,
        is_hex_char(hex_char(d)),
{
}

/// A numeral is never empty and holds digits only.
pub proof fn lemma_hex_digits_chars(n: nat)
    ensures
        hex_digits(n).len() >= 1,
        forall|i: int| 0 <= i < hex_digits(n).len() ==> is_hex_char(#[trigger] hex_digits(n)[i]),
    decreases n,
{
    if n < 16 {
        lemma_digit_value(n as int);
    } else {
        lemma_hex_digits_chars(n / 16);
        lemma_digit_value((n % 16) as int);
    }
}

/// A numeral denotes the number it was made from.
pub proof fn lemma_hex_value_of_digits(n: nat)
    ensures
        hex_value(hex_digits(n)) == n,
    decreases n,
{
    if n < 16 {
        lemma_digit_value(n as int);
        assert(hex_value(hex_digits(n).drop_last()) == 0);
    } else {
        let s = hex_digits(n);
        lemma_hex_value_of_digits(n / 16);
        lemma_digit_value((n % 16) as int);
        assert(s.drop_last() =~= hex_digits(n / 16));
    }
}

/// A numeral has at most `k` digits exactly when the number is below the
/// `k`-th power of sixteen.
pub proof fn lemma_hex_digits_len(n: nat, k: nat)
    requires
        k >= 1,
    ensures
        hex_digits(n).len() <= k <==> n < pow(16, k),
    decreases k,
{
    reveal(pow);
    assert(pow(16, 1) == 16) by {
        assert(pow(16, 0) == 1);
    }
    if k == 1 {
        if n >= 16 {
            lemma_hex_digits_chars(n / 16);
        }
    } else {
        lemma_pow_positive(16, (k - 1) as nat);
        if n >= 16 {
            lemma_hex_digits_len(n / 16, (k - 1) as nat);
        }
    }
}

/// Padding in front of a numeral leaves the number it denotes as it is.
pub proof fn lemma_hex_value_of_padded(s: Seq<char>, width: nat)
    ensures
        hex_value(zero_padded(s, width)) == hex_value(s),
        zero_padded(s, width).len() == if s.len() >= width { s.len() } else { width },
    decreases s.len(),
{
    if s.len() < width {
        let pad = zeros((width - s.len()) as nat);
        if s.len() == 0 {
            lemma_hex_value_of_zeros(pad.len());
        } else {
            lemma_hex_value_of_padded(s.drop_last(), (width - 1) as nat);
            assert((pad + s).drop_last() =~= pad + s.drop_last());
        }
    }
}

/// A run of zeros denotes zero.
pub proof fn lemma_hex_value_of_zeros(count: nat)
    ensures
        hex_value(zeros(count)) == 0,
    decreases count,
{
    if count > 0 {
        lemma_hex_value_of_zeros((count - 1) as nat);
        assert(zeros(count).drop_last() =~= zeros((count - 1) as nat));
    }
}

/// A padded numeral holds digits only, and is exactly as wide as asked
/// unless the number needs more.
pub proof fn lemma_hex_padded_shape(n: nat, width: nat)
    requires
        width >= 1,
    ensures
        hex_padded(n, width).len() >= width,
        hex_padded(n, width).len() == width <==> n < pow(16, width),
        forall|i: int|
            0 <= i < hex_padded(n, width).len() ==> is_hex_char(#[trigger] hex_padded(n, width)[i]),
{
    lemma_hex_digits_chars(n);
    lemma_hex_digits_len(n, width);
    lemma_hex_value_of_padded(hex_digits(n), width);
    lemma_digit_value(0);
}

/// The text of one digit.
fn digit_str(d: usize) -> (s: &'static str)
    requires
        d < 16,
    ensures
        s@ == seq![hex_char(d as int)],
{
    proof {
        reveal_strlit("0");
        reveal_strlit("1");
        reveal_strlit("2");
        reveal_strlit("3");
        reveal_strlit("4");
        reveal_strlit("5");
        reveal_strlit("6");
        reveal_strlit("7");
        reveal_strlit("8");
        reveal_strlit("9");
        reveal_strlit("a");
        reveal_strlit("b");
        reveal_strlit("c");
        reveal_strlit("d");
        reveal_strlit("e");
        reveal_strlit("f");
    }
    let s = match d {
        0 => "0",
        1 => "1",
        2 => "2",
        3 => "3",
        4 => "4",
        5 => "5",
        6 => "6",
        7 => "7",
        8 => "8",
        9 => "9",
        10 => "a",
        11 => "b",
        12 => "c",
        13 => "d",
        14 => "e",
        _ => "f",
    };
    s
}

/// The number of digits in the numeral of `n`.
pub fn hex_len(n: usize) -> (len: usize)
    ensures
        len == hex_digits(n as nat).len(),
        1 <= len <= n + 1,
    decreases n,
{
    if n < 16 {
        1
    } else {
        1 + hex_len(n / 16)
    }
}

/// Appends the numeral of `n` to `out`.
pub fn push_hex(out: &mut String, n: usize)
    ensures
        final(out)@ == old(out)@ + hex_digits(n as nat),
    decreases n,
{
    if n >= 16 {
        push_hex(out, n / 16);
    }
    out.append(digit_str(n % 16));
}

/// Appends the numeral of `n` to `out`, with zeros in front of it where it
/// has fewer than `width` digits.
pub fn push_hex_padded(out: &mut String, n: usize, width: usize)
    ensures
        final(out)@ == old(out)@ + hex_padded(n as nat, width as nat),
{
    let len: usize = hex_len(n);
    let mut written: usize = len;
    while written < width
        invariant
            len == hex_digits(n as nat).len(),
            len <= written,
            written <= width || written == len,
            out@ == old(out)@ + zeros((written - len) as nat),
        decreases width - written,
    {
        proof {
            reveal_strlit("0");
        }
        out.append("0");
        written = written + 1;
    }
    push_hex(out, n);
}

/// The numeral of `n`, padded with zeros to at least `width` digits.
pub fn to_hex(n: usize, width: usize) -> (text: String)
    ensures
        text@ == hex_padded(n as nat, width as nat),
{
    let mut text = String::new();
    push_hex_padded(&mut text, n, width);
    text
}

} // verus!
