//! Decimal formatting of machine integers, used by the escape-sequence
//! builders and the status row.
use vstd::prelude::*;

verus! {

/// The decimal digit character for a value below ten.
pub open spec fn dec_digit(d: int) -> char {
    if d == 0 {
        '0'
    } else if d == 1 {
        '1'
    } else if d == 2 {
        '2'
    } else if d == 3 {
        '3'
    } else if d == 4 {
        '4'
    } else if d == 5 {
        '5'
    } else if d == 6 {
        '6'
    } else if d == 7 {
        '7'
    } else if d == 8 {
        '8'
    } else {
        '9'
    }
}

/// The decimal digit string of `n`, most significant digit first, with no
/// leading zeros (a single `'0'` for zero).
pub open spec fn dec_chars(n: nat) -> Seq<char>
    decreases n,
{
    if n < 10 {
        seq![dec_digit(n as int)]
    } else {
        dec_chars(n / 10).push(dec_digit((n % 10) as int))
    }
}

/// The digit character of a value below ten.
pub fn digit_char(d: usize) -> (r: char)
    requires
        d < 10,
    ensures
        r == dec_digit(d as int),
{
    match d {
        0 => '0',
        1 => '1',
        2 => '2',
        3 => '3',
        4 => '4',
        5 => '5',
        6 => '6',
        7 => '7',
        8 => '8',
        _ => '9',
    }
}

/// Appends the decimal digits of `n` to `out`, most significant first.
pub fn push_dec(out: &mut Vec<char>, n: usize)
    ensures
        final(out)@ == old(out)@ + dec_chars(n as nat),
    decreases n,
{
    if n >= 10 {
        push_dec(out, n / 10);
    }
    out.push(digit_char(n % 10));
}

/// The number of decimal digits of `n`.
pub fn dec_len(n: usize) -> (r: usize)
    ensures
        r == dec_chars(n as nat).len(),
        r >= 1,
    decreases n,
{
    if n < 10 {
        1
    } else {
        let rest = dec_len(n / 10);
        assert(dec_chars(n as nat) == dec_chars((n / 10) as nat).push(
            dec_digit((n % 10) as int),
        ));
        assert(rest < usize::MAX) by {
            lemma_dec_chars_len_le((n / 10) as nat);
        }
        rest + 1
    }
}

/// A number's digit string is never longer than the number itself plus
/// one, so a digit counter fits a machine word.
pub proof fn lemma_dec_chars_len_le(n: nat)
    ensures
        dec_chars(n).len() <= 1 + n,
    decreases n,
{
    if n >= 10 {
        lemma_dec_chars_len_le(n / 10);
    }
}

} // verus!
