//! Verified string building: character pushes, decimal rendering of small
//! numbers, and string comparison.

use vstd::prelude::*;
use vstd::string::StrSliceExecFns;

verus! {

/// The decimal digit character for a value below ten.
pub open spec fn digit_char(d: int) -> char {
    if d == 0 {
        '0'
    } else if d == 1 {
        '1'
    } else if d == 2 {
        '2'
    } else if d == 3 {
        '3'
    } else if d == 4 {
        '4'
    } else if d == 5 {
        '5'
    } else if d == 6 {
        '6'
    } else if d == 7 {
        '7'
    } else if d == 8 {
        '8'
    } else {
        '9'
    }
}

/// The decimal digits of `n`, most significant first.
pub open spec fn dec_chars(n: nat) -> Seq<char>
    decreases n,
{
    if n < 10 {
        seq![digit_char(n as int)]
    } else {
        dec_chars(n / 10).push(digit_char((n % 10) as int))
    }
}

/// Relies on `String::push`: appends exactly one character to the string.
#[verifier::external_body]
pub(crate) fn push_char(s: &mut String, c: char)
    ensures
        final(s)@ == old(s)@.push(c),
{
    s.push(c);
}

/// Appends one decimal digit.
fn push_digit(s: &mut String, d: u8)
    requires
        d < 10,
    ensures
        final(s)@ == old(s)@.push(digit_char(d as int)),
{
    let c = match d {
        0 => '0',
        1 => '1',
        2 => '2',
        3 => '3',
        4 => '4',
        5 => '5',
        6 => '6',
        7 => '7',
        8 => '8',
        _ => '9',
    };
    push_char(s, c);
}

/// Appends the decimal rendering of a byte value.
pub fn push_u8_decimal(s: &mut String, n: u8)
    ensures
        final(s)@ == old(s)@ + dec_chars(n as nat),
{
    proof {
        if n >= 100 {
            vstd::arithmetic::div_mod::lemma_div_denominator(n as int, 10, 10);
            assert(n as int / 10 / 10 == n as int / 100);
        }
    }
    if n >= 100 {
        push_digit(s, n / 100);
    }
    if n >= 10 {
        push_digit(s, (n / 10) % 10);
    }
    push_digit(s, n % 10);
    proof {
        if n < 10 {
            assert(old(s)@.push(digit_char((n % 10) as int)) =~= old(s)@ + dec_chars(n as nat));
        } else if n < 100 {
            assert((n as int / 10) % 10 == n as int / 10) by {
                vstd::arithmetic::div_mod::lemma_small_mod((n / 10) as nat, 10);
            }
            assert(dec_chars((n / 10) as nat) =~= seq![digit_char(n as int / 10)]);
            assert(old(s)@.push(digit_char((n as int / 10) % 10)).push(
                digit_char((n % 10) as int),
            ) =~= old(s)@ + dec_chars(n as nat));
        } else {
            assert(dec_chars((n / 100) as nat) =~= seq![digit_char(n as int / 100)]);
            assert(dec_chars((n / 10) as nat) == dec_chars((n / 100) as nat).push(
                digit_char((n as int / 10) % 10),
            ));
            assert(old(s)@.push(digit_char((n as int / 100))).push(
                digit_char((n as int / 10) % 10),
            ).push(digit_char((n % 10) as int)) =~= old(s)@ + dec_chars(n as nat));
        }
    }
}

/// Whether two strings hold the same sequence of characters.
#[verifier::loop_isolation(false)]
pub fn str_eq(a: &str, b: &str) -> (r: bool)
    ensures
        r <==> a@ == b@,
{
    let alen = a.unicode_len();
    let blen = b.unicode_len();
    if alen != blen {
        return false;
    }
    let mut i: usize = 0;
    while i < alen
        invariant
            i <= alen,
            forall|j: int| 0 <= j < i ==> a@[j] == b@[j],
        decreases alen - i,
    {
        if a.get_char(i) != b.get_char(i) {
            return false;
        }
        i += 1;
    }
    proof {
        assert(a@ =~= b@);
    }
    true
}

} // verus!
