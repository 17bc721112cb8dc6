//! Decimal rendering of the integers the report shows.

use vstd::prelude::*;
use vstd::string::StringExecFns;

verus! {

/// Relies on String::push from std: appends exactly the given character.
pub assume_specification[ String::push ](s: &mut String, ch: char)
    ensures
        final(s)@ == old(s)@.push(ch),
;

/// The decimal digit character for a value below ten.
pub open spec fn spec_digit(d: int) -> char {
    if d == 0 {
        '0'
    } else if d == 1 {
        '1'
    } else if d == 2 {
        '2'
    } else if d == 3 {
        '3'
    } else if d == 4 {
        '4'
    } else if d == 5 {
        '5'
    } else if d == 6 {
        '6'
    } else if d == 7 {
        '7'
    } else if d == 8 {
        '8'
    } else {
        '9'
    }
}

/// The decimal digits of `n`, most significant first, without a leading
/// zero unless `n` itself is zero.
pub open spec fn spec_nat_str(n: nat) -> Seq<char>
    decreases n,
{
    if n < 10 {
        seq![spec_digit(n as int)]
    } else {
        spec_nat_str(n / 10) + seq![spec_digit((n % 10) as int)]
    }
}

/// The decimal form of `v`: a minus sign for a negative value, then the
/// digits of its magnitude.
pub open spec fn spec_int_str(v: int) -> Seq<char> {
    if v < 0 {
        seq!['-'] + spec_nat_str((-v) as nat)
    } else {
        spec_nat_str(v as nat)
    }
}

/// The decimal digit character for a value below ten.
fn digit_char(d: u8) -> (c: char)
    requires
        d < 10,
    ensures
        c == spec_digit(d as int),
{
    match d {
        0 => '0',
        1 => '1',
        2 => '2',
        3 => '3',
        4 => '4',
        5 => '5',
        6 => '6',
        7 => '7',
        8 => '8',
        _ => '9',
    }
}

/// Render `n` in decimal.
pub fn u128_to_string(n: u128) -> (s: String)
    ensures
        s@ == spec_nat_str(n as nat),
    decreases n,
{
    if n < 10 {
        let mut s = String::new();
        s.push(digit_char(n as u8));
        proof {
            assert(s@ =~= spec_nat_str(n as nat));
        }
        s
    } else {
        let mut s = u128_to_string(n / 10);
        s.push(digit_char((n % 10) as u8));
        proof {
            assert(s@ =~= spec_nat_str(n as nat));
        }
        s
    }
}

/// Render `v` in decimal, with a minus sign when negative.
pub fn i128_to_string(v: i128) -> (s: String)
    ensures
        s@ == spec_int_str(v as int),
{
    if v >= 0 {
        u128_to_string(v as u128)
    } else {
        let mag: u128 = ((-(v + 1)) as u128) + 1;
        proof {
            assert(mag == -(v as int));
        }
        let mut s = String::new();
        s.push('-');
        let digits = u128_to_string(mag);
        let r = s.concat(digits.as_str());
        proof {
            assert(r@ =~= spec_int_str(v as int));
        }
        r
    }
}

/// Render `v` in decimal, with a minus sign when negative.
pub fn i64_to_string(v: i64) -> (s: String)
    ensures
        s@ == spec_int_str(v as int),
{
    i128_to_string(v as i128)
}

/// Render `n` in decimal.
pub fn u32_to_string(n: u32) -> (s: String)
    ensures
        s@ == spec_nat_str(n as nat),
{
    u128_to_string(n as u128)
}

} // verus!
