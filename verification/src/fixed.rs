//! Fixed-point amount arithmetic.
//!
//! Prices and quantities arrive from the chain as integers scaled by
//! one million: a raw value counts millionths of a unit ("micros").
//! All book and candle arithmetic stays in this integer domain; only the
//! presentation layer renders micros as decimal text.

use vstd::prelude::*;
use vstd::string::*;

verus! {

/// One whole unit expressed in micros.
pub const SCALE: u128 = 1_000_000;

pub open spec fn spec_sat_sub(a: u128, b: u128) -> u128 {
    if a >= b {
        (a - b) as u128
    } else {
        0
    }
}

/// Subtraction clamped at zero: a would-be negative remaining quantity
/// becomes zero instead of underflowing.
pub fn sat_sub(a: u128, b: u128) -> (r: u128)
    ensures
        r == spec_sat_sub(a, b),
{
    if a >= b {
        a - b
    } else {
        0
    }
}

pub open spec fn spec_sat_add(a: u128, b: u128) -> u128 {
    if a + b <= u128::MAX {
        (a + b) as u128
    } else {
        u128::MAX
    }
}

/// Addition clamped at the largest representable amount.
pub fn sat_add(a: u128, b: u128) -> (r: u128)
    ensures
        r == spec_sat_add(a, b),
{
    if a <= u128::MAX - b {
        a + b
    } else {
        u128::MAX
    }
}

/// Converts a count of whole units into micros.
pub fn from_units(units: u64) -> (r: u128)
    ensures
        r == units * SCALE,
{
    (units as u128) * SCALE
}

// --- decimal rendering ---

pub open spec fn spec_digit_char(d: int) -> char {
    if d == 0 {
        '0'
    } else if d == 1 {
        '1'
    } else if d == 2 {
        '2'
    } else if d == 3 {
        '3'
    } else if d == 4 {
        '4'
    } else if d == 5 {
        '5'
    } else if d == 6 {
        '6'
    } else if d == 7 {
        '7'
    } else if d == 8 {
        '8'
    } else {
        '9'
    }
}

/// The decimal digits of `n`, most significant first.
pub open spec fn spec_digits(n: u128) -> Seq<char>
    decreases n,
{
    if n < 10 {
        seq![spec_digit_char(n as int)]
    } else {
        spec_digits(n / 10).push(spec_digit_char((n % 10) as int))
    }
}

fn digit_str(d: u128) -> (r: &'static str)
    requires
        d < 10,
    ensures
        r@ == seq![spec_digit_char(d as int)],
{
    let r: &'static str = if d == 0 {
        "0"
    } else if d == 1 {
        "1"
    } else if d == 2 {
        "2"
    } else if d == 3 {
        "3"
    } else if d == 4 {
        "4"
    } else if d == 5 {
        "5"
    } else if d == 6 {
        "6"
    } else if d == 7 {
        "7"
    } else if d == 8 {
        "8"
    } else {
        "9"
    };
    proof {
        reveal_strlit("0");
        reveal_strlit("1");
        reveal_strlit("2");
        reveal_strlit("3");
        reveal_strlit("4");
        reveal_strlit("5");
        reveal_strlit("6");
        reveal_strlit("7");
        reveal_strlit("8");
        reveal_strlit("9");
        assert(r@ =~= seq![spec_digit_char(d as int)]);
    }
    r
}

/// Renders a whole number in decimal.
pub fn format_units(n: u128) -> (s: String)
    ensures
        s@ == spec_digits(n),
    decreases n,
{
    if n < 10 {
        String::from_str(digit_str(n))
    } else {
        let mut s = format_units(n / 10);
        s.append(digit_str(n % 10));
        proof {
            assert(s@ =~= spec_digits(n));
        }
        s
    }
}

/// All six fractional digits of a micros amount below one unit.
pub open spec fn spec_frac6(frac: u128) -> Seq<char> {
    seq![
        spec_digit_char((frac / 100000 % 10) as int),
        spec_digit_char((frac / 10000 % 10) as int),
        spec_digit_char((frac / 1000 % 10) as int),
        spec_digit_char((frac / 100 % 10) as int),
        spec_digit_char((frac / 10 % 10) as int),
        spec_digit_char((frac % 10) as int),
    ]
}

/// The canonical decimal text of a micros amount: the whole units and,
/// unless the fractional part is zero, a dot and all six fractional
/// digits.
pub open spec fn spec_dec_chars(micros: u128) -> Seq<char> {
    if micros % SCALE == 0 {
        spec_digits(micros / SCALE)
    } else {
        spec_digits(micros / SCALE) + seq!['.'] + spec_frac6(micros % SCALE)
    }
}

/// Renders a micros amount as decimal text.
pub fn format_micros(micros: u128) -> (s: String)
    ensures
        s@ == spec_dec_chars(micros),
{
    let units = micros / SCALE;
    let frac = micros % SCALE;
    let mut s = format_units(units);
    if frac != 0 {
        s.append(".");
        s.append(digit_str(frac / 100000 % 10));
        s.append(digit_str(frac / 10000 % 10));
        s.append(digit_str(frac / 1000 % 10));
        s.append(digit_str(frac / 100 % 10));
        s.append(digit_str(frac / 10 % 10));
        s.append(digit_str(frac % 10));
        proof {
            reveal_strlit(".");
            assert(s@ =~= spec_dec_chars(micros));
        }
    }
    s
}

} // verus!
