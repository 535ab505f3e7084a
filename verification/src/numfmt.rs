//! Rendering of unsigned numbers as uppercase hexadecimal and decimal text.

use vstd::prelude::*;

verus! {

/// The character for one hexadecimal digit, uppercase.
pub open spec fn hex_digit(d: int) -> char {
    seq!['0', '1', '2', '3', '4', '5', '6', '7', '8', '9', 'A', 'B', 'C', 'D', 'E', 'F'][d]
}

/// Uppercase hexadecimal text of `v` with no leading zeros (`0` itself is "0").
pub open spec fn hex_chars(v: u32) -> Seq<char>
    decreases v,
{
    if v < 16 {
        seq![hex_digit(v as int)]
    } else {
        hex_chars(v / 16) + seq![hex_digit((v % 16) as int)]
    }
}

/// Decimal text of `v` with no leading zeros (`0` itself is "0").
pub open spec fn dec_chars(v: u64) -> Seq<char>
    decreases v,
{
    if v < 10 {
        seq![hex_digit(v as int)]
    } else {
        dec_chars(v / 10) + seq![hex_digit((v % 10) as int)]
    }
}

pub(crate) fn digit_str(d: u32) -> (r: &'static str)
    requires
        d < 16,
    ensures
        r@ == seq![hex_digit(d as int)],
{
    let r = if d == 0 {
        "0"
    } else if d == 1 {
        "1"
    } else if d == 2 {
        "2"
    } else if d == 3 {
        "3"
    } else if d == 4 {
        "4"
    } else if d == 5 {
        "5"
    } else if d == 6 {
        "6"
    } else if d == 7 {
        "7"
    } else if d == 8 {
        "8"
    } else if d == 9 {
        "9"
    } else if d == 10 {
        "A"
    } else if d == 11 {
        "B"
    } else if d == 12 {
        "C"
    } else if d == 13 {
        "D"
    } else if d == 14 {
        "E"
    } else {
        "F"
    };
    proof {
        reveal_strlit("0");
        reveal_strlit("1");
        reveal_strlit("2");
        reveal_strlit("3");
        reveal_strlit("4");
        reveal_strlit("5");
        reveal_strlit("6");
        reveal_strlit("7");
        reveal_strlit("8");
        reveal_strlit("9");
        reveal_strlit("A");
        reveal_strlit("B");
        reveal_strlit("C");
        reveal_strlit("D");
        reveal_strlit("E");
        reveal_strlit("F");
        assert(r@ =~= seq![hex_digit(d as int)]);
    }
    r
}

/// Renders `v` as minimal-width uppercase hexadecimal.
pub fn u32_to_hex(v: u32) -> (r: String)
    ensures
        r@ == hex_chars(v),
    decreases v,
{
    if v < 16 {
        let mut r = String::new();
        r.append(digit_str(v));
        r
    } else {
        let mut r = u32_to_hex(v / 16);
        r.append(digit_str(v % 16));
        r
    }
}

/// Renders `v` as minimal-width decimal.
pub fn u64_to_dec(v: u64) -> (r: String)
    ensures
        r@ == dec_chars(v),
    decreases v,
{
    if v < 10 {
        let mut r = String::new();
        r.append(digit_str(v as u32));
        r
    } else {
        let mut r = u64_to_dec(v / 10);
        let d = (v % 10) as u32;
        r.append(digit_str(d));
        r
    }
}

} // verus!
