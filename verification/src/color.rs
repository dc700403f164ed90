//! Parsing of `#RRGGBB` color strings.

#![allow(unused_imports)]
use vstd::prelude::*;
use vstd::string::StrSliceExecFns;

verus! {

/// Is `c` an ASCII hexadecimal digit?
pub open spec fn is_hex_digit(c: char) -> bool {
    ('0' <= c && c <= '9') || ('a' <= c && c <= 'f') || ('A' <= c && c <= 'F')
}

/// Value of one hexadecimal digit.
pub open spec fn hex_val(c: char) -> int {
    if '0' <= c && c <= '9' {
        c as int - 48
    } else if 'a' <= c && c <= 'f' {
        c as int - 87
    } else {
        c as int - 55
    }
}

/// Value of the two-digit hexadecimal number at positions `i`, `i + 1`.
pub open spec fn hex_pair(s: Seq<char>, i: int) -> int {
    hex_val(s[i]) * 16 + hex_val(s[i + 1])
}

/// Value of one hexadecimal digit character.
fn hex_digit_val(c: char) -> (r: i64)
    requires
        is_hex_digit(c),
    ensures
        r == hex_val(c),
        0 <= r <= 15,
{
    let v = c as u32;
    if v >= 97 {
        (v - 87) as i64
    } else if v >= 65 {
        (v - 55) as i64
    } else {
        (v - 48) as i64
    }
}

/// Read an `#RRGGBB` color string into its three channels, 0 to 255 each.
/// The string must carry six hexadecimal digits after its first character.
pub fn parse_rgb_int(s: &String) -> (r: (i64, i64, i64))
    requires
        s@.len() >= 7,
        forall|i: int| 1 <= i < 7 ==> is_hex_digit(#[trigger] s@[i]),
    ensures
        r.0 == hex_pair(s@, 1),
        r.1 == hex_pair(s@, 3),
        r.2 == hex_pair(s@, 5),
        0 <= r.0 <= 255,
        0 <= r.1 <= 255,
        0 <= r.2 <= 255,
{
    let st = s.as_str();
    let c1 = st.get_char(1);
    let c2 = st.get_char(2);
    let c3 = st.get_char(3);
    let c4 = st.get_char(4);
    let c5 = st.get_char(5);
    let c6 = st.get_char(6);
    let red = hex_digit_val(c1) * 16 + hex_digit_val(c2);
    let green = hex_digit_val(c3) * 16 + hex_digit_val(c4);
    let blue = hex_digit_val(c5) * 16 + hex_digit_val(c6);
    (red, green, blue)
}

} // verus!
