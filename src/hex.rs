use vstd::prelude::*;
use vstd::string::is_ascii;
use vstd::utf8::is_ascii_chars;

use crate::color::RawColor;
use crate::error::{ColorError, HexFault};

verus! {

/// The value of a hexadecimal digit, in either case.
pub open spec fn hex_digit(c: char) -> Option<u8> {
    if '0' <= c && c <= '9' {
        Some((c as u32 - 48) as u8)
    } else if 'a' <= c && c <= 'f' {
        Some((c as u32 - 87) as u8)
    } else if 'A' <= c && c <= 'F' {
        Some((c as u32 - 55) as u8)
    } else {
        None
    }
}

/// Two characters read as a byte in base 16, where a `+` may stand for the
/// leading digit.
pub open spec fn hex_pair(a: char, b: char) -> Option<u8> {
    if a == '+' {
        hex_digit(b)
    } else if hex_digit(a) is Some && hex_digit(b) is Some {
        Some((hex_digit(a)->0 * 16 + hex_digit(b)->0) as u8)
    } else {
        None
    }
}

/// The digits of a hex code: the text without one leading `#`.
pub open spec fn hex_code(s: Seq<char>) -> Seq<char> {
    if s.len() > 0 && s[0] == '#' {
        s.drop_first()
    } else {
        s
    }
}

/// The red, green and blue bytes that a hex code writes: three digits, each
/// repeated (`f3e` is `ff33ee`), or three pairs of digits.
pub open spec fn hex_rgb(s: Seq<char>) -> Option<Seq<u8>> {
    let h = hex_code(s);
    if h.len() == 3 {
        if hex_digit(h[0]) is Some && hex_digit(h[1]) is Some && hex_digit(h[2]) is Some {
            Some(
                seq![
                    (hex_digit(h[0])->0 * 17) as u8,
                    (hex_digit(h[1])->0 * 17) as u8,
                    (hex_digit(h[2])->0 * 17) as u8,
                ],
            )
        } else {
            None
        }
    } else if h.len() == 6 {
        if hex_pair(h[0], h[1]) is Some && hex_pair(h[2], h[3]) is Some && hex_pair(h[4], h[5]) is Some {
            Some(seq![hex_pair(h[0], h[1])->0, hex_pair(h[2], h[3])->0, hex_pair(h[4], h[5])->0])
        } else {
            None
        }
    } else {
        None
    }
}

/// Why a hex code that does not decode fails: a bad digit where it has 3 or 6
/// characters, else its format.
pub open spec fn hex_fault(s: Seq<char>) -> HexFault {
    if hex_code(s).len() == 3 || hex_code(s).len() == 6 {
        HexFault::Digit
    } else {
        HexFault::Format
    }
}

/// Relies on palette's `FromStr` for `Srgb<u8>`: it drops one leading `#`,
/// reads three digits with `u8::from_str_radix(_, 16)` one each, times 17, or
/// six digits two each, and refuses any other length with `HexFormatError`.
/// On ASCII text each slice it takes is whole characters, so it does not panic.
#[verifier::external_body]
fn srgb_from_hex(hex: &str) -> (r: Result<[u8; 3], HexFault>)
    requires
        is_ascii(hex),
    ensures
        r is Ok <==> hex_rgb(hex@) is Some,
        r is Ok ==> r->Ok_0@ == hex_rgb(hex@)->0,
        r is Err ==> r->Err_0 == hex_fault(hex@),
{
    match <palette::Srgb<u8> as std::str::FromStr>::from_str(hex) {
        Ok(c) => Ok([c.red, c.green, c.blue]),
        Err(palette::rgb::FromHexError::ParseIntError(_)) => Err(HexFault::Digit),
        Err(palette::rgb::FromHexError::HexFormatError(_)) => Err(HexFault::Format),
        Err(palette::rgb::FromHexError::RgbaHexFormatError(_)) => Err(HexFault::Format),
    }
}

impl RawColor {
    /// The integer channels of the color: those of an integer triple, or the
    /// decoded digits of a hex code. A decimal triple has none.
    pub fn rgb8(&self) -> (r: Result<Option<[u8; 3]>, ColorError>)
        ensures
            match self {
                RawColor::RgbU8(t) => r matches Ok(Some(c)) && c@ == t.1@,
                RawColor::RgbF32(_) => r matches Ok(None),
                RawColor::Hex(s) => if is_ascii_chars(s@) && hex_rgb(s@) is Some {
                    r matches Ok(Some(c)) && c@ == hex_rgb(s@)->0
                } else {
                    r matches Err(ColorError::ParseHexColorError { hex: h, fault: f }) && h@ == s@
                        && f == (if is_ascii_chars(s@) {
                        hex_fault(s@)
                    } else {
                        HexFault::Digit
                    })
                },
            },
    {
        match self {
            RawColor::RgbU8(t) => Ok(Some(t.1)),
            RawColor::RgbF32(_) => Ok(None),
            RawColor::Hex(s) => {
                if !s.as_str().is_ascii() {
                    return Err(ColorError::ParseHexColorError { hex: s.clone(), fault: HexFault::Digit });
                }
                match srgb_from_hex(s.as_str()) {
                    Ok(c) => Ok(Some(c)),
                    Err(f) => Err(ColorError::ParseHexColorError { hex: s.clone(), fault: f }),
                }
            },
        }
    }
}

} // verus!
