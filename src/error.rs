use vstd::prelude::*;

verus! {

/// Why a hex code did not decode.
#[derive(Debug, Clone, Copy, PartialEq, Eq)]
pub enum HexFault {
    /// A character is not a hexadecimal digit.
    Digit,
    /// The code does not hold 3 or 6 digits.
    Format,
}

/// A parameter or a color token that breaks the format or the bounds.
#[derive(Debug)]
pub enum ParaFault {
    /// A token with a comma does not split into three fields.
    RgbFieldCount { raw: String },
    /// A field of an integer triple is not an integer from 0 to 255.
    Channel { raw: String, field: Vec<u8> },
    /// A hex token that starts with `#` is not 4 or 7 bytes long.
    HashHexLength { raw: String },
    /// A hex token without `#` is not 3 or 6 bytes long.
    HexLength { raw: String },
    /// The metric selector is not 1, 2 or 3.
    Algorithm { value: u8 },
    /// The number of matches asked for is zero.
    NumZero,
    /// More matches are asked for than there are candidates.
    NumTooLarge { num: usize, count: usize },
}

/// The errors of the library.
#[derive(Debug)]
pub enum ColorError {
    ParaError(ParaFault),
    ParseHexColorError { hex: String, fault: HexFault },
}

} // verus!
