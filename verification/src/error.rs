//! Error type of the library.

use vstd::prelude::*;
use vstd::string::StringExecFns;

verus! {

/// What went wrong while reading or writing a PSD structure.
#[derive(Debug)]
pub enum PsdError {
    /// The input ended, or an I/O-level failure, with its description.
    Io(String),
    /// The bytes do not follow the format.
    InvalidFormat(String),
    /// The data uses something this library does not handle.
    UnsupportedFeature(String),
    /// A compressed stream could not be encoded or decoded.
    Compression(String),
}

/// Result of the library's fallible operations.
pub type PsdResult<T> = core::result::Result<T, PsdError>;

/// The leading words of the message of each error kind.
pub open spec fn error_prefix(e: PsdError) -> Seq<char> {
    match e {
        PsdError::Io(_) => "IO error: "@,
        PsdError::InvalidFormat(_) => "Invalid format: "@,
        PsdError::UnsupportedFeature(_) => "Unsupported feature: "@,
        PsdError::Compression(_) => "Compression error: "@,
    }
}

/// The description carried by an error.
pub open spec fn error_detail(e: PsdError) -> Seq<char> {
    match e {
        PsdError::Io(m) => m@,
        PsdError::InvalidFormat(m) => m@,
        PsdError::UnsupportedFeature(m) => m@,
        PsdError::Compression(m) => m@,
    }
}

impl PsdError {
    /// The human-readable message: the kind's prefix followed by the detail.
    pub fn to_string(&self) -> (r: String)
        ensures
            r@ == error_prefix(*self) + error_detail(*self),
    {
        match self {
            PsdError::Io(m) => String::from_str("IO error: ").concat(m.as_str()),
            PsdError::InvalidFormat(m) => String::from_str("Invalid format: ").concat(m.as_str()),
            PsdError::UnsupportedFeature(m) => String::from_str("Unsupported feature: ").concat(
                m.as_str(),
            ),
            PsdError::Compression(m) => String::from_str("Compression error: ").concat(m.as_str()),
        }
    }
}

/// An `InvalidFormat` error with the given description.
pub fn invalid_format(msg: &str) -> (e: PsdError)
    ensures
        e is InvalidFormat,
        error_detail(e) == msg@,
{
    PsdError::InvalidFormat(String::from_str(msg))
}

/// An `UnsupportedFeature` error with the given description.
pub fn unsupported(msg: &str) -> (e: PsdError)
    ensures
        e is UnsupportedFeature,
        error_detail(e) == msg@,
{
    PsdError::UnsupportedFeature(String::from_str(msg))
}

/// A `Compression` error with the given description.
pub fn compression_error(msg: &str) -> (e: PsdError)
    ensures
        e is Compression,
        error_detail(e) == msg@,
{
    PsdError::Compression(String::from_str(msg))
}

/// An `Io` error with the given description.
pub fn io_error(msg: &str) -> (e: PsdError)
    ensures
        e is Io,
        error_detail(e) == msg@,
{
    PsdError::Io(String::from_str(msg))
}


/// The decimal digit `d` as a character.
pub open spec fn digit_char(d: int) -> char {
    if d == 0 { '0' } else if d == 1 { '1' } else if d == 2 { '2' } else if d == 3 { '3' }
    else if d == 4 { '4' } else if d == 5 { '5' } else if d == 6 { '6' } else if d == 7 { '7' }
    else if d == 8 { '8' } else { '9' }
}

/// The decimal writing of `n`, without leading zeros.
pub open spec fn decimal(n: nat) -> Seq<char>
    decreases n,
{
    if n < 10 {
        seq![digit_char(n as int)]
    } else {
        decimal(n / 10).push(digit_char((n % 10) as int))
    }
}

/// The character of the decimal digit `d`.
fn digit(d: u64) -> (c: char)
    requires
        d < 10,
    ensures
        c == digit_char(d as int),
{
    if d == 0 { '0' } else if d == 1 { '1' } else if d == 2 { '2' } else if d == 3 { '3' }
    else if d == 4 { '4' } else if d == 5 { '5' } else if d == 6 { '6' } else if d == 7 { '7' }
    else if d == 8 { '8' } else { '9' }
}

/// The decimal digits of `n`, most significant first.
fn decimal_chars(n: u64) -> (r: Vec<char>)
    ensures
        r@ == decimal(n as nat),
    decreases n,
{
    if n < 10 {
        let mut v: Vec<char> = Vec::new();
        v.push(digit(n));
        v
    } else {
        let mut v = decimal_chars(n / 10);
        v.push(digit(n % 10));
        v
    }
}

/// `n` written in decimal.
pub fn decimal_string(n: u64) -> (r: String)
    ensures
        r@ == decimal(n as nat),
{
    let chars = decimal_chars(n);
    crate::strings::string_from_chars(chars.as_slice())
}

/// The error for a signature that is not the one expected, naming both.
pub fn signature_mismatch(expected: &str, found: &str) -> (e: PsdError)
    ensures
        e is InvalidFormat,
        error_detail(e) == "Invalid signature: expected '"@ + expected@ + "', got '"@ + found@
            + "'"@,
{
    PsdError::InvalidFormat(
        String::from_str("Invalid signature: expected '").concat(expected).concat("', got '").concat(
            found,
        ).concat("'"),
    )
}

/// The error for a sample depth that ZIP prediction does not support,
/// naming the depth.
pub fn unsupported_depth(depth: u16) -> (e: PsdError)
    ensures
        e is Compression,
        error_detail(e) == "Unsupported depth: "@ + decimal(depth as nat),
{
    let digits = decimal_string(depth as u64);
    PsdError::Compression(String::from_str("Unsupported depth: ").concat(digits.as_str()))
}

} // verus!
