//! What can go wrong while an archive is put together.

use crate::text::{decimal, decimal_text};
use crate::zip_records::Base64Error;
use vstd::prelude::*;
use vstd::string::StringExecFns;

verus! {

/// An error of the archiver.
#[derive(Debug)]
pub enum Error {
    /// A checksum that S3 sent could not be read.
    Crc32Parse(Base64Error),
    /// Anything else, in words.
    Custom(String),
}

/// The words for a failed base64 decoding.
pub open spec fn base64_error_text(e: Base64Error) -> Seq<char> {
    match e {
        Base64Error::InvalidByte(at, byte) => "DecodeError: Invalid symbol "@ + decimal_text(
            byte as nat,
        ) + ", offset "@ + decimal_text(at as nat) + "."@,
        Base64Error::InvalidLength(len) => "DecodeError: Invalid input length: "@ + decimal_text(
            len as nat,
        ),
        Base64Error::InvalidLastSymbol(at, byte) => "DecodeError: Invalid last symbol "@
            + decimal_text(byte as nat) + ", offset "@ + decimal_text(at as nat) + "."@,
        Base64Error::InvalidPadding => "DecodeError: Invalid padding"@,
        Base64Error::OutputSliceTooSmall => "Output slice too small"@,
    }
}

impl Base64Error {
    /// The error in words.
    pub fn message(&self) -> (text: String)
        ensures
            text@ == base64_error_text(*self),
    {
        match self {
            Base64Error::InvalidByte(at, byte) => {
                let mut s: String = String::from_str("DecodeError: Invalid symbol ");
                s.append(decimal(*byte as u64).as_str());
                s.append(", offset ");
                s.append(decimal(*at as u64).as_str());
                s.append(".");
                s
            },
            Base64Error::InvalidLength(len) => {
                let mut s: String = String::from_str("DecodeError: Invalid input length: ");
                s.append(decimal(*len as u64).as_str());
                s
            },
            Base64Error::InvalidLastSymbol(at, byte) => {
                let mut s: String = String::from_str("DecodeError: Invalid last symbol ");
                s.append(decimal(*byte as u64).as_str());
                s.append(", offset ");
                s.append(decimal(*at as u64).as_str());
                s.append(".");
                s
            },
            Base64Error::InvalidPadding => String::from_str("DecodeError: Invalid padding"),
            Base64Error::OutputSliceTooSmall => String::from_str("Output slice too small"),
        }
    }
}

impl Error {
    /// The error in words.
    pub open spec fn text(&self) -> Seq<char> {
        match *self {
            Error::Crc32Parse(e) => "Could not parse CRC32: "@ + base64_error_text(e),
            Error::Custom(words) => words@,
        }
    }

    /// An error in words.
    pub fn custom(words: &str) -> (e: Error)
        ensures
            e is Custom,
            e.text() == words@,
    {
        Error::Custom(String::from_str(words))
    }

    /// The error in words.
    pub fn message(&self) -> (text: String)
        ensures
            text@ == self.text(),
    {
        match self {
            Error::Crc32Parse(e) => {
                let mut s: String = String::from_str("Could not parse CRC32: ");
                s.append(e.message().as_str());
                s
            },
            Error::Custom(words) => words.clone(),
        }
    }
}

} // verus!
