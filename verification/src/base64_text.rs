//! Bytes as text in base 64, as the base64 crate writes and reads it.
use crate::text;
use crate::text::push_decimal;
use base64::Engine;
use vstd::prelude::*;

verus! {

/// Why a text is not in base 64: a byte that is no digit, at an offset; a length
/// that no text has; a last digit with bits that nothing stands for, at an
/// offset; or wrong padding.
#[derive(Clone, Copy, Debug, PartialEq, Eq, Structural)]
pub enum Base64Error {
    InvalidByte(usize, u8),
    InvalidLength(usize),
    InvalidLastSymbol(usize, u8),
    InvalidPadding,
}

impl Base64Error {
    /// The text of the error.
    pub open spec fn message(self) -> Seq<char> {
        match self {
            Base64Error::InvalidByte(index, byte) => "Invalid symbol "@ + text::decimal(
                byte as nat,
            ) + ", offset "@ + text::decimal(index as nat) + "."@,
            Base64Error::InvalidLength(len) => "Invalid input length: "@ + text::decimal(
                len as nat,
            ),
            Base64Error::InvalidLastSymbol(index, byte) => "Invalid last symbol "@
                + text::decimal(byte as nat) + ", offset "@ + text::decimal(index as nat) + "."@,
            Base64Error::InvalidPadding => "Invalid padding"@,
        }
    }

    /// The text of the error.
    pub fn text(&self) -> (s: String)
        ensures
            s@ == self.message(),
    {
        match *self {
            Base64Error::InvalidByte(index, byte) => {
                let mut s: String = "Invalid symbol ".to_string();
                push_decimal(&mut s, byte as u64);
                s.push_str(", offset ");
                push_decimal(&mut s, index as u64);
                s.push_str(".");
                s
            },
            Base64Error::InvalidLength(len) => {
                let mut s: String = "Invalid input length: ".to_string();
                push_decimal(&mut s, len as u64);
                s
            },
            Base64Error::InvalidLastSymbol(index, byte) => {
                let mut s: String = "Invalid last symbol ".to_string();
                push_decimal(&mut s, byte as u64);
                s.push_str(", offset ");
                push_decimal(&mut s, index as u64);
                s.push_str(".");
                s
            },
            Base64Error::InvalidPadding => "Invalid padding".to_string(),
        }
    }
}

/// Bytes in base 64, with the standard alphabet and padding.
pub uninterp spec fn base64_encoded(data: Seq<u8>) -> Seq<char>;

/// The bytes that a text in base 64 stands for.
pub uninterp spec fn base64_decoded(text: Seq<char>) -> Result<Seq<u8>, Base64Error>;

/// Whether the text of so many bytes in base 64 is short enough to be held.
pub open spec fn base64_fits(len: nat) -> bool {
    4 * ((len + 2) / 3) <= isize::MAX
}

/// `base64::Engine::encode` with the engine `STANDARD`: the text depends on the
/// bytes alone, and decoding it gives the bytes back. A text that cannot be held
/// would end the program.
#[verifier::external_body]
pub(crate) fn base64_encode(data: &[u8]) -> (s: String)
    requires
        base64_fits(data@.len()),
    ensures
        s@ == base64_encoded(data@),
        base64_decoded(s@) is Ok && base64_decoded(s@)->Ok_0 == data@,
{
    base64::engine::general_purpose::STANDARD.encode(data)
}

/// `base64::Engine::decode` with the engine `STANDARD`: the bytes, or why there are
/// none, depend on the text alone.
#[verifier::external_body]
pub(crate) fn base64_decode(text: &str) -> (r: Result<Vec<u8>, Base64Error>)
    ensures
        match r {
            Ok(data) => base64_decoded(text@) == Ok::<Seq<u8>, Base64Error>(data@),
            Err(e) => base64_decoded(text@) == Err::<Seq<u8>, Base64Error>(e),
        },
{
    match base64::engine::general_purpose::STANDARD.decode(text) {
        Ok(data) => Ok(data),
        Err(base64::DecodeError::InvalidByte(i, b)) => Err(Base64Error::InvalidByte(i, b)),
        Err(base64::DecodeError::InvalidLength(n)) => Err(Base64Error::InvalidLength(n)),
        Err(base64::DecodeError::InvalidLastSymbol(i, b)) => {
            Err(Base64Error::InvalidLastSymbol(i, b))
        },
        Err(base64::DecodeError::InvalidPadding) => Err(Base64Error::InvalidPadding),
    }
}

} // verus!
