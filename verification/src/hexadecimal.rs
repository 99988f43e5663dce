//! Hexadecimal text.
use crate::text;
use crate::text::push_decimal;
use vstd::prelude::*;

verus! {

/// The lower-case hexadecimal digit of a number below sixteen.
pub open spec fn hex_digit(d: nat) -> char {
    if d < 10 {
        (('0' as nat) + d) as char
    } else {
        (('a' as nat) + (d - 10)) as char
    }
}

/// The two lower-case digits of every byte, in order.
pub open spec fn hex_text(bytes: Seq<u8>) -> Seq<char>
    decreases bytes.len(),
{
    if bytes.len() == 0 {
        Seq::empty()
    } else {
        hex_text(bytes.drop_last()).push(hex_digit((bytes.last() / 16) as nat)).push(
            hex_digit((bytes.last() % 16) as nat),
        )
    }
}

/// Whether a byte of text is a hexadecimal digit, in either case.
pub open spec fn is_hex(c: u8) -> bool {
    48 <= c <= 57 || 65 <= c <= 70 || 97 <= c <= 102
}

/// The value of a hexadecimal digit.
pub open spec fn hex_value(c: u8) -> nat {
    if 48 <= c <= 57 {
        (c - 48) as nat
    } else if 65 <= c <= 70 {
        (c - 55) as nat
    } else {
        (c - 87) as nat
    }
}

/// The bytes that pairs of digits denote.
pub open spec fn hex_bytes(text: Seq<u8>) -> Seq<u8> {
    Seq::new(
        text.len() / 2,
        |i: int| (hex_value(text[2 * i]) * 16 + hex_value(text[2 * i + 1])) as u8,
    )
}

/// Why a text is not hexadecimal.
#[derive(Clone, Copy, Debug, PartialEq, Eq, Structural)]
pub enum HexError {
    InvalidHexCharacter { c: char, index: usize },
    OddLength,
    InvalidStringLength,
}

/// `hex::decode`. A text of odd length is `OddLength`. Otherwise the first byte
/// that is no digit is reported with its offset, and a text of digits alone
/// gives the bytes that its pairs denote. The third error comes only of
/// decoding into a container of fixed size.
#[verifier::external_body]
fn hex_decode(text: &[u8]) -> (r: Result<Vec<u8>, HexError>)
    ensures
        match r {
            Ok(out) => {
                &&& text@.len() % 2 == 0
                &&& forall|i: int| 0 <= i < text@.len() ==> is_hex(#[trigger] text@[i])
                &&& out@ == hex_bytes(text@)
            },
            Err(HexError::OddLength) => text@.len() % 2 == 1,
            Err(HexError::InvalidHexCharacter { c, index }) => {
                &&& text@.len() % 2 == 0
                &&& index < text@.len()
                &&& !is_hex(text@[index as int])
                &&& c == text@[index as int] as char
                &&& forall|i: int| 0 <= i < index ==> is_hex(#[trigger] text@[i])
            },
            Err(HexError::InvalidStringLength) => false,
        },
{
    match hex::decode(text) {
        Ok(out) => Ok(out),
        Err(hex::FromHexError::InvalidHexCharacter { c, index }) => {
            Err(HexError::InvalidHexCharacter { c, index })
        },
        Err(hex::FromHexError::OddLength) => Err(HexError::OddLength),
        Err(hex::FromHexError::InvalidStringLength) => Err(HexError::InvalidStringLength),
    }
}

/// How `{:?}` prints a character: in quotes, escaped where need be.
pub uninterp spec fn char_debug(c: char) -> Seq<char>;

/// `format!("{:?}", c)`: what std prints depends on the character alone.
#[verifier::external_body]
fn char_debug_string(c: char) -> (s: String)
    ensures
        s@ == char_debug(c),
{
    format!("{:?}", c)
}

impl HexError {
    /// The text of the error.
    pub open spec fn message(self) -> Seq<char> {
        match self {
            HexError::InvalidHexCharacter { c, index } => "Invalid character "@ + char_debug(c)
                + " at position "@ + text::decimal(index as nat),
            HexError::OddLength => "Odd number of digits"@,
            HexError::InvalidStringLength => "Invalid string length"@,
        }
    }

    /// The text of the error.
    pub fn text(&self) -> (s: String)
        ensures
            s@ == self.message(),
    {
        match *self {
            HexError::InvalidHexCharacter { c, index } => {
                let mut s: String = "Invalid character ".to_string();
                let shown: String = char_debug_string(c);
                s.push_str(shown.as_str());
                s.push_str(" at position ");
                push_decimal(&mut s, index as u64);
                s
            },
            HexError::OddLength => "Odd number of digits".to_string(),
            HexError::InvalidStringLength => "Invalid string length".to_string(),
        }
    }
}

/// What decoding a text gives, by the bytes of the text.
pub open spec fn hex_decoded(text: Seq<u8>) -> Result<Seq<u8>, HexError> {
    if text.len() % 2 == 1 {
        Err(HexError::OddLength)
    } else if forall|i: int| 0 <= i < text.len() ==> is_hex(#[trigger] text[i]) {
        Ok(hex_bytes(text))
    } else {
        let index = first_bad(text);
        Err(HexError::InvalidHexCharacter { c: text[index] as char, index: index as usize })
    }
}

/// The offset of the first byte that is no digit.
pub open spec fn first_bad(text: Seq<u8>) -> int {
    choose|i: int|
        0 <= i < text.len() && !is_hex(#[trigger] text[i]) && forall|j: int|
            0 <= j < i ==> is_hex(#[trigger] text[j])
}

/// Decodes the bytes of a hexadecimal text.
pub fn decode_hex(text: &[u8]) -> (r: Result<Vec<u8>, HexError>)
    ensures
        match r {
            Ok(out) => hex_decoded(text@) == Ok::<Seq<u8>, HexError>(out@),
            Err(e) => hex_decoded(text@) == Err::<Seq<u8>, HexError>(e),
        },
{
    let r: Result<Vec<u8>, HexError> = hex_decode(text);
    proof {
        let t = text@;
        if let Err(HexError::InvalidHexCharacter { c, index }) = r {
            let k = first_bad(t);
            assert(0 <= index < t.len() && !is_hex(t[index as int]));
            assert(k == index) by {
                assert(0 <= k < t.len() && !is_hex(t[k]));
                if k < index {
                    assert(is_hex(t[k]));
                }
                if index < k {
                    assert(is_hex(t[index as int]));
                }
            }
        }
    }
    r
}

/// The hexadecimal digit of a number below sixteen.
fn digit(d: u8) -> (c: char)
    requires
        d < 16,
    ensures
        c == hex_digit(d as nat),
{
    if d < 10 {
        (48u8 + d) as char
    } else {
        (87u8 + d) as char
    }
}

/// Appends the two digits of every byte.
pub fn push_hex(s: &mut String, data: &[u8])
    ensures
        final(s)@ == old(s)@ + hex_text(data@),
{
    let mut i: usize = 0;
    assert(s@ =~= old(s)@ + hex_text(data@.subrange(0, 0)));
    while i < data.len()
        invariant
            i <= data@.len(),
            s@ == old(s)@ + hex_text(data@.subrange(0, i as int)),
        decreases data@.len() - i,
    {
        let ghost before = s@;
        s.push(digit(data[i] / 16));
        s.push(digit(data[i] % 16));
        proof {
            let next = data@.subrange(0, i + 1);
            assert(next.drop_last() =~= data@.subrange(0, i as int));
            assert(s@ =~= old(s)@ + hex_text(next));
        }
        i = i + 1;
    }
    assert(data@.subrange(0, data@.len() as int) =~= data@);
}

/// The digit at offset `k` of the hexadecimal text of some bytes, as a number.
pub open spec fn nibble(data: Seq<u8>, k: int) -> nat {
    if k % 2 == 0 {
        (data[k / 2] / 16) as nat
    } else {
        (data[k / 2] % 16) as nat
    }
}

/// The hexadecimal text of some bytes, digit by digit.
pub proof fn lemma_hex_text(data: Seq<u8>)
    ensures
        hex_text(data).len() == 2 * data.len(),
        forall|k: int|
            0 <= k < 2 * data.len() ==> #[trigger] hex_text(data)[k] == hex_digit(nibble(data, k)),
    decreases data.len(),
{
    if data.len() > 0 {
        let front = data.drop_last();
        lemma_hex_text(front);
        assert forall|k: int| 0 <= k < 2 * data.len() implies #[trigger] hex_text(data)[k]
            == hex_digit(nibble(data, k)) by {
            if k < 2 * front.len() {
                assert(hex_text(data)[k] == hex_text(front)[k]);
                assert(nibble(front, k) == nibble(data, k));
            }
        }
    }
}

/// A digit is a seven-bit character that reads back as its value.
proof fn lemma_hex_digit(d: nat)
    requires
        d < 16,
    ensures
        '\0' <= hex_digit(d) <= '\u{7f}',
        is_hex(hex_digit(d) as u8),
        hex_value(hex_digit(d) as u8) == d,
{
}

/// Decoding the hexadecimal text of some bytes gives the bytes.
pub proof fn law_hex_roundtrip(data: Seq<u8>)
    ensures
        hex_decoded(vstd::utf8::encode_utf8(hex_text(data))) == Ok::<Seq<u8>, HexError>(data),
{
    let t = hex_text(data);
    let b = vstd::utf8::encode_utf8(t);
    lemma_hex_text(data);
    assert forall|k: int| 0 <= k < t.len() implies '\0' <= #[trigger] t[k] <= '\u{7f}' by {
        lemma_hex_digit(nibble(data, k));
    }
    vstd::utf8::is_ascii_chars_encode_utf8(t);
    assert forall|k: int| 0 <= k < b.len() implies is_hex(#[trigger] b[k]) && hex_value(b[k])
        == nibble(data, k) by {
        assert(t[k] as u8 == b[k]);
        lemma_hex_digit(nibble(data, k));
    }
    assert forall|i: int| 0 <= i < data.len() implies #[trigger] hex_bytes(b)[i] == data[i] by {
        assert(hex_value(b[2 * i]) == nibble(data, 2 * i));
        assert(hex_value(b[2 * i + 1]) == nibble(data, 2 * i + 1));
    }
    assert(hex_bytes(b) =~= data);
}

/// Each byte has two digits, the high-order one first, and the digits are 0 to 9 and a to f.
pub proof fn law_hex_digits(data: Seq<u8>, i: int)
    requires
        0 <= i < data.len(),
    ensures
        ({
            let t = hex_text(data);
            let digits = "0123456789abcdef"@;
            &&& t.len() == 2 * data.len()
            &&& t[2 * i] == digits[data[i] as int / 16]
            &&& t[2 * i + 1] == digits[data[i] as int % 16]
        }),
{
    reveal_strlit("0123456789abcdef");
    lemma_hex_text(data);
    assert(hex_text(data)[2 * i] == hex_digit(nibble(data, 2 * i)));
    assert(hex_text(data)[2 * i + 1] == hex_digit(nibble(data, 2 * i + 1)));
}

/// A text is taken for bytes exactly where it has an even number of bytes and each of them
/// is a digit, in either case.
pub proof fn law_hex_taken(text: Seq<u8>)
    ensures
        hex_decoded(text) is Ok <==> text.len() % 2 == 0 && forall|i: int|
            0 <= i < text.len() ==> (48 <= #[trigger] text[i] <= 57 || 65 <= text[i] <= 70 || 97
                <= text[i] <= 102),
        hex_decoded(text) matches Ok(b) ==> 2 * b.len() == text.len(),
{
    if text.len() % 2 == 0 {
        if forall|i: int|
            0 <= i < text.len() ==> (48 <= #[trigger] text[i] <= 57 || 65 <= text[i] <= 70 || 97
                <= text[i] <= 102) {
            assert forall|i: int| 0 <= i < text.len() implies is_hex(#[trigger] text[i]) by {}
        }
        if hex_decoded(text) is Ok {
            assert forall|i: int| 0 <= i < text.len() implies (48 <= #[trigger] text[i] <= 57
                || 65 <= text[i] <= 70 || 97 <= text[i] <= 102) by {
                assert(is_hex(text[i]));
            }
        }
    }
}

} // verus!
