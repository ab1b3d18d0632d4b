//! The 20-byte identifier of a stored object, and its hexadecimal form.
use vstd::prelude::*;

use crate::error::ObjectError;
use crate::error::ObjectErrorView;
use vstd::string::StringSliceAdditionalSpecFns;
use vstd::utf8::encode_utf8;
use vstd::utf8::is_ascii_chars;
use vstd::utf8::is_ascii_chars_encode_utf8;

verus! {

/// The length of an identifier in bytes.
pub const SHA_LEN: usize = 20;

/// An ASCII hexadecimal digit, in either case.
pub open spec fn is_hex_digit(c: u8) -> bool {
    (48 <= c <= 57) || (65 <= c <= 70) || (97 <= c <= 102)
}

/// The value of a hexadecimal digit.
pub open spec fn hex_digit_value(c: u8) -> int {
    if 48 <= c <= 57 {
        c - 48
    } else if 65 <= c <= 70 {
        c - 55
    } else {
        c - 87
    }
}

/// Every byte of `d` is a hexadecimal digit.
pub open spec fn all_hex_digits(d: Seq<u8>) -> bool {
    forall|i: int| 0 <= i < d.len() ==> is_hex_digit(#[trigger] d[i])
}

/// The bytes that pairs of hexadecimal digits stand for, high digit first.
pub open spec fn hex_decode(d: Seq<u8>) -> Seq<u8> {
    Seq::new(
        d.len() / 2,
        |i: int| (hex_digit_value(d[2 * i]) * 16 + hex_digit_value(d[2 * i + 1])) as u8,
    )
}

/// The lower-case hexadecimal digit of `n`, for `0 <= n < 16`.
pub open spec fn hex_char(n: int) -> char {
    if n < 10 {
        (48 + n) as char
    } else {
        (87 + n) as char
    }
}

/// Two lower-case hexadecimal digits for each byte, high digit first.
pub open spec fn hex_encode(b: Seq<u8>) -> Seq<char> {
    Seq::new(
        2 * b.len(),
        |i: int|
            if i % 2 == 0 {
                hex_char(b[i / 2] as int / 16)
            } else {
                hex_char(b[i / 2] as int % 16)
            },
    )
}

/// The outcome of reading an identifier from the bytes of its hexadecimal text.
pub open spec fn sha_from_hex_bytes(d: Seq<u8>) -> Result<Seq<u8>, ObjectErrorView> {
    if d.len() != 2 * SHA_LEN {
        Err(ObjectErrorView::InvalidHexLength)
    } else if !all_hex_digits(d) {
        Err(ObjectErrorView::InvalidHexDigit)
    } else {
        Ok(hex_decode(d))
    }
}

/// The 20-byte content hash that addresses a stored object.
#[derive(Debug, PartialEq, Eq)]
pub struct Sha(pub [u8; 20]);

impl View for Sha {
    type V = Seq<u8>;

    open spec fn view(&self) -> Seq<u8> {
        self.0@
    }
}

/// Relies on `<[u8; 20] as hex::FromHex>::from_hex`, which goes through
/// `hex::decode_to_slice`: an odd length, then a length other than 40, is a
/// length error; otherwise each pair of digits (either case) becomes one byte,
/// high digit first, and any byte that is no hex digit is a character error.
#[verifier::external_body]
fn decode_hex_20(d: &[u8]) -> (r: Result<[u8; 20], ObjectError>)
    ensures
        match (r, sha_from_hex_bytes(d@)) {
            (Ok(a), Ok(v)) => a@ == v,
            (Err(e), Err(f)) => e@ == f,
            _ => false,
        },
{
    match <[u8; 20] as hex::FromHex>::from_hex(d) {
        Ok(a) => Ok(a),
        Err(hex::FromHexError::OddLength) => Err(ObjectError::InvalidHexLength),
        Err(hex::FromHexError::InvalidStringLength) => Err(ObjectError::InvalidHexLength),
        Err(hex::FromHexError::InvalidHexCharacter { .. }) => Err(ObjectError::InvalidHexDigit),
    }
}

/// Relies on `hex::encode`: two lower-case digits for each byte, high digit first.
#[verifier::external_body]
pub(crate) fn encode_hex(b: &[u8]) -> (r: String)
    ensures
        r@ == hex_encode(b@),
{
    hex::encode(b)
}

/// Each value below 16 has a digit whose value it is.
proof fn lemma_hex_char_digit(n: int)
    requires
        0 <= n < 16,
    ensures
        is_hex_digit(hex_char(n) as u8),
        hex_digit_value(hex_char(n) as u8) == n,
{
}

/// Reading back the hexadecimal text of any 20 bytes gives those bytes:
/// `from_hex` of the UTF-8 bytes of `to_hex`'s text is the identifier itself.
pub proof fn lemma_hex_round_trip(v: Seq<u8>)
    requires
        v.len() == SHA_LEN,
    ensures
        sha_from_hex_bytes(encode_utf8(hex_encode(v))) == Ok::<Seq<u8>, ObjectErrorView>(v),
{
    let t = hex_encode(v);
    assert forall|i: int| 0 <= i < t.len() implies '\0' <= #[trigger] t[i] <= '\u{7f}' by {
        lemma_hex_char_digit(v[i / 2] as int / 16);
        lemma_hex_char_digit(v[i / 2] as int % 16);
    }
    assert(is_ascii_chars(t));
    is_ascii_chars_encode_utf8(t);
    let d = encode_utf8(t);
    assert forall|i: int| 0 <= i < d.len() implies is_hex_digit(#[trigger] d[i]) by {
        assert(t[i] as u8 == d[i]);
        lemma_hex_char_digit(v[i / 2] as int / 16);
        lemma_hex_char_digit(v[i / 2] as int % 16);
    }
    assert forall|k: int| 0 <= k < v.len() implies #[trigger] hex_decode(d)[k] == v[k] by {
        assert(t[2 * k] as u8 == d[2 * k]);
        assert(t[2 * k + 1] as u8 == d[2 * k + 1]);
        assert((2 * k) / 2 == k && (2 * k) % 2 == 0);
        assert((2 * k + 1) / 2 == k && (2 * k + 1) % 2 == 1);
        lemma_hex_char_digit(v[k] as int / 16);
        lemma_hex_char_digit(v[k] as int % 16);
    }
    assert(hex_decode(d) =~= v);
}

impl Sha {
    /// Reads an identifier from 40 hexadecimal digits of either case.
    pub fn from_hex(hex_str: &str) -> (r: Result<Sha, ObjectError>)
        ensures
            match (r, sha_from_hex_bytes(hex_str.spec_bytes())) {
                (Ok(s), Ok(v)) => s@ == v,
                (Err(e), Err(f)) => e@ == f,
                _ => false,
            },
    {
        match decode_hex_20(hex_str.as_bytes()) {
            Ok(a) => Ok(Sha(a)),
            Err(e) => Err(e),
        }
    }

    /// The identifier as 40 lower-case hexadecimal digits.
    pub fn to_hex(&self) -> (r: String)
        ensures
            r@ == hex_encode(self@),
    {
        encode_hex(self.0.as_slice())
    }

    /// The identifier's bytes.
    pub fn as_bytes(&self) -> (r: &[u8])
        ensures
            r@ == self@,
    {
        self.0.as_slice()
    }
}

} // verus!
