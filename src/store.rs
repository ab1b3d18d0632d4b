//! Where a loose object lives in the store, by its identifier.
use vstd::prelude::*;
use vstd::slice::slice_subrange;

use crate::error::ObjectError;
use crate::sha::encode_hex;
use crate::sha::all_hex_digits;
use crate::sha::hex_encode;
use crate::sha::sha_from_hex_bytes;
use crate::sha::Sha;
use vstd::string::StrSliceExecFns;
use vstd::utf8::encode_scalar;
use vstd::utf8::encode_utf8;
use vstd::utf8::has_width_1_encoding;
use vstd::utf8::is_ascii_chars;
use vstd::utf8::is_ascii_chars_encode_utf8;
use vstd::utf8::leading_byte_width_2;
use vstd::utf8::leading_byte_width_3;
use vstd::utf8::leading_byte_width_4;

verus! {

/// A request to show one object, named by its hexadecimal identifier.
pub struct CatFile {
    pub object_name: String,
}

/// The directory and file names of a loose object under `objects/`: the
/// first byte of the identifier in hex, then the other nineteen.
pub open spec fn loose_location(id: Seq<u8>) -> (Seq<char>, Seq<char>) {
    (hex_encode(id.subrange(0, 1)), hex_encode(id.subrange(1, id.len() as int)))
}

/// The directory and file names under `objects/` that hold `sha` as a loose object.
pub fn find_object_in_objects(sha: &Sha) -> (r: (String, String))
    ensures
        (r.0@, r.1@) == loose_location(sha@),
{
    let bytes = sha.as_bytes();
    let dir = encode_hex(slice_subrange(bytes, 0, 1));
    let file = encode_hex(slice_subrange(bytes, 1, bytes.len()));
    (dir, file)
}

/// Packed storage is not read: no object is ever found there.
pub fn find_object_in_pack(sha: &Sha) -> (r: Option<(String, String)>)
    ensures
        r is None,
{
    None
}

/// Text whose UTF-8 bytes are all below 128 is ASCII.
proof fn lemma_ascii_bytes(c: Seq<char>)
    requires
        forall|i: int| 0 <= i < encode_utf8(c).len() ==> #[trigger] encode_utf8(c)[i] < 128,
    ensures
        is_ascii_chars(c),
    decreases c.len(),
{
    if c.len() > 0 {
        let x = c[0] as u32;
        let e = encode_utf8(c);
        let head = encode_scalar(x);
        let tail = c.drop_first();
        assert(e == head + encode_utf8(tail));
        assert(e[0] == head[0]);
        assert(has_width_1_encoding(x)) by {
            if !has_width_1_encoding(x) {
                assert(leading_byte_width_2(x) >= 128 && leading_byte_width_3(x) >= 128
                    && leading_byte_width_4(x) >= 128) by (bit_vector);
                assert(head[0] >= 128);
            }
        }
        assert forall|i: int| 0 <= i < encode_utf8(tail).len() implies #[trigger] encode_utf8(
            tail,
        )[i] < 128 by {
            assert(encode_utf8(tail)[i] == e[head.len() + i]);
        }
        lemma_ascii_bytes(tail);
        assert forall|i: int| 0 <= i < c.len() implies '\0' <= #[trigger] c[i] <= '\u{7f}' by {
            if i > 0 {
                assert(c[i] == tail[i - 1]);
            } else {
                vstd::utf8::char_u32_cast(c[0], x);
            }
        }
    }
}

/// Text whose UTF-8 bytes are all hexadecimal digits is ASCII, one character per byte.
proof fn lemma_hex_text_is_ascii(c: Seq<char>)
    requires
        all_hex_digits(encode_utf8(c)),
    ensures
        is_ascii_chars(c),
        c.len() == encode_utf8(c).len(),
{
    lemma_ascii_bytes(c);
    is_ascii_chars_encode_utf8(c);
}

impl CatFile {
    /// The location of the named object among the loose objects: its first
    /// two characters, then the other 38, once the name has been checked to be
    /// 40 hexadecimal digits.
    pub fn object_location(&self) -> (r: Result<(String, String), ObjectError>)
        ensures
            match (r, sha_from_hex_bytes(encode_utf8(self.object_name@))) {
                (Ok((d, f)), Ok(id)) => d@ == self.object_name@.subrange(0, 2) && f@
                    == self.object_name@.subrange(2, 40),
                (Err(e), Err(g)) => e@ == g,
                _ => false,
            },
    {
        let name = self.object_name.as_str();
        match Sha::from_hex(name) {
            Ok(_) => {
                proof {
                    lemma_hex_text_is_ascii(name@);
                }
                let dir = name.substring_ascii(0, 2).to_owned();
                let file = name.substring_ascii(2, 40).to_owned();
                Ok((dir, file))
            },
            Err(e) => Err(e),
        }
    }
}

} // verus!
