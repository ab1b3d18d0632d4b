//! How objects are laid out as bytes, and the laws that tie the decoder to it.
use vstd::prelude::*;
use vstd::utf8::encode_utf8;
use vstd::utf8::encode_utf8_decode_utf8;
use vstd::utf8::encode_utf8_valid_utf8;
use vstd::utf8::is_ascii_chars;
use vstd::utf8::is_ascii_chars_encode_utf8;
use vstd::utf8::valid_utf8;

use crate::buf_utils::first_index;
use crate::buf_utils::lemma_first_index;
use crate::buf_utils::split_exact;
use crate::buf_utils::split_until;
use crate::digits::digits_of;
use crate::digits::lemma_digits_of;
use crate::digits::lemma_parse_digits_of;
use crate::object::blob_tag;
use crate::object::entry_spec;
use crate::object::entry_type_of;
use crate::object::mode_spec;
use crate::object::object_spec;
use crate::object::tree_spec;
use crate::object::tree_tag;
use crate::object::ObjectView;
use crate::object::TreeEntryView;
use crate::sha::SHA_LEN;

verus! {

/// The header `<tag> <decimal len>\0`.
pub open spec fn header_bytes(tag: Seq<u8>, len: nat) -> Seq<u8> {
    tag + seq![32u8] + digits_of(len, 10) + seq![0u8]
}

/// One record `<octal mode> <name>\0<id>`.
pub open spec fn entry_bytes(e: TreeEntryView) -> Seq<u8> {
    digits_of(e.permissions as nat, 8) + seq![32u8] + encode_utf8(e.filename) + seq![0u8] + e.sha
}

/// Records back to back, in order.
pub open spec fn tree_bytes(es: Seq<TreeEntryView>) -> Seq<u8>
    decreases es.len(),
{
    if es.len() == 0 {
        Seq::empty()
    } else {
        entry_bytes(es[0]) + tree_bytes(es.drop_first())
    }
}

/// A record that can be written: a 20-byte id, a kind that agrees with the
/// mode, and a name whose bytes hold no NUL.
pub open spec fn entry_writable(e: TreeEntryView) -> bool {
    &&& e.sha.len() == SHA_LEN
    &&& e.entry_type == entry_type_of(e.permissions)
    &&& !encode_utf8(e.filename).contains(0u8)
}

/// Splitting at a delimiter that `a` does not hold gives back `a` and what follows.
proof fn lemma_split_at(a: Seq<u8>, d: u8, b: Seq<u8>)
    requires
        !a.contains(d),
    ensures
        split_until(a + seq![d] + b, d) == Some((a, b)),
{
    let s = a + seq![d] + b;
    lemma_first_index(s, d);
    assert(s[a.len() as int] == d);
    let i = first_index(s, d)->0;
    if i < a.len() {
        assert(s[i] == a[i]);
    }
    assert(s.subrange(0, a.len() as int) =~= a);
    assert(s.subrange(a.len() as int + 1, s.len() as int) =~= b);
}

/// Bytes below 128 are valid UTF-8.
proof fn lemma_ascii_valid(b: Seq<u8>)
    requires
        forall|i: int| 0 <= i < b.len() ==> #[trigger] b[i] < 128,
    ensures
        valid_utf8(b),
{
    let c = Seq::new(b.len(), |i: int| b[i] as char);
    assert(is_ascii_chars(c));
    is_ascii_chars_encode_utf8(c);
    assert(encode_utf8(c) =~= b);
    encode_utf8_valid_utf8(c);
}

/// Digits hold neither delimiter and are valid text.
proof fn lemma_digits_text(n: nat, base: nat)
    requires
        2 <= base <= 10,
    ensures
        !digits_of(n, base).contains(32u8),
        !digits_of(n, base).contains(0u8),
        valid_utf8(digits_of(n, base)),
{
    lemma_digits_of(n, base);
    lemma_ascii_valid(digits_of(n, base));
}

/// A written record is read back whole, leaving what follows it.
proof fn lemma_entry_round_trip(e: TreeEntryView, rest: Seq<u8>)
    requires
        entry_writable(e),
    ensures
        entry_spec(entry_bytes(e) + rest) == Ok::<_, crate::error::EntryError>((e, rest)),
{
    reveal(entry_spec);
    let m = digits_of(e.permissions as nat, 8);
    let n = encode_utf8(e.filename);
    let s2 = e.sha + rest;
    let s1 = n + seq![0u8] + s2;
    lemma_digits_text(e.permissions as nat, 8);
    lemma_parse_digits_of(e.permissions as u64, 8);
    assert(mode_spec(m) == Some(e.permissions));
    assert(entry_bytes(e) + rest =~= m + seq![32u8] + s1);
    lemma_split_at(m, 32u8, s1);
    lemma_split_at(n, 0u8, s2);
    encode_utf8_valid_utf8(e.filename);
    encode_utf8_decode_utf8(e.filename);
    assert(split_exact(s2, SHA_LEN as int) == Some((e.sha, rest))) by {
        assert(s2.subrange(0, SHA_LEN as int) =~= e.sha);
        assert(s2.subrange(SHA_LEN as int, s2.len() as int) =~= rest);
    }
}

/// Writing records and reading the listing back gives the same records, in order.
pub proof fn lemma_tree_round_trip(es: Seq<TreeEntryView>)
    requires
        forall|i: int| 0 <= i < es.len() ==> entry_writable(#[trigger] es[i]),
    ensures
        tree_spec(tree_bytes(es)) == Ok::<_, (int, crate::error::EntryError)>(es),
    decreases es.len(),
{
    if es.len() > 0 {
        let t = es.drop_first();
        assert forall|i: int| 0 <= i < t.len() implies entry_writable(#[trigger] t[i]) by {
            assert(t[i] == es[i + 1]);
        }
        lemma_tree_round_trip(t);
        lemma_entry_round_trip(es[0], tree_bytes(t));
        assert(seq![es[0]] + t =~= es);
    } else {
        assert(es =~= Seq::<TreeEntryView>::empty());
    }
}

/// A flat payload written behind its header decodes to that payload.
pub proof fn lemma_blob_round_trip(p: Seq<u8>)
    requires
        p.len() <= u64::MAX,
    ensures
        object_spec(header_bytes(blob_tag(), p.len()) + p) == Ok::<_, crate::error::ObjectErrorView>(
            ObjectView::Blob(p),
        ),
{
    lemma_header(blob_tag(), p);
}

/// Records written behind a `tree` header decode to the same records, in order.
pub proof fn lemma_tree_object_round_trip(es: Seq<TreeEntryView>)
    requires
        forall|i: int| 0 <= i < es.len() ==> entry_writable(#[trigger] es[i]),
        tree_bytes(es).len() <= u64::MAX,
    ensures
        object_spec(header_bytes(tree_tag(), tree_bytes(es).len()) + tree_bytes(es)) == Ok::<
            _,
            crate::error::ObjectErrorView,
        >(ObjectView::Tree(es)),
{
    lemma_tree_round_trip(es);
    lemma_header(tree_tag(), tree_bytes(es));
}

/// The header of a supported tag is read back, leaving the body.
proof fn lemma_header(tag: Seq<u8>, body: Seq<u8>)
    requires
        tag == blob_tag() || tag == tree_tag(),
        body.len() <= u64::MAX,
    ensures
        object_spec(header_bytes(tag, body.len()) + body) == if tag == blob_tag() {
            Ok::<_, crate::error::ObjectErrorView>(ObjectView::Blob(body))
        } else {
            match tree_spec(body) {
                Ok(es) => Ok(ObjectView::Tree(es)),
                Err((k, e)) => Err(crate::error::ObjectErrorView::IncompleteTreeEntry(k, e)),
            }
        },
{
    reveal(object_spec);
    let d = digits_of(body.len(), 10);
    let b1 = d + seq![0u8] + body;
    lemma_digits_text(body.len(), 10);
    lemma_parse_digits_of(body.len() as u64, 10);
    assert(header_bytes(tag, body.len()) + body =~= tag + seq![32u8] + b1);
    assert(!tag.contains(32u8)) by {
        if tag.contains(32u8) {
            let k = choose|k: int| 0 <= k < tag.len() && tag[k] == 32u8;
        }
    }
    lemma_split_at(tag, 32u8, b1);
    lemma_split_at(d, 0u8, body);
    lemma_ascii_valid(tag);
}

} // verus!
