//! Decoding of one inflated object: its header, then a flat payload or a
//! directory listing.
use vstd::prelude::*;
use vstd::slice::slice_to_vec;
use vstd::utf8::decode_utf8;
use vstd::string::StringSliceAdditionalSpecFns;
use vstd::utf8::decode_utf8_encode_utf8;
use vstd::utf8::valid_utf8;

use crate::buf_utils::lemma_split_until;
use crate::buf_utils::split_exact;
use crate::buf_utils::split_until;
use crate::buf_utils::BufUtils;
use crate::buf_utils::Cursor;
use crate::buf_utils::CursorError;
use crate::digits::parse_digits;
use crate::digits::parse_digits_spec;
use crate::error::EntryError;
use crate::error::HeaderField;
use crate::error::TreeError;
use crate::error::ObjectError;
use crate::error::ObjectErrorView;
use crate::sha::Sha;
use crate::sha::SHA_LEN;

verus! {

/// The mode that marks a nested directory in a listing.
pub const DIR_MODE: u32 = 0o40000;

/// What a directory-listing record refers to.
#[derive(Debug, Clone, Copy, PartialEq, Eq, Structural)]
pub enum TreeEntryType {
    Blob,
    Tree,
}

/// One record of a directory listing.
#[derive(Debug, PartialEq, Eq)]
pub struct TreeEntry {
    pub permissions: u32,
    pub entry_type: TreeEntryType,
    pub sha: Sha,
    pub filename: String,
}

/// A decoded object.
#[derive(Debug, PartialEq, Eq)]
pub enum Object {
    /// File content, verbatim.
    Blob(Vec<u8>),
    /// A directory listing, in on-disk order.
    Tree(Vec<TreeEntry>),
}

/// `TreeEntry` over mathematical values.
pub struct TreeEntryView {
    pub permissions: u32,
    pub entry_type: TreeEntryType,
    pub sha: Seq<u8>,
    pub filename: Seq<char>,
}

/// `Object` over mathematical values.
pub enum ObjectView {
    Blob(Seq<u8>),
    Tree(Seq<TreeEntryView>),
}

impl View for TreeEntry {
    type V = TreeEntryView;

    open spec fn view(&self) -> TreeEntryView {
        TreeEntryView {
            permissions: self.permissions,
            entry_type: self.entry_type,
            sha: self.sha@,
            filename: self.filename@,
        }
    }
}

impl View for Object {
    type V = ObjectView;

    open spec fn view(&self) -> ObjectView {
        match self {
            Object::Blob(b) => ObjectView::Blob(b@),
            Object::Tree(t) => ObjectView::Tree(t@.map_values(|e: TreeEntry| e@)),
        }
    }
}

/// The kind of record that a mode marks.
pub open spec fn entry_type_of(mode: u32) -> TreeEntryType {
    if mode == DIR_MODE {
        TreeEntryType::Tree
    } else {
        TreeEntryType::Blob
    }
}

/// A mode field's value: octal digits that fit in 32 bits.
pub open spec fn mode_spec(m: Seq<u8>) -> Option<u32> {
    match parse_digits_spec(m, 8) {
        Some(v) => if v <= u32::MAX {
            Some(v as u32)
        } else {
            None
        },
        None => None,
    }
}

/// One record `<octal mode> <name>\0<20 bytes>` at the start of `s`, and the
/// bytes after it.
#[verifier::opaque]
pub open spec fn entry_spec(s: Seq<u8>) -> Result<(TreeEntryView, Seq<u8>), EntryError> {
    match split_until(s, 32) {
        None => Err(EntryError::Cursor(CursorError::DelimiterNotFound)),
        Some((m, s1)) => if !valid_utf8(m) {
            Err(EntryError::Cursor(CursorError::InvalidText))
        } else {
            match mode_spec(m) {
                None => Err(EntryError::InvalidMode),
                Some(mode) => match split_until(s1, 0) {
                    None => Err(EntryError::Cursor(CursorError::DelimiterNotFound)),
                    Some((n, s2)) => if !valid_utf8(n) {
                        Err(EntryError::InvalidName)
                    } else {
                        match split_exact(s2, SHA_LEN as int) {
                            None => Err(EntryError::Cursor(CursorError::InsufficientBytes)),
                            Some((id, s3)) => Ok(
                                (
                                    TreeEntryView {
                                        permissions: mode,
                                        entry_type: entry_type_of(mode),
                                        sha: id,
                                        filename: decode_utf8(n),
                                    },
                                    s3,
                                ),
                            ),
                        }
                    },
                },
            }
        },
    }
}

/// A record, when one is read, leaves fewer bytes than there were.
pub proof fn lemma_entry_consumes(s: Seq<u8>)
    ensures
        entry_spec(s) matches Ok((e, rest)) ==> rest.len() + 23 <= s.len(),
{
    reveal(entry_spec);
    lemma_split_until(s, 32);
    if let Some((m, s1)) = split_until(s, 32) {
        lemma_split_until(s1, 0);
        if let Some((n, s2)) = split_until(s1, 0) {
            if let Some((id, s3)) = split_exact(s2, SHA_LEN as int) {
                if mode_spec(m) is Some {
                    assert(m.len() > 0);
                }
            }
        }
    }
}

#[via_fn]
proof fn tree_spec_decreases(s: Seq<u8>) {
    lemma_entry_consumes(s);
}

/// A listing: records back to back up to the end of `s`. A failure gives the
/// offset in `s` of the record that failed.
pub open spec fn tree_spec(s: Seq<u8>) -> Result<Seq<TreeEntryView>, (int, EntryError)>
    decreases s.len(),
    via tree_spec_decreases
{
    if s.len() == 0 {
        Ok(Seq::empty())
    } else {
        match entry_spec(s) {
            Err(e) => Err((0, e)),
            Ok((e, rest)) => match tree_spec(rest) {
                Ok(es) => Ok(seq![e] + es),
                Err((k, f)) => Err((k + (s.len() - rest.len()), f)),
            },
        }
    }
}

/// The type tag of a flat object.
pub open spec fn blob_tag() -> Seq<u8> {
    seq![98u8, 108u8, 111u8, 98u8]
}

/// The type tag of a directory listing.
pub open spec fn tree_tag() -> Seq<u8> {
    seq![116u8, 114u8, 101u8, 101u8]
}

/// A whole object: `<tag> <decimal size>\0` and a body of exactly that size.
#[verifier::opaque]
pub open spec fn object_spec(b: Seq<u8>) -> Result<ObjectView, ObjectErrorView> {
    match split_until(b, 32) {
        None => Err(ObjectErrorView::Header(HeaderField::Tag, CursorError::DelimiterNotFound)),
        Some((tag, b1)) => if !valid_utf8(tag) {
            Err(ObjectErrorView::Header(HeaderField::Tag, CursorError::InvalidText))
        } else if tag != blob_tag() && tag != tree_tag() {
            Err(ObjectErrorView::UnknownObjectType(decode_utf8(tag)))
        } else {
            match split_until(b1, 0) {
                None => Err(ObjectErrorView::Header(HeaderField::Size, CursorError::DelimiterNotFound)),
                Some((size, body)) => if !valid_utf8(size) {
                    Err(ObjectErrorView::Header(HeaderField::Size, CursorError::InvalidText))
                } else {
                    match parse_digits_spec(size, 10) {
                        None => Err(ObjectErrorView::MalformedHeader),
                        Some(n) => {
                            if n != body.len() {
                                Err(ObjectErrorView::SizeMismatch)
                            } else if tag == blob_tag() {
                                Ok(ObjectView::Blob(body))
                            } else {
                                match tree_spec(body) {
                                    Ok(es) => Ok(ObjectView::Tree(es)),
                                    Err((k, e)) => Err(ObjectErrorView::IncompleteTreeEntry(k, e)),
                                }
                            }
                        },
                    }
                },
            }
        },
    }
}

/// Whether two byte strings are equal.
fn bytes_equal(a: &[u8], b: &[u8]) -> (r: bool)
    ensures
        r == (a@ == b@),
{
    if a.len() != b.len() {
        return false;
    }
    let mut i: usize = 0;
    while i < a.len()
        invariant
            a@.len() == b@.len(),
            0 <= i <= a@.len(),
            forall|k: int| 0 <= k < i ==> a@[k] == b@[k],
        decreases a@.len() - i,
    {
        if a[i] != b[i] {
            return false;
        }
        i = i + 1;
    }
    assert(a@ =~= b@);
    true
}

/// An identifier from exactly 20 bytes.
fn sha_from_slice(id: &[u8]) -> (r: Sha)
    requires
        id@.len() == SHA_LEN,
    ensures
        r@ == id@,
{
    let mut a: [u8; 20] = [0u8; 20];
    let mut i: usize = 0;
    while i < SHA_LEN
        invariant
            id@.len() == SHA_LEN,
            0 <= i <= SHA_LEN,
            forall|k: int| 0 <= k < i ==> a@[k] == id@[k],
        decreases SHA_LEN - i,
    {
        a[i] = id[i];
        i = i + 1;
    }
    assert(a@ =~= id@);
    Sha(a)
}

/// The bytes of a text field read by the cursor are the field itself.
proof fn lemma_text_bytes(s: &str, field: Seq<u8>)
    requires
        valid_utf8(field),
        s@ == decode_utf8(field),
    ensures
        s.spec_bytes() == field,
{
    decode_utf8_encode_utf8(field);
}

/// Reads one record `<octal mode> <name>\0<20 bytes>` and moves the cursor past it.
pub fn parse_tree_entry<'a>(b: &mut Cursor<'a>) -> (r: Result<TreeEntry, EntryError>)
    requires
        old(b).well_formed(),
    ensures
        final(b).well_formed(),
        final(b).buffer() == old(b).buffer(),
        match (r, entry_spec(old(b).remaining())) {
            (Ok(e), Ok((v, rest))) => e@ == v && final(b).remaining() == rest
                && final(b).offset() == old(b).offset() + old(b).remaining().len() - rest.len(),
            (Err(e), Err(f)) => e == f,
            _ => false,
        },
{
    let ghost s = b.remaining();
    proof {
        reveal(entry_spec);
        lemma_split_until(s, 32);
    }
    let mode_text = match b.get_str_until(32) {
        Ok(t) => t,
        Err(e) => {
            return Err(EntryError::Cursor(e));
        },
    };
    let ghost s1 = b.remaining();
    proof {
        let (m, rest) = split_until(s, 32)->0;
        lemma_text_bytes(mode_text, m);
        lemma_split_until(s1, 0);
    }
    let permissions: u32 = match parse_digits(mode_text.as_bytes(), 8) {
        Some(v) => {
            if v > u32::MAX as u64 {
                return Err(EntryError::InvalidMode);
            }
            v as u32
        },
        None => {
            return Err(EntryError::InvalidMode);
        },
    };
    let filename = match b.get_str_until(0) {
        Ok(t) => t.to_owned(),
        Err(CursorError::InvalidText) => {
            return Err(EntryError::InvalidName);
        },
        Err(e) => {
            return Err(EntryError::Cursor(e));
        },
    };
    let id = match b.get_n_exact(SHA_LEN) {
        Ok(id) => id,
        Err(e) => {
            return Err(EntryError::Cursor(e));
        },
    };
    let sha = sha_from_slice(id);
    let entry_type = if permissions == DIR_MODE {
        TreeEntryType::Tree
    } else {
        TreeEntryType::Blob
    };
    Ok(TreeEntry { permissions, entry_type, sha, filename })
}

/// Reads a whole listing: records back to back up to the end of `b`. A
/// failure names the offset in `b` at which the failing record starts.
pub fn parse_tree(b: &[u8]) -> (r: Result<Vec<TreeEntry>, TreeError>)
    ensures
        match (r, tree_spec(b@)) {
            (Ok(es), Ok(vs)) => es@.map_values(|e: TreeEntry| e@) == vs,
            (Err(e), Err((k, f))) => e.offset == k && e.error == f,
            _ => false,
        },
{
    let mut result: Vec<TreeEntry> = Vec::new();
    let mut cur = Cursor::new(b);
    while !cur.is_empty()
        invariant
            cur.well_formed(),
            cur.offset() + cur.remaining().len() == b@.len(),
            tree_spec(b@) == match tree_spec(cur.remaining()) {
                Ok(vs) => Ok(result@.map_values(|e: TreeEntry| e@) + vs),
                Err((k, f)) => Err((k + cur.offset(), f)),
            },
        decreases cur.remaining().len(),
    {
        let ghost before = cur.remaining();
        let ghost done = result@.map_values(|e: TreeEntry| e@);
        let start = cur.position();
        proof {
            lemma_entry_consumes(before);
        }
        match parse_tree_entry(&mut cur) {
            Ok(e) => {
                result.push(e);
                proof {
                    let (v, rest) = entry_spec(before)->Ok_0;
                    assert(result@.map_values(|e: TreeEntry| e@) =~= done.push(v));
                    if let Ok(vs) = tree_spec(rest) {
                        assert(done + (seq![v] + vs) =~= done.push(v) + vs);
                    }
                }
            },
            Err(e) => {
                return Err(TreeError { offset: start, error: e });
            },
        }
    }
    assert(result@.map_values(|e: TreeEntry| e@) + Seq::<TreeEntryView>::empty() =~= result@.map_values(
        |e: TreeEntry| e@,
    ));
    Ok(result)
}

/// Decodes one inflated object: a header `<tag> <decimal size>\0`, then a
/// body of exactly the declared size, kept whole for a `blob` and read as a
/// listing for a `tree`.
pub fn parse_object(buf: &[u8]) -> (r: Result<Object, ObjectError>)
    ensures
        match (r, object_spec(buf@)) {
            (Ok(o), Ok(v)) => o@ == v,
            (Err(e), Err(f)) => e@ == f,
            _ => false,
        },
{
    let mut cur = Cursor::new(buf);
    proof {
        reveal(object_spec);
        lemma_split_until(buf@, 32);
    }
    let object_type = match cur.get_str_until(32) {
        Ok(t) => t,
        Err(e) => {
            return Err(ObjectError::Header(HeaderField::Tag, e));
        },
    };
    let ghost b1 = cur.remaining();
    proof {
        let (tag, rest) = split_until(buf@, 32)->0;
        lemma_text_bytes(object_type, tag);
    }
    let blob: [u8; 4] = [98, 108, 111, 98];
    let tree: [u8; 4] = [116, 114, 101, 101];
    assert(blob@ =~= blob_tag());
    assert(tree@ =~= tree_tag());
    let is_blob = bytes_equal(object_type.as_bytes(), blob.as_slice());
    let is_tree = bytes_equal(object_type.as_bytes(), tree.as_slice());
    if !is_blob && !is_tree {
        return Err(ObjectError::UnknownObjectType(object_type.to_owned()));
    }
    let size_text = match cur.get_str_until(0) {
        Ok(t) => t,
        Err(e) => {
            return Err(ObjectError::Header(HeaderField::Size, e));
        },
    };
    proof {
        let (size, body) = split_until(b1, 0)->0;
        lemma_text_bytes(size_text, size);
    }
    let object_size = match parse_digits(size_text.as_bytes(), 10) {
        Some(n) => n,
        None => {
            return Err(ObjectError::MalformedHeader);
        },
    };
    let body = cur.rest();
    if object_size != body.len() as u64 {
        return Err(ObjectError::SizeMismatch);
    }
    if is_blob {
        Ok(Object::Blob(slice_to_vec(body)))
    } else {
        match parse_tree(body) {
            Ok(entries) => Ok(Object::Tree(entries)),
            Err(e) => Err(ObjectError::IncompleteTreeEntry(e)),
        }
    }
}

} // verus!
