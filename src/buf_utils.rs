//! A forward-only reader over a borrowed byte buffer.
use vstd::prelude::*;
use vstd::slice::slice_subrange;
use vstd::utf8::decode_utf8;
use vstd::utf8::valid_utf8;

verus! {

/// What can go wrong while reading fields from a buffer.
#[derive(Debug, Clone, Copy, PartialEq, Eq, Structural)]
pub enum CursorError {
    /// The delimiter does not occur in the rest of the buffer.
    DelimiterNotFound,
    /// Fewer bytes are left than were asked for.
    InsufficientBytes,
    /// A delimited field is not valid UTF-8.
    InvalidText,
}

/// The index of the first `delim` in `s`, if there is one.
#[verifier::opaque]
pub open spec fn first_index(s: Seq<u8>, delim: u8) -> Option<int> {
    if exists|i: int| 0 <= i < s.len() && s[i] == delim {
        Some(choose|i: int| 0 <= i < s.len() && s[i] == delim
            && forall|j: int| 0 <= j < i ==> s[j] != delim)
    } else {
        None
    }
}

/// `first_index` finds the earliest occurrence, and only finds one that is there.
pub proof fn lemma_first_index(s: Seq<u8>, delim: u8)
    ensures
        first_index(s, delim) matches Some(i) ==> 0 <= i < s.len() && s[i] == delim && forall|
            j: int,
        | 0 <= j < i ==> s[j] != delim,
        first_index(s, delim) is None ==> forall|j: int| 0 <= j < s.len() ==> s[j] != delim,
    decreases s.len(),
{
    reveal(first_index);
    if exists|i: int| 0 <= i < s.len() && s[i] == delim {
        if s[0] == delim {
            assert(0 <= 0 < s.len() && s[0] == delim && forall|j: int| 0 <= j < 0 ==> s[j] != delim);
        } else {
            let t = s.drop_first();
            let k = choose|i: int| 0 <= i < s.len() && s[i] == delim;
            assert(t[k - 1] == delim);
            lemma_first_index(t, delim);
            let w = first_index(t, delim)->0;
            assert(forall|j: int| 0 <= j < w + 1 ==> s[j] != delim) by {
                assert forall|j: int| 0 <= j < w + 1 implies s[j] != delim by {
                    if j > 0 {
                        assert(s[j] == t[j - 1]);
                    }
                }
            }
            assert(s[w + 1] == delim);
        }
    }
}

/// The two parts of a split, with the delimiter, make up the whole.
pub proof fn lemma_split_until(s: Seq<u8>, delim: u8)
    ensures
        split_until(s, delim) matches Some((a, b)) ==> a.len() + 1 + b.len() == s.len()
            && !a.contains(delim),
{
    lemma_first_index(s, delim);
}

/// Splitting `s` at its first `delim`: the bytes before it and the bytes after it.
pub open spec fn split_until(s: Seq<u8>, delim: u8) -> Option<(Seq<u8>, Seq<u8>)> {
    match first_index(s, delim) {
        Some(i) => Some((s.subrange(0, i), s.subrange(i + 1, s.len() as int))),
        None => None,
    }
}

/// Like `split_until`, with the field read as UTF-8 text.
pub open spec fn split_text_until(s: Seq<u8>, delim: u8) -> Result<
    (Seq<char>, Seq<u8>),
    CursorError,
> {
    match split_until(s, delim) {
        Some((field, rest)) => if valid_utf8(field) {
            Ok((decode_utf8(field), rest))
        } else {
            Err(CursorError::InvalidText)
        },
        None => Err(CursorError::DelimiterNotFound),
    }
}

/// The first `n` bytes of `s` and the bytes after them.
pub open spec fn split_exact(s: Seq<u8>, n: int) -> Option<(Seq<u8>, Seq<u8>)> {
    if 0 <= n <= s.len() {
        Some((s.subrange(0, n), s.subrange(n, s.len() as int)))
    } else {
        None
    }
}

/// Reads of delimited and fixed-length fields that narrow a buffer in place.
///
/// `buffer` is the whole underlying byte sequence and `offset` the position of
/// the next unread byte; every failed read leaves both unchanged.
pub trait BufUtils<'a>: Sized {
    spec fn buffer(&self) -> Seq<u8>;

    spec fn offset(&self) -> int;

    /// The bytes from `offset` to the end of `buffer`.
    spec fn remaining(&self) -> Seq<u8>;

    spec fn well_formed(&self) -> bool;

    /// Reads the field before the next `delim` as text and moves past the delimiter.
    fn get_str_until(&mut self, delim: u8) -> (r: Result<&'a str, CursorError>)
        requires
            old(self).well_formed(),
        ensures
            final(self).well_formed(),
            final(self).buffer() == old(self).buffer(),
            match (r, split_text_until(old(self).remaining(), delim)) {
                (Ok(s), Ok((text, rest))) => s@ == text && final(self).remaining() == rest
                    && final(self).offset() == old(self).offset() + old(self).remaining().len()
                    - rest.len() && final(self).offset() > old(self).offset(),
                (Err(e), Err(f)) => e == f && final(self).offset() == old(self).offset()
                    && final(self).remaining() == old(self).remaining(),
                _ => false,
            },
    ;

    /// Reads the bytes before the next `delim` and moves past the delimiter.
    fn get_until(&mut self, delim: u8) -> (r: Result<&'a [u8], CursorError>)
        requires
            old(self).well_formed(),
        ensures
            final(self).well_formed(),
            final(self).buffer() == old(self).buffer(),
            match (r, split_until(old(self).remaining(), delim)) {
                (Ok(s), Some((field, rest))) => s@ == field && final(self).remaining() == rest
                    && final(self).offset() == old(self).offset() + s@.len() + 1
                    && final(self).offset() > old(self).offset(),
                (Err(e), None) => e == CursorError::DelimiterNotFound && final(self).offset()
                    == old(self).offset() && final(self).remaining() == old(self).remaining(),
                _ => false,
            },
    ;

    /// Reads the next `n` bytes.
    fn get_n_exact(&mut self, n: usize) -> (r: Result<&'a [u8], CursorError>)
        requires
            old(self).well_formed(),
        ensures
            final(self).well_formed(),
            final(self).buffer() == old(self).buffer(),
            match (r, split_exact(old(self).remaining(), n as int)) {
                (Ok(s), Some((field, rest))) => s@ == field && final(self).remaining() == rest
                    && final(self).offset() == old(self).offset() + n,
                (Err(e), None) => e == CursorError::InsufficientBytes && final(self).offset()
                    == old(self).offset() && final(self).remaining() == old(self).remaining(),
                _ => false,
            },
    ;
}

/// A position in a borrowed byte buffer.
pub struct Cursor<'a> {
    data: &'a [u8],
    pos: usize,
}

/// Relies on `std::str::from_utf8`: it accepts exactly the valid UTF-8
/// sequences, and the text it returns is made of the same bytes.
#[verifier::external_body]
fn utf8_text<'b>(b: &'b [u8]) -> (r: Option<&'b str>)
    ensures
        r is Some <==> valid_utf8(b@),
        r matches Some(s) ==> s@ == decode_utf8(b@),
{
    std::str::from_utf8(b).ok()
}

impl<'a> Cursor<'a> {
    /// A cursor at the start of `data`.
    pub fn new(data: &'a [u8]) -> (r: Cursor<'a>)
        ensures
            r.well_formed(),
            r.buffer() == data@,
            r.offset() == 0,
            r.remaining() == data@,
    {
        Cursor { data, pos: 0 }
    }

    /// The number of bytes read so far.
    pub fn position(&self) -> (r: usize)
        requires
            self.well_formed(),
        ensures
            r == self.offset(),
    {
        self.pos
    }

    /// The unread bytes.
    pub fn rest(&self) -> (r: &'a [u8])
        requires
            self.well_formed(),
        ensures
            r@ == self.remaining(),
    {
        slice_subrange(self.data, self.pos, self.data.len())
    }

    /// Whether every byte has been read.
    pub fn is_empty(&self) -> (r: bool)
        requires
            self.well_formed(),
        ensures
            r <==> self.remaining().len() == 0,
    {
        self.pos == self.data.len()
    }

    /// The number of unread bytes.
    pub fn remaining_len(&self) -> (r: usize)
        requires
            self.well_formed(),
        ensures
            r == self.remaining().len(),
    {
        self.data.len() - self.pos
    }
}

impl<'a> BufUtils<'a> for Cursor<'a> {
    closed spec fn buffer(&self) -> Seq<u8> {
        self.data@
    }

    closed spec fn offset(&self) -> int {
        self.pos as int
    }

    closed spec fn remaining(&self) -> Seq<u8> {
        self.data@.subrange(self.pos as int, self.data@.len() as int)
    }

    closed spec fn well_formed(&self) -> bool {
        self.pos <= self.data@.len()
    }

    fn get_str_until(&mut self, delim: u8) -> (r: Result<&'a str, CursorError>) {
        proof {
            lemma_split_until(self.remaining(), delim);
        }
        let start = self.pos;
        match self.get_until(delim) {
            Ok(field) => match utf8_text(field) {
                Some(s) => Ok(s),
                None => {
                    self.pos = start;
                    Err(CursorError::InvalidText)
                },
            },
            Err(e) => Err(e),
        }
    }

    fn get_until(&mut self, delim: u8) -> (r: Result<&'a [u8], CursorError>) {
        let data = self.data;
        let start = self.pos;
        let ghost rest = self.remaining();
        let mut i: usize = start;
        while i < data.len()
            invariant
                start <= i <= data@.len(),
                self.data == data,
                self.pos == start,
                old(self).data == data,
                old(self).pos == start,
                rest == data@.subrange(start as int, data@.len() as int),
                forall|k: int| start <= k < i ==> data@[k] != delim,
            decreases data@.len() - i,
        {
            if data[i] == delim {
                let field = slice_subrange(data, start, i);
                proof {
                    reveal(first_index);
                    let n = i - start;
                    assert(rest[n] == delim);
                    assert(forall|j: int| 0 <= j < n ==> rest[j] != delim);
                    let c = first_index(rest, delim)->0;
                    assert(c == n) by {
                        if c < n {
                            assert(rest[c] != delim);
                        } else if c > n {
                            assert(rest[n] != delim);
                        }
                    }
                    assert(field@ =~= rest.subrange(0, n));
                }
                self.pos = i + 1;
                assert(self.remaining() =~= rest.subrange(i - start + 1, rest.len() as int));
                return Ok(field);
            }
            i = i + 1;
        }
        proof {
            reveal(first_index);
            assert forall|j: int| 0 <= j < rest.len() implies rest[j] != delim by {
                assert(rest[j] == data@[start + j]);
            }
        }
        Err(CursorError::DelimiterNotFound)
    }

    fn get_n_exact(&mut self, n: usize) -> (r: Result<&'a [u8], CursorError>) {
        if n <= self.data.len() - self.pos {
            let field = slice_subrange(self.data, self.pos, self.pos + n);
            let ghost rest = self.remaining();
            assert(field@ =~= rest.subrange(0, n as int));
            self.pos = self.pos + n;
            assert(self.remaining() =~= rest.subrange(n as int, rest.len() as int));
            Ok(field)
        } else {
            Err(CursorError::InsufficientBytes)
        }
    }
}

} // verus!
