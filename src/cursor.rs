use vstd::prelude::*;
use vstd::slice::{slice_subrange, slice_to_vec};
use vstd::utf8::{decode_utf8, valid_utf8};

use crate::error::DecodeError;

verus! {

/// The big-endian value of two bytes.
pub open spec fn be_u16(hi: u8, lo: u8) -> u16 {
    (256 * hi + lo) as u16
}

/// Reading one byte at `pos`: the byte and the position after it.
pub open spec fn spec_read_u8(b: Seq<u8>, pos: int) -> Result<(u8, int), DecodeError> {
    if 0 <= pos && pos + 1 <= b.len() {
        Ok((b[pos], pos + 1))
    } else {
        Err(DecodeError::UnexpectedEof)
    }
}

/// Reading a big-endian `u16` at `pos`.
pub open spec fn spec_read_u16(b: Seq<u8>, pos: int) -> Result<(u16, int), DecodeError> {
    if 0 <= pos && pos + 2 <= b.len() {
        Ok((be_u16(b[pos], b[pos + 1]), pos + 2))
    } else {
        Err(DecodeError::UnexpectedEof)
    }
}

/// Reading a string at `pos`: a big-endian `u16` length, then that many
/// bytes of UTF-8.
pub open spec fn spec_read_string(b: Seq<u8>, pos: int) -> Result<(Seq<char>, int), DecodeError> {
    match spec_read_u16(b, pos) {
        Err(e) => Err(e),
        Ok((n, p)) => {
            if p + n <= b.len() {
                let raw = b.subrange(p, p + n);
                if valid_utf8(raw) {
                    Ok((decode_utf8(raw), p + n))
                } else {
                    Err(DecodeError::InvalidEncoding)
                }
            } else {
                Err(DecodeError::UnexpectedEof)
            }
        },
    }
}

/// Relies on `String::from_utf8`: it succeeds exactly on valid UTF-8, and the
/// string then holds the characters that the bytes encode.
#[verifier::external_body]
fn string_from_utf8(b: Vec<u8>) -> (r: Option<String>)
    ensures
        r is Some <==> valid_utf8(b@),
        r matches Some(s) ==> s@ == decode_utf8(b@),
{
    String::from_utf8(b).ok()
}

/// A forward-only read position over an owned byte buffer.
pub struct ByteCursor {
    data: Vec<u8>,
    pos: usize,
}

impl ByteCursor {
    /// The bytes read over.
    pub closed spec fn bytes(&self) -> Seq<u8> {
        self.data@
    }

    /// The offset of the next byte to read.
    pub closed spec fn position(&self) -> int {
        self.pos as int
    }

    pub closed spec fn wf(&self) -> bool {
        self.pos <= self.data@.len()
    }

    /// A well-formed cursor stands within its bytes.
    pub proof fn lemma_in_bounds(&self)
        requires
            self.wf(),
        ensures
            0 <= self.position() <= self.bytes().len(),
    {
    }

    /// A cursor at the start of `data`.
    pub fn new(data: Vec<u8>) -> (c: ByteCursor)
        ensures
            c.wf(),
            c.bytes() == data@,
            c.position() == 0,
    {
        ByteCursor { data, pos: 0 }
    }

    /// The offset of the next byte to read.
    pub fn pos(&self) -> (r: usize)
        requires
            self.wf(),
        ensures
            r == self.position(),
    {
        self.pos
    }

    /// How many bytes are left to read.
    pub fn remaining(&self) -> (r: usize)
        requires
            self.wf(),
        ensures
            r == self.bytes().len() - self.position(),
    {
        self.data.len() - self.pos
    }
}

/// Reads one byte and moves past it. On error the cursor stays where it was.
pub fn read_u8(cursor: &mut ByteCursor) -> (r: Result<u8, DecodeError>)
    requires
        old(cursor).wf(),
    ensures
        final(cursor).wf(),
        final(cursor).bytes() == old(cursor).bytes(),
        match spec_read_u8(old(cursor).bytes(), old(cursor).position()) {
            Ok((v, p)) => r == Ok::<u8, DecodeError>(v) && final(cursor).position() == p,
            Err(e) => r == Err::<u8, DecodeError>(e) && final(cursor).position()
                == old(cursor).position(),
        },
{
    if cursor.pos < cursor.data.len() {
        let v = cursor.data[cursor.pos];
        cursor.pos = cursor.pos + 1;
        Ok(v)
    } else {
        Err(DecodeError::UnexpectedEof)
    }
}

/// Reads a big-endian `u16` and moves past it. On error the cursor stays
/// where it was.
pub fn read_u16(cursor: &mut ByteCursor) -> (r: Result<u16, DecodeError>)
    requires
        old(cursor).wf(),
    ensures
        final(cursor).wf(),
        final(cursor).bytes() == old(cursor).bytes(),
        match spec_read_u16(old(cursor).bytes(), old(cursor).position()) {
            Ok((v, p)) => r == Ok::<u16, DecodeError>(v) && final(cursor).position() == p,
            Err(e) => r == Err::<u16, DecodeError>(e) && final(cursor).position()
                == old(cursor).position(),
        },
{
    if cursor.data.len() - cursor.pos >= 2 {
        let hi = cursor.data[cursor.pos];
        let lo = cursor.data[cursor.pos + 1];
        cursor.pos = cursor.pos + 2;
        Ok((hi as u16) * 256 + (lo as u16))
    } else {
        Err(DecodeError::UnexpectedEof)
    }
}

/// Reads a length-prefixed UTF-8 string and moves past it. On error the
/// cursor stays where it was.
pub fn read_string(cursor: &mut ByteCursor) -> (r: Result<String, DecodeError>)
    requires
        old(cursor).wf(),
    ensures
        final(cursor).wf(),
        final(cursor).bytes() == old(cursor).bytes(),
        match spec_read_string(old(cursor).bytes(), old(cursor).position()) {
            Ok((s, p)) => r matches Ok(t) && t@ == s && final(cursor).position() == p,
            Err(e) => r == Err::<String, DecodeError>(e) && final(cursor).position()
                == old(cursor).position(),
        },
{
    let start = cursor.pos;
    let n = match read_u16(cursor) {
        Ok(n) => n as usize,
        Err(e) => return Err(e),
    };
    if cursor.data.len() - cursor.pos < n {
        cursor.pos = start;
        return Err(DecodeError::UnexpectedEof);
    }
    let p = cursor.pos;
    let raw = slice_to_vec(slice_subrange(cursor.data.as_slice(), p, p + n));
    match string_from_utf8(raw) {
        Some(s) => {
            cursor.pos = p + n;
            Ok(s)
        },
        None => {
            cursor.pos = start;
            Err(DecodeError::InvalidEncoding)
        },
    }
}

} // verus!
