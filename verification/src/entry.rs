//! A record of the log: a mark (set or delete), the byte lengths of its key
//! and value, and the key and value themselves.
//!
//! On disk a record is a ten-byte header (the mark as a big-endian `u16`,
//! then the two lengths as big-endian `u32`s) followed by the UTF-8 bytes of
//! the key and of the value.
use vstd::prelude::*;
use vstd::utf8::*;
use crate::errors::{KvsError, EntryError};

verus! {

broadcast use {encode_utf8_valid_utf8, encode_utf8_decode_utf8};

/// The size of a record's header in bytes.
pub const HEADERSIZE: u32 = 10;

/// The mark of a record that sets a key.
pub const SET: u16 = 0;

/// The mark of a record that deletes a key.
pub const DEL: u16 = 1;

/// A record of the log.
#[derive(PartialEq, Debug)]
pub struct Entry {
    pub mark: u16,
    pub key_size: u32,
    pub value_size: u32,
    pub key: String,
    pub value: String,
}

/// The mathematical value of an [`Entry`].
pub struct EntryView {
    pub mark: u16,
    pub key_size: u32,
    pub value_size: u32,
    pub key: Seq<char>,
    pub value: Seq<char>,
}

impl View for Entry {
    type V = EntryView;

    open spec fn view(&self) -> EntryView {
        EntryView {
            mark: self.mark,
            key_size: self.key_size,
            value_size: self.value_size,
            key: self.key@,
            value: self.value@,
        }
    }
}

/// The UTF-8 bytes of a string.
pub open spec fn utf8_bytes(s: Seq<char>) -> Seq<u8> {
    encode_utf8(s)
}

/// The two big-endian bytes of `x`.
pub open spec fn be16_bytes(x: u16) -> Seq<u8> {
    seq![(x / 256) as u8, (x % 256) as u8]
}

/// The four big-endian bytes of `x`.
pub open spec fn be32_bytes(x: u32) -> Seq<u8> {
    seq![
        (x / 0x100_0000) as u8,
        ((x / 0x1_0000) % 256) as u8,
        ((x / 256) % 256) as u8,
        (x % 256) as u8,
    ]
}

/// The `u16` whose big-endian bytes stand at `b[i]`, `b[i + 1]`.
pub open spec fn be16_at(b: Seq<u8>, i: int) -> u16 {
    (b[i] * 256 + b[i + 1]) as u16
}

/// The `u32` whose big-endian bytes stand at `b[i]` .. `b[i + 3]`.
pub open spec fn be32_at(b: Seq<u8>, i: int) -> u32 {
    (b[i] * 0x100_0000 + b[i + 1] * 0x1_0000 + b[i + 2] * 256 + b[i + 3]) as u32
}

impl EntryView {
    /// The record that `Entry::new` builds: the sizes are the byte lengths of
    /// the key and the value (as `usize`), taken modulo 2^32.
    pub open spec fn new(mark: u16, key: Seq<char>, value: Seq<char>) -> EntryView {
        EntryView {
            mark,
            key_size: (utf8_bytes(key).len() as usize) as u32,
            value_size: (utf8_bytes(value).len() as usize) as u32,
            key,
            value,
        }
    }

    /// The number of bytes the record takes on disk, by its header.
    pub open spec fn size(self) -> int {
        self.key_size + self.value_size + HEADERSIZE
    }

    /// The sizes in the header are the byte lengths of the key and value.
    pub open spec fn sizes_match(self) -> bool {
        &&& self.key_size == utf8_bytes(self.key).len()
        &&& self.value_size == utf8_bytes(self.value).len()
    }

    /// The header of the record.
    pub open spec fn header(self) -> Seq<u8> {
        be16_bytes(self.mark) + be32_bytes(self.key_size) + be32_bytes(self.value_size)
    }

    /// The bytes that `Entry::encode` produces.
    pub open spec fn encoding(self) -> Seq<u8> {
        self.header() + utf8_bytes(self.key) + utf8_bytes(self.value)
    }
}

/// The big-endian bytes of a `u16` read back give it.
pub proof fn lemma_be16_roundtrip(x: u16)
    ensures
        be16_at(be16_bytes(x), 0) == x,
{
    let b = be16_bytes(x);
    assert(b[0] == x / 256);
    assert(b[1] == x % 256);
}

/// The big-endian bytes of a `u32` read back give it.
pub proof fn lemma_be32_roundtrip(x: u32)
    ensures
        be32_at(be32_bytes(x), 0) == x,
{
    let b = be32_bytes(x);
    assert(b[0] == x / 0x100_0000);
    assert(b[1] == (x / 0x1_0000) % 256);
    assert(b[2] == (x / 256) % 256);
    assert(b[3] == x % 256);
    assert(x / 0x100_0000 * 0x100_0000 + (x / 0x1_0000) % 256 * 0x1_0000 + (x / 256) % 256 * 256
        + x % 256 == x) by (nonlinear_arith);
}

/// Bytes that equal the big-endian bytes of `x` at `i` read back as `x`.
pub proof fn lemma_be16_at(b: Seq<u8>, i: int, x: u16)
    requires
        0 <= i,
        i + 2 <= b.len(),
        b[i] == be16_bytes(x)[0],
        b[i + 1] == be16_bytes(x)[1],
    ensures
        be16_at(b, i) == x,
{
    lemma_be16_roundtrip(x);
}

/// Bytes that equal the big-endian bytes of `x` at `i` read back as `x`.
pub proof fn lemma_be32_at(b: Seq<u8>, i: int, x: u32)
    requires
        0 <= i,
        i + 4 <= b.len(),
        b[i] == be32_bytes(x)[0],
        b[i + 1] == be32_bytes(x)[1],
        b[i + 2] == be32_bytes(x)[2],
        b[i + 3] == be32_bytes(x)[3],
    ensures
        be32_at(b, i) == x,
{
    lemma_be32_roundtrip(x);
}

/// Appends the big-endian bytes of `x`.
fn push_be16(out: &mut Vec<u8>, x: u16)
    ensures
        final(out)@ == old(out)@ + be16_bytes(x),
{
    out.push((x / 256) as u8);
    out.push((x % 256) as u8);
    assert(final(out)@ =~= old(out)@ + be16_bytes(x));
}

/// Appends the big-endian bytes of `x`.
fn push_be32(out: &mut Vec<u8>, x: u32)
    ensures
        final(out)@ == old(out)@ + be32_bytes(x),
{
    out.push((x / 0x100_0000) as u8);
    out.push(((x / 0x1_0000) % 256) as u8);
    out.push(((x / 256) % 256) as u8);
    out.push((x % 256) as u8);
    assert(final(out)@ =~= old(out)@ + be32_bytes(x));
}

/// Appends the bytes of `s`.
fn push_bytes(out: &mut Vec<u8>, s: &str)
    ensures
        final(out)@ == old(out)@ + utf8_bytes(s@),
{
    let b = s.as_bytes();
    let mut i: usize = 0;
    while i < b.len()
        invariant
            0 <= i <= b@.len(),
            b@ == utf8_bytes(s@),
            out@ == old(out)@ + b@.subrange(0, i as int),
        decreases b@.len() - i,
    {
        out.push(b[i]);
        i = i + 1;
        assert(out@ =~= old(out)@ + b@.subrange(0, i as int));
    }
    assert(b@.subrange(0, i as int) =~= b@);
}

impl Clone for Entry {
    fn clone(&self) -> (r: Self)
        ensures
            r == *self,
    {
        Entry {
            mark: self.mark,
            key_size: self.key_size,
            value_size: self.value_size,
            key: self.key.clone(),
            value: self.value.clone(),
        }
    }
}

/// What `Entry::decode` gives for a header: its mark and sizes, with an empty
/// key and value.
pub open spec fn decoded(b: Seq<u8>) -> EntryView {
    EntryView {
        mark: be16_at(b, 0),
        key_size: be32_at(b, 2),
        value_size: be32_at(b, 6),
        key: Seq::empty(),
        value: Seq::empty(),
    }
}

impl Entry {
    /// A record with the given mark, key and value; its sizes are the byte
    /// lengths of the key and value, taken modulo 2^32.
    pub fn new(mark: u16, key: String, value: String) -> (e: Self)
        ensures
            e@ == EntryView::new(mark, key@, value@),
    {
        let key_size = #[verifier::truncate] (key.as_str().len() as u32);
        let value_size = #[verifier::truncate] (value.as_str().len() as u32);
        Entry { mark, key_size, value_size, key, value }
    }

    /// The number of bytes the record takes on disk, by its header.
    pub fn size(&self) -> (n: u32)
        requires
            self@.size() <= u32::MAX,
        ensures
            n == self@.size(),
    {
        self.key_size + self.value_size + HEADERSIZE
    }

    /// The bytes of the record: the header, then the key, then the value.
    /// A record whose header gives no key and no value is refused.
    pub fn encode(entry: Entry) -> (r: Result<Vec<u8>, KvsError>)
        requires
            entry@.size() <= u32::MAX,
        ensures
            match r {
                Ok(bytes) => entry@.size() > HEADERSIZE && bytes@ == entry@.encoding(),
                Err(e) => entry@.size() <= HEADERSIZE && e is EntryError,
            },
    {
        if entry.size() <= HEADERSIZE {
            return Err(KvsError::EntryError(EntryError::Illegal));
        }
        let mut ret: Vec<u8> = Vec::new();
        push_be16(&mut ret, entry.mark);
        push_be32(&mut ret, entry.key_size);
        push_be32(&mut ret, entry.value_size);
        push_bytes(&mut ret, entry.key.as_str());
        push_bytes(&mut ret, entry.value.as_str());
        assert(ret@ =~= entry@.encoding());
        Ok(ret)
    }

    /// The record whose header is the first ten bytes of `buf`, with an
    /// empty key and value.
    pub fn decode(buf: Vec<u8>) -> (e: Self)
        requires
            buf@.len() >= HEADERSIZE,
        ensures
            e@ == decoded(buf@),
    {
        let mark = ((buf[0] as u32) * 256 + (buf[1] as u32)) as u16;
        let key_size = (buf[2] as u32) * 0x100_0000 + (buf[3] as u32) * 0x1_0000
            + (buf[4] as u32) * 256 + (buf[5] as u32);
        let value_size = (buf[6] as u32) * 0x100_0000 + (buf[7] as u32) * 0x1_0000
            + (buf[8] as u32) * 256 + (buf[9] as u32);
        Entry { mark, key_size, value_size, key: String::new(), value: String::new() }
    }
}

} // verus!
