//! The files of the store: the directory's data files (held as bytes in a
//! [`Disk`]), the active file, the immutable files, and the location of a
//! record ([`DataValue`]).
//!
//! Reading a record follows positioned reads on a regular file: a read at an
//! offset gives the bytes that the file holds there, as many as it holds,
//! and leaves the rest of the buffer zero; the next read starts after the
//! bytes that were read.
use vstd::prelude::*;
use vstd::utf8::*;
use crate::assoc::{
    assoc_map, has_key, keys_distinct, lemma_assoc_empty, lemma_assoc_index, lemma_assoc_push,
    lemma_assoc_remove, lemma_assoc_update,
};
use crate::entry::{
    be16_at, be16_bytes, be32_at, be32_bytes, lemma_be16_at, lemma_be32_at, utf8_bytes, Entry,
    EntryView, HEADERSIZE,
};
use crate::errors::{fault, fault_of, Fault, KvsError};

verus! {

broadcast use {encode_utf8_valid_utf8, encode_utf8_decode_utf8};

// ---------------------------------------------------------------------------
// Positioned reads and writes on bytes.

/// The number of bytes that a read of `n` bytes at `off` gives.
pub open spec fn read_count(c: Seq<u8>, off: int, n: int) -> int {
    if off >= c.len() {
        0
    } else if c.len() - off < n {
        c.len() - off
    } else {
        n
    }
}

/// The buffer of `n` bytes after a read at `off`: the file's bytes, then zeros.
pub open spec fn read_buf(c: Seq<u8>, off: int, n: int) -> Seq<u8> {
    Seq::new(n as nat, |i: int| if off + i < c.len() { c[off + i] } else { 0u8 })
}

/// The bytes of a file after `b` is written at `off`; a gap between the old
/// end and `off` reads as zeros.
pub open spec fn write_bytes(c: Seq<u8>, off: int, b: Seq<u8>) -> Seq<u8> {
    let n = if c.len() > off + b.len() { c.len() as int } else { off + b.len() };
    Seq::new(
        n as nat,
        |i: int|
            if off <= i < off + b.len() {
                b[i - off]
            } else if i < c.len() {
                c[i]
            } else {
                0u8
            },
    )
}

/// The record that the reads at `off` give: the header, then the key, then
/// the value; `None` where the key or the value is not UTF-8.
pub open spec fn parse_entry_at(c: Seq<u8>, off: int) -> Option<EntryView> {
    let h = read_buf(c, off, HEADERSIZE as int);
    let ks = be32_at(h, 2);
    let vs = be32_at(h, 6);
    let koff = off + read_count(c, off, HEADERSIZE as int);
    let kb = read_buf(c, koff, ks as int);
    let voff = koff + read_count(c, koff, ks as int);
    let vb = read_buf(c, voff, vs as int);
    if valid_utf8(kb) && valid_utf8(vb) {
        Some(
            EntryView {
                mark: be16_at(h, 0),
                key_size: ks,
                value_size: vs,
                key: decode_utf8(kb),
                value: decode_utf8(vb),
            },
        )
    } else {
        None
    }
}

/// The result of reading a record at `off`.
pub open spec fn parse_result(c: Seq<u8>, off: int) -> Result<EntryView, Fault> {
    match parse_entry_at(c, off) {
        Some(e) => Ok(e),
        None => Err(Fault::Utf8),
    }
}

/// The size that the header at `off` gives.
pub open spec fn size_at(c: Seq<u8>, off: int) -> int {
    let h = read_buf(c, off, HEADERSIZE as int);
    HEADERSIZE + be32_at(h, 2) + be32_at(h, 6)
}

/// Reads inside the bytes are the bytes.
pub proof fn lemma_read_inside(c: Seq<u8>, off: int, n: int)
    requires
        0 <= off,
        0 <= n,
        off + n <= c.len(),
    ensures
        read_count(c, off, n) == n,
        read_buf(c, off, n) == c.subrange(off, off + n),
{
    assert(read_buf(c, off, n) =~= c.subrange(off, off + n));
}

/// Reads inside `c` do not see what follows it.
pub proof fn lemma_read_prefix(c: Seq<u8>, t: Seq<u8>, off: int, n: int)
    requires
        0 <= off,
        0 <= n,
        off + n <= c.len(),
    ensures
        read_count(c + t, off, n) == read_count(c, off, n),
        read_buf(c + t, off, n) == read_buf(c, off, n),
{
    assert(read_buf(c + t, off, n) =~= read_buf(c, off, n));
}

/// A record whose bytes lie inside `c` reads the same after bytes are
/// appended to `c`.
pub proof fn lemma_parse_prefix(c: Seq<u8>, t: Seq<u8>, off: int)
    requires
        0 <= off,
        off + size_at(c, off) <= c.len(),
    ensures
        size_at(c + t, off) == size_at(c, off),
        parse_entry_at(c + t, off) == parse_entry_at(c, off),
{
    let h = read_buf(c, off, HEADERSIZE as int);
    lemma_read_prefix(c, t, off, HEADERSIZE as int);
    lemma_read_inside(c, off, HEADERSIZE as int);
    let ks = be32_at(h, 2);
    let vs = be32_at(h, 6);
    lemma_read_prefix(c, t, off + HEADERSIZE, ks as int);
    lemma_read_inside(c, off + HEADERSIZE, ks as int);
    lemma_read_prefix(c, t, off + HEADERSIZE + ks, vs as int);
}

/// A record read where its encoding stands gives the record back.
pub proof fn lemma_parse_encoding(c: Seq<u8>, off: int, e: EntryView)
    requires
        e.sizes_match(),
        0 <= off,
        off + e.size() <= c.len(),
        c.subrange(off, off + e.size()) == e.encoding(),
    ensures
        parse_entry_at(c, off) == Some(e),
        size_at(c, off) == e.size(),
{
    let enc = e.encoding();
    let kb = utf8_bytes(e.key);
    let vb = utf8_bytes(e.value);
    assert(enc.len() == e.size());
    lemma_read_inside(c, off, HEADERSIZE as int);
    let h = read_buf(c, off, HEADERSIZE as int);
    assert forall|i: int| 0 <= i < e.size() implies c[off + i] == #[trigger] enc[i] by {
        assert(c.subrange(off, off + e.size())[i] == c[off + i]);
    }
    assert(h[0] == be16_bytes(e.mark)[0] && h[1] == be16_bytes(e.mark)[1]) by {
        assert(c[off + 0] == enc[0]);
        assert(c[off + 1] == enc[1]);
    }
    lemma_be16_at(h, 0, e.mark);
    assert(h[2] == enc[2] && h[3] == enc[3] && h[4] == enc[4] && h[5] == enc[5]);
    lemma_be32_at(h, 2, e.key_size);
    assert(h[6] == enc[6] && h[7] == enc[7] && h[8] == enc[8] && h[9] == enc[9]);
    lemma_be32_at(h, 6, e.value_size);
    lemma_read_inside(c, off + HEADERSIZE, e.key_size as int);
    assert(c.subrange(off + HEADERSIZE, off + HEADERSIZE + e.key_size) =~= kb) by {
        assert forall|i: int| 0 <= i < kb.len() implies c.subrange(
            off + HEADERSIZE,
            off + HEADERSIZE + e.key_size,
        )[i] == kb[i] by {
            assert(c[off + HEADERSIZE + i] == enc[HEADERSIZE + i]);
        }
    }
    lemma_read_inside(c, off + HEADERSIZE + e.key_size, e.value_size as int);
    assert(c.subrange(off + HEADERSIZE + e.key_size, off + e.size()) =~= vb) by {
        assert forall|i: int| 0 <= i < vb.len() implies c.subrange(
            off + HEADERSIZE + e.key_size,
            off + e.size(),
        )[i] == vb[i] by {
            assert(c[off + HEADERSIZE + e.key_size + i] == enc[HEADERSIZE + e.key_size + i]);
        }
    }
}

/// `String::from_utf8`: `Ok` exactly when the bytes are UTF-8, and then the
/// string that they encode; the error is kept opaque.
#[verifier::external_body]
fn string_from_utf8(bytes: Vec<u8>) -> (r: Result<String, std::string::FromUtf8Error>)
    ensures
        match r {
            Ok(s) => valid_utf8(bytes@) && s@ == decode_utf8(bytes@),
            Err(_) => !valid_utf8(bytes@),
        },
{
    String::from_utf8(bytes)
}

/// A positioned read of `n` bytes at `off`: the buffer and the count.
pub fn read_at(c: &Vec<u8>, off: u64, n: usize) -> (r: (Vec<u8>, u64))
    ensures
        r.0@ == read_buf(c@, off as int, n as int),
        r.1 == read_count(c@, off as int, n as int),
{
    let mut buf: Vec<u8> = Vec::new();
    let len = c.len();
    let start: usize = if off < len as u64 { off as usize } else { len };
    let avail: usize = len - start;
    let mut i: usize = 0;
    while i < n
        invariant
            0 <= i <= n,
            len == c@.len(),
            start <= len,
            off < len ==> start == off,
            off >= len ==> start == len,
            avail == len - start,
            buf@ == read_buf(c@, off as int, n as int).subrange(0, i as int),
        decreases n - i,
    {
        if i < avail {
            buf.push(c[start + i]);
        } else {
            buf.push(0u8);
        }
        i = i + 1;
        assert(buf@ =~= read_buf(c@, off as int, n as int).subrange(0, i as int));
    }
    assert(buf@ =~= read_buf(c@, off as int, n as int));
    let count: u64 = if avail < n { avail as u64 } else { n as u64 };
    (buf, count)
}

/// Reads the record at `off`: its header, then its key, then its value.
pub fn read_entry_at(c: &Vec<u8>, off: u64) -> (r: Result<Entry, KvsError>)
    ensures
        match r {
            Ok(e) => parse_entry_at(c@, off as int) == Some(e@),
            Err(err) => parse_entry_at(c@, off as int) is None && err is Utf8Error,
        },
{
    let (h, hc) = read_at(c, off, HEADERSIZE as usize);
    let mut entry = Entry::decode(h);
    let clen = c.len();
    assert(c@.len() == clen);
    let koff = off + hc;
    let (kb, kc) = read_at(c, koff, entry.key_size as usize);
    match string_from_utf8(kb) {
        Ok(k) => {
            entry.key = k;
        },
        Err(e) => {
            return Err(KvsError::Utf8Error(e));
        },
    }
    let voff = koff + kc;
    let (vb, _vc) = read_at(c, voff, entry.value_size as usize);
    match string_from_utf8(vb) {
        Ok(v) => {
            entry.value = v;
        },
        Err(e) => {
            return Err(KvsError::Utf8Error(e));
        },
    }
    Ok(entry)
}

/// Writes `b` at `off`, as `write_bytes` says.
fn write_into(c: &mut Vec<u8>, off: u64, b: &Vec<u8>)
    requires
        off + b@.len() <= usize::MAX,
    ensures
        final(c)@ == write_bytes(old(c)@, off as int, b@),
{
    let ghost c0 = c@;
    let ghost target = write_bytes(c0, off as int, b@);
    let off = off as usize;
    while c.len() < off
        invariant
            c@.len() <= off || c@.len() == c0.len(),
            c@.len() >= c0.len(),
            forall|i: int| 0 <= i < c0.len() ==> c@[i] == c0[i],
            forall|i: int| c0.len() <= i < c@.len() ==> c@[i] == 0u8,
        decreases off - c@.len(),
    {
        c.push(0u8);
    }
    let mut j: usize = 0;
    while j < b.len()
        invariant
            off + b@.len() <= usize::MAX,
            0 <= j <= b@.len(),
            c@.len() >= off + j,
            c@.len() == if c0.len() > off + j { c0.len() as int } else { off + j },
            forall|i: int|
                0 <= i < c@.len() ==> c@[i] == (if off <= i < off + j {
                    b@[i - off]
                } else if i < c0.len() {
                    c0[i]
                } else {
                    0u8
                }),
        decreases b@.len() - j,
    {
        if off + j < c.len() {
            c.set(off + j, b[j]);
        } else {
            c.push(b[j]);
        }
        j = j + 1;
    }
    assert(c@ =~= target);
}

/// A copy of the bytes.
pub fn copy_bytes(bytes: &Vec<u8>) -> (b: Vec<u8>)
    ensures
        b@ == bytes@,
{
    let mut b: Vec<u8> = Vec::new();
    let mut j: usize = 0;
    while j < bytes.len()
        invariant
            0 <= j <= bytes@.len(),
            b@ == bytes@.subrange(0, j as int),
        decreases bytes@.len() - j,
    {
        b.push(bytes[j]);
        j = j + 1;
    }
    assert(b@ =~= bytes@);
    b
}

// ---------------------------------------------------------------------------
// The directory's data files.

/// A file of the directory: its path and its bytes.
#[derive(Debug)]
pub struct DataFile {
    pub path: String,
    pub contents: Vec<u8>,
}

/// A change to the directory, for whoever keeps the files on disk to make.
#[derive(Debug)]
pub enum DiskOp {
    /// Open the file at the path, creating it empty if it does not exist.
    Create(String),
    /// Write the bytes into the file at the path, at the offset.
    WriteAt(String, u64, Vec<u8>),
    /// Remove the file at the path.
    Remove(String),
}

/// The mathematical value of a [`DiskOp`].
pub enum DiskOpView {
    Create(Seq<char>),
    WriteAt(Seq<char>, u64, Seq<u8>),
    Remove(Seq<char>),
}

impl View for DiskOp {
    type V = DiskOpView;

    open spec fn view(&self) -> DiskOpView {
        match self {
            DiskOp::Create(p) => DiskOpView::Create(p@),
            DiskOp::WriteAt(p, off, b) => DiskOpView::WriteAt(p@, *off, b@),
            DiskOp::Remove(p) => DiskOpView::Remove(p@),
        }
    }
}

/// The mathematical value of a [`Disk`]: each path's bytes, and the changes
/// made since they were last taken.
pub struct DiskView {
    pub files: Map<Seq<char>, Seq<u8>>,
    pub ops: Seq<DiskOpView>,
}

/// The directory of the store, its files held as bytes, with the changes made
/// to it that are still to be carried to the disk.
pub struct Disk {
    files: Vec<DataFile>,
    ops: Vec<DiskOp>,
}

/// The (path, bytes) pairs of files.
pub open spec fn file_pairs(files: Seq<DataFile>) -> Seq<(Seq<char>, Seq<u8>)> {
    files.map_values(|f: DataFile| (f.path@, f.contents@))
}

/// The directory after the file at `p` is opened with creation.
pub open spec fn disk_create(d: DiskView, p: Seq<char>) -> DiskView {
    DiskView {
        files: if d.files.contains_key(p) {
            d.files
        } else {
            d.files.insert(p, Seq::empty())
        },
        ops: d.ops.push(DiskOpView::Create(p)),
    }
}

/// The directory after `b` is written at `off` into the file at `p`; nothing
/// changes where there is no such file.
pub open spec fn disk_write(d: DiskView, p: Seq<char>, off: u64, b: Seq<u8>) -> DiskView {
    if d.files.contains_key(p) {
        DiskView {
            files: d.files.insert(p, write_bytes(d.files[p], off as int, b)),
            ops: d.ops.push(DiskOpView::WriteAt(p, off, b)),
        }
    } else {
        d
    }
}

/// The directory after the file at `p` is removed; nothing changes where there
/// is no such file.
pub open spec fn disk_remove(d: DiskView, p: Seq<char>) -> DiskView {
    if d.files.contains_key(p) {
        DiskView { files: d.files.remove(p), ops: d.ops.push(DiskOpView::Remove(p)) }
    } else {
        d
    }
}

impl View for Disk {
    type V = DiskView;

    closed spec fn view(&self) -> DiskView {
        DiskView {
            files: assoc_map(file_pairs(self.files@)),
            ops: self.ops@.map_values(|o: DiskOp| o@),
        }
    }
}

impl Disk {
    /// No two files share a path.
    pub closed spec fn wf(&self) -> bool {
        keys_distinct(file_pairs(self.files@))
    }

    /// An empty directory.
    pub fn new() -> (d: Disk)
        ensures
            d.wf(),
            d@.files == Map::<Seq<char>, Seq<u8>>::empty(),
            d@.ops == Seq::<DiskOpView>::empty(),
    {
        let d = Disk { files: Vec::new(), ops: Vec::new() };
        proof {
            lemma_assoc_empty(file_pairs(d.files@));
            assert(d@.ops =~= Seq::<DiskOpView>::empty());
        }
        d
    }

    /// The index of the file at `path`.
    fn position(&self, path: &String) -> (r: Option<usize>)
        requires
            self.wf(),
        ensures
            match r {
                Some(i) => i < self.files@.len() && self.files@[i as int].path@ == path@,
                None => !self@.files.contains_key(path@),
            },
    {
        let mut i: usize = 0;
        while i < self.files.len()
            invariant
                0 <= i <= self.files@.len(),
                forall|j: int| 0 <= j < i ==> self.files@[j].path@ != path@,
            decreases self.files@.len() - i,
        {
            if self.files[i].path == *path {
                return Some(i);
            }
            i = i + 1;
        }
        proof {
            let ps = file_pairs(self.files@);
            if has_key(ps, path@) {
                let j = choose|j: int| 0 <= j < ps.len() && ps[j].0 == path@;
                assert(self.files@[j].path@ == path@);
            }
        }
        None
    }

    /// Adds a file, in place of one at the same path.
    pub fn insert_file(&mut self, file: DataFile)
        requires
            old(self).wf(),
        ensures
            final(self).wf(),
            final(self)@.files == old(self)@.files.insert(file.path@, file.contents@),
            final(self)@.ops == old(self)@.ops,
    {
        let ghost ps = file_pairs(self.files@);
        match self.position(&file.path) {
            Some(i) => {
                proof {
                    lemma_assoc_update(ps, i as int, file.contents@);
                    assert(file_pairs(self.files@.update(i as int, file)) =~= ps.update(
                        i as int,
                        (ps[i as int].0, file.contents@),
                    ));
                }
                self.files.set(i, file);
            },
            None => {
                proof {
                    lemma_assoc_push(ps, file.path@, file.contents@);
                    assert(file_pairs(self.files@.push(file)) =~= ps.push(
                        (file.path@, file.contents@),
                    ));
                }
                self.files.push(file);
            },
        }
    }

    /// The bytes of the file at `path`, if there is one.
    pub fn file(&self, path: &String) -> (r: Option<&Vec<u8>>)
        requires
            self.wf(),
        ensures
            match r {
                Some(c) => self@.files.contains_key(path@) && c@ == self@.files[path@],
                None => !self@.files.contains_key(path@),
            },
    {
        match self.position(path) {
            Some(i) => {
                proof {
                    lemma_assoc_index(file_pairs(self.files@), i as int);
                }
                Some(&self.files[i].contents)
            },
            None => None,
        }
    }

    /// Opens the file at `path`, creating it empty if there is none.
    pub fn create(&mut self, path: &String)
        requires
            old(self).wf(),
        ensures
            final(self).wf(),
            final(self)@ == disk_create(old(self)@, path@),
    {
        let ghost ps = file_pairs(self.files@);
        let pos = self.position(path);
        if let Some(i) = pos {
            proof {
                lemma_assoc_index(ps, i as int);
            }
        }
        if pos.is_none() {
            proof {
                lemma_assoc_push(ps, path@, Seq::<u8>::empty());
            }
            let f = DataFile { path: path.clone(), contents: Vec::new() };
            proof {
                assert(file_pairs(self.files@.push(f)) =~= ps.push((path@, Seq::<u8>::empty())));
            }
            self.files.push(f);
        }
        self.ops.push(DiskOp::Create(path.clone()));
        proof {
            assert(self@.ops =~= old(self)@.ops.push(DiskOpView::Create(path@)));
            assert(self@.files =~= disk_create(old(self)@, path@).files);
        }
    }

    /// Writes `bytes` at `off` into the file at `path`, if there is one.
    pub fn write_at(&mut self, path: &String, off: u64, bytes: &Vec<u8>)
        requires
            old(self).wf(),
            off + bytes@.len() <= usize::MAX,
        ensures
            final(self).wf(),
            final(self)@ == disk_write(old(self)@, path@, off, bytes@),
    {
        let ghost ps = file_pairs(self.files@);
        match self.position(path) {
            Some(i) => {
                proof {
                    lemma_assoc_index(ps, i as int);
                }
                let mut f = DataFile { path: path.clone(), contents: Vec::new() };
                proof {
                    lemma_assoc_update(ps, i as int, Seq::<u8>::empty());
                    assert(file_pairs(self.files@.update(i as int, f)) =~= ps.update(
                        i as int,
                        (ps[i as int].0, Seq::<u8>::empty()),
                    ));
                }
                self.files.set_and_swap(i, &mut f);
                write_into(&mut f.contents, off, bytes);
                proof {
                    let new_c = write_bytes(ps[i as int].1, off as int, bytes@);
                    lemma_assoc_update(ps, i as int, new_c);
                    assert(file_pairs(self.files@.update(i as int, f)) =~= ps.update(
                        i as int,
                        (ps[i as int].0, new_c),
                    ));
                }
                self.files.set(i, f);
                let b = copy_bytes(bytes);
                self.ops.push(DiskOp::WriteAt(path.clone(), off, b));
                proof {
                    assert(self@.ops =~= old(self)@.ops.push(
                        DiskOpView::WriteAt(path@, off, bytes@),
                    ));
                    assert(self@.files =~= disk_write(old(self)@, path@, off, bytes@).files);
                }
            },
            None => {},
        }
    }

    /// Removes the file at `path`; `false` where there is none.
    pub fn remove(&mut self, path: &String) -> (removed: bool)
        requires
            old(self).wf(),
        ensures
            final(self).wf(),
            removed == old(self)@.files.contains_key(path@),
            final(self)@ == disk_remove(old(self)@, path@),
    {
        let ghost ps = file_pairs(self.files@);
        match self.position(path) {
            Some(i) => {
                proof {
                    lemma_assoc_index(ps, i as int);
                    lemma_assoc_remove(ps, i as int);
                    assert(file_pairs(self.files@.remove(i as int)) =~= ps.remove(i as int));
                }
                self.files.remove(i);
                self.ops.push(DiskOp::Remove(path.clone()));
                proof {
                    assert(self@.ops =~= old(self)@.ops.push(DiskOpView::Remove(path@)));
                }
                true
            },
            None => false,
        }
    }

    /// A copy of the files, with no changes queued.
    pub fn copy_files(&self) -> (r: Disk)
        requires
            self.wf(),
        ensures
            r.wf(),
            r@.files == self@.files,
            r@.ops == Seq::<DiskOpView>::empty(),
    {
        let mut files: Vec<DataFile> = Vec::new();
        let mut i: usize = 0;
        while i < self.files.len()
            invariant
                0 <= i <= self.files@.len(),
                file_pairs(files@) == file_pairs(self.files@).take(i as int),
            decreases self.files@.len() - i,
        {
            let f = DataFile { path: self.files[i].path.clone(), contents: copy_bytes(&self.files[i].contents) };
            let ghost prev = files@;
            files.push(f);
            proof {
                assert(file_pairs(files@) =~= file_pairs(prev).push((f.path@, f.contents@)));
                assert(file_pairs(self.files@).take(i + 1) =~= file_pairs(self.files@).take(
                    i as int,
                ).push((f.path@, f.contents@)));
            }
            i = i + 1;
        }
        proof {
            assert(file_pairs(self.files@).take(i as int) =~= file_pairs(self.files@));
        }
        let r = Disk { files, ops: Vec::new() };
        proof {
            assert(r@.ops =~= Seq::<DiskOpView>::empty());
        }
        r
    }

    /// Hands over the changes made so far, and forgets them.
    pub fn take_ops(&mut self) -> (ops: Vec<DiskOp>)
        requires
            old(self).wf(),
        ensures
            final(self).wf(),
            ops@.map_values(|o: DiskOp| o@) == old(self)@.ops,
            final(self)@.files == old(self)@.files,
            final(self)@.ops == Seq::<DiskOpView>::empty(),
    {
        let mut ops: Vec<DiskOp> = Vec::new();
        std::mem::swap(&mut ops, &mut self.ops);
        proof {
            assert(self@.ops =~= Seq::<DiskOpView>::empty());
        }
        ops
    }
}

// ---------------------------------------------------------------------------
// The store's files and the locations of records.

/// A file of the store by its path and the offset where its records end:
/// the value of a [`DBFile`] or an [`ImmutableFile`].
pub struct FileRef {
    pub path: Seq<char>,
    pub end: u64,
}

/// Where a record stands: the value of a [`DataValue`].
pub struct DataValueView {
    pub file_path: Seq<char>,
    pub file_offset: u64,
}

/// The file that records are appended to, read and written through an open
/// handle: `contents` are the bytes behind the handle. While `file_path` is
/// in the directory, writes reach the directory's file at that path too; once
/// the path is removed, the handle still reads and writes its bytes.
#[derive(Debug)]
pub struct DBFile {
    pub file_path: String,
    pub offset: u64,
    pub contents: Vec<u8>,
}

/// The location of a record: its file and its offset there.
#[derive(Debug)]
pub struct DataValue {
    pub file_path: String,
    pub file_offset: u64,
}

/// A file that is no longer written, and the offset where its records end.
#[derive(Debug)]
pub struct ImmutableFile {
    pub data_path: String,
    pub data_offset: u64,
}

impl View for DBFile {
    type V = FileRef;

    open spec fn view(&self) -> FileRef {
        FileRef { path: self.file_path@, end: self.offset }
    }
}

impl View for ImmutableFile {
    type V = FileRef;

    open spec fn view(&self) -> FileRef {
        FileRef { path: self.data_path@, end: self.data_offset }
    }
}

impl View for DataValue {
    type V = DataValueView;

    open spec fn view(&self) -> DataValueView {
        DataValueView { file_path: self.file_path@, file_offset: self.file_offset }
    }
}

impl Clone for DataValue {
    fn clone(&self) -> (r: Self)
        ensures
            r == *self,
    {
        DataValue { file_path: self.file_path.clone(), file_offset: self.file_offset }
    }
}

impl Clone for ImmutableFile {
    fn clone(&self) -> (r: Self)
        ensures
            r == *self,
    {
        ImmutableFile { data_path: self.data_path.clone(), data_offset: self.data_offset }
    }
}

/// A read of the record at `off` in the file at path `p`, which is opened
/// first: `Io` where there is no such file.
pub open spec fn read_by_path(d: DiskView, p: Seq<char>, off: u64) -> Result<EntryView, Fault> {
    if d.files.contains_key(p) {
        parse_result(d.files[p], off as int)
    } else {
        Err(Fault::Io)
    }
}

/// The bytes of the file at `p`, or none where there is no such file.
pub open spec fn active_bytes(d: DiskView, p: Seq<char>) -> Seq<u8> {
    if d.files.contains_key(p) {
        d.files[p]
    } else {
        Seq::empty()
    }
}

/// A read of the record at `off` in the active file `f` through its handle,
/// whose bytes are `h`: `FileEnd` at or past the offset where its records
/// end.
pub open spec fn read_active(h: Seq<u8>, f: FileRef, off: u64) -> Result<EntryView, Fault> {
    if off >= f.end {
        Err(Fault::FileEnd)
    } else {
        parse_result(h, off as int)
    }
}

/// A file as its reads and writes see it: where it stands and the bytes
/// behind its handle (none for a file read by its path).
pub struct FileState {
    pub file: FileRef,
    pub bytes: Seq<u8>,
}

/// Appending record `e` to the active file `f`, whose handle holds `h`: the
/// file, the handle's bytes and the directory after, and the error. A record
/// with no key and no value is refused; otherwise its encoding is written at
/// `f.end` through the handle (and into the directory's file at `f.path`,
/// where there is one), and `f.end` moves past it.
pub open spec fn append_entry(f: FileRef, h: Seq<u8>, d: DiskView, e: EntryView) -> (FileRef, Seq<u8>, DiskView, Option<Fault>) {
    if e.size() <= HEADERSIZE {
        (f, h, d, Some(Fault::Illegal))
    } else {
        (
            FileRef { end: (f.end + e.size()) as u64, ..f },
            write_bytes(h, f.end as int, e.encoding()),
            disk_write(d, f.path, f.end, e.encoding()),
            None,
        )
    }
}

/// Reading and writing the records of a file.
pub trait FileIo: Sized {
    /// Where the file stands and the bytes behind its handle.
    spec fn state(&self) -> FileState;

    /// What `read` gives at `offset`.
    spec fn read_spec(&self, d: DiskView, offset: u64) -> Result<EntryView, Fault>;

    /// `write` can be called with `e`.
    spec fn write_allowed(&self, d: DiskView, e: EntryView) -> bool;

    /// The file and directory after `write` of `e`, and its error.
    spec fn write_spec(&self, d: DiskView, e: EntryView) -> (FileState, DiskView, Option<Fault>);

    /// Reads the record at `offset`.
    fn read(&self, disk: &Disk, offset: u64) -> (r: Result<Entry, KvsError>)
        requires
            disk.wf(),
        ensures
            match r {
                Ok(e) => self.read_spec(disk@, offset) == Ok::<EntryView, Fault>(e@),
                Err(err) => self.read_spec(disk@, offset) == Err::<EntryView, Fault>(fault(err)),
            },
    ;

    /// Appends a record.
    fn write(&mut self, disk: &mut Disk, entry: Entry) -> (r: Result<(), KvsError>)
        requires
            old(disk).wf(),
            old(self).write_allowed(old(disk)@, entry@),
        ensures
            final(disk).wf(),
            (final(self).state(), final(disk)@, fault_of(r)) == old(self).write_spec(
                old(disk)@,
                entry@,
            ),
    ;
}

/// Reads the record at `off` of the file at `path`, which is opened first.
fn read_path(disk: &Disk, path: &String, off: u64) -> (r: Result<Entry, KvsError>)
    requires
        disk.wf(),
    ensures
        match r {
            Ok(e) => read_by_path(disk@, path@, off) == Ok::<EntryView, Fault>(e@),
            Err(err) => read_by_path(disk@, path@, off) == Err::<EntryView, Fault>(fault(err)),
        },
{
    match disk.file(path) {
        Some(c) => read_entry_at(c, off),
        None => Err(KvsError::Io(crate::errors::not_found_error())),
    }
}

impl FileIo for DBFile {
    open spec fn state(&self) -> FileState {
        FileState { file: self@, bytes: self.contents@ }
    }

    open spec fn read_spec(&self, d: DiskView, offset: u64) -> Result<EntryView, Fault> {
        read_active(self.contents@, self@, offset)
    }

    open spec fn write_allowed(&self, d: DiskView, e: EntryView) -> bool {
        &&& e.size() <= u32::MAX
        &&& (e.size() > HEADERSIZE ==> {
            &&& self.offset + e.size() <= usize::MAX
            &&& self.offset + e.encoding().len() <= usize::MAX
        })
    }

    open spec fn write_spec(&self, d: DiskView, e: EntryView) -> (FileState, DiskView, Option<Fault>) {
        let (f, h, d2, r) = append_entry(self@, self.contents@, d, e);
        (FileState { file: f, bytes: h }, d2, r)
    }

    fn read(&self, disk: &Disk, offset: u64) -> (r: Result<Entry, KvsError>) {
        if offset >= self.offset {
            return Err(KvsError::FileEnd);
        }
        read_entry_at(&self.contents, offset)
    }

    fn write(&mut self, disk: &mut Disk, entry: Entry) -> (r: Result<(), KvsError>) {
        let size = entry.size();
        let encode = Entry::encode(entry)?;
        disk.write_at(&self.file_path, self.offset, &encode);
        write_into(&mut self.contents, self.offset, &encode);
        self.offset = self.offset + size as u64;
        Ok(())
    }
}

impl FileIo for ImmutableFile {
    open spec fn state(&self) -> FileState {
        FileState { file: self@, bytes: Seq::empty() }
    }

    open spec fn read_spec(&self, d: DiskView, offset: u64) -> Result<EntryView, Fault> {
        read_by_path(d, self.data_path@, offset)
    }

    /// An immutable file is never written.
    open spec fn write_allowed(&self, d: DiskView, e: EntryView) -> bool {
        false
    }

    open spec fn write_spec(&self, d: DiskView, e: EntryView) -> (FileState, DiskView, Option<Fault>) {
        (self.state(), d, None)
    }

    fn read(&self, disk: &Disk, offset: u64) -> (r: Result<Entry, KvsError>) {
        read_path(disk, &self.data_path, offset)
    }

    fn write(&mut self, disk: &mut Disk, entry: Entry) -> (r: Result<(), KvsError>) {
        assert(false);
        Ok(())
    }
}

impl FileIo for DataValue {
    open spec fn state(&self) -> FileState {
        FileState {
            file: FileRef { path: self.file_path@, end: self.file_offset },
            bytes: Seq::empty(),
        }
    }

    open spec fn read_spec(&self, d: DiskView, offset: u64) -> Result<EntryView, Fault> {
        read_by_path(d, self.file_path@, offset)
    }

    /// A location is never written.
    open spec fn write_allowed(&self, d: DiskView, e: EntryView) -> bool {
        false
    }

    open spec fn write_spec(&self, d: DiskView, e: EntryView) -> (FileState, DiskView, Option<Fault>) {
        (self.state(), d, None)
    }

    fn read(&self, disk: &Disk, offset: u64) -> (r: Result<Entry, KvsError>) {
        read_path(disk, &self.file_path, offset)
    }

    fn write(&mut self, disk: &mut Disk, entry: Entry) -> (r: Result<(), KvsError>) {
        assert(false);
        Ok(())
    }
}

} // verus!
