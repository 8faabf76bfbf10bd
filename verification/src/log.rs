//! What reading the store's files record by record gives, and the index that
//! replaying those records builds.
use vstd::prelude::*;
use crate::entry::{EntryView, DEL};
use crate::file::{active_bytes, parse_entry_at, DataValueView, DiskView, FileRef};
use crate::errors::Fault;

verus! {

/// A record read from a file, with its file's path and its offset there.
pub struct Rec {
    pub entry: EntryView,
    pub path: Seq<char>,
    pub offset: u64,
}

/// How reading a file record by record stopped.
pub enum ScanEnd {
    /// At the end offset.
    Done,
    /// The file could not be opened.
    Missing,
    /// A key or value was not UTF-8.
    BadUtf8,
    /// A record's size does not fit, where the reading code would panic.
    Overflow,
}

/// The error that a scan that stopped early gives.
pub open spec fn scan_fault(e: ScanEnd) -> Fault {
    match e {
        ScanEnd::Missing => Fault::Io,
        ScanEnd::BadUtf8 => Fault::Utf8,
        _ => Fault::Other,
    }
}

/// The records of `c` from `off` while the offset is below `end`: each
/// starts where the size in the previous one's header says.
pub open spec fn scan_from(path: Seq<char>, c: Seq<u8>, off: int, end: int) -> (Seq<Rec>, ScanEnd)
    decreases end - off,
{
    if off >= end {
        (Seq::empty(), ScanEnd::Done)
    } else {
        match parse_entry_at(c, off) {
            None => (Seq::empty(), ScanEnd::BadUtf8),
            Some(e) => {
                if e.size() > u32::MAX || off + e.size() > u64::MAX {
                    (Seq::empty(), ScanEnd::Overflow)
                } else {
                    let rest = if off + e.size() >= end {
                        (Seq::empty(), ScanEnd::Done)
                    } else {
                        scan_from(path, c, off + e.size(), end)
                    };
                    (seq![Rec { entry: e, path, offset: off as u64 }] + rest.0, rest.1)
                }
            },
        }
    }
}

/// The records of an immutable file, opened by its path before each read.
pub open spec fn scan_immutable(d: DiskView, f: FileRef) -> (Seq<Rec>, ScanEnd) {
    if f.end > 0 && !d.files.contains_key(f.path) {
        (Seq::empty(), ScanEnd::Missing)
    } else {
        scan_from(f.path, active_bytes(d, f.path), 0, f.end as int)
    }
}

/// The records of the active file `f`, read through its handle, whose bytes
/// are `h`.
pub open spec fn scan_active(h: Seq<u8>, f: FileRef) -> (Seq<Rec>, ScanEnd) {
    scan_from(f.path, h, 0, f.end as int)
}

/// The records of the immutable files in order, up to the first that does not
/// read to its end.
pub open spec fn scan_files(d: DiskView, fs: Seq<FileRef>) -> (Seq<Rec>, ScanEnd)
    decreases fs.len(),
{
    if fs.len() == 0 {
        (Seq::empty(), ScanEnd::Done)
    } else {
        let first = scan_immutable(d, fs[0]);
        if first.1 != ScanEnd::Done {
            first
        } else {
            let rest = scan_files(d, fs.drop_first());
            (first.0 + rest.0, rest.1)
        }
    }
}

/// The index after record `r`: a delete record removes its key; any other
/// record points its key at itself.
pub open spec fn apply_rec(m: Map<Seq<char>, DataValueView>, r: Rec) -> Map<Seq<char>, DataValueView> {
    if r.entry.mark == DEL {
        m.remove(r.entry.key)
    } else {
        m.insert(r.entry.key, DataValueView { file_path: r.path, file_offset: r.offset })
    }
}

/// The index after the records, in order.
pub open spec fn replay(m: Map<Seq<char>, DataValueView>, recs: Seq<Rec>) -> Map<Seq<char>, DataValueView> {
    recs.fold_left(m, |acc: Map<Seq<char>, DataValueView>, r: Rec| apply_rec(acc, r))
}

/// The index points the record's key at the record.
pub open spec fn is_live(m: Map<Seq<char>, DataValueView>, r: Rec) -> bool {
    m.contains_key(r.entry.key) && m[r.entry.key] == DataValueView {
        file_path: r.path,
        file_offset: r.offset,
    }
}

/// The index points the record's key at the record, as a predicate.
pub open spec fn live_pred(m: Map<Seq<char>, DataValueView>) -> spec_fn(Rec) -> bool {
    |r: Rec| is_live(m, r)
}

/// The records that the index points at.
pub open spec fn live_recs(m: Map<Seq<char>, DataValueView>, recs: Seq<Rec>) -> Seq<Rec> {
    recs.filter(live_pred(m))
}

/// One more step of a scan: the records from `off` are the one at `off` and
/// those after it.
pub proof fn lemma_scan_step(path: Seq<char>, c: Seq<u8>, off: int, end: int)
    requires
        0 <= off < end,
        parse_entry_at(c, off) is Some,
        parse_entry_at(c, off).unwrap().size() <= u32::MAX,
        off + parse_entry_at(c, off).unwrap().size() <= u64::MAX,
    ensures
        ({
            let e = parse_entry_at(c, off).unwrap();
            let rest = scan_from(path, c, off + e.size(), end);
            scan_from(path, c, off, end) == (
                seq![Rec { entry: e, path, offset: off as u64 }] + rest.0,
                rest.1,
            )
        }),
{
}

/// Replaying one more record.
pub proof fn lemma_replay_push(m: Map<Seq<char>, DataValueView>, recs: Seq<Rec>, r: Rec)
    ensures
        replay(m, recs.push(r)) == apply_rec(replay(m, recs), r),
{
    assert(recs.push(r).drop_last() =~= recs);
}

/// Replaying two runs of records one after the other.
pub proof fn lemma_replay_concat(m: Map<Seq<char>, DataValueView>, a: Seq<Rec>, b: Seq<Rec>)
    ensures
        replay(m, a + b) == replay(replay(m, a), b),
    decreases b.len(),
{
    if b.len() == 0 {
        assert(a + b =~= a);
    } else {
        lemma_replay_concat(m, a, b.drop_last());
        assert((a + b).drop_last() =~= a + b.drop_last());
        assert(b.drop_last().push(b.last()) =~= b);
        lemma_replay_push(replay(m, a), b.drop_last(), b.last());
    }
}

/// From `off` on, `c` is a run of whole records that ends exactly at its end.
pub open spec fn exact_log(c: Seq<u8>, off: int) -> bool
    decreases c.len() - off,
{
    if off >= c.len() {
        off == c.len()
    } else {
        match parse_entry_at(c, off) {
            None => false,
            Some(e) => {
                &&& e.size() <= u32::MAX
                &&& off + e.size() <= u64::MAX
                &&& off + e.size() <= c.len()
                &&& exact_log(c, off + e.size())
            },
        }
    }
}

/// A run of whole records reads to its end.
pub proof fn lemma_exact_log_scan(path: Seq<char>, c: Seq<u8>, off: int)
    requires
        0 <= off,
        exact_log(c, off),
    ensures
        scan_from(path, c, off, c.len() as int).1 == ScanEnd::Done,
    decreases c.len() - off,
{
    if off < c.len() {
        let e = parse_entry_at(c, off).unwrap();
        lemma_exact_log_scan(path, c, off + e.size());
    }
}

/// Appending bytes after a run of whole records: its records read the same,
/// and reading goes on into the appended bytes.
pub proof fn lemma_exact_log_append(path: Seq<char>, c: Seq<u8>, t: Seq<u8>, off: int)
    requires
        0 <= off,
        exact_log(c, off),
    ensures
        ({
            let whole = scan_from(path, c + t, off, (c.len() + t.len()) as int);
            let tail = scan_from(path, c + t, c.len() as int, (c.len() + t.len()) as int);
            whole == (scan_from(path, c, off, c.len() as int).0 + tail.0, tail.1)
        }),
        exact_log(c + t, c.len() as int) ==> exact_log(c + t, off),
    decreases c.len() - off,
{
    if off < c.len() {
        let e = parse_entry_at(c, off).unwrap();
        crate::file::lemma_parse_prefix(c, t, off);
        lemma_exact_log_append(path, c, t, off + e.size());
        let rest_c = scan_from(path, c, off + e.size(), c.len() as int);
        let tail = scan_from(path, c + t, c.len() as int, (c.len() + t.len()) as int);
        let r = Rec { entry: e, path, offset: off as u64 };
        assert(seq![r] + (rest_c.0 + tail.0) =~= (seq![r] + rest_c.0) + tail.0);
    } else {
        assert(Seq::<Rec>::empty() + scan_from(path, c + t, c.len() as int, (c.len() + t.len()) as int).0
            =~= scan_from(path, c + t, c.len() as int, (c.len() + t.len()) as int).0);
    }
}

/// A record appended at the end of `c` reads back as one record that ends
/// the bytes.
pub proof fn lemma_exact_log_one(path: Seq<char>, c: Seq<u8>, e: EntryView)
    requires
        e.sizes_match(),
        e.size() <= u32::MAX,
        c.len() + e.size() <= u64::MAX,
    ensures
        scan_from(path, c + e.encoding(), c.len() as int, (c.len() + e.encoding().len()) as int) == (
            seq![Rec { entry: e, path, offset: c.len() as u64 }],
            ScanEnd::Done,
        ),
        exact_log(c + e.encoding(), c.len() as int),
{
    let x = c + e.encoding();
    assert(x.subrange(c.len() as int, c.len() + e.size()) =~= e.encoding());
    crate::file::lemma_parse_encoding(x, c.len() as int, e);
    assert(exact_log(x, c.len() + e.size()));
}

/// Reading the immutable files depends on their paths' files alone.
pub proof fn lemma_scan_files_frame(d1: DiskView, d2: DiskView, fs: Seq<FileRef>)
    requires
        forall|i: int|
            0 <= i < fs.len() ==> (d1.files.contains_key(#[trigger] fs[i].path)
                == d2.files.contains_key(fs[i].path)) && (d1.files.contains_key(fs[i].path)
                ==> d1.files[fs[i].path] == d2.files[fs[i].path]),
    ensures
        scan_files(d1, fs) == scan_files(d2, fs),
    decreases fs.len(),
{
    if fs.len() > 0 {
        assert(active_bytes(d1, fs[0].path) == active_bytes(d2, fs[0].path));
        assert forall|i: int| 0 <= i < fs.drop_first().len() implies (d1.files.contains_key(
            #[trigger] fs.drop_first()[i].path,
        ) == d2.files.contains_key(fs.drop_first()[i].path)) && (d1.files.contains_key(
            fs.drop_first()[i].path,
        ) ==> d1.files[fs.drop_first()[i].path] == d2.files[fs.drop_first()[i].path]) by {
            assert(fs.drop_first()[i] == fs[i + 1]);
        }
        lemma_scan_files_frame(d1, d2, fs.drop_first());
    }
}

/// Reading one more immutable file after the others.
pub proof fn lemma_scan_files_push(d: DiskView, fs: Seq<FileRef>, f: FileRef)
    ensures
        ({
            let before = scan_files(d, fs);
            let last = scan_immutable(d, f);
            scan_files(d, fs.push(f)) == if before.1 == ScanEnd::Done {
                (before.0 + last.0, last.1)
            } else {
                before
            }
        }),
    decreases fs.len(),
{
    let before = scan_files(d, fs);
    let last = scan_immutable(d, f);
    if fs.len() == 0 {
        assert(fs.push(f).drop_first() =~= Seq::<FileRef>::empty());
        assert(fs.push(f)[0] == f);
        assert(Seq::<Rec>::empty() + last.0 =~= last.0);
        assert(last.0 + Seq::<Rec>::empty() =~= last.0);
        assert(scan_files(d, fs.push(f).drop_first()) == (Seq::<Rec>::empty(), ScanEnd::Done));
        if last.1 == ScanEnd::Done {
            assert(scan_files(d, fs.push(f)) == (last.0 + Seq::<Rec>::empty(), ScanEnd::Done));
        } else {
            assert(scan_files(d, fs.push(f)) == last);
        }
    } else {
        assert(fs.push(f).drop_first() =~= fs.drop_first().push(f));
        assert(fs.push(f)[0] == fs[0]);
        lemma_scan_files_push(d, fs.drop_first(), f);
        let first = scan_immutable(d, fs[0]);
        let mid = scan_files(d, fs.drop_first());
        assert(first.0 + (mid.0 + last.0) =~= (first.0 + mid.0) + last.0);
        if first.1 == ScanEnd::Done && mid.1 == ScanEnd::Done {
            assert(scan_files(d, fs.push(f)) == (first.0 + (mid.0 + last.0), last.1));
        }
    }
}

} // verus!
