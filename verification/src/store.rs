//! The store: an index from keys to records, an active file that new records
//! are appended to, and the immutable files that earlier active files became.
//!
//! The store works on a [`Disk`], the directory's files held as bytes; every
//! change it makes to them is also queued there as a [`DiskOp`] for whoever
//! keeps the files on disk.
use vstd::prelude::*;
use crate::entry::{be16_bytes, be32_bytes, Entry, EntryView, DEL, HEADERSIZE, SET};
use crate::errors::{fault, fault_of, not_found_error, Fault, KvsError};
use crate::file::{
    active_bytes, append_entry, copy_bytes, disk_create, disk_remove, read_by_path, read_entry_at,
    DBFile, DataFile, DataValue, DataValueView, Disk, DiskView, FileIo, FileRef, ImmutableFile,
};
use crate::index::DataIndex;
use crate::log::{
    apply_rec, lemma_scan_step, live_pred, live_recs, replay, scan_active, scan_fault, scan_files,
    scan_from, scan_immutable, Rec, ScanEnd,
};
use crate::paths::{data_file_path, data_file_path_of, ends_with, illage_data_index, index_suffix};

verus! {

/// The offset at or past which the active file is retired.
pub const MAX: u64 = 10000;

/// The number of retirements of the active file between two compactions.
pub const COMPACTION_PERIOD: u64 = 3;

/// The mathematical value of a [`KvStore`].
pub struct StoreView {
    pub data: Map<Seq<char>, DataValueView>,
    pub active: FileRef,
    pub handle: Seq<u8>,
    pub immutables: Seq<FileRef>,
    pub dir: Seq<char>,
    pub hint: Seq<char>,
    pub max_immytable: u64,
    pub disk: DiskView,
}

/// A log-structured key-value store.
pub struct KvStore {
    pub data: DataIndex,
    pub active_file: DBFile,
    pub immutable_files: Vec<ImmutableFile>,
    pub dir_path: String,
    pub hint_file: String,
    pub max_immytable: u64,
    pub disk: Disk,
}

impl View for KvStore {
    type V = StoreView;

    open spec fn view(&self) -> StoreView {
        StoreView {
            data: self.data@,
            active: self.active_file@,
            handle: self.active_file.contents@,
            immutables: self.immutable_files@.map_values(|f: ImmutableFile| f@),
            dir: self.dir_path@,
            hint: self.hint_file@,
            max_immytable: self.max_immytable,
            disk: self.disk@,
        }
    }
}

// ---------------------------------------------------------------------------
// What each operation does, on the store's value.

/// The path of the file that retiring the active file opens.
pub open spec fn next_active_path(s: StoreView) -> Seq<char> {
    data_file_path(s.dir, s.immutables.len() + 2)
}

/// Retiring the active file: it joins the immutable files, and a new data
/// file, numbered by the count of immutable files plus two, is opened (and
/// created where it does not exist) and becomes active, appended to from its
/// start.
pub open spec fn rollover(s: StoreView) -> StoreView {
    let p = next_active_path(s);
    StoreView {
        immutables: s.immutables.push(s.active),
        active: FileRef { path: p, end: 0 },
        handle: disk_create(s.disk, p).files[p],
        max_immytable: (s.max_immytable - 1) as u64,
        disk: disk_create(s.disk, p),
        ..s
    }
}

/// Retiring the active file panics: the countdown to compaction is already at
/// zero, or the file's number does not fit.
pub open spec fn rollover_panics(s: StoreView) -> bool {
    s.max_immytable == 0 || s.immutables.len() + 2 > usize::MAX
}

/// Removing the immutable files one by one from the last: the last is removed,
/// and removing it a second time fails.
pub open spec fn clear_immutables(s: StoreView) -> (StoreView, Option<Fault>) {
    if s.immutables.len() == 0 {
        (s, None)
    } else {
        (StoreView { disk: disk_remove(s.disk, s.immutables.last().path), ..s }, Some(Fault::Io))
    }
}

/// Compaction: the records of the immutable files that the index points at
/// are collected; where there are none the countdown is set to zero, and
/// otherwise the immutable files are cleared.
pub open spec fn compaction(s: StoreView) -> (StoreView, Option<Fault>) {
    let sc = scan_files(s.disk, s.immutables);
    if sc.1 != ScanEnd::Done {
        (s, Some(scan_fault(sc.1)))
    } else if live_recs(s.data, sc.0).len() == 0 {
        (StoreView { max_immytable: 0, ..s }, None)
    } else {
        clear_immutables(s)
    }
}

/// Compaction panics: a record of an immutable file has a size that does not
/// fit.
pub open spec fn compaction_panics(s: StoreView) -> bool {
    scan_files(s.disk, s.immutables).1 == ScanEnd::Overflow
}

/// After a record is appended: the active file is retired once it reaches
/// `MAX`, and compaction runs once the countdown reaches zero, which a
/// successful compaction restarts.
pub open spec fn after_write(s: StoreView) -> (StoreView, Option<Fault>) {
    let s2 = if s.active.end >= MAX {
        rollover(s)
    } else {
        s
    };
    if s2.max_immytable == 0 {
        let (s3, r) = compaction(s2);
        if r is Some {
            (s3, r)
        } else {
            (StoreView { max_immytable: COMPACTION_PERIOD, ..s3 }, None)
        }
    } else {
        (s2, None)
    }
}

/// The steps after an append run without panicking.
pub open spec fn after_write_runs(s: StoreView) -> bool {
    let s2 = if s.active.end >= MAX {
        rollover(s)
    } else {
        s
    };
    &&& (s.active.end >= MAX ==> !rollover_panics(s))
    &&& (s2.max_immytable == 0 ==> !compaction_panics(s2))
}

/// What is left to do after a record is appended, one step at a time.
#[derive(PartialEq, Eq, Structural, Clone, Copy, Debug)]
pub enum Step {
    /// Retire the active file.
    Rollover,
    /// Compact, and restart the countdown where that succeeds.
    Compaction,
    /// Nothing.
    Done,
}

/// The next step after an append: retiring the active file while it has
/// reached `MAX`, then compaction while the countdown is at zero.
pub open spec fn next_step_spec(s: StoreView) -> Step {
    if s.active.end >= MAX {
        Step::Rollover
    } else if s.max_immytable == 0 {
        Step::Compaction
    } else {
        Step::Done
    }
}

/// Running one step: the store after it, and its error.
pub open spec fn run_step_spec(s: StoreView, st: Step) -> (StoreView, Option<Fault>) {
    match st {
        Step::Rollover => (rollover(s), None),
        Step::Compaction => {
            let (s3, r) = compaction(s);
            if r is Some {
                (s3, r)
            } else {
                (StoreView { max_immytable: COMPACTION_PERIOD, ..s3 }, None)
            }
        },
        Step::Done => (s, None),
    }
}

/// One step runs without panicking.
pub open spec fn step_runs(s: StoreView, st: Step) -> bool {
    match st {
        Step::Rollover => !rollover_panics(s),
        Step::Compaction => !compaction_panics(s),
        Step::Done => true,
    }
}

/// Running the next step, again and again, until nothing is left, an error
/// comes, or `fuel` steps have run.
pub open spec fn drive(s: StoreView, fuel: nat) -> (StoreView, Option<Fault>)
    decreases fuel,
{
    if fuel == 0 || next_step_spec(s) == Step::Done {
        (s, None)
    } else {
        let (s2, r) = run_step_spec(s, next_step_spec(s));
        if r is Some {
            (s2, r)
        } else {
            drive(s2, (fuel - 1) as nat)
        }
    }
}

/// The steps that `drive` runs from `s` within `fuel` run without panicking.
pub open spec fn drive_runs(s: StoreView, fuel: nat) -> bool
    decreases fuel,
{
    if fuel == 0 || next_step_spec(s) == Step::Done {
        true
    } else {
        let (s2, r) = run_step_spec(s, next_step_spec(s));
        step_runs(s, next_step_spec(s)) && (r is None ==> drive_runs(s2, (fuel - 1) as nat))
    }
}

/// The append alone of `set(k, v)` or of `remove(k)`: the store right after
/// it, or unchanged with the error where it is refused.
pub open spec fn record_step(s: StoreView, e: EntryView, k: Seq<char>, point: bool) -> (StoreView, Option<Fault>) {
    let r = append_entry(s.active, s.handle, s.disk, e).3;
    if r is Some {
        (s, r)
    } else {
        (append_then_state(s, e, k, point), None)
    }
}

/// Appending `e` to the active file, then pointing `k` at it (`Some`) or
/// removing `k` (`None`).
pub open spec fn append_then(s: StoreView, e: EntryView, k: Seq<char>, point: bool) -> (StoreView, Option<Fault>) {
    let (a, h, d, r) = append_entry(s.active, s.handle, s.disk, e);
    if r is Some {
        (s, r)
    } else {
        after_write(append_then_state(s, e, k, point))
    }
}

/// Appending `e` runs without panicking and within memory.
pub open spec fn append_runs(s: StoreView, e: EntryView, k: Seq<char>, point: bool) -> bool {
    let (a, h, d, r) = append_entry(s.active, s.handle, s.disk, e);
    &&& e.size() <= u32::MAX
    &&& (r is None ==> {
        &&& s.active.end + e.size() <= usize::MAX
        &&& s.active.end + e.encoding().len() <= usize::MAX
        &&& after_write_runs(append_then_state(s, e, k, point))
    })
}

/// The store right after the append of `append_then`, before the steps that
/// follow it.
pub open spec fn append_then_state(s: StoreView, e: EntryView, k: Seq<char>, point: bool) -> StoreView {
    let (a, h, d, r) = append_entry(s.active, s.handle, s.disk, e);
    let data = if point {
        s.data.insert(k, DataValueView { file_path: s.active.path, file_offset: s.active.end })
    } else {
        s.data.remove(k)
    };
    StoreView { data, active: a, handle: h, disk: d, ..s }
}

/// `set(k, v)`: a set record is appended and the index points `k` at it.
pub open spec fn set_spec(s: StoreView, k: Seq<char>, v: Seq<char>) -> (StoreView, Option<Fault>) {
    append_then(s, EntryView::new(SET, k, v), k, true)
}

/// `set(k, v)` runs without panicking and within memory.
pub open spec fn set_runs(s: StoreView, k: Seq<char>, v: Seq<char>) -> bool {
    append_runs(s, EntryView::new(SET, k, v), k, true)
}

/// `remove(k)`: refused where the index does not hold `k`; otherwise a
/// delete record is appended and `k` leaves the index.
pub open spec fn remove_spec(s: StoreView, k: Seq<char>) -> (StoreView, Option<Fault>) {
    if !s.data.contains_key(k) {
        (s, Some(Fault::KeyNotExit))
    } else {
        append_then(s, EntryView::new(DEL, k, Seq::empty()), k, false)
    }
}

/// `remove(k)` runs without panicking and within memory.
pub open spec fn remove_runs(s: StoreView, k: Seq<char>) -> bool {
    s.data.contains_key(k) ==> append_runs(s, EntryView::new(DEL, k, Seq::empty()), k, false)
}

/// `get(k)`: `None` where the index does not hold `k`; otherwise the value of
/// the record that the index points at, read through its file's path.
pub open spec fn get_spec(s: StoreView, k: Seq<char>) -> Result<Option<Seq<char>>, Fault> {
    if !s.data.contains_key(k) {
        Ok(None)
    } else {
        let loc = s.data[k];
        match read_by_path(s.disk, loc.file_path, loc.file_offset) {
            Ok(e) => Ok(Some(e.value)),
            Err(f) => Err(f),
        }
    }
}

/// Rebuilding the index from the immutable files: replaying all their records
/// from an empty index, or nothing where one of them does not read.
pub open spec fn restructure_immutable_spec(s: StoreView) -> (StoreView, Option<Fault>) {
    let sc = scan_files(s.disk, s.immutables);
    if sc.1 == ScanEnd::Done {
        (StoreView { data: replay(Map::empty(), sc.0), ..s }, None)
    } else {
        (s, Some(scan_fault(sc.1)))
    }
}

/// Replaying the active file's records onto the index, up to the first that
/// does not read.
pub open spec fn restructure_active_spec(s: StoreView) -> (StoreView, Option<Fault>) {
    let sc = scan_active(s.handle, s.active);
    (
        StoreView { data: replay(s.data, sc.0), ..s },
        if sc.1 == ScanEnd::Done {
            None
        } else {
            Some(scan_fault(sc.1))
        },
    )
}

/// Rebuilding the index: from the index file's contents where they are given,
/// else from the immutable files and then the active file.
pub open spec fn restructure_spec(s: StoreView, hint: Option<Map<Seq<char>, DataValueView>>) -> (StoreView, Option<Fault>) {
    match hint {
        Some(m) => (StoreView { data: m, ..s }, None),
        None => {
            let (s1, r1) = restructure_immutable_spec(s);
            if r1 is Some {
                (s1, r1)
            } else {
                restructure_active_spec(s1)
            }
        },
    }
}

/// Rebuilding the index from the files runs without panicking.
pub open spec fn restructure_runs(s: StoreView) -> bool {
    &&& scan_files(s.disk, s.immutables).1 != ScanEnd::Overflow
    &&& (scan_files(s.disk, s.immutables).1 == ScanEnd::Done ==> scan_active(s.handle, s.active).1
        != ScanEnd::Overflow)
}

/// A record read from a file, with its file's path and its offset there.
pub struct Record {
    pub entry: Entry,
    pub path: String,
    pub offset: u64,
}

impl View for Record {
    type V = Rec;

    open spec fn view(&self) -> Rec {
        Rec { entry: self.entry@, path: self.path@, offset: self.offset }
    }
}

/// The values of records.
pub open spec fn recs_view(v: Seq<Record>) -> Seq<Rec> {
    v.map_values(|r: Record| r@)
}

/// How a scan of records stopped.
enum ScanStop {
    /// At the end offset.
    Done,
    /// At a record that does not read, with the error of the read.
    Failed(KvsError),
    /// At a record whose size does not fit, where the reading code panics.
    Overflow,
}

/// The scan stopped as `e` says, and with error `f` where it failed.
spec fn stop_matches(r: ScanStop, e: ScanEnd) -> bool {
    match r {
        ScanStop::Done => e == ScanEnd::Done,
        ScanStop::Failed(err) => e != ScanEnd::Done && e != ScanEnd::Overflow && fault(err)
            == scan_fault(e),
        ScanStop::Overflow => e == ScanEnd::Overflow,
    }
}

/// The records of `c` from offset 0 while the offset is below `end`, appended
/// to `out`, and how the scan stopped.
fn scan_bytes(path: &String, c: &Vec<u8>, end: u64, out: &mut Vec<Record>) -> (r: ScanStop)
    ensures
        ({
            let sc = scan_from(path@, c@, 0, end as int);
            &&& recs_view(final(out)@) == recs_view(old(out)@) + sc.0
            &&& stop_matches(r, sc.1)
        }),
{
    let ghost sc = scan_from(path@, c@, 0, end as int);
    let ghost mut acc: Seq<Rec> = Seq::empty();
    let mut offset: u64 = 0;
    while offset < end
        invariant
            sc == scan_from(path@, c@, 0, end as int),
            sc == (acc + scan_from(path@, c@, offset as int, end as int).0, scan_from(
                path@,
                c@,
                offset as int,
                end as int,
            ).1),
            recs_view(out@) == recs_view(old(out)@) + acc,
        decreases (if offset < end { end - offset } else { 0 }),
    {
        let entry = match read_entry_at(c, offset) {
            Ok(e) => e,
            Err(err) => {
                proof {
                    assert(acc + Seq::<Rec>::empty() =~= acc);
                }
                return ScanStop::Failed(err);
            },
        };
        if entry.key_size as u64 + entry.value_size as u64 + HEADERSIZE as u64 > u32::MAX as u64 {
            proof {
                assert(acc + Seq::<Rec>::empty() =~= acc);
            }
            return ScanStop::Overflow;
        }
        let size = entry.size();
        if offset > u64::MAX - size as u64 {
            proof {
                assert(acc + Seq::<Rec>::empty() =~= acc);
            }
            return ScanStop::Overflow;
        }
        proof {
            lemma_scan_step(path@, c@, offset as int, end as int);
        }
        let rec = Record { entry, path: path.clone(), offset };
        let ghost r = rec@;
        let ghost prev = out@;
        out.push(rec);
        proof {
            assert(out@ == prev.push(rec));
            assert(recs_view(out@) =~= recs_view(prev).push(r));
            assert(recs_view(out@) =~= recs_view(old(out)@) + acc.push(r));
            let rest = scan_from(path@, c@, offset + size, end as int);
            assert(acc + (seq![r] + rest.0) =~= acc.push(r) + rest.0);
            acc = acc.push(r);
        }
        offset = offset + size as u64;
    }
    proof {
        assert(acc + Seq::<Rec>::empty() =~= acc);
    }
    ScanStop::Done
}

/// The records of the immutable files from the one at `i` on: those of the
/// file at `i`, and where it reads to its end, those of the rest.
proof fn lemma_scan_files_skip(d: DiskView, fs: Seq<FileRef>, i: int)
    requires
        0 <= i < fs.len(),
    ensures
        ({
            let first = scan_immutable(d, fs[i]);
            let rest = scan_files(d, fs.skip(i + 1));
            scan_files(d, fs.skip(i)) == if first.1 != ScanEnd::Done {
                first
            } else {
                (first.0 + rest.0, rest.1)
            }
        }),
{
    assert(fs.skip(i)[0] == fs[i]);
    assert(fs.skip(i).drop_first() =~= fs.skip(i + 1));
}

impl KvStore {
    /// The index and the directory keep their keys and paths distinct.
    pub open spec fn wf(&self) -> bool {
        &&& self.data.wf()
        &&& self.disk.wf()
    }

    /// Retires the active file: it joins the immutable files, and the data
    /// file numbered by the count of immutable files plus two is opened,
    /// created if need be, and becomes the active file. The creation is
    /// queued on the disk; where carrying it out fails, `settle` puts back the
    /// store from before.
    pub fn updata_active_file(&mut self) -> (r: Result<(), KvsError>)
        requires
            old(self).wf(),
            !rollover_panics(old(self)@),
        ensures
            final(self).wf(),
            r is Ok,
            final(self)@ == rollover(old(self)@),
    {
        let immutable = ImmutableFile {
            data_path: self.active_file.file_path.clone(),
            data_offset: self.active_file.offset,
        };
        let num = self.immutable_files.len() + 2;
        let active_file_path = data_file_path_of(&self.dir_path, num as u64);
        self.disk.create(&active_file_path);
        let contents = match self.disk.file(&active_file_path) {
            Some(c) => copy_bytes(c),
            None => {
                proof {
                    assert(false);
                }
                Vec::new()
            },
        };
        let active_file = DBFile { file_path: active_file_path, offset: 0, contents };
        self.immutable_files.push(immutable);
        self.active_file = active_file;
        self.max_immytable = self.max_immytable - 1;
        proof {
            assert(self@.immutables =~= old(self)@.immutables.push(old(self)@.active));
        }
        Ok(())
    }

    /// Removes the immutable files from the last one on: the last is removed,
    /// and then removing it again fails, so this only succeeds where there are
    /// no immutable files.
    fn clear_immutable_file(&mut self) -> (r: Result<(), KvsError>)
        requires
            old(self).wf(),
        ensures
            final(self).wf(),
            (final(self)@, fault_of(r)) == clear_immutables(old(self)@),
    {
        let ghost s0 = self@;
        loop
            invariant
                self.wf(),
                old(self)@ == s0,
                self@.immutables == s0.immutables,
                s0.immutables.len() > 0 ==> {
                    ||| self@ == s0
                    ||| (self@ == clear_immutables(s0).0 && !self@.disk.files.contains_key(
                        s0.immutables.last().path,
                    ))
                },
                s0.immutables.len() == 0 ==> self@ == s0,
            ensures
                s0.immutables.len() == 0 && self@ == s0,
            decreases
                    if s0.immutables.len() > 0 && self@.disk.files.contains_key(
                        s0.immutables.last().path,
                    ) {
                        1int
                    } else {
                        0int
                    },
        {
            let n = self.immutable_files.len();
            if n == 0 {
                break;
            }
            let table_path = self.immutable_files[n - 1].data_path.clone();
            let ghost before = self@;
            proof {
                assert(self@.immutables[n - 1] == self.immutable_files@[n - 1]@);
                assert(table_path@ == s0.immutables.last().path);
            }
            let removed = self.disk.remove(&table_path);
            if !removed {
                let err = KvsError::Io(not_found_error());
                proof {
                    if before == s0 {
                        assert(self@ == clear_immutables(s0).0);
                    }
                }
                return Err(err);
            }
            proof {
                assert(before == s0);
            }
        }
        Ok(())
    }
}


impl KvStore {
    /// The records of the immutable files, in order; the error of the first
    /// file that does not read to its end.
    fn read_immutable_records(&self) -> (r: (Vec<Record>, ScanStop))
        requires
            self.wf(),
        ensures
            ({
                let sc = scan_files(self@.disk, self@.immutables);
                &&& stop_matches(r.1, sc.1)
                &&& (sc.1 == ScanEnd::Done ==> recs_view(r.0@) == sc.0)
            }),
    {
        let ghost d = self@.disk;
        let ghost fs = self@.immutables;
        let ghost sc = scan_files(d, fs);
        let mut out: Vec<Record> = Vec::new();
        let ghost mut acc: Seq<Rec> = Seq::empty();
        let mut i: usize = 0;
        proof {
            assert(fs.skip(0) =~= fs);
            assert(recs_view(out@) =~= acc);
        }
        while i < self.immutable_files.len()
            invariant
                self.wf(),
                d == self@.disk,
                fs == self@.immutables,
                sc == scan_files(d, fs),
                0 <= i <= fs.len(),
                sc == (acc + scan_files(d, fs.skip(i as int)).0, scan_files(
                    d,
                    fs.skip(i as int),
                ).1),
                recs_view(out@) == acc,
            decreases fs.len() - i,
        {
            let immutable = &self.immutable_files[i];
            proof {
                assert(fs[i as int] == immutable@);
                lemma_scan_files_skip(d, fs, i as int);
            }
            let empty: Vec<u8> = Vec::new();
            let bytes = match self.disk.file(&immutable.data_path) {
                Some(c) => c,
                None => {
                    if immutable.data_offset > 0 {
                        proof {
                            assert(acc + Seq::<Rec>::empty() =~= acc);
                        }
                        return (out, ScanStop::Failed(KvsError::Io(not_found_error())));
                    }
                    &empty
                },
            };
            proof {
                assert(bytes@ == active_bytes(d, immutable@.path));
            }
            let r = scan_bytes(&immutable.data_path, bytes, immutable.data_offset, &mut out);
            match r {
                ScanStop::Done => {},
                _ => {
                    return (out, r);
                },
            }
            proof {
                let first = scan_immutable(d, fs[i as int]);
                let rest = scan_files(d, fs.skip(i + 1));
                assert(acc + (first.0 + rest.0) =~= (acc + first.0) + rest.0);
                acc = acc + first.0;
            }
            i = i + 1;
        }
        proof {
            assert(fs.skip(i as int) =~= Seq::<FileRef>::empty());
            assert(acc + Seq::<Rec>::empty() =~= acc);
        }
        (out, ScanStop::Done)
    }

    /// Rebuilds the index from the immutable files: their records replayed in
    /// order from an empty index. Where a file does not read to its end, the
    /// index is left as it was.
    pub fn restructure_immutable(&mut self) -> (r: Result<(), KvsError>)
        requires
            old(self).wf(),
            scan_files(old(self)@.disk, old(self)@.immutables).1 != ScanEnd::Overflow,
        ensures
            final(self).wf(),
            (final(self)@, fault_of(r)) == restructure_immutable_spec(old(self)@),
    {
        let (recs, stop) = self.read_immutable_records();
        match stop {
            ScanStop::Done => {
                let mut data = DataIndex::new();
                replay_records(&mut data, &recs);
                self.data = data;
                Ok(())
            },
            ScanStop::Failed(e) => Err(e),
            ScanStop::Overflow => {
                proof {
                    assert(false);
                }
                Ok(())
            },
        }
    }

    /// Replays the active file's records onto the index, up to the first that
    /// does not read.
    pub fn restructure_active_file(&mut self) -> (r: Result<(), KvsError>)
        requires
            old(self).wf(),
            scan_active(old(self)@.handle, old(self)@.active).1 != ScanEnd::Overflow,
        ensures
            final(self).wf(),
            (final(self)@, fault_of(r)) == restructure_active_spec(old(self)@),
    {
        let mut recs: Vec<Record> = Vec::new();
        proof {
            assert(recs_view(recs@) =~= Seq::<Rec>::empty());
        }
        let stop = scan_bytes(
            &self.active_file.file_path,
            &self.active_file.contents,
            self.active_file.offset,
            &mut recs,
        );
        proof {
            assert(recs_view(recs@) =~= scan_active(self@.handle, self@.active).0);
        }
        replay_records(&mut self.data, &recs);
        match stop {
            ScanStop::Done => Ok(()),
            ScanStop::Failed(e) => Err(e),
            ScanStop::Overflow => {
                proof {
                    assert(false);
                }
                Ok(())
            },
        }
    }

    /// Rebuilds the index: from the index file's contents where they are
    /// given, otherwise from the immutable files and then the active file.
    pub fn restructure(&mut self, hint: Option<DataIndex>) -> (r: Result<(), KvsError>)
        requires
            old(self).wf(),
            hint matches Some(h) ==> h.wf(),
            hint is None ==> restructure_runs(old(self)@),
        ensures
            final(self).wf(),
            (final(self)@, fault_of(r)) == restructure_spec(
                old(self)@,
                match hint {
                    Some(h) => Some(h@),
                    None => None,
                },
            ),
    {
        match hint {
            Some(decode) => {
                self.data = decode;
                return Ok(());
            },
            None => {},
        }
        match self.restructure_immutable() {
            Err(e) => {
                return Err(e);
            },
            Ok(()) => {},
        }
        self.restructure_active_file()
    }

    /// Compaction: collects the records of the immutable files that the index
    /// points at. Where there are none, the countdown to the next compaction
    /// is set to zero; otherwise the immutable files are cleared, which fails
    /// as `clear_immutable_file` says, before any record is rewritten.
    pub fn compaction(&mut self) -> (r: Result<(), KvsError>)
        requires
            old(self).wf(),
            !compaction_panics(old(self)@),
        ensures
            final(self).wf(),
            (final(self)@, fault_of(r)) == compaction(old(self)@),
    {
        let (recs, stop) = self.read_immutable_records();
        match stop {
            ScanStop::Done => {},
            ScanStop::Failed(e) => {
                return Err(e);
            },
            ScanStop::Overflow => {
                proof {
                    assert(false);
                }
                return Ok(());
            },
        }
        let ghost all = recs_view(recs@);
        let mut vaild_entry: Vec<Entry> = Vec::new();
        let mut j: usize = 0;
        while j < recs.len()
            invariant
                self.wf(),
                all == recs_view(recs@),
                0 <= j <= recs@.len(),
                vaild_entry@.len() == live_recs(self@.data, all.take(j as int)).len(),
            decreases recs@.len() - j,
        {
            let rec = &recs[j];
            proof {
                assert(all.take(j + 1) =~= all.take(j as int).push(all[j as int]));
                assert(all[j as int] == rec@);
                all.take(j as int).lemma_filter_push(rec@, live_pred(self@.data));
            }
            if self.data.contains_key(&rec.entry.key) {
                let data_value = self.data.get(&rec.entry.key).unwrap();
                if data_value.file_path == rec.path && data_value.file_offset == rec.offset {
                    vaild_entry.push(rec.entry.clone());
                }
            }
            j = j + 1;
        }
        proof {
            assert(all.take(j as int) =~= all);
        }
        if !vaild_entry.is_empty() {
            match self.clear_immutable_file() {
                Err(e) => {
                    return Err(e);
                },
                Ok(()) => {
                    // Clearing succeeds only with no immutable files, and then
                    // no record was collected: the rewriting of the collected
                    // records into fresh files is never reached.
                    proof {
                        assert(self@.immutables =~= Seq::<FileRef>::empty());
                        assert(false);
                    }
                },
            }
        }
        self.max_immytable = 0;
        Ok(())
    }

    /// What follows an append: the active file is retired once it reaches
    /// `MAX`, and compaction runs once the countdown reaches zero.
    fn after_write(&mut self) -> (r: Result<(), KvsError>)
        requires
            old(self).wf(),
            after_write_runs(old(self)@),
        ensures
            final(self).wf(),
            (final(self)@, fault_of(r)) == after_write(old(self)@),
    {
        if self.active_file.offset >= MAX {
            match self.updata_active_file() {
                Err(e) => {
                    return Err(e);
                },
                Ok(()) => {},
            }
        }
        if self.max_immytable == 0 {
            match self.compaction() {
                Err(e) => {
                    return Err(e);
                },
                Ok(()) => {},
            }
            self.max_immytable = COMPACTION_PERIOD;
        }
        Ok(())
    }

    /// Appends `entry` to the active file and then points `key` at it
    /// (`point`) or removes `key` from the index.
    fn append_record(&mut self, entry: Entry, key: String, point: bool) -> (r: Result<(), KvsError>)
        requires
            old(self).wf(),
            old(self).active_file.write_allowed(old(self)@.disk, entry@),
        ensures
            final(self).wf(),
            match r {
                Ok(()) => append_entry(old(self)@.active, old(self)@.handle, old(self)@.disk, entry@).3
                    is None && final(self)@ == append_then_state(old(self)@, entry@, key@, point),
                Err(e) => append_entry(old(self)@.active, old(self)@.handle, old(self)@.disk, entry@).3
                    == Some(fault(e)) && final(self)@ == old(self)@,
            },
    {
        let offset = self.active_file.offset;
        match self.active_file.write(&mut self.disk, entry) {
            Err(e) => {
                return Err(e);
            },
            Ok(()) => {},
        }
        if point {
            self.data.insert(
                key,
                DataValue { file_path: self.active_file.file_path.clone(), file_offset: offset },
            );
        } else {
            self.data.remove(&key);
        }
        Ok(())
    }

    /// Sets `key` to `value`: a set record is appended to the active file and
    /// the index points `key` at it. A key and value that are both empty are
    /// refused.
    pub fn set(&mut self, key: String, value: String) -> (r: Result<(), KvsError>)
        requires
            old(self).wf(),
            set_runs(old(self)@, key@, value@),
        ensures
            final(self).wf(),
            (final(self)@, fault_of(r)) == set_spec(old(self)@, key@, value@),
    {
        let entry = Entry::new(SET, key.clone(), value);
        match self.append_record(entry, key, true) {
            Err(e) => {
                return Err(e);
            },
            Ok(()) => {},
        }
        self.after_write()
    }

    /// The value of `key`: `None` where the index does not hold it, otherwise
    /// the value of the record it points at. The store does not change.
    pub fn get(&mut self, key: String) -> (r: Result<Option<String>, KvsError>)
        requires
            old(self).wf(),
        ensures
            *final(self) == *old(self),
            match r {
                Ok(Some(v)) => get_spec(old(self)@, key@) == Ok::<Option<Seq<char>>, Fault>(
                    Some(v@),
                ),
                Ok(None) => get_spec(old(self)@, key@) == Ok::<Option<Seq<char>>, Fault>(None),
                Err(e) => get_spec(old(self)@, key@) == Err::<Option<Seq<char>>, Fault>(fault(e)),
            },
    {
        if !self.data.contains_key(&key) {
            return Ok(None);
        }
        let value = self.data.get(&key).unwrap();
        match value.read(&self.disk, value.file_offset) {
            Ok(entry) => Ok(Some(entry.value)),
            Err(e) => Err(e),
        }
    }

    /// Removes `key`: refused where the index does not hold it; otherwise a
    /// delete record is appended to the active file and `key` leaves the
    /// index.
    pub fn remove(&mut self, key: String) -> (r: Result<(), KvsError>)
        requires
            old(self).wf(),
            remove_runs(old(self)@, key@),
        ensures
            final(self).wf(),
            (final(self)@, fault_of(r)) == remove_spec(old(self)@, key@),
    {
        if !self.data.contains_key(&key) {
            return Err(KvsError::KeyNotExit);
        }
        let entry = Entry::new(DEL, key.clone(), String::new());
        match self.append_record(entry, key, false) {
            Err(e) => {
                return Err(e);
            },
            Ok(()) => {},
        }
        self.after_write()
    }

    /// The append alone of `set`: a set record is appended and the index
    /// points `key` at it, with none of the steps that follow.
    pub fn set_record(&mut self, key: String, value: String) -> (r: Result<(), KvsError>)
        requires
            old(self).wf(),
            old(self).active_file.write_allowed(old(self)@.disk, EntryView::new(SET, key@, value@)),
        ensures
            final(self).wf(),
            (final(self)@, fault_of(r)) == record_step(old(self)@, EntryView::new(SET, key@, value@), key@, true),
    {
        let entry = Entry::new(SET, key.clone(), value);
        self.append_record(entry, key, true)
    }

    /// The append alone of `remove`: refused where the index does not hold
    /// `key`; otherwise a delete record is appended and `key` leaves the
    /// index, with none of the steps that follow.
    pub fn remove_record(&mut self, key: String) -> (r: Result<(), KvsError>)
        requires
            old(self).wf(),
            old(self)@.data.contains_key(key@) ==> old(self).active_file.write_allowed(
                old(self)@.disk,
                EntryView::new(DEL, key@, Seq::empty()),
            ),
        ensures
            final(self).wf(),
            (final(self)@, fault_of(r)) == if !old(self)@.data.contains_key(key@) {
                (old(self)@, Some(Fault::KeyNotExit))
            } else {
                record_step(old(self)@, EntryView::new(DEL, key@, Seq::empty()), key@, false)
            },
    {
        if !self.data.contains_key(&key) {
            return Err(KvsError::KeyNotExit);
        }
        let entry = Entry::new(DEL, key.clone(), String::new());
        self.append_record(entry, key, false)
    }

    /// What is left to do after an append.
    pub fn next_step(&self) -> (st: Step)
        ensures
            st == next_step_spec(self@),
    {
        if self.active_file.offset >= MAX {
            Step::Rollover
        } else if self.max_immytable == 0 {
            Step::Compaction
        } else {
            Step::Done
        }
    }

    /// Runs one step: retires the active file, or compacts and then restarts
    /// the countdown where compaction succeeds, or does nothing.
    pub fn run_step(&mut self, st: Step) -> (r: Result<(), KvsError>)
        requires
            old(self).wf(),
            step_runs(old(self)@, st),
        ensures
            final(self).wf(),
            (final(self)@, fault_of(r)) == run_step_spec(old(self)@, st),
    {
        match st {
            Step::Rollover => self.updata_active_file(),
            Step::Compaction => {
                match self.compaction() {
                    Err(e) => {
                        return Err(e);
                    },
                    Ok(()) => {},
                }
                self.max_immytable = COMPACTION_PERIOD;
                Ok(())
            },
            Step::Done => Ok(()),
        }
    }

    /// Takes the outcome of carrying a step's queued changes to the
    /// directory: where that failed, the store goes back to `before`, its
    /// state ahead of the step, and the failure is returned; otherwise the
    /// store stays as the step left it.
    pub fn settle(&mut self, before: KvStore, outcome: Result<(), KvsError>) -> (r: Result<(), KvsError>)
        ensures
            match outcome {
                Ok(()) => *final(self) == *old(self) && r is Ok,
                Err(e) => *final(self) == before && r == Err::<(), KvsError>(e),
            },
    {
        match outcome {
            Ok(()) => Ok(()),
            Err(e) => {
                *self = before;
                Err(e)
            },
        }
    }

    /// A copy of the store, with no changes to the directory queued.
    pub fn snapshot(&self) -> (r: KvStore)
        requires
            self.wf(),
        ensures
            r.wf(),
            r@ == (StoreView {
                disk: DiskView { files: self@.disk.files, ops: Seq::empty() },
                ..self@
            }),
    {
        let mut immutable_files: Vec<ImmutableFile> = Vec::new();
        let mut i: usize = 0;
        while i < self.immutable_files.len()
            invariant
                0 <= i <= self.immutable_files@.len(),
                immutable_files@ == self.immutable_files@.take(i as int),
            decreases self.immutable_files@.len() - i,
        {
            immutable_files.push(self.immutable_files[i].clone());
            proof {
                assert(self.immutable_files@.take(i + 1) =~= self.immutable_files@.take(
                    i as int,
                ).push(self.immutable_files@[i as int]));
            }
            i = i + 1;
        }
        proof {
            assert(self.immutable_files@.take(i as int) =~= self.immutable_files@);
        }
        let r = KvStore {
            data: self.data.duplicate(),
            active_file: DBFile {
                file_path: self.active_file.file_path.clone(),
                offset: self.active_file.offset,
                contents: copy_bytes(&self.active_file.contents),
            },
            immutable_files,
            dir_path: self.dir_path.clone(),
            hint_file: self.hint_file.clone(),
            max_immytable: self.max_immytable,
            disk: self.disk.copy_files(),
        };
        proof {
            assert(r@.disk =~= DiskView { files: self@.disk.files, ops: Seq::empty() });
        }
        r
    }

    /// Whether compaction would panic on a record whose size does not fit.
    pub fn compaction_would_panic(&self) -> (r: bool)
        requires
            self.wf(),
        ensures
            r == compaction_panics(self@),
    {
        let (_recs, stop) = self.read_immutable_records();
        match stop {
            ScanStop::Overflow => true,
            _ => false,
        }
    }

    /// Whether rebuilding the index from the files would panic on a record
    /// whose size does not fit.
    pub fn restructure_would_panic(&self) -> (r: bool)
        requires
            self.wf(),
        ensures
            r == !restructure_runs(self@),
    {
        let (_recs, stop) = self.read_immutable_records();
        match stop {
            ScanStop::Overflow => {
                return true;
            },
            ScanStop::Failed(_) => {
                return false;
            },
            ScanStop::Done => {},
        }
        let mut recs: Vec<Record> = Vec::new();
        let stop = scan_bytes(
            &self.active_file.file_path,
            &self.active_file.contents,
            self.active_file.offset,
            &mut recs,
        );
        match stop {
            ScanStop::Overflow => true,
            _ => false,
        }
    }

    /// Whether appending `entry` for `key`, and what follows, would panic or
    /// exceed memory.
    fn append_would_panic(&self, entry: Entry, key: &String, point: bool) -> (r: bool)
        requires
            self.wf(),
        ensures
            r == !append_runs(self@, entry@, key@, point),
    {
        let ghost e = entry@;
        if entry.key_size as u64 + entry.value_size as u64 + HEADERSIZE as u64 > u32::MAX as u64 {
            return true;
        }
        let size = entry.size();
        if size <= HEADERSIZE {
            return false;
        }
        let key_len = entry.key.as_str().as_bytes().len();
        let value_len = entry.value.as_str().as_bytes().len();
        let enc_len: u128 = HEADERSIZE as u128 + key_len as u128 + value_len as u128;
        proof {
            assert(be16_bytes(e.mark).len() == 2);
            assert(be32_bytes(e.key_size).len() == 4);
            assert(be32_bytes(e.value_size).len() == 4);
            assert(e.header().len() == HEADERSIZE);
            assert(e.encoding().len() == enc_len);
        }
        let offset = self.active_file.offset;
        if offset as u128 + size as u128 > usize::MAX as u128 || offset as u128 + enc_len
            > usize::MAX as u128 {
            return true;
        }
        let new_end = offset + size as u64;
        let rolls = new_end >= MAX;
        if rolls && (self.max_immytable == 0 || self.immutable_files.len() > usize::MAX - 2) {
            return true;
        }
        let max_after = if rolls {
            self.max_immytable - 1
        } else {
            self.max_immytable
        };
        if max_after != 0 {
            return false;
        }
        let mut copy = self.snapshot();
        let ghost s1 = append_then_state(self@, e, key@, point);
        match copy.append_record(entry, key.clone(), point) {
            Ok(()) => {},
            Err(_) => {
                return false;
            },
        }
        let ghost c1 = copy@;
        proof {
            assert(c1.disk.files == s1.disk.files);
        }
        if rolls {
            match copy.updata_active_file() {
                Ok(()) => {},
                Err(_) => {
                    return false;
                },
            }
        }
        proof {
            let s2 = if s1.active.end >= MAX {
                rollover(s1)
            } else {
                s1
            };
            assert(copy@.disk.files == s2.disk.files);
            assert(copy@.immutables == s2.immutables);
            crate::log::lemma_scan_files_frame(copy@.disk, s2.disk, s2.immutables);
        }
        copy.compaction_would_panic()
    }

    /// Whether `set(key, value)` would panic or exceed memory.
    pub fn set_would_panic(&self, key: &String, value: &String) -> (r: bool)
        requires
            self.wf(),
        ensures
            r == !set_runs(self@, key@, value@),
    {
        let entry = Entry::new(SET, key.clone(), value.clone());
        self.append_would_panic(entry, key, true)
    }

    /// Whether `remove(key)` would panic or exceed memory.
    pub fn remove_would_panic(&self, key: &String) -> (r: bool)
        requires
            self.wf(),
        ensures
            r == !remove_runs(self@, key@),
    {
        if !self.data.contains_key(key) {
            return false;
        }
        let entry = Entry::new(DEL, key.clone(), String::new());
        self.append_would_panic(entry, key, false)
    }
}

/// Replays the records onto the index, in order.
fn replay_records(data: &mut DataIndex, recs: &Vec<Record>)
    requires
        old(data).wf(),
    ensures
        final(data).wf(),
        final(data)@ == replay(old(data)@, recs_view(recs@)),
{
    let ghost m0 = data@;
    let mut j: usize = 0;
    while j < recs.len()
        invariant
            data.wf(),
            0 <= j <= recs@.len(),
            data@ == replay(m0, recs_view(recs@).take(j as int)),
        decreases recs@.len() - j,
    {
        let rec = &recs[j];
        proof {
            assert(recs_view(recs@).take(j + 1) =~= recs_view(recs@).take(j as int).push(rec@));
            crate::log::lemma_replay_push(m0, recs_view(recs@).take(j as int), rec@);
        }
        data.insert(
            rec.entry.key.clone(),
            DataValue { file_path: rec.path.clone(), file_offset: rec.offset },
        );
        if rec.entry.mark == DEL {
            data.remove(&rec.entry.key);
        }
        proof {
            assert(data@ =~= apply_rec(replay(m0, recs_view(recs@).take(j as int)), rec@));
        }
        j = j + 1;
    }
    proof {
        assert(recs_view(recs@).take(j as int) =~= recs_view(recs@));
    }
}

/// A data file found in the store's directory: its name, its path and its
/// bytes.
pub struct DirFile {
    pub file_name: String,
    pub path: String,
    pub contents: Vec<u8>,
}

/// The mathematical value of a [`DirFile`].
pub struct DirFileView {
    pub name: Seq<char>,
    pub path: Seq<char>,
    pub contents: Seq<u8>,
}

impl View for DirFile {
    type V = DirFileView;

    open spec fn view(&self) -> DirFileView {
        DirFileView { name: self.file_name@, path: self.path@, contents: self.contents@ }
    }
}

/// The path of the last of the files whose name ends with `_index.txt`, or
/// the empty path.
pub open spec fn hint_of(walked: Seq<DirFileView>) -> Seq<char>
    decreases walked.len(),
{
    if walked.len() == 0 {
        Seq::empty()
    } else if ends_with(walked.last().name, index_suffix()) {
        walked.last().path
    } else {
        hint_of(walked.drop_last())
    }
}

/// The files after each (path, bytes) pair is added in order.
pub open spec fn add_files(m: Map<Seq<char>, Seq<u8>>, fs: Seq<(Seq<char>, Seq<u8>)>) -> Map<Seq<char>, Seq<u8>>
    decreases fs.len(),
{
    if fs.len() == 0 {
        m
    } else {
        add_files(m, fs.drop_last()).insert(fs.last().0, fs.last().1)
    }
}

/// Adding files keeps every path that was there.
proof fn lemma_add_files_keeps(m: Map<Seq<char>, Seq<u8>>, fs: Seq<(Seq<char>, Seq<u8>)>, k: Seq<char>)
    requires
        m.contains_key(k),
    ensures
        add_files(m, fs).contains_key(k),
    decreases fs.len(),
{
    if fs.len() > 0 {
        lemma_add_files_keeps(m, fs.drop_last(), k);
    }
}

/// The (path, bytes) pairs of directory entries.
pub open spec fn walked_pairs(walked: Seq<DirFileView>) -> Seq<(Seq<char>, Seq<u8>)> {
    walked.map_values(|f: DirFileView| (f.path, f.contents))
}

/// Each directory entry as a file whose records end at its length.
pub open spec fn walked_refs(walked: Seq<DirFileView>) -> Seq<FileRef> {
    walked.map_values(|f: DirFileView| FileRef { path: f.path, end: f.contents.len() as u64 })
}

/// The store that `assemble` builds: every data file is immutable but the
/// last, which is active and appended to at its end; with no data files,
/// `0_kvs.txt` is opened, created, and active. The index is empty, and the
/// countdown to compaction full.
pub open spec fn assemble_spec(
    dir: Seq<char>,
    walked: Seq<DirFileView>,
    others: Seq<(Seq<char>, Seq<u8>)>,
) -> StoreView {
    let files = add_files(add_files(Map::empty(), walked_pairs(walked)), others);
    let d0 = DiskView { files, ops: Seq::empty() };
    let refs = walked_refs(walked);
    if walked.len() == 0 {
        let p = data_file_path(dir, 0);
        StoreView {
            data: Map::empty(),
            active: FileRef { path: p, end: 0 },
            handle: disk_create(d0, p).files[p],
            immutables: Seq::empty(),
            dir,
            hint: hint_of(walked),
            max_immytable: COMPACTION_PERIOD,
            disk: disk_create(d0, p),
        }
    } else {
        StoreView {
            data: Map::empty(),
            active: refs.last(),
            handle: files[refs.last().path],
            immutables: refs.drop_last(),
            dir,
            hint: hint_of(walked),
            max_immytable: COMPACTION_PERIOD,
            disk: d0,
        }
    }
}

/// The values of (path, bytes) files.
pub open spec fn data_file_pairs(fs: Seq<DataFile>) -> Seq<(Seq<char>, Seq<u8>)> {
    fs.map_values(|f: DataFile| (f.path@, f.contents@))
}

/// The values of directory entries.
pub open spec fn dir_files_view(fs: Seq<DirFile>) -> Seq<DirFileView> {
    fs.map_values(|f: DirFile| f@)
}

/// The value of an optional index.
pub open spec fn hint_view(hint: Option<DataIndex>) -> Option<Map<Seq<char>, DataValueView>> {
    match hint {
        Some(h) => Some(h@),
        None => None,
    }
}

impl KvStore {
    /// The store over the data files of directory `dir_path`, in the order
    /// in which the directory was walked, with `others` also readable by
    /// path; the index is still empty.
    pub fn assemble(dir_path: String, walked: Vec<DirFile>, others: Vec<DataFile>) -> (store: KvStore)
        ensures
            store.wf(),
            store@ == assemble_spec(dir_path@, dir_files_view(walked@), data_file_pairs(others@)),
    {
        let ghost wv = dir_files_view(walked@);
        let mut disk = Disk::new();
        let mut hint_file = String::new();
        let mut immutable_files: Vec<ImmutableFile> = Vec::new();
        let mut i: usize = 0;
        while i < walked.len()
            invariant
                disk.wf(),
                0 <= i <= walked@.len(),
                wv == dir_files_view(walked@),
                disk@.files == add_files(Map::empty(), walked_pairs(wv.take(i as int))),
                disk@.ops == Seq::<crate::file::DiskOpView>::empty(),
                hint_file@ == hint_of(wv.take(i as int)),
                immutable_files@.map_values(|f: ImmutableFile| f@) == walked_refs(wv.take(i as int)),
            decreases walked@.len() - i,
        {
            let file = &walked[i];
            proof {
                assert(wv.take(i + 1) =~= wv.take(i as int).push(file@));
                assert(wv.take(i + 1).drop_last() =~= wv.take(i as int));
                assert(walked_pairs(wv.take(i + 1)) =~= walked_pairs(wv.take(i as int)).push(
                    (file@.path, file@.contents),
                ));
                assert(walked_pairs(wv.take(i + 1)).drop_last() =~= walked_pairs(wv.take(i as int)));
            }
            if illage_data_index(Some(file.file_name.as_str())) {
                hint_file = file.path.clone();
            }
            let ghost prev = immutable_files@;
            let imm = ImmutableFile {
                data_path: file.path.clone(),
                data_offset: file.contents.len() as u64,
            };
            let ghost fr = imm@;
            immutable_files.push(imm);
            proof {
                assert(fr == FileRef { path: file@.path, end: file@.contents.len() as u64 });
                assert(immutable_files@.map_values(|f: ImmutableFile| f@) =~= prev.map_values(
                    |f: ImmutableFile| f@,
                ).push(fr));
                assert(walked_refs(wv.take(i + 1)) =~= walked_refs(wv.take(i as int)).push(fr));
            }
            disk.insert_file(DataFile { path: file.path.clone(), contents: copy_bytes(&file.contents) });
            i = i + 1;
        }
        proof {
            assert(wv.take(i as int) =~= wv);
        }
        let ghost op = data_file_pairs(others@);
        let mut j: usize = 0;
        while j < others.len()
            invariant
                disk.wf(),
                0 <= j <= others@.len(),
                op == data_file_pairs(others@),
                disk@.files == add_files(add_files(Map::empty(), walked_pairs(wv)), op.take(j as int)),
                disk@.ops == Seq::<crate::file::DiskOpView>::empty(),
            decreases others@.len() - j,
        {
            let file = &others[j];
            proof {
                assert(op.take(j + 1) =~= op.take(j as int).push((file.path@, file.contents@)));
                assert(op.take(j + 1).drop_last() =~= op.take(j as int));
            }
            disk.insert_file(DataFile { path: file.path.clone(), contents: copy_bytes(&file.contents) });
            j = j + 1;
        }
        proof {
            assert(op.take(j as int) =~= op);
        }
        let n = immutable_files.len();
        let active_file = if n == 0 {
            let path = data_file_path_of(&dir_path, 0);
            disk.create(&path);
            let contents = match disk.file(&path) {
                Some(c) => copy_bytes(c),
                None => {
                    proof {
                        assert(false);
                    }
                    Vec::new()
                },
            };
            DBFile { file_path: path, offset: 0, contents }
        } else {
            let last = immutable_files.pop().unwrap();
            proof {
                let refs = walked_refs(wv);
                assert(immutable_files@.map_values(|f: ImmutableFile| f@) =~= refs.drop_last());
                assert(last@ == refs.last());
                let wp = walked_pairs(wv);
                assert(wp.last().0 == refs.last().path);
                assert(add_files(Map::empty(), wp).contains_key(wp.last().0));
                lemma_add_files_keeps(add_files(Map::empty(), wp), op, wp.last().0);
            }
            let contents = match disk.file(&last.data_path) {
                Some(c) => copy_bytes(c),
                None => {
                    proof {
                        assert(false);
                    }
                    Vec::new()
                },
            };
            DBFile { file_path: last.data_path, offset: last.data_offset, contents }
        };
        let store = KvStore {
            data: DataIndex::new(),
            active_file,
            immutable_files,
            dir_path,
            hint_file,
            max_immytable: COMPACTION_PERIOD,
            disk,
        };
        proof {
            if n == 0 {
                assert(store@.immutables =~= Seq::<FileRef>::empty());
            }
        }
        store
    }

    /// Opens the store over the data files of directory `dir_path` and
    /// rebuilds its index: from `hint`, the contents of the index file where
    /// there is one, otherwise from the records of the files.
    pub fn open(dir_path: String, walked: Vec<DirFile>, others: Vec<DataFile>, hint: Option<DataIndex>) -> (r: Result<KvStore, KvsError>)
        requires
            hint matches Some(h) ==> h.wf(),
            hint is None ==> restructure_runs(
                assemble_spec(dir_path@, dir_files_view(walked@), data_file_pairs(others@)),
            ),
        ensures
            ({
                let (s, f) = restructure_spec(
                    assemble_spec(dir_path@, dir_files_view(walked@), data_file_pairs(others@)),
                    hint_view(hint),
                );
                match r {
                    Ok(store) => store.wf() && store@ == s && f is None,
                    Err(e) => f == Some(fault(e)),
                }
            }),
    {
        let mut store = KvStore::assemble(dir_path, walked, others);
        match store.restructure(hint) {
            Ok(()) => Ok(store),
            Err(e) => Err(e),
        }
    }
}

} // verus!
