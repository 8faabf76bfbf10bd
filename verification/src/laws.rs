//! Properties of the store as a whole, proved over the values that the
//! operations' contracts speak of.
use vstd::prelude::*;
use crate::entry::{
    be16_bytes, be32_bytes, decoded, utf8_bytes, EntryView, DEL, HEADERSIZE, SET,
};
use crate::errors::Fault;
use crate::file::{
    append_entry, lemma_parse_encoding, lemma_parse_prefix, parse_entry_at, read_active, size_at,
    write_bytes, DataValueView, DiskView, FileRef,
};
use crate::log::{
    apply_rec, exact_log, lemma_exact_log_append, lemma_exact_log_one, lemma_exact_log_scan,
    lemma_scan_files_frame, lemma_scan_files_push, replay, scan_active, scan_files, scan_from,
    scan_immutable, live_pred, live_recs, Rec, ScanEnd,
};
use crate::store::{
    add_files, assemble_spec, walked_pairs, walked_refs, DirFileView, after_write, append_then_state, compaction, get_spec, next_active_path, remove_spec,
    restructure_spec, rollover, set_spec, StoreView, COMPACTION_PERIOD, MAX, drive, drive_runs,
    after_write_runs, next_step_spec, record_step, set_runs, remove_runs, Step, append_runs,
    hint_of, restructure_runs,
};
use crate::paths::{ends_with, index_suffix};

verus! {

/// The sizes that `Entry::new` computes are the byte lengths of the key and
/// value when these fit in a `u32`.
proof fn lemma_new_sizes(mark: u16, k: Seq<char>, v: Seq<char>)
    requires
        utf8_bytes(k).len() + utf8_bytes(v).len() + HEADERSIZE <= u32::MAX,
    ensures
        EntryView::new(mark, k, v).sizes_match(),
        EntryView::new(mark, k, v).size() == utf8_bytes(k).len() + utf8_bytes(v).len() + HEADERSIZE,
        EntryView::new(mark, k, v).encoding().len() == EntryView::new(mark, k, v).size(),
{
    let e = EntryView::new(mark, k, v);
    assert(e.header().len() == HEADERSIZE);
}

/// What follows an append that succeeds changes neither the index nor the
/// bytes of a file that is already there.
proof fn lemma_after_write_keeps(s: StoreView, p: Seq<char>)
    requires
        s.disk.files.contains_key(p),
        after_write(s).1 is None,
    ensures
        after_write(s).0.data == s.data,
        after_write(s).0.disk.files.contains_key(p),
        after_write(s).0.disk.files[p] == s.disk.files[p],
{
    let s2 = if s.active.end >= MAX {
        rollover(s)
    } else {
        s
    };
    assert(s2.disk.files.contains_key(p) && s2.disk.files[p] == s.disk.files[p]);
    if s2.max_immytable == 0 {
        let (s3, r) = compaction(s2);
        assert(r is None);
        assert(s3.disk == s2.disk);
    }
}

/// A key that was just set reads back as the value it was set to: after
/// `set(k, v)` succeeds, `get(k)` gives `v`. This holds where the active
/// file is in the directory and the key's and value's bytes fit a record.
pub proof fn law_get_after_set(s: StoreView, k: Seq<char>, v: Seq<char>)
    requires
        s.disk.files.contains_key(s.active.path),
        utf8_bytes(k).len() + utf8_bytes(v).len() + HEADERSIZE <= u32::MAX,
        set_spec(s, k, v).1 is None,
    ensures
        get_spec(set_spec(s, k, v).0, k) == Ok::<Option<Seq<char>>, Fault>(Some(v)),
{
    let e = EntryView::new(SET, k, v);
    lemma_new_sizes(SET, k, v);
    let p = s.active.path;
    let off = s.active.end;
    let c1 = write_bytes(s.disk.files[p], off as int, e.encoding());
    assert(append_entry(s.active, s.handle, s.disk, e).3 is None);
    let s1 = append_then_state(s, e, k, true);
    assert(s1.disk.files[p] == c1);
    assert(c1.subrange(off as int, off + e.size()) =~= e.encoding());
    lemma_parse_encoding(c1, off as int, e);
    lemma_after_write_keeps(s1, p);
}

/// A key that was just removed reads as absent: after `remove(k)` succeeds,
/// `get(k)` gives `None`.
pub proof fn law_get_after_remove(s: StoreView, k: Seq<char>)
    requires
        remove_spec(s, k).1 is None,
    ensures
        get_spec(remove_spec(s, k).0, k) == Ok::<Option<Seq<char>>, Fault>(None),
{
    let e = EntryView::new(DEL, k, Seq::empty());
    let s1 = append_then_state(s, e, k, false);
    let s2 = if s1.active.end >= MAX {
        rollover(s1)
    } else {
        s1
    };
    if s2.max_immytable == 0 {
        let (s3, r) = compaction(s2);
        assert(s3.data == s2.data);
    }
}

/// Removing a key that the index does not hold is refused with `KeyNotExit`
/// and changes nothing.
pub proof fn law_remove_missing(s: StoreView, k: Seq<char>)
    requires
        !s.data.contains_key(k),
    ensures
        remove_spec(s, k) == (s, Some(Fault::KeyNotExit)),
{
}

/// A key that the index does not hold reads as absent.
pub proof fn law_get_missing(s: StoreView, k: Seq<char>)
    requires
        !s.data.contains_key(k),
    ensures
        get_spec(s, k) == Ok::<Option<Seq<char>>, Fault>(None),
{
}

/// Setting an empty key to an empty value is refused as an illegal entry and
/// changes nothing.
pub proof fn law_set_empty_refused(s: StoreView)
    ensures
        set_spec(s, Seq::empty(), Seq::empty()) == (s, Some(Fault::Illegal)),
{
    let e = EntryView::new(SET, Seq::empty(), Seq::empty());
    assert(utf8_bytes(Seq::<char>::empty()) =~= Seq::<u8>::empty());
    assert(e.size() == HEADERSIZE);
}

/// The header of a record's encoding reads back as the record's mark and
/// sizes, whatever the record; with `Entry::decode` this is the record with
/// an empty key and value.
pub proof fn law_header_roundtrip(e: EntryView)
    ensures
        decoded(e.encoding()) == (EntryView {
            mark: e.mark,
            key_size: e.key_size,
            value_size: e.value_size,
            key: Seq::empty(),
            value: Seq::empty(),
        }),
{
    let enc = e.encoding();
    assert(e.header().len() == HEADERSIZE);
    assert(enc[0] == be16_bytes(e.mark)[0] && enc[1] == be16_bytes(e.mark)[1]);
    assert(enc[2] == be32_bytes(e.key_size)[0] && enc[3] == be32_bytes(e.key_size)[1]);
    assert(enc[4] == be32_bytes(e.key_size)[2] && enc[5] == be32_bytes(e.key_size)[3]);
    assert(enc[6] == be32_bytes(e.value_size)[0] && enc[7] == be32_bytes(e.value_size)[1]);
    assert(enc[8] == be32_bytes(e.value_size)[2] && enc[9] == be32_bytes(e.value_size)[3]);
    crate::entry::lemma_be16_at(enc, 0, e.mark);
    crate::entry::lemma_be32_at(enc, 2, e.key_size);
    crate::entry::lemma_be32_at(enc, 6, e.value_size);
}

/// A record's encoding reads back as the record, where its sizes are the byte
/// lengths of its key and value.
pub proof fn law_entry_roundtrip(e: EntryView)
    requires
        e.sizes_match(),
    ensures
        parse_entry_at(e.encoding(), 0) == Some(e),
{
    let enc = e.encoding();
    assert(e.header().len() == HEADERSIZE);
    assert(enc.subrange(0, e.size()) =~= enc);
    lemma_parse_encoding(enc, 0, e);
}

/// The active file reads back through its handle what was written through
/// it, whether or not its path is still in the directory: after a successful
/// `write` of a record at the file's end, a read there gives the record, and
/// a read at the new end gives `FileEnd`.
pub proof fn law_active_write_read(f: FileRef, h: Seq<u8>, d: DiskView, e: EntryView)
    requires
        e.sizes_match(),
        HEADERSIZE < e.size() <= u32::MAX,
        f.end + e.size() <= u64::MAX,
    ensures
        ({
            let (f2, h2, d2, r) = append_entry(f, h, d, e);
            &&& r is None
            &&& read_active(h2, f2, f.end) == Ok::<EntryView, Fault>(e)
            &&& read_active(h2, f2, f2.end) == Err::<EntryView, Fault>(Fault::FileEnd)
        }),
{
    let (f2, h2, d2, r) = append_entry(f, h, d, e);
    assert(e.header().len() == HEADERSIZE);
    assert(h2.subrange(f.end as int, f.end + e.size()) =~= e.encoding());
    lemma_parse_encoding(h2, f.end as int, e);
}

/// The countdown to compaction stays between one and three: after a
/// successful `set` or `remove` from a store whose countdown is in that range,
/// it still is.
pub proof fn law_countdown_in_range(s: StoreView, k: Seq<char>, v: Seq<char>)
    requires
        1 <= s.max_immytable <= COMPACTION_PERIOD,
    ensures
        set_spec(s, k, v).1 is None ==> 1 <= set_spec(s, k, v).0.max_immytable <= COMPACTION_PERIOD,
        remove_spec(s, k).1 is None ==> 1 <= remove_spec(s, k).0.max_immytable
            <= COMPACTION_PERIOD,
{
    let e = EntryView::new(SET, k, v);
    let e2 = EntryView::new(DEL, k, Seq::empty());
    if set_spec(s, k, v).1 is None {
        lemma_after_write_countdown(append_then_state(s, e, k, true));
    }
    if remove_spec(s, k).1 is None {
        lemma_after_write_countdown(append_then_state(s, e2, k, false));
    }
}

/// What follows a successful append keeps the countdown between one and
/// three.
proof fn lemma_after_write_countdown(s: StoreView)
    requires
        1 <= s.max_immytable <= COMPACTION_PERIOD,
        after_write(s).1 is None,
    ensures
        1 <= after_write(s).0.max_immytable <= COMPACTION_PERIOD,
{
    let s2 = if s.active.end >= MAX {
        rollover(s)
    } else {
        s
    };
    if s2.max_immytable == 0 {
        let (s3, r) = compaction(s2);
        assert(r is None);
    }
}

// ---------------------------------------------------------------------------
// The index is what replaying the files gives.

/// The store's files in the order they are replayed: the immutable files,
/// then the active file.
pub open spec fn store_files(s: StoreView) -> Seq<FileRef> {
    s.immutables.push(s.active)
}

/// The records of the store's files, in the order they are replayed.
pub open spec fn all_recs(s: StoreView) -> Seq<Rec> {
    scan_files(s.disk, s.immutables).0 + scan_active(s.handle, s.active).0
}

/// The file is in the directory, its records end at its end, and it is a run
/// of whole records.
pub open spec fn file_is_log(d: DiskView, f: FileRef) -> bool {
    &&& d.files.contains_key(f.path)
    &&& d.files[f.path].len() == f.end
    &&& exact_log(d.files[f.path], 0)
}

/// The store's files are distinct runs of whole records, the active file's
/// handle holds the bytes of the directory's file at its path, and the index
/// is what replaying the files gives.
pub open spec fn consistent(s: StoreView) -> bool {
    &&& s.handle == s.disk.files[s.active.path]
    &&& forall|i: int| 0 <= i < store_files(s).len() ==> file_is_log(s.disk, #[trigger] store_files(s)[i])
    &&& forall|i: int, j: int|
        0 <= i < store_files(s).len() && 0 <= j < store_files(s).len() && i != j
            ==> #[trigger] store_files(s)[i].path != #[trigger] store_files(s)[j].path
    &&& s.data == replay(Map::empty(), all_recs(s))
}

/// Files that are runs of whole records read to their ends.
proof fn lemma_logs_done(d: DiskView, fs: Seq<FileRef>)
    requires
        forall|i: int| 0 <= i < fs.len() ==> file_is_log(d, #[trigger] fs[i]),
    ensures
        scan_files(d, fs).1 == ScanEnd::Done,
    decreases fs.len(),
{
    if fs.len() > 0 {
        let f = fs[0];
        assert(file_is_log(d, f));
        lemma_exact_log_scan(f.path, d.files[f.path], 0);
        assert forall|i: int| 0 <= i < fs.drop_first().len() implies file_is_log(
            d,
            #[trigger] fs.drop_first()[i],
        ) by {
            assert(fs.drop_first()[i] == fs[i + 1]);
        }
        lemma_logs_done(d, fs.drop_first());
    }
}

/// Writing at the end of the bytes appends to them.
proof fn lemma_write_at_end(c: Seq<u8>, b: Seq<u8>)
    ensures
        write_bytes(c, c.len() as int, b) == c + b,
{
    assert(write_bytes(c, c.len() as int, b) =~= c + b);
}

/// A consistent store stays consistent when a record is appended and the
/// index updated for it.
proof fn lemma_append_keeps_consistent(s: StoreView, e: EntryView, k: Seq<char>, point: bool)
    requires
        consistent(s),
        e.sizes_match(),
        HEADERSIZE < e.size() <= u32::MAX,
        s.active.end + e.size() <= u64::MAX,
        e.key == k,
        point <==> e.mark != DEL,
    ensures
        consistent(append_then_state(s, e, k, point)),
        append_entry(s.active, s.handle, s.disk, e).3 is None,
        append_then_state(s, e, k, point).immutables == s.immutables,
        append_then_state(s, e, k, point).dir == s.dir,
        append_then_state(s, e, k, point).disk.files.dom() == s.disk.files.dom(),
{
    let d = s.disk;
    let p = s.active.path;
    let c = d.files[p];
    let enc = e.encoding();
    let n = store_files(s).len() - 1;
    assert(store_files(s)[n] == s.active);
    assert(file_is_log(d, s.active));
    assert(enc.len() == e.size()) by {
        assert(e.header().len() == HEADERSIZE);
    }
    lemma_write_at_end(c, enc);
    let s1 = append_then_state(s, e, k, point);
    let d1 = s1.disk;
    assert(d1.files == d.files.insert(p, c + enc));
    assert(d1.files.dom() =~= d.files.dom());
    assert(store_files(s1) =~= s.immutables.push(s1.active));
    // The immutable files keep their bytes.
    assert forall|i: int| 0 <= i < s.immutables.len() implies (d.files.contains_key(
        #[trigger] s.immutables[i].path,
    ) == d1.files.contains_key(s.immutables[i].path)) && (d.files.contains_key(
        s.immutables[i].path,
    ) ==> d.files[s.immutables[i].path] == d1.files[s.immutables[i].path]) by {
        assert(store_files(s)[i] == s.immutables[i]);
        assert(store_files(s)[i].path != store_files(s)[n].path);
    }
    lemma_scan_files_frame(d, d1, s.immutables);
    // The active file gains one record.
    lemma_exact_log_one(p, c, e);
    lemma_exact_log_append(p, c, enc, 0);
    let r = Rec { entry: e, path: p, offset: c.len() as u64 };
    assert(s1.handle == c + enc);
    assert(scan_active(s1.handle, s1.active) == (scan_active(s.handle, s.active).0.push(r), ScanEnd::Done)) by {
        assert(scan_active(s.handle, s.active).0 + seq![r] =~= scan_active(s.handle, s.active).0.push(r));
    }
    assert(all_recs(s1) =~= all_recs(s).push(r));
    crate::log::lemma_replay_push(Map::empty(), all_recs(s), r);
    assert(s1.data == apply_rec(replay(Map::empty(), all_recs(s)), r));
    assert forall|i: int| 0 <= i < store_files(s1).len() implies file_is_log(
        d1,
        #[trigger] store_files(s1)[i],
    ) by {
        if i < n {
            assert(store_files(s1)[i] == store_files(s)[i]);
            assert(file_is_log(d, store_files(s)[i]));
            assert(store_files(s)[i].path != store_files(s)[n].path);
        }
    }
    assert forall|i: int, j: int|
        0 <= i < store_files(s1).len() && 0 <= j < store_files(s1).len() && i != j implies #[trigger] store_files(s1)[i].path
        != #[trigger] store_files(s1)[j].path by {
        assert(store_files(s1)[i].path == store_files(s)[i].path);
        assert(store_files(s1)[j].path == store_files(s)[j].path);
    }
}

/// What follows a successful append keeps a consistent store consistent,
/// where the file that a retirement would open is new.
proof fn lemma_after_write_keeps_consistent(s: StoreView)
    requires
        consistent(s),
        s.active.end >= MAX ==> !s.disk.files.contains_key(next_active_path(s)),
        after_write(s).1 is None,
    ensures
        consistent(after_write(s).0),
{
    let s2 = if s.active.end >= MAX {
        rollover(s)
    } else {
        s
    };
    if s.active.end >= MAX {
        let q = next_active_path(s);
        let d = s.disk;
        let d2 = s2.disk;
        let n = store_files(s).len() - 1;
        assert(d2.files == d.files.insert(q, Seq::empty()));
        assert(store_files(s2) =~= s.immutables.push(s.active).push(s2.active));
        assert(store_files(s2).drop_last() =~= store_files(s));
        assert forall|i: int| 0 <= i < store_files(s).len() implies (d.files.contains_key(
            #[trigger] store_files(s)[i].path,
        ) == d2.files.contains_key(store_files(s)[i].path)) && (d.files.contains_key(
            store_files(s)[i].path,
        ) ==> d.files[store_files(s)[i].path] == d2.files[store_files(s)[i].path]) by {
            assert(file_is_log(d, store_files(s)[i]));
        }
        assert forall|i: int| 0 <= i < s.immutables.len() implies (d.files.contains_key(
            #[trigger] s.immutables[i].path,
        ) == d2.files.contains_key(s.immutables[i].path)) && (d.files.contains_key(
            s.immutables[i].path,
        ) ==> d.files[s.immutables[i].path] == d2.files[s.immutables[i].path]) by {
            assert(store_files(s)[i] == s.immutables[i]);
            assert(file_is_log(d, store_files(s)[i]));
        }
        lemma_scan_files_frame(d, d2, s.immutables);
        assert(store_files(s)[n] == s.active);
        assert(file_is_log(d, s.active));
        assert forall|i: int| 0 <= i < s.immutables.len() implies file_is_log(
            d,
            #[trigger] s.immutables[i],
        ) by {
            assert(store_files(s)[i] == s.immutables[i]);
        }
        lemma_logs_done(d, s.immutables);
        lemma_scan_files_push(d2, s.immutables, s.active);
        assert(scan_immutable(d2, s.active) == scan_active(s.handle, s.active));
        assert(s2.handle == Seq::<u8>::empty());
        assert(scan_active(s2.handle, s2.active) == (Seq::<Rec>::empty(), ScanEnd::Done));
        assert(all_recs(s2) =~= all_recs(s));
        assert forall|i: int| 0 <= i < store_files(s2).len() implies file_is_log(
            d2,
            #[trigger] store_files(s2)[i],
        ) by {
            if i < store_files(s).len() {
                assert(store_files(s2)[i] == store_files(s)[i]);
                assert(file_is_log(d, store_files(s)[i]));
            } else {
                assert(store_files(s2)[i] == s2.active);
                assert(Seq::<u8>::empty().len() == 0);
            }
        }
        assert forall|i: int, j: int|
            0 <= i < store_files(s2).len() && 0 <= j < store_files(s2).len() && i != j implies #[trigger] store_files(s2)[i].path
            != #[trigger] store_files(s2)[j].path by {
            let m = store_files(s).len() as int;
            if i < m {
                assert(store_files(s2)[i] == store_files(s)[i]);
                assert(file_is_log(d, store_files(s)[i]));
            }
            if j < m {
                assert(store_files(s2)[j] == store_files(s)[j]);
                assert(file_is_log(d, store_files(s)[j]));
            }
        }
        assert(consistent(s2));
    }
    if s2.max_immytable == 0 {
        let (s3, r) = compaction(s2);
        assert(r is None);
        assert(store_files(s3) == store_files(s2));
        assert(all_recs(s3) == all_recs(s2));
    }
}

/// Setting a key keeps the index what replaying the files gives: after a
/// successful `set`, a consistent store is still consistent. This holds
/// where the record fits and, when the append retires the active file, the
/// file that is opened in its place is new.
pub proof fn law_set_keeps_consistent(s: StoreView, k: Seq<char>, v: Seq<char>)
    requires
        consistent(s),
        s.active.end + utf8_bytes(k).len() + utf8_bytes(v).len() + HEADERSIZE >= MAX
            ==> !s.disk.files.contains_key(next_active_path(s)),
        utf8_bytes(k).len() + utf8_bytes(v).len() + HEADERSIZE <= u32::MAX,
        s.active.end + utf8_bytes(k).len() + utf8_bytes(v).len() + HEADERSIZE <= u64::MAX,
        set_spec(s, k, v).1 is None,
    ensures
        consistent(set_spec(s, k, v).0),
{
    let e = EntryView::new(SET, k, v);
    lemma_new_sizes(SET, k, v);
    assert(append_entry(s.active, s.handle, s.disk, e).3 is None);
    lemma_append_keeps_consistent(s, e, k, true);
    let s1 = append_then_state(s, e, k, true);
    assert(next_active_path(s1) == next_active_path(s));
    lemma_after_write_keeps_consistent(s1);
}

/// Removing a key keeps the index what replaying the files gives: after a
/// successful `remove`, a consistent store is still consistent. This holds
/// where the record fits and, when the append retires the active file, the
/// file that is opened in its place is new.
pub proof fn law_remove_keeps_consistent(s: StoreView, k: Seq<char>)
    requires
        consistent(s),
        s.active.end + utf8_bytes(k).len() + HEADERSIZE >= MAX ==> !s.disk.files.contains_key(
            next_active_path(s),
        ),
        utf8_bytes(k).len() + HEADERSIZE <= u32::MAX,
        s.active.end + utf8_bytes(k).len() + HEADERSIZE <= u64::MAX,
        remove_spec(s, k).1 is None,
    ensures
        consistent(remove_spec(s, k).0),
{
    let e = EntryView::new(DEL, k, Seq::empty());
    assert(utf8_bytes(Seq::<char>::empty()) =~= Seq::<u8>::empty());
    lemma_new_sizes(DEL, k, Seq::empty());
    assert(append_entry(s.active, s.handle, s.disk, e).3 is None);
    lemma_append_keeps_consistent(s, e, k, false);
    let s1 = append_then_state(s, e, k, false);
    assert(next_active_path(s1) == next_active_path(s));
    lemma_after_write_keeps_consistent(s1);
}

/// Rebuilding the index of a consistent store from its files gives the index
/// it has.
pub proof fn law_restructure_consistent(s: StoreView)
    requires
        consistent(s),
    ensures
        restructure_spec(s, None) == (s, None::<Fault>),
{
    let d = s.disk;
    let n = store_files(s).len() - 1;
    assert forall|i: int| 0 <= i < s.immutables.len() implies file_is_log(
        d,
        #[trigger] s.immutables[i],
    ) by {
        assert(store_files(s)[i] == s.immutables[i]);
    }
    lemma_logs_done(d, s.immutables);
    assert(store_files(s)[n] == s.active);
    lemma_exact_log_scan(s.active.path, d.files[s.active.path], 0);
    let imm = scan_files(d, s.immutables).0;
    let act = scan_active(s.handle, s.active).0;
    crate::log::lemma_replay_concat(Map::empty(), imm, act);
}

/// Adding files with distinct paths: each path has its file's bytes.
proof fn lemma_add_files(m: Map<Seq<char>, Seq<u8>>, fs: Seq<(Seq<char>, Seq<u8>)>, i: int)
    requires
        0 <= i < fs.len(),
        forall|a: int, b: int| 0 <= a < fs.len() && 0 <= b < fs.len() && a != b ==> #[trigger] fs[a].0 != #[trigger] fs[b].0,
    ensures
        add_files(m, fs).contains_key(fs[i].0),
        add_files(m, fs)[fs[i].0] == fs[i].1,
    decreases fs.len(),
{
    if i < fs.len() - 1 {
        let gs = fs.drop_last();
        assert(gs[i] == fs[i]);
        assert forall|a: int, b: int| 0 <= a < gs.len() && 0 <= b < gs.len() && a != b implies #[trigger] gs[a].0
            != #[trigger] gs[b].0 by {
            assert(gs[a] == fs[a] && gs[b] == fs[b]);
        }
        lemma_add_files(m, gs, i);
        assert(fs[i].0 != fs[fs.len() - 1].0);
    }
}

/// Reopening a consistent store rebuilds its index: walking its directory
/// finds its files in the order they are replayed, and rebuilding the index
/// from their records, with no index file, gives the index the store had.
pub proof fn law_reopen(s: StoreView, dir: Seq<char>, walked: Seq<DirFileView>)
    requires
        consistent(s),
        walked.len() == store_files(s).len(),
        forall|i: int|
            0 <= i < walked.len() ==> (#[trigger] walked[i]).path == store_files(s)[i].path
                && walked[i].contents == s.disk.files[walked[i].path],
    ensures
        restructure_spec(assemble_spec(dir, walked, Seq::empty()), None).1 is None,
        restructure_spec(assemble_spec(dir, walked, Seq::empty()), None).0.data == s.data,
{
    let a = assemble_spec(dir, walked, Seq::empty());
    let fs = store_files(s);
    let n = fs.len() - 1;
    let wp = walked_pairs(walked);
    assert(walked_refs(walked) =~= fs) by {
        assert forall|i: int| 0 <= i < fs.len() implies #[trigger] walked_refs(walked)[i] == fs[i] by {
            assert(walked[i].path == fs[i].path);
            assert(file_is_log(s.disk, fs[i]));
        }
    }
    assert(fs.drop_last() =~= s.immutables);
    assert(fs[n] == s.active);
    assert(a.immutables == s.immutables);
    assert(a.active == s.active);
    assert(a.disk.files == add_files(Map::empty(), wp));
    assert forall|x: int, y: int| 0 <= x < wp.len() && 0 <= y < wp.len() && x != y implies #[trigger] wp[x].0
        != #[trigger] wp[y].0 by {
        assert(wp[x].0 == walked[x].path && walked[x].path == fs[x].path);
        assert(wp[y].0 == walked[y].path && walked[y].path == fs[y].path);
    }
    assert forall|i: int| 0 <= i < fs.len() implies a.disk.files.contains_key(#[trigger] fs[i].path)
        && a.disk.files[fs[i].path] == s.disk.files[fs[i].path] by {
        lemma_add_files(Map::empty(), wp, i);
        assert(wp[i] == (walked[i].path, walked[i].contents));
    }
    assert forall|i: int| 0 <= i < s.immutables.len() implies (s.disk.files.contains_key(
        #[trigger] s.immutables[i].path,
    ) == a.disk.files.contains_key(s.immutables[i].path)) && (s.disk.files.contains_key(
        s.immutables[i].path,
    ) ==> s.disk.files[s.immutables[i].path] == a.disk.files[s.immutables[i].path]) by {
        assert(fs[i] == s.immutables[i]);
        assert(file_is_log(s.disk, fs[i]));
    }
    lemma_scan_files_frame(s.disk, a.disk, s.immutables);
    assert(a.disk.files.contains_key(fs[n].path));
    assert(file_is_log(s.disk, fs[n]));
    assert(a.handle == s.handle);
    law_restructure_consistent(s);
    let imm = scan_files(s.disk, s.immutables).0;
    let act = scan_active(s.handle, s.active).0;
    crate::log::lemma_replay_concat(Map::empty(), imm, act);
}

/// Opening a directory whose data files are distinct runs of whole records,
/// with no index file, succeeds and gives a consistent store; with no data
/// files it gives an empty one.
pub proof fn law_open_consistent(dir: Seq<char>, walked: Seq<DirFileView>)
    requires
        forall|i: int| 0 <= i < walked.len() ==> exact_log(#[trigger] walked[i].contents, 0),
        forall|i: int| 0 <= i < walked.len() ==> (#[trigger] walked[i]).contents.len() <= u64::MAX,
        forall|i: int, j: int|
            0 <= i < walked.len() && 0 <= j < walked.len() && i != j ==> #[trigger] walked[i].path
                != #[trigger] walked[j].path,
    ensures
        restructure_spec(assemble_spec(dir, walked, Seq::empty()), None).1 is None,
        consistent(restructure_spec(assemble_spec(dir, walked, Seq::empty()), None).0),
        walked.len() == 0 ==> restructure_spec(assemble_spec(dir, walked, Seq::empty()), None).0.data
            == Map::<Seq<char>, DataValueView>::empty(),
{
    let a = assemble_spec(dir, walked, Seq::empty());
    let wp = walked_pairs(walked);
    let refs = walked_refs(walked);
    if walked.len() == 0 {
        assert(store_files(a) =~= seq![a.active]);
        assert(a.disk.files.contains_key(a.active.path));
        assert(a.disk.files[a.active.path] =~= Seq::<u8>::empty());
        assert(scan_files(a.disk, a.immutables) == (Seq::<Rec>::empty(), ScanEnd::Done));
        assert(all_recs(a) =~= Seq::<Rec>::empty());
        assert(replay(Map::empty(), Seq::<Rec>::empty()) == Map::<Seq<char>, DataValueView>::empty());
        assert(file_is_log(a.disk, store_files(a)[0]));
    } else {
        let n = walked.len() - 1;
        assert(refs.drop_last().push(refs.last()) =~= refs);
        assert(store_files(a) == refs);
        assert forall|x: int, y: int| 0 <= x < wp.len() && 0 <= y < wp.len() && x != y implies #[trigger] wp[x].0
            != #[trigger] wp[y].0 by {
            assert(wp[x].0 == walked[x].path);
            assert(wp[y].0 == walked[y].path);
        }
        assert forall|i: int| 0 <= i < refs.len() implies file_is_log(a.disk, #[trigger] refs[i]) by {
            lemma_add_files(Map::empty(), wp, i);
            assert(wp[i] == (walked[i].path, walked[i].contents));
            assert(exact_log(walked[i].contents, 0));
            assert(walked[i].contents.len() <= u64::MAX);
        }
        let s1 = StoreView { data: replay(Map::empty(), all_recs(a)), ..a };
        assert forall|i: int| 0 <= i < a.immutables.len() implies file_is_log(
            a.disk,
            #[trigger] a.immutables[i],
        ) by {
            assert(refs[i] == a.immutables[i]);
        }
        lemma_logs_done(a.disk, a.immutables);
        assert(refs[n] == a.active);
        lemma_exact_log_scan(a.active.path, a.disk.files[a.active.path], 0);
        let imm = scan_files(a.disk, a.immutables).0;
        let act = scan_active(a.handle, a.active).0;
        crate::log::lemma_replay_concat(Map::empty(), imm, act);
        assert(store_files(s1) == refs);
        assert forall|i: int, j: int|
            0 <= i < store_files(s1).len() && 0 <= j < store_files(s1).len() && i != j implies #[trigger] store_files(s1)[i].path
            != #[trigger] store_files(s1)[j].path by {
            assert(refs[i].path == walked[i].path);
            assert(refs[j].path == walked[j].path);
        }
    }
}

/// Running the next step until nothing is left does what follows an append:
/// at most two steps run (a retirement, then a compaction), each of them
/// without panicking where the whole does not panic, and after them nothing
/// is left unless one failed.
pub proof fn law_steps_follow_append(s: StoreView)
    ensures
        drive(s, 2) == after_write(s),
        after_write_runs(s) ==> drive_runs(s, 2),
        after_write(s).1 is None ==> next_step_spec(after_write(s).0) == Step::Done,
{
    reveal_with_fuel(drive, 3);
    reveal_with_fuel(drive_runs, 3);
    let r = rollover(s);
    assert(r.active.end == 0);
}

/// `set` is its append followed by the steps that `next_step` gives, and
/// where `set` runs without panicking so does each of them.
pub proof fn law_set_in_steps(s: StoreView, k: Seq<char>, v: Seq<char>)
    ensures
        set_spec(s, k, v) == {
            let (s1, r1) = record_step(s, EntryView::new(SET, k, v), k, true);
            if r1 is Some {
                (s1, r1)
            } else {
                drive(s1, 2)
            }
        },
        set_runs(s, k, v) && record_step(s, EntryView::new(SET, k, v), k, true).1 is None
            ==> drive_runs(record_step(s, EntryView::new(SET, k, v), k, true).0, 2),
{
    law_steps_follow_append(append_then_state(s, EntryView::new(SET, k, v), k, true));
}

/// `remove` is its append followed by the steps that `next_step` gives, and
/// where `remove` runs without panicking so does each of them.
pub proof fn law_remove_in_steps(s: StoreView, k: Seq<char>)
    ensures
        remove_spec(s, k) == if !s.data.contains_key(k) {
            (s, Some(Fault::KeyNotExit))
        } else {
            let (s1, r1) = record_step(s, EntryView::new(DEL, k, Seq::empty()), k, false);
            if r1 is Some {
                (s1, r1)
            } else {
                drive(s1, 2)
            }
        },
        remove_runs(s, k) && s.data.contains_key(k) && record_step(
            s,
            EntryView::new(DEL, k, Seq::empty()),
            k,
            false,
        ).1 is None ==> drive_runs(record_step(s, EntryView::new(DEL, k, Seq::empty()), k, false).0, 2),
{
    law_steps_follow_append(append_then_state(s, EntryView::new(DEL, k, Seq::empty()), k, false));
}

// ---------------------------------------------------------------------------
// The records that the index points at stay where they are.

/// The record that `loc` points at lies wholly inside its file, which is in
/// the directory.
pub open spec fn loc_in_place(d: DiskView, loc: DataValueView) -> bool {
    &&& d.files.contains_key(loc.file_path)
    &&& loc.file_offset + size_at(d.files[loc.file_path], loc.file_offset as int) <= d.files[loc.file_path].len()
}

/// The location of a record read from a file.
pub open spec fn rec_loc(r: Rec) -> DataValueView {
    DataValueView { file_path: r.path, file_offset: r.offset }
}

/// The records of a run of whole records lie inside its bytes.
proof fn lemma_scan_in_bounds(path: Seq<char>, c: Seq<u8>, off: int)
    requires
        0 <= off,
        exact_log(c, off),
    ensures
        forall|i: int| 0 <= i < scan_from(path, c, off, c.len() as int).0.len() ==> {
            let r = #[trigger] scan_from(path, c, off, c.len() as int).0[i];
            &&& r.path == path
            &&& r.offset + size_at(c, r.offset as int) <= c.len()
        },
    decreases c.len() - off,
{
    if off < c.len() {
        let e = parse_entry_at(c, off).unwrap();
        lemma_scan_in_bounds(path, c, off + e.size());
        let rest = scan_from(path, c, off + e.size(), c.len() as int);
        let all = scan_from(path, c, off, c.len() as int);
        let r0 = Rec { entry: e, path, offset: off as u64 };
        if off + e.size() >= c.len() {
            assert(all.0 =~= seq![r0]);
        } else {
            assert(all.0 == seq![r0] + rest.0);
        }
        assert forall|i: int| 0 <= i < all.0.len() implies {
            let r = #[trigger] all.0[i];
            &&& r.path == path
            &&& r.offset + size_at(c, r.offset as int) <= c.len()
        } by {
            if i > 0 {
                assert(all.0[i] == rest.0[i - 1]);
            }
        }
    }
}

/// The records of files that are runs of whole records lie in place.
proof fn lemma_scan_files_in_place(d: DiskView, fs: Seq<FileRef>)
    requires
        forall|i: int| 0 <= i < fs.len() ==> file_is_log(d, #[trigger] fs[i]),
    ensures
        forall|i: int| 0 <= i < scan_files(d, fs).0.len() ==> loc_ok(d, fs, rec_loc(#[trigger] scan_files(d, fs).0[i])),
    decreases fs.len(),
{
    if fs.len() > 0 {
        let f = fs[0];
        assert(file_is_log(d, f));
        let c = d.files[f.path];
        lemma_scan_in_bounds(f.path, c, 0);
        let first = scan_immutable(d, f);
        assert(first == scan_from(f.path, c, 0, c.len() as int));
        assert forall|i: int| 0 <= i < fs.drop_first().len() implies file_is_log(
            d,
            #[trigger] fs.drop_first()[i],
        ) by {
            assert(fs.drop_first()[i] == fs[i + 1]);
        }
        lemma_scan_files_in_place(d, fs.drop_first());
        let all = scan_files(d, fs);
        if first.1 == ScanEnd::Done {
            let rest = scan_files(d, fs.drop_first());
            assert(all.0 == first.0 + rest.0);
            assert forall|i: int| 0 <= i < all.0.len() implies loc_ok(d, fs, rec_loc(#[trigger] all.0[i])) by {
                if i < first.0.len() {
                    assert(all.0[i] == first.0[i]);
                    assert(fs[0].path == all.0[i].path);
                } else {
                    let j = i - first.0.len();
                    assert(all.0[i] == rest.0[j]);
                    assert(loc_ok(d, fs.drop_first(), rec_loc(rest.0[j])));
                    let w = choose|w: int| 0 <= w < fs.drop_first().len() && (#[trigger] fs.drop_first()[w]).path == rest.0[j].path;
                    assert(fs[w + 1] == fs.drop_first()[w]);
                }
            }
        }
    }
}

/// Replaying records whose locations all satisfy `ok` keeps every location
/// of the index satisfying it.
proof fn lemma_replay_keeps(ok: spec_fn(DataValueView) -> bool, m: Map<Seq<char>, DataValueView>, recs: Seq<Rec>)
    requires
        forall|k: Seq<char>| m.contains_key(k) ==> ok(#[trigger] m[k]),
        forall|i: int| 0 <= i < recs.len() ==> ok(rec_loc(#[trigger] recs[i])),
    ensures
        forall|k: Seq<char>| replay(m, recs).contains_key(k) ==> ok(#[trigger] replay(m, recs)[k]),
    decreases recs.len(),
{
    if recs.len() > 0 {
        let init = recs.drop_last();
        assert forall|i: int| 0 <= i < init.len() implies ok(rec_loc(#[trigger] init[i])) by {
            assert(init[i] == recs[i]);
        }
        lemma_replay_keeps(ok, m, init);
        assert(init.push(recs.last()) =~= recs);
        crate::log::lemma_replay_push(m, init, recs.last());
        assert(ok(rec_loc(recs[recs.len() - 1])));
    }
}

/// The path is one of the files'.
pub open spec fn in_files(fs: Seq<FileRef>, p: Seq<char>) -> bool {
    exists|j: int| 0 <= j < fs.len() && (#[trigger] fs[j]).path == p
}

/// The location lies in place and in one of the files.
pub open spec fn loc_ok(d: DiskView, fs: Seq<FileRef>, loc: DataValueView) -> bool {
    loc_in_place(d, loc) && in_files(fs, loc.file_path)
}

/// In a consistent store every location of the index lies in place, in one
/// of the store's files.
proof fn lemma_consistent_in_place(s: StoreView)
    requires
        consistent(s),
    ensures
        forall|k: Seq<char>| s.data.contains_key(k) ==> loc_ok(s.disk, store_files(s), #[trigger] s.data[k]),
{
    let d = s.disk;
    let fs = store_files(s);
    let n = fs.len() - 1;
    assert forall|i: int| 0 <= i < s.immutables.len() implies file_is_log(d, #[trigger] s.immutables[i]) by {
        assert(fs[i] == s.immutables[i]);
    }
    lemma_scan_files_in_place(d, s.immutables);
    assert(fs[n] == s.active);
    assert(file_is_log(d, s.active));
    let c = d.files[s.active.path];
    lemma_scan_in_bounds(s.active.path, c, 0);
    let imm = scan_files(d, s.immutables).0;
    let act = scan_active(s.handle, s.active).0;
    assert(act == scan_from(s.active.path, c, 0, c.len() as int).0);
    let recs = all_recs(s);
    assert(recs == imm + act);
    let ok = |loc: DataValueView| loc_ok(d, fs, loc);
    assert forall|i: int| 0 <= i < recs.len() implies ok(rec_loc(#[trigger] recs[i])) by {
        if i < imm.len() {
            assert(recs[i] == imm[i]);
            assert(loc_ok(d, s.immutables, rec_loc(imm[i])));
            let w = choose|w: int| 0 <= w < s.immutables.len() && (#[trigger] s.immutables[w]).path == imm[i].path;
            assert(fs[w] == s.immutables[w]);
        } else {
            assert(recs[i] == act[i - imm.len()]);
            assert(fs[n].path == act[i - imm.len()].path);
        }
    }
    lemma_replay_keeps(ok, Map::empty(), recs);
}

/// Appending a record leaves every other key reading as before, in a
/// consistent store: the record goes after the end of the active file, past
/// every record that the index points at.
proof fn lemma_append_keeps_others(s: StoreView, e: EntryView, k: Seq<char>, point: bool, k2: Seq<char>)
    requires
        consistent(s),
        k2 != k,
        append_entry(s.active, s.handle, s.disk, e).3 is None,
        after_write(append_then_state(s, e, k, point)).1 is None,
    ensures
        get_spec(after_write(append_then_state(s, e, k, point)).0, k2) == get_spec(s, k2),
{
    let s1 = append_then_state(s, e, k, point);
    let d = s.disk;
    let p = s.active.path;
    let n = store_files(s).len() - 1;
    assert(store_files(s)[n] == s.active);
    assert(file_is_log(d, s.active));
    let c = d.files[p];
    assert(e.size() > HEADERSIZE);
    let enc = e.encoding();
    lemma_write_at_end(c, enc);
    assert(s1.disk.files == d.files.insert(p, c + enc));
    assert(s1.data.contains_key(k2) == s.data.contains_key(k2));
    if s.data.contains_key(k2) {
        assert(s1.data[k2] == s.data[k2]);
        let loc = s.data[k2];
        lemma_consistent_in_place(s);
        assert(loc_ok(d, store_files(s), loc));
        if loc.file_path == p {
            lemma_parse_prefix(c, enc, loc.file_offset as int);
        }
        assert(s1.disk.files.contains_key(loc.file_path));
        assert(get_spec(s1, k2) == get_spec(s, k2));
        lemma_after_write_keeps(s1, loc.file_path);
    } else {
        lemma_after_write_keeps(s1, p);
    }
}

/// Setting one key leaves every other key reading as before: after a
/// successful `set(k, v)` on a consistent store, `get(k2)` gives what it gave
/// before for every `k2` other than `k`.
pub proof fn law_set_keeps_other_keys(s: StoreView, k: Seq<char>, v: Seq<char>, k2: Seq<char>)
    requires
        consistent(s),
        k2 != k,
        set_spec(s, k, v).1 is None,
    ensures
        get_spec(set_spec(s, k, v).0, k2) == get_spec(s, k2),
{
    lemma_append_keeps_others(s, EntryView::new(SET, k, v), k, true, k2);
}

/// Removing one key leaves every other key reading as before: after a
/// successful `remove(k)` on a consistent store, `get(k2)` gives what it gave
/// before for every `k2` other than `k`.
pub proof fn law_remove_keeps_other_keys(s: StoreView, k: Seq<char>, k2: Seq<char>)
    requires
        consistent(s),
        k2 != k,
        remove_spec(s, k).1 is None,
    ensures
        get_spec(remove_spec(s, k).0, k2) == get_spec(s, k2),
{
    lemma_append_keeps_others(s, EntryView::new(DEL, k, Seq::empty()), k, false, k2);
}

/// Reopening a consistent store reads every key as before: where walking its
/// directory finds its files in the order they are replayed, rebuilding the
/// index with no index file succeeds, and `get(k)` on the reopened store gives
/// what it gave on the store, for every `k`.
pub proof fn law_reopen_reads(s: StoreView, dir: Seq<char>, walked: Seq<DirFileView>, k: Seq<char>)
    requires
        consistent(s),
        walked.len() == store_files(s).len(),
        forall|i: int|
            0 <= i < walked.len() ==> (#[trigger] walked[i]).path == store_files(s)[i].path
                && walked[i].contents == s.disk.files[walked[i].path],
    ensures
        restructure_spec(assemble_spec(dir, walked, Seq::empty()), None).1 is None,
        get_spec(restructure_spec(assemble_spec(dir, walked, Seq::empty()), None).0, k) == get_spec(s, k),
{
    law_reopen(s, dir, walked);
    let a = assemble_spec(dir, walked, Seq::empty());
    let r = restructure_spec(a, None).0;
    assert(r.disk == a.disk);
    if s.data.contains_key(k) {
        let fs = store_files(s);
        let wp = walked_pairs(walked);
        lemma_consistent_in_place(s);
        let loc = s.data[k];
        assert(loc_ok(s.disk, fs, loc));
        let w = choose|w: int| 0 <= w < fs.len() && (#[trigger] fs[w]).path == loc.file_path;
        assert(a.disk.files == add_files(Map::empty(), wp));
        assert forall|x: int, y: int| 0 <= x < wp.len() && 0 <= y < wp.len() && x != y implies #[trigger] wp[x].0
            != #[trigger] wp[y].0 by {
            assert(wp[x].0 == walked[x].path && walked[x].path == fs[x].path);
            assert(wp[y].0 == walked[y].path && walked[y].path == fs[y].path);
        }
        lemma_add_files(Map::empty(), wp, w);
        assert(wp[w] == (walked[w].path, walked[w].contents));
        assert(a.disk.files[loc.file_path] == s.disk.files[loc.file_path]);
    }
}

// ---------------------------------------------------------------------------
// Runs of operations.

/// An operation of the store's users.
pub enum StoreOp {
    Put(Seq<char>, Seq<char>),
    Remove(Seq<char>),
}

/// The key that the operation is about.
pub open spec fn op_key(op: StoreOp) -> Seq<char> {
    match op {
        StoreOp::Put(k, _) => k,
        StoreOp::Remove(k) => k,
    }
}

/// The size of the record that the operation appends.
pub open spec fn op_size(op: StoreOp) -> int {
    match op {
        StoreOp::Put(k, v) => utf8_bytes(k).len() + utf8_bytes(v).len() + HEADERSIZE,
        StoreOp::Remove(k) => utf8_bytes(k).len() + HEADERSIZE,
    }
}

/// The store after the operation, and its error.
pub open spec fn apply_op(s: StoreView, op: StoreOp) -> (StoreView, Option<Fault>) {
    match op {
        StoreOp::Put(k, v) => set_spec(s, k, v),
        StoreOp::Remove(k) => remove_spec(s, k),
    }
}

/// The operation's record fits, and where its append retires the active
/// file, the file opened in its place is new.
pub open spec fn op_fits(s: StoreView, op: StoreOp) -> bool {
    &&& op_size(op) <= u32::MAX
    &&& s.active.end + op_size(op) <= u64::MAX
    &&& s.active.end + op_size(op) >= MAX ==> !s.disk.files.contains_key(next_active_path(s))
}

/// The operations in order, up to the first that fails.
pub open spec fn run_ops(s: StoreView, ops: Seq<StoreOp>) -> (StoreView, Option<Fault>)
    decreases ops.len(),
{
    if ops.len() == 0 {
        (s, None)
    } else {
        let (s1, r) = apply_op(s, ops[0]);
        if r is Some {
            (s1, r)
        } else {
            run_ops(s1, ops.drop_first())
        }
    }
}

/// Each operation that runs fits where it runs.
pub open spec fn ops_fit(s: StoreView, ops: Seq<StoreOp>) -> bool
    decreases ops.len(),
{
    ops.len() == 0 || (op_fits(s, ops[0]) && (apply_op(s, ops[0]).1 is None ==> ops_fit(
        apply_op(s, ops[0]).0,
        ops.drop_first(),
    )))
}

/// What reading `k` gives after the operations: the last of them on `k`
/// decides (a set gives its value, a remove none), and where there is none,
/// `before`.
pub open spec fn last_write(ops: Seq<StoreOp>, k: Seq<char>, before: Result<Option<Seq<char>>, Fault>) -> Result<Option<Seq<char>>, Fault>
    decreases ops.len(),
{
    if ops.len() == 0 {
        before
    } else if op_key(ops.last()) == k {
        match ops.last() {
            StoreOp::Put(_, v) => Ok(Some(v)),
            StoreOp::Remove(_) => Ok(None),
        }
    } else {
        last_write(ops.drop_last(), k, before)
    }
}

/// The last write over a run is the last write over its tail, starting from
/// the last write of its first operation.
proof fn lemma_last_write_split(ops: Seq<StoreOp>, k: Seq<char>, before: Result<Option<Seq<char>>, Fault>)
    requires
        ops.len() > 0,
    ensures
        last_write(ops, k, before) == last_write(ops.drop_first(), k, last_write(seq![ops[0]], k, before)),
    decreases ops.len(),
{
    let first = last_write(seq![ops[0]], k, before);
    assert(seq![ops[0]].drop_last() =~= Seq::<StoreOp>::empty());
    if ops.len() > 1 {
        assert(ops.drop_first().last() == ops.last());
        assert(ops.drop_last().drop_first() =~= ops.drop_first().drop_last());
        assert(ops.drop_last()[0] == ops[0]);
        lemma_last_write_split(ops.drop_last(), k, before);
    } else {
        assert(ops =~= seq![ops[0]]);
        assert(ops.drop_first() =~= Seq::<StoreOp>::empty());
    }
}

/// One operation on a consistent store keeps it consistent and reads as
/// its last write.
proof fn lemma_op_step(s: StoreView, op: StoreOp, k: Seq<char>)
    requires
        consistent(s),
        op_fits(s, op),
        apply_op(s, op).1 is None,
    ensures
        consistent(apply_op(s, op).0),
        get_spec(apply_op(s, op).0, k) == last_write(seq![op], k, get_spec(s, k)),
{
    assert(seq![op].last() == op);
    assert(seq![op].drop_last() =~= Seq::<StoreOp>::empty());
    assert(op_key(op) != k ==> last_write(seq![op], k, get_spec(s, k)) == last_write(
        Seq::<StoreOp>::empty(),
        k,
        get_spec(s, k),
    ));
    let n = store_files(s).len() - 1;
    assert(store_files(s)[n] == s.active);
    assert(file_is_log(s.disk, s.active));
    match op {
        StoreOp::Put(k1, v) => {
            law_set_keeps_consistent(s, k1, v);
            if k1 == k {
                law_get_after_set(s, k1, v);
                assert(last_write(seq![op], k, get_spec(s, k)) == Ok::<Option<Seq<char>>, Fault>(Some(v)));
            } else {
                law_set_keeps_other_keys(s, k1, v, k);
            }
        },
        StoreOp::Remove(k1) => {
            law_remove_keeps_consistent(s, k1);
            if k1 == k {
                law_get_after_remove(s, k1);
            } else {
                law_remove_keeps_other_keys(s, k1, k);
            }
        },
    }
}

/// A run of operations that all succeed on a consistent store keeps it
/// consistent, and each key then reads as the last operation on it left it
/// (the last set's value, or none after a remove), or as before where no
/// operation was on it. This holds where each record fits and each file
/// that a retirement opens is new.
pub proof fn law_ops_last_write_wins(s: StoreView, ops: Seq<StoreOp>, k: Seq<char>)
    requires
        consistent(s),
        ops_fit(s, ops),
        run_ops(s, ops).1 is None,
    ensures
        consistent(run_ops(s, ops).0),
        get_spec(run_ops(s, ops).0, k) == last_write(ops, k, get_spec(s, k)),
    decreases ops.len(),
{
    if ops.len() > 0 {
        let (s1, r) = apply_op(s, ops[0]);
        lemma_op_step(s, ops[0], k);
        law_ops_last_write_wins(s1, ops.drop_first(), k);
        lemma_last_write_split(ops, k, get_spec(s, k));
    }
}

/// Reopening after a run of operations: where the operations all succeed on
/// a consistent store and walking the directory afterwards finds the store's
/// files in the order they are replayed, reopening succeeds and each key
/// reads as the last operation on it left it, or as before where no
/// operation was on it.
pub proof fn law_reopen_after_ops(
    s: StoreView,
    ops: Seq<StoreOp>,
    dir: Seq<char>,
    walked: Seq<DirFileView>,
    k: Seq<char>,
)
    requires
        consistent(s),
        ops_fit(s, ops),
        run_ops(s, ops).1 is None,
        walked.len() == store_files(run_ops(s, ops).0).len(),
        forall|i: int|
            0 <= i < walked.len() ==> (#[trigger] walked[i]).path == store_files(run_ops(s, ops).0)[i].path
                && walked[i].contents == run_ops(s, ops).0.disk.files[walked[i].path],
    ensures
        restructure_spec(assemble_spec(dir, walked, Seq::empty()), None).1 is None,
        get_spec(restructure_spec(assemble_spec(dir, walked, Seq::empty()), None).0, k) == last_write(
            ops,
            k,
            get_spec(s, k),
        ),
{
    law_ops_last_write_wins(s, ops, k);
    law_reopen_reads(run_ops(s, ops).0, dir, walked, k);
}

// ---------------------------------------------------------------------------
// Compaction, the index file, and the checks for panics.

/// Every record read from a file carries that file's path.
proof fn lemma_scan_from_path(path: Seq<char>, c: Seq<u8>, off: int, end: int)
    ensures
        forall|i: int| 0 <= i < scan_from(path, c, off, end).0.len() ==> (#[trigger] scan_from(path, c, off, end).0[i]).path == path,
    decreases end - off,
{
    if off < end {
        if let Some(e) = parse_entry_at(c, off) {
            if !(e.size() > u32::MAX || off + e.size() > u64::MAX) {
                let all = scan_from(path, c, off, end).0;
                let r0 = Rec { entry: e, path, offset: off as u64 };
                if off + e.size() >= end {
                    assert(all =~= seq![r0]);
                } else {
                    lemma_scan_from_path(path, c, off + e.size(), end);
                    let rest = scan_from(path, c, off + e.size(), end).0;
                    assert(all == seq![r0] + rest);
                    assert forall|i: int| 0 <= i < all.len() implies (#[trigger] all[i]).path == path by {
                        if i > 0 {
                            assert(all[i] == rest[i - 1]);
                        }
                    }
                }
            }
        }
    }
}

/// Every record read from the immutable files carries the path of one of
/// them.
proof fn lemma_scan_files_paths(d: DiskView, fs: Seq<FileRef>)
    ensures
        forall|i: int| 0 <= i < scan_files(d, fs).0.len() ==> in_files(fs, (#[trigger] scan_files(d, fs).0[i]).path),
    decreases fs.len(),
{
    if fs.len() > 0 {
        let f = fs[0];
        let first = scan_immutable(d, f);
        lemma_scan_from_path(f.path, crate::file::active_bytes(d, f.path), 0, f.end as int);
        assert forall|i: int| 0 <= i < first.0.len() implies (#[trigger] first.0[i]).path == f.path by {
            if !(f.end > 0 && !d.files.contains_key(f.path)) {
                assert(first.0[i] == scan_from(f.path, crate::file::active_bytes(d, f.path), 0, f.end as int).0[i]);
            }
        }
        lemma_scan_files_paths(d, fs.drop_first());
        let all = scan_files(d, fs);
        if first.1 == ScanEnd::Done {
            let rest = scan_files(d, fs.drop_first());
            assert(all.0 == first.0 + rest.0);
            assert forall|i: int| 0 <= i < all.0.len() implies in_files(fs, (#[trigger] all.0[i]).path) by {
                if i < first.0.len() {
                    assert(all.0[i] == first.0[i]);
                    assert(fs[0].path == all.0[i].path);
                } else {
                    let j = i - first.0.len();
                    assert(all.0[i] == rest.0[j]);
                    assert(in_files(fs.drop_first(), rest.0[j].path));
                    let w = choose|w: int| 0 <= w < fs.drop_first().len() && (#[trigger] fs.drop_first()[w]).path == rest.0[j].path;
                    assert(fs[w + 1] == fs.drop_first()[w]);
                }
            }
        } else {
            assert forall|i: int| 0 <= i < all.0.len() implies in_files(fs, (#[trigger] all.0[i]).path) by {
                assert(fs[0].path == all.0[i].path);
            }
        }
    }
}

/// A record of an immutable file counts as live for compaction only where
/// the index points its key at that very file and offset: where no key of
/// the index is located in an immutable file (every key's latest record is
/// elsewhere, such as in the active file) and the immutable files read to
/// their ends, compaction succeeds, removes no file and changes no bytes, and
/// only sets the countdown to zero.
pub proof fn law_compaction_without_live_records(s: StoreView)
    requires
        scan_files(s.disk, s.immutables).1 == ScanEnd::Done,
        forall|k: Seq<char>| s.data.contains_key(k) ==> !in_files(s.immutables, (#[trigger] s.data[k]).file_path),
    ensures
        compaction(s) == (StoreView { max_immytable: 0, ..s }, None::<Fault>),
        compaction(s).0.disk == s.disk,
{
    let recs = scan_files(s.disk, s.immutables).0;
    lemma_scan_files_paths(s.disk, s.immutables);
    let pred = live_pred(s.data);
    assert forall|i: int| 0 <= i < recs.len() implies !pred(#[trigger] recs[i]) by {
        let r = recs[i];
        assert(in_files(s.immutables, r.path));
        if s.data.contains_key(r.entry.key) && s.data[r.entry.key] == (DataValueView {
            file_path: r.path,
            file_offset: r.offset,
        }) {
            assert(!in_files(s.immutables, s.data[r.entry.key].file_path));
        }
    }
    assert(recs.all(|x: Rec| !pred(x)));
    recs.lemma_all_neg_filter_empty(pred);
    assert(live_recs(s.data, recs).len() == 0);
}

/// What `hint_of` picks: empty, or the path of one of the files whose name
/// ends with `_index.txt`; empty where there is no such file.
proof fn lemma_hint_of(walked: Seq<DirFileView>)
    ensures
        hint_of(walked).len() == 0 || exists|i: int|
            0 <= i < walked.len() && (#[trigger] walked[i]).path == hint_of(walked) && ends_with(
                walked[i].name,
                index_suffix(),
            ),
        (forall|i: int| 0 <= i < walked.len() ==> !ends_with((#[trigger] walked[i]).name, index_suffix()))
            ==> hint_of(walked).len() == 0,
    decreases walked.len(),
{
    if walked.len() > 0 {
        let init = walked.drop_last();
        lemma_hint_of(init);
        let n = walked.len() - 1;
        assert(walked[n] == walked.last());
        if !ends_with(walked.last().name, index_suffix()) {
            if hint_of(init).len() != 0 {
                let i = choose|i: int|
                    0 <= i < init.len() && (#[trigger] init[i]).path == hint_of(init) && ends_with(
                        init[i].name,
                        index_suffix(),
                    );
                assert(walked[i] == init[i]);
            }
            if forall|i: int| 0 <= i < walked.len() ==> !ends_with((#[trigger] walked[i]).name, index_suffix()) {
                assert forall|i: int| 0 <= i < init.len() implies !ends_with((#[trigger] init[i]).name, index_suffix()) by {
                    assert(walked[i] == init[i]);
                }
            }
        }
    }
}

/// The index file that opening takes is one: the hint path of the assembled
/// store is empty or the path of a walked file whose name ends with
/// `_index.txt`, and it is empty where no walked file's name does.
pub proof fn law_hint_is_index_file(dir: Seq<char>, walked: Seq<DirFileView>, others: Seq<(Seq<char>, Seq<u8>)>)
    ensures
        assemble_spec(dir, walked, others).hint.len() == 0 || exists|i: int|
            0 <= i < walked.len() && (#[trigger] walked[i]).path == assemble_spec(dir, walked, others).hint
                && ends_with(walked[i].name, index_suffix()),
        (forall|i: int| 0 <= i < walked.len() ==> !ends_with((#[trigger] walked[i]).name, index_suffix()))
            ==> assemble_spec(dir, walked, others).hint.len() == 0,
{
    lemma_hint_of(walked);
}

/// Whether `set` runs without panicking does not depend on the index: it is
/// the same for every index, in particular whether or not the key is already
/// there.
pub proof fn law_set_runs_ignores_index(s: StoreView, k: Seq<char>, v: Seq<char>, m: Map<Seq<char>, DataValueView>)
    ensures
        set_runs(s, k, v) == set_runs(StoreView { data: m, ..s }, k, v),
{
    let e = EntryView::new(SET, k, v);
    let s2 = StoreView { data: m, ..s };
    let a1 = append_then_state(s, e, k, true);
    let a2 = append_then_state(s2, e, k, true);
    assert(a2 == StoreView { data: a2.data, ..a1 });
    assert(after_write_runs(a1) == after_write_runs(a2));
}

/// Whether `remove` of a key in the index runs without panicking does not
/// depend on the index beyond whether it holds the key: in particular not on
/// where the key's record lies.
pub proof fn law_remove_runs_ignores_location(s: StoreView, k: Seq<char>, m: Map<Seq<char>, DataValueView>)
    requires
        m.contains_key(k) == s.data.contains_key(k),
    ensures
        remove_runs(s, k) == remove_runs(StoreView { data: m, ..s }, k),
{
    let e = EntryView::new(DEL, k, Seq::empty());
    let s2 = StoreView { data: m, ..s };
    let a1 = append_then_state(s, e, k, false);
    let a2 = append_then_state(s2, e, k, false);
    assert(a2 == StoreView { data: a2.data, ..a1 });
    assert(after_write_runs(a1) == after_write_runs(a2));
}

/// Rebuilding the index of a directory whose data files are distinct runs of
/// whole records is never reported as panicking, whatever the number of
/// records.
pub proof fn law_open_runs(dir: Seq<char>, walked: Seq<DirFileView>)
    requires
        forall|i: int| 0 <= i < walked.len() ==> exact_log(#[trigger] walked[i].contents, 0),
        forall|i: int| 0 <= i < walked.len() ==> (#[trigger] walked[i]).contents.len() <= u64::MAX,
        forall|i: int, j: int|
            0 <= i < walked.len() && 0 <= j < walked.len() && i != j ==> #[trigger] walked[i].path
                != #[trigger] walked[j].path,
    ensures
        restructure_runs(assemble_spec(dir, walked, Seq::empty())),
{
    law_open_consistent(dir, walked);
}

} // verus!
