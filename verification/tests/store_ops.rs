use kvs::errors::KvsError;
use kvs::file::{DataFile, DiskOp};
use kvs::store::{DirFile, Step, MAX};
use kvs::KvStore;

fn empty_store() -> KvStore {
    KvStore::open("d".to_string(), Vec::new(), Vec::new(), None).unwrap()
}

fn bytes_of(store: &KvStore, path: &str) -> Vec<u8> {
    store.disk.file(&path.to_string()).unwrap().clone()
}

#[test]
fn open_empty_directory_creates_first_data_file() {
    let mut store = empty_store();
    assert_eq!(store.active_file.file_path, "d/0_kvs.txt");
    assert_eq!(store.active_file.offset, 0);
    assert!(store.immutable_files.is_empty());
    assert_eq!(store.hint_file, "");
    assert_eq!(store.max_immytable, 3);
    assert_eq!(store.data.len(), 0);
    let ops = store.disk.take_ops();
    assert_eq!(ops.len(), 1);
    assert!(matches!(&ops[0], DiskOp::Create(p) if p == "d/0_kvs.txt"));
    assert!(store.disk.take_ops().is_empty());
}

#[test]
fn set_then_get_gives_value() {
    let mut store = empty_store();
    store.set("key1".to_string(), "value1".to_string()).unwrap();
    assert_eq!(store.get("key1".to_string()).unwrap(), Some("value1".to_string()));
    assert_eq!(store.active_file.offset, 20);
    let c = bytes_of(&store, "d/0_kvs.txt");
    assert_eq!(&c[0..10], &[0, 0, 0, 0, 0, 4, 0, 0, 0, 6]);
    assert_eq!(&c[10..], b"key1value1");
}

#[test]
fn set_overwrites_value() {
    let mut store = empty_store();
    store.set("k".to_string(), "v1".to_string()).unwrap();
    store.set("k".to_string(), "v2".to_string()).unwrap();
    assert_eq!(store.get("k".to_string()).unwrap(), Some("v2".to_string()));
    let loc = store.data.get(&"k".to_string()).unwrap();
    assert_eq!(loc.file_offset, 13);
    assert_eq!(loc.file_path, "d/0_kvs.txt");
}

#[test]
fn get_missing_key_gives_none() {
    let mut store = empty_store();
    assert_eq!(store.get("nothing".to_string()).unwrap(), None);
}

#[test]
fn remove_then_get_gives_none() {
    let mut store = empty_store();
    store.set("k".to_string(), "v".to_string()).unwrap();
    store.remove("k".to_string()).unwrap();
    assert_eq!(store.get("k".to_string()).unwrap(), None);
    let c = bytes_of(&store, "d/0_kvs.txt");
    assert_eq!(c.len(), 12 + 11);
    assert_eq!(&c[12..], &[0, 1, 0, 0, 0, 1, 0, 0, 0, 0, b'k']);
}

#[test]
fn remove_missing_key_is_refused() {
    let mut store = empty_store();
    assert!(matches!(store.remove("k".to_string()), Err(KvsError::KeyNotExit)));
    assert_eq!(store.active_file.offset, 0);
}

#[test]
fn set_empty_key_and_value_is_refused() {
    let mut store = empty_store();
    assert!(matches!(
        store.set(String::new(), String::new()),
        Err(KvsError::EntryError(_))
    ));
    assert_eq!(store.active_file.offset, 0);
    assert_eq!(store.data.len(), 0);
}

#[test]
fn set_empty_key_with_value_is_kept() {
    let mut store = empty_store();
    store.set(String::new(), "v".to_string()).unwrap();
    assert_eq!(store.get(String::new()).unwrap(), Some("v".to_string()));
    assert!(matches!(store.remove(String::new()), Err(KvsError::EntryError(_))));
    assert_eq!(store.get(String::new()).unwrap(), Some("v".to_string()));
}

#[test]
fn active_file_is_retired_at_max() {
    let mut store = empty_store();
    let value = "x".repeat(990);
    let mut i = 0;
    while store.immutable_files.is_empty() {
        store.set(format!("k{}", i), value.clone()).unwrap();
        i += 1;
    }
    assert_eq!(i, 10);
    assert_eq!(store.immutable_files.len(), 1);
    assert_eq!(store.immutable_files[0].data_path, "d/0_kvs.txt");
    assert_eq!(store.immutable_files[0].data_offset, 10020);
    assert!(store.immutable_files[0].data_offset >= MAX);
    assert_eq!(store.active_file.file_path, "d/2_kvs.txt");
    assert_eq!(store.active_file.offset, 0);
    assert_eq!(store.max_immytable, 2);
    for j in 0..10 {
        assert_eq!(store.get(format!("k{}", j)).unwrap(), Some(value.clone()));
    }
}

#[test]
fn compaction_with_live_records_removes_last_immutable_file_and_fails() {
    let mut store = empty_store();
    let value = "y".repeat(4990);
    let mut results = Vec::new();
    for i in 0..6 {
        results.push(store.set(format!("k{}", i), value.clone()));
    }
    for r in &results[0..5] {
        assert!(r.is_ok());
    }
    assert!(matches!(results[5], Err(KvsError::Io(_))));
    assert_eq!(store.immutable_files.len(), 3);
    assert_eq!(store.max_immytable, 0);
    let last = store.immutable_files[2].data_path.clone();
    assert_eq!(last, "d/3_kvs.txt");
    assert_eq!(store.active_file.file_path, "d/4_kvs.txt");
    assert!(store.disk.file(&last).is_none());
    assert!(matches!(store.get("k5".to_string()), Err(KvsError::Io(_))));
    assert_eq!(store.get("k0".to_string()).unwrap(), Some(value.clone()));
}

#[test]
fn compaction_without_live_records_restarts_countdown() {
    let mut store = empty_store();
    let key = "z".repeat(5000);
    for _ in 0..3 {
        store.set(key.clone(), "v".to_string()).unwrap();
        store.remove(key.clone()).unwrap();
    }
    assert_eq!(store.immutable_files.len(), 3);
    assert_eq!(store.active_file.file_path, "d/4_kvs.txt");
    assert_eq!(store.max_immytable, 3);
    assert_eq!(store.get(key).unwrap(), None);
}

#[test]
fn reopen_rebuilds_index_from_files() {
    let mut store = empty_store();
    let value = "w".repeat(2000);
    for i in 0..12 {
        store.set(format!("k{}", i % 5), format!("{}{}", value, i)).unwrap();
    }
    store.remove("k3".to_string()).unwrap();
    let mut walked = Vec::new();
    let mut paths: Vec<String> = store.immutable_files.iter().map(|f| f.data_path.clone()).collect();
    paths.push(store.active_file.file_path.clone());
    for p in &paths {
        let name = p.rsplit('/').next().unwrap().to_string();
        walked.push(DirFile { file_name: name, path: p.clone(), contents: bytes_of(&store, p) });
    }
    let mut reopened = KvStore::open("d".to_string(), walked, Vec::new(), None).unwrap();
    assert_eq!(reopened.immutable_files.len(), store.immutable_files.len());
    for i in 0..5 {
        let k = format!("k{}", i);
        assert_eq!(reopened.get(k.clone()).unwrap(), store.get(k).unwrap());
    }
    assert_eq!(reopened.get("k3".to_string()).unwrap(), None);
    assert_eq!(reopened.get("k4".to_string()).unwrap(), Some(format!("{}9", value)));
}

#[test]
fn open_takes_last_walked_file_as_active() {
    let a = DirFile { file_name: "0_kvs.txt".to_string(), path: "d/0_kvs.txt".to_string(), contents: Vec::new() };
    let b = DirFile { file_name: "5_kvs.txt".to_string(), path: "d/5_kvs.txt".to_string(), contents: vec![0u8; 0] };
    let mut store = KvStore::open("d".to_string(), vec![a, b], Vec::new(), None).unwrap();
    assert_eq!(store.active_file.file_path, "d/5_kvs.txt");
    assert_eq!(store.immutable_files.len(), 1);
    assert!(store.disk.take_ops().is_empty());
}

#[test]
fn open_records_index_file_as_hint() {
    let a = DirFile { file_name: "db_index.txt".to_string(), path: "d/db_index.txt".to_string(), contents: b"{}".to_vec() };
    let b = DirFile { file_name: "0_kvs.txt".to_string(), path: "d/0_kvs.txt".to_string(), contents: Vec::new() };
    let mut hint = kvs::index::DataIndex::new();
    hint.insert("k".to_string(), kvs::file::DataValue { file_path: "d/0_kvs.txt".to_string(), file_offset: 0 });
    let store = KvStore::open("d".to_string(), vec![a, b], Vec::new(), Some(hint)).unwrap();
    assert_eq!(store.hint_file, "d/db_index.txt");
    assert_eq!(store.data.len(), 1);
}

#[test]
fn open_fails_on_bad_utf8_record() {
    let a = DirFile {
        file_name: "0_kvs.txt".to_string(),
        path: "d/0_kvs.txt".to_string(),
        contents: vec![0, 0, 0, 0, 0, 1, 0, 0, 0, 0, 0xfe],
    };
    assert!(matches!(
        KvStore::open("d".to_string(), vec![a], Vec::new(), None),
        Err(KvsError::Utf8Error(_))
    ));
}

#[test]
fn missing_immutable_file_fails_restructure() {
    let mut store = KvStore::assemble(
        "d".to_string(),
        vec![
            DirFile { file_name: "0_kvs.txt".to_string(), path: "d/0_kvs.txt".to_string(), contents: vec![0, 0, 0, 0, 0, 1, 0, 0, 0, 1, b'a', b'b'] },
            DirFile { file_name: "2_kvs.txt".to_string(), path: "d/2_kvs.txt".to_string(), contents: Vec::new() },
        ],
        Vec::new(),
    );
    assert!(store.disk.remove(&"d/0_kvs.txt".to_string()));
    assert!(matches!(store.restructure_immutable(), Err(KvsError::Io(_))));
    assert_eq!(store.data.len(), 0);
}

#[test]
fn other_files_are_readable_by_path() {
    let other = DataFile { path: "elsewhere/x".to_string(), contents: vec![0, 0, 0, 0, 0, 1, 0, 0, 0, 1, b'q', b'r'] };
    let mut hint = kvs::index::DataIndex::new();
    hint.insert("q".to_string(), kvs::file::DataValue { file_path: "elsewhere/x".to_string(), file_offset: 0 });
    hint.insert("gone".to_string(), kvs::file::DataValue { file_path: "nowhere".to_string(), file_offset: 0 });
    let mut store = KvStore::open("d".to_string(), Vec::new(), vec![other], Some(hint)).unwrap();
    assert_eq!(store.get("q".to_string()).unwrap(), Some("r".to_string()));
    assert!(matches!(store.get("gone".to_string()), Err(KvsError::Io(_))));
}

#[test]
fn panic_checks_report_oversized_records() {
    let store = empty_store();
    assert!(!store.set_would_panic(&"a".to_string(), &"b".to_string()));
    assert!(!store.remove_would_panic(&"a".to_string()));
    assert!(!store.restructure_would_panic());
    assert!(!store.compaction_would_panic());
}

#[test]
fn set_would_panic_when_countdown_is_exhausted_at_rollover() {
    let mut store = empty_store();
    store.max_immytable = 0;
    store.active_file.offset = MAX - 5;
    assert!(store.set_would_panic(&"k".to_string(), &"v".to_string()));
    store.max_immytable = 1;
    assert!(!store.set_would_panic(&"k".to_string(), &"v".to_string()));
}

#[test]
fn restructure_keeps_index_of_a_consistent_store() {
    let mut store = empty_store();
    let value = "u".repeat(3000);
    for i in 0..8 {
        store.set(format!("k{}", i % 3), format!("{}{}", value, i)).unwrap();
    }
    store.remove("k1".to_string()).unwrap();
    let before: Vec<Option<String>> = (0..3).map(|i| store.get(format!("k{}", i)).unwrap()).collect();
    assert!(!store.restructure_would_panic());
    store.restructure(None).unwrap();
    let after: Vec<Option<String>> = (0..3).map(|i| store.get(format!("k{}", i)).unwrap()).collect();
    assert_eq!(before, after);
    assert_eq!(after[1], None);
    assert_eq!(after[2], Some(format!("{}5", value)));
}

fn set_in_steps(store: &mut KvStore, key: String, value: String) -> Result<(), KvsError> {
    store.set_record(key, value)?;
    let mut steps = 0;
    loop {
        let step = store.next_step();
        if step == Step::Done {
            return Ok(());
        }
        steps += 1;
        assert!(steps <= 2);
        store.run_step(step)?;
    }
}

#[test]
fn steps_after_append_do_what_set_does() {
    let mut whole = empty_store();
    let mut stepped = empty_store();
    let value = "y".repeat(4990);
    for i in 0..6 {
        let a = whole.set(format!("k{}", i), value.clone());
        let b = set_in_steps(&mut stepped, format!("k{}", i), value.clone());
        assert_eq!(a.is_ok(), b.is_ok());
        assert_eq!(whole.active_file.file_path, stepped.active_file.file_path);
        assert_eq!(whole.active_file.offset, stepped.active_file.offset);
        assert_eq!(whole.immutable_files.len(), stepped.immutable_files.len());
        assert_eq!(whole.max_immytable, stepped.max_immytable);
    }
    assert_eq!(stepped.max_immytable, 0);
    assert!(stepped.disk.file(&"d/3_kvs.txt".to_string()).is_none());
    for i in 0..6 {
        let k = format!("k{}", i);
        let a = whole.get(k.clone());
        let b = stepped.get(k);
        assert_eq!(a.is_ok(), b.is_ok());
        if let (Ok(x), Ok(y)) = (a, b) {
            assert_eq!(x, y);
        }
    }
    assert_eq!(stepped.get("k0".to_string()).unwrap(), Some(value));
}

#[test]
fn next_step_after_append() {
    let mut store = empty_store();
    assert_eq!(store.next_step(), Step::Done);
    store.set_record("k".to_string(), "x".repeat(MAX as usize)).unwrap();
    assert_eq!(store.next_step(), Step::Rollover);
    store.run_step(Step::Rollover).unwrap();
    assert_eq!(store.active_file.file_path, "d/2_kvs.txt");
    assert_eq!(store.max_immytable, 2);
    assert_eq!(store.next_step(), Step::Done);
    store.max_immytable = 0;
    assert_eq!(store.next_step(), Step::Compaction);
    assert!(matches!(store.run_step(Step::Compaction), Err(KvsError::Io(_))));
    assert!(store.disk.file(&"d/0_kvs.txt".to_string()).is_none());
}

#[test]
fn remove_record_refuses_missing_key() {
    let mut store = empty_store();
    assert!(matches!(store.remove_record("k".to_string()), Err(KvsError::KeyNotExit)));
    store.set_record("k".to_string(), "v".to_string()).unwrap();
    store.remove_record("k".to_string()).unwrap();
    assert_eq!(store.get("k".to_string()).unwrap(), None);
    assert_eq!(store.active_file.offset, 23);
}

#[test]
fn snapshot_keeps_store_and_drops_queued_changes() {
    let mut store = empty_store();
    store.set("k".to_string(), "v".to_string()).unwrap();
    let mut copy = store.snapshot();
    assert!(copy.disk.take_ops().is_empty());
    assert_eq!(copy.active_file.offset, store.active_file.offset);
    assert_eq!(copy.active_file.contents, store.active_file.contents);
    assert_eq!(copy.get("k".to_string()).unwrap(), Some("v".to_string()));
    assert!(!store.disk.take_ops().is_empty());
}

#[test]
fn other_keys_read_the_same_after_set_and_remove() {
    let mut store = empty_store();
    store.set("a".to_string(), "1".to_string()).unwrap();
    store.set("b".to_string(), "2".to_string()).unwrap();
    store.set("c".to_string(), "3".to_string()).unwrap();
    store.set("b".to_string(), "22".to_string()).unwrap();
    assert_eq!(store.get("a".to_string()).unwrap(), Some("1".to_string()));
    assert_eq!(store.get("c".to_string()).unwrap(), Some("3".to_string()));
    store.remove("c".to_string()).unwrap();
    assert_eq!(store.get("a".to_string()).unwrap(), Some("1".to_string()));
    assert_eq!(store.get("b".to_string()).unwrap(), Some("22".to_string()));
    assert_eq!(store.get("c".to_string()).unwrap(), None);
}

#[test]
fn countdown_stays_between_one_and_three() {
    let mut store = empty_store();
    let key = "q".repeat(3000);
    for i in 0..40 {
        if i % 2 == 0 {
            store.set(key.clone(), format!("{}", i)).unwrap();
        } else {
            store.remove(key.clone()).unwrap();
        }
        assert!(store.max_immytable >= 1 && store.max_immytable <= 3);
    }
    assert_eq!(store.get(key).unwrap(), None);
}

#[test]
fn settle_goes_back_on_failure() {
    let mut store = empty_store();
    store.set("k".to_string(), "v".to_string()).unwrap();
    let before = store.snapshot();
    store.set("k".to_string(), "w".to_string()).unwrap();
    let failure = KvsError::Io(std::io::Error::from(std::io::ErrorKind::PermissionDenied));
    assert!(matches!(store.settle(before, Err(failure)), Err(KvsError::Io(_))));
    assert_eq!(store.get("k".to_string()).unwrap(), Some("v".to_string()));
    assert_eq!(store.active_file.offset, 12);
    let before = store.snapshot();
    store.set("k".to_string(), "w".to_string()).unwrap();
    assert!(store.settle(before, Ok(())).is_ok());
    assert_eq!(store.get("k".to_string()).unwrap(), Some("w".to_string()));
}
