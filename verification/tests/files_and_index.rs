use kvs::entry::{Entry, SET};
use kvs::errors::KvsError;
use kvs::file::{DBFile, DataFile, DataValue, Disk, DiskOp, FileIo, ImmutableFile};
use kvs::index::DataIndex;

fn disk_with(path: &str, contents: Vec<u8>) -> Disk {
    let mut d = Disk::new();
    d.insert_file(DataFile { path: path.to_string(), contents });
    d
}

#[test]
fn disk_write_at_extends_with_zeros() {
    let mut d = disk_with("f", vec![1, 2]);
    d.write_at(&"f".to_string(), 4, &vec![9, 9]);
    assert_eq!(d.file(&"f".to_string()).unwrap(), &vec![1, 2, 0, 0, 9, 9]);
    d.write_at(&"f".to_string(), 1, &vec![7]);
    assert_eq!(d.file(&"f".to_string()).unwrap(), &vec![1, 7, 0, 0, 9, 9]);
    d.write_at(&"missing".to_string(), 0, &vec![1]);
    assert!(d.file(&"missing".to_string()).is_none());
    let ops = d.take_ops();
    assert_eq!(ops.len(), 2);
    assert!(matches!(&ops[0], DiskOp::WriteAt(p, 4, b) if p == "f" && b == &vec![9, 9]));
}

#[test]
fn disk_create_keeps_existing_contents() {
    let mut d = disk_with("f", vec![5]);
    d.create(&"f".to_string());
    assert_eq!(d.file(&"f".to_string()).unwrap(), &vec![5]);
    d.create(&"g".to_string());
    assert_eq!(d.file(&"g".to_string()).unwrap(), &Vec::<u8>::new());
}

#[test]
fn disk_remove_twice_fails_second_time() {
    let mut d = disk_with("f", vec![5]);
    assert!(d.remove(&"f".to_string()));
    assert!(!d.remove(&"f".to_string()));
    let ops = d.take_ops();
    assert_eq!(ops.len(), 1);
    assert!(matches!(&ops[0], DiskOp::Remove(p) if p == "f"));
}

#[test]
fn db_file_write_then_read() {
    let mut d = disk_with("a", Vec::new());
    let mut f = DBFile { file_path: "a".to_string(), offset: 0, contents: Vec::new() };
    f.write(&mut d, Entry::new(SET, "k".to_string(), "v".to_string())).unwrap();
    assert_eq!(f.offset, 12);
    let e = f.read(&d, 0).unwrap();
    assert_eq!(e.key, "k");
    assert_eq!(e.value, "v");
    assert!(matches!(f.read(&d, 12), Err(KvsError::FileEnd)));
}

#[test]
fn db_file_handle_outlives_its_path() {
    let mut d = disk_with("a", Vec::new());
    let mut f = DBFile { file_path: "a".to_string(), offset: 0, contents: Vec::new() };
    f.write(&mut d, Entry::new(SET, "k".to_string(), "v".to_string())).unwrap();
    assert!(d.remove(&"a".to_string()));
    f.write(&mut d, Entry::new(SET, "k2".to_string(), "v2".to_string())).unwrap();
    assert_eq!(f.offset, 26);
    assert!(d.file(&"a".to_string()).is_none());
    let e = f.read(&d, 12).unwrap();
    assert_eq!(e.key, "k2");
    assert_eq!(e.value, "v2");
    assert_eq!(f.read(&d, 0).unwrap().key, "k");
    assert!(matches!(f.read(&d, 26), Err(KvsError::FileEnd)));
}

#[test]
fn db_file_write_refuses_empty_entry() {
    let mut d = disk_with("a", Vec::new());
    let mut f = DBFile { file_path: "a".to_string(), offset: 0, contents: Vec::new() };
    assert!(matches!(
        f.write(&mut d, Entry::new(SET, String::new(), String::new())),
        Err(KvsError::EntryError(_))
    ));
    assert_eq!(f.offset, 0);
}

#[test]
fn path_reads_fail_on_missing_files() {
    let d = Disk::new();
    let imm = ImmutableFile { data_path: "nope".to_string(), data_offset: 3 };
    assert!(matches!(imm.read(&d, 0), Err(KvsError::Io(_))));
    let loc = DataValue { file_path: "nope".to_string(), file_offset: 0 };
    assert!(matches!(loc.read(&d, 0), Err(KvsError::Io(_))));
}

#[test]
fn index_insert_get_remove() {
    let mut idx = DataIndex::new();
    idx.insert("a".to_string(), DataValue { file_path: "p".to_string(), file_offset: 1 });
    idx.insert("b".to_string(), DataValue { file_path: "p".to_string(), file_offset: 2 });
    idx.insert("a".to_string(), DataValue { file_path: "q".to_string(), file_offset: 3 });
    assert_eq!(idx.len(), 2);
    assert_eq!(idx.get(&"a".to_string()).unwrap().file_offset, 3);
    assert!(idx.contains_key(&"b".to_string()));
    idx.remove(&"b".to_string());
    assert!(!idx.contains_key(&"b".to_string()));
    idx.remove(&"zzz".to_string());
    assert_eq!(idx.len(), 1);
    let copy = idx.duplicate();
    assert_eq!(copy.get(&"a".to_string()).unwrap().file_path, "q");
}
