use kvs::entry::{Entry, DEL, HEADERSIZE, SET};
use kvs::errors::{EntryError, KvsError};
use kvs::file::{read_at, read_entry_at};

#[test]
fn new_counts_bytes_of_key_and_value() {
    let e = Entry::new(SET, "key".to_string(), "välue".to_string());
    assert_eq!(e.mark, SET);
    assert_eq!(e.key_size, 3);
    assert_eq!(e.value_size, 6);
    assert_eq!(e.key, "key");
    assert_eq!(e.value, "välue");
}

#[test]
fn size_is_header_plus_key_plus_value() {
    let e = Entry::new(SET, "ab".to_string(), "cde".to_string());
    assert_eq!(e.size(), 15);
    assert_eq!(HEADERSIZE, 10);
}

#[test]
fn encode_writes_big_endian_header_then_key_then_value() {
    let e = Entry::new(DEL, "a".to_string(), "bc".to_string());
    let bytes = Entry::encode(e).unwrap();
    assert_eq!(bytes, vec![0, 1, 0, 0, 0, 1, 0, 0, 0, 2, b'a', b'b', b'c']);
}

#[test]
fn encode_large_sizes_big_endian() {
    let key = "k".repeat(0x0102);
    let e = Entry::new(0x0304, key.clone(), String::new());
    let bytes = Entry::encode(e).unwrap();
    assert_eq!(&bytes[0..10], &[3, 4, 0, 0, 1, 2, 0, 0, 0, 0]);
    assert_eq!(&bytes[10..], key.as_bytes());
}

#[test]
fn encode_refuses_empty_key_and_value() {
    let e = Entry::new(SET, String::new(), String::new());
    match Entry::encode(e) {
        Err(KvsError::EntryError(EntryError::Illegal)) => {}
        other => panic!("unexpected {:?}", other),
    }
}

#[test]
fn encode_accepts_empty_value() {
    let e = Entry::new(DEL, "x".to_string(), String::new());
    assert_eq!(Entry::encode(e).unwrap(), vec![0, 1, 0, 0, 0, 1, 0, 0, 0, 0, b'x']);
}

#[test]
fn decode_reads_header_only() {
    let buf = vec![0, 1, 0, 0, 1, 0, 0, 0, 0, 7, 99, 99];
    let e = Entry::decode(buf);
    assert_eq!(e.mark, 1);
    assert_eq!(e.key_size, 256);
    assert_eq!(e.value_size, 7);
    assert_eq!(e.key, "");
    assert_eq!(e.value, "");
}

#[test]
fn encode_then_read_gives_entry_back() {
    let e = Entry::new(SET, "héllo".to_string(), "wörld".to_string());
    let bytes = Entry::encode(e.clone()).unwrap();
    let back = read_entry_at(&bytes, 0).unwrap();
    assert_eq!(back, e);
}

#[test]
fn read_at_pads_with_zeros_past_the_end() {
    let c = vec![1u8, 2, 3];
    let (buf, n) = read_at(&c, 1, 4);
    assert_eq!(buf, vec![2, 3, 0, 0]);
    assert_eq!(n, 2);
    let (buf, n) = read_at(&c, 9, 2);
    assert_eq!(buf, vec![0, 0]);
    assert_eq!(n, 0);
}

#[test]
fn read_entry_at_past_the_end_gives_empty_record() {
    let c = vec![0u8; 4];
    let e = read_entry_at(&c, 100).unwrap();
    assert_eq!(e.mark, 0);
    assert_eq!(e.key_size, 0);
    assert_eq!(e.value_size, 0);
    assert_eq!(e.key, "");
}

#[test]
fn read_entry_at_truncated_record_reads_zeros() {
    let e = Entry::new(SET, "ab".to_string(), "cd".to_string());
    let mut bytes = Entry::encode(e).unwrap();
    bytes.truncate(12);
    let back = read_entry_at(&bytes, 0).unwrap();
    assert_eq!(back.key, "ab");
    assert_eq!(back.value, "\0\0");
}

#[test]
fn read_entry_at_rejects_bad_utf8() {
    let c = vec![0u8, 0, 0, 0, 0, 1, 0, 0, 0, 0, 0xff];
    match read_entry_at(&c, 0) {
        Err(KvsError::Utf8Error(_)) => {}
        other => panic!("unexpected {:?}", other),
    }
}
