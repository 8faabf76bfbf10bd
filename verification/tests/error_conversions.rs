use kvs::errors::{FileError, KvsError};

#[test]
fn io_error_converts_to_io_variant() {
    let e = std::io::Error::from(std::io::ErrorKind::NotFound);
    assert!(matches!(KvsError::from(e), KvsError::Io(_)));
}

#[test]
fn json_error_converts_to_serde_variant() {
    let e = serde_json::from_str::<u32>("not json").unwrap_err();
    assert!(matches!(KvsError::from(e), KvsError::SerdeJ(_)));
}

#[test]
fn utf8_error_converts_to_utf8_variant() {
    let e = String::from_utf8(vec![0xff]).unwrap_err();
    assert!(matches!(KvsError::from(e), KvsError::Utf8Error(_)));
}

#[test]
fn walk_error_converts_to_file_variant() {
    let e = walkdir::WalkDir::new("/no/such/directory/for/kvs")
        .into_iter()
        .next()
        .unwrap()
        .unwrap_err();
    assert!(matches!(KvsError::from(e), KvsError::File(FileError::WalkError(_))));
}
