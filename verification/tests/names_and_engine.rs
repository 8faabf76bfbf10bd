use kvs::engine::{select_engine, EngineType};
use kvs::errors::KvsError;
use kvs::new_tmp_file;
use kvs::paths::{data_file_name_of, data_file_path_of, illage_data_file, illage_data_index};

#[test]
fn data_file_names_are_numbered() {
    assert_eq!(data_file_name_of(0), "0_kvs.txt");
    assert_eq!(data_file_name_of(12), "12_kvs.txt");
    assert_eq!(data_file_name_of(18446744073709551615), "18446744073709551615_kvs.txt");
}

#[test]
fn data_file_paths_join_like_pathbuf_push() {
    assert_eq!(data_file_path_of(&"dir".to_string(), 3), "dir/3_kvs.txt");
    assert_eq!(data_file_path_of(&"dir/".to_string(), 3), "dir/3_kvs.txt");
    assert_eq!(data_file_path_of(&"".to_string(), 7), "7_kvs.txt");
    assert_eq!(data_file_path_of(&"/".to_string(), 1), "/1_kvs.txt");
}

#[test]
fn new_tmp_file_is_empty_and_numbered() {
    let f = new_tmp_file("store".to_string(), 4).unwrap();
    assert_eq!(f.data_path, "store/4_kvs.txt");
    assert_eq!(f.data_offset, 0);
}

#[test]
fn data_and_index_names_are_recognised() {
    assert!(illage_data_file(Some("0_kvs.txt")));
    assert!(illage_data_file(Some("_kvs.txt")));
    assert!(!illage_data_file(Some("kvs.txt")));
    assert!(!illage_data_file(Some("0_kvs.txt.bak")));
    assert!(!illage_data_file(None));
    assert!(illage_data_index(Some("a_index.txt")));
    assert!(!illage_data_index(Some("a_kvs.txt")));
    assert!(!illage_data_index(None));
}

#[test]
fn kvs_engine_is_selected_unless_sled_is_there() {
    assert!(matches!(select_engine(&"kvs".to_string(), false, true), Ok(EngineType::KvsStore)));
    assert!(matches!(select_engine(&"kvs".to_string(), true, false), Err(KvsError::ErrorEngine)));
}

#[test]
fn other_names_select_sled_unless_kvs_is_there() {
    assert!(matches!(select_engine(&"sled".to_string(), true, false), Ok(EngineType::SledKvsEngine)));
    assert!(matches!(select_engine(&"sled".to_string(), false, true), Err(KvsError::ErrorEngine)));
}
