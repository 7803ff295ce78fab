use toonstore::storage::MAX_VALUE_SIZE;
use toonstore::{Error, ToonStore};

fn reopen(db: &ToonStore) -> ToonStore {
    let data = db.data_image().clone();
    let index = db.index_file();
    ToonStore::open(data, &index).unwrap()
}

#[test]
fn lib_it_works() {
    assert_eq!(2 + 2, 4);
}

#[test]
fn test_create_and_open() {
    let mut db = ToonStore::create();
    assert_eq!(db.len(), 0);
    assert!(db.is_empty());
    db.close().unwrap();
    let db = reopen(&db);
    assert_eq!(db.len(), 0);
}

#[test]
fn test_put_and_get() {
    let mut db = ToonStore::create();
    let line = b"users[1]{id,name}: 1,Alice";
    let row_id = db.put(line).unwrap();
    assert_eq!(row_id, 0);
    assert_eq!(db.len(), 1);
    let retrieved = db.get(row_id).unwrap();
    assert_eq!(retrieved, line);
    db.close().unwrap();
}

#[test]
fn test_multiple_puts() {
    let mut db = ToonStore::create();
    let lines = vec![
        b"users[1]{id,name}: 1,Alice".to_vec(),
        b"users[1]{id,name}: 2,Bob".to_vec(),
        b"users[1]{id,name}: 3,Charlie".to_vec(),
    ];
    for line in &lines {
        db.put(line).unwrap();
    }
    assert_eq!(db.len(), 3);
    for (i, line) in lines.iter().enumerate() {
        let retrieved = db.get(i as u64).unwrap();
        assert_eq!(&retrieved, line);
    }
    db.close().unwrap();
}

#[test]
fn test_get_not_found() {
    let db = ToonStore::create();
    let result = db.get(0);
    assert!(matches!(result, Err(Error::NotFound)));
}

#[test]
fn test_value_too_large() {
    let mut db = ToonStore::create();
    let large_line = vec![b'x'; MAX_VALUE_SIZE + 1];
    let result = db.put(&large_line);
    assert!(matches!(result, Err(Error::ValueTooLarge(_))));
}

#[test]
fn test_persistence() {
    let mut db = ToonStore::create();
    db.put(b"test line 1").unwrap();
    db.put(b"test line 2").unwrap();
    db.close().unwrap();
    let db = reopen(&db);
    assert_eq!(db.len(), 2);
    assert_eq!(db.get(0).unwrap(), b"test line 1");
    assert_eq!(db.get(1).unwrap(), b"test line 2");
}

#[test]
fn test_close_twice() {
    let mut db = ToonStore::create();
    db.close().unwrap();
    db.close().unwrap();
}

#[test]
fn test_put_after_close() {
    let mut db = ToonStore::create();
    db.close().unwrap();
    let result = db.put(b"test");
    assert!(matches!(result, Err(Error::Closed)));
}

#[test]
fn test_delete() {
    let mut db = ToonStore::create();
    let id0 = db.put(b"line 0").unwrap();
    let id1 = db.put(b"line 1").unwrap();
    let id2 = db.put(b"line 2").unwrap();
    db.delete(id1).unwrap();
    assert_eq!(db.get(id0).unwrap(), b"line 0");
    assert_eq!(db.get(id2).unwrap(), b"line 2");
    assert!(matches!(db.get(id1), Err(Error::NotFound)));
    assert!(matches!(db.delete(id1), Err(Error::NotFound)));
    db.close().unwrap();
}

#[test]
fn test_delete_persistence() {
    let mut db = ToonStore::create();
    db.put(b"line 0").unwrap();
    db.put(b"line 1").unwrap();
    db.put(b"line 2").unwrap();
    db.delete(1).unwrap();
    db.close().unwrap();
    let db = reopen(&db);
    assert_eq!(db.get(0).unwrap(), b"line 0");
    assert!(matches!(db.get(1), Err(Error::NotFound)));
    assert_eq!(db.get(2).unwrap(), b"line 2");
}

#[test]
fn test_scan() {
    let mut db = ToonStore::create();
    db.put(b"line 0").unwrap();
    db.put(b"line 1").unwrap();
    db.put(b"line 2").unwrap();
    let results = db.scan();
    assert_eq!(results.len(), 3);
    assert_eq!(results[0].as_ref().unwrap().0, 0);
    assert_eq!(results[0].as_ref().unwrap().1, b"line 0");
    assert_eq!(results[1].as_ref().unwrap().0, 1);
    assert_eq!(results[1].as_ref().unwrap().1, b"line 1");
    assert_eq!(results[2].as_ref().unwrap().0, 2);
    assert_eq!(results[2].as_ref().unwrap().1, b"line 2");
}

#[test]
fn test_scan_with_deletes() {
    let mut db = ToonStore::create();
    db.put(b"line 0").unwrap();
    db.put(b"line 1").unwrap();
    db.put(b"line 2").unwrap();
    db.put(b"line 3").unwrap();
    db.delete(1).unwrap();
    db.delete(3).unwrap();
    let results = db.scan();
    assert_eq!(results.len(), 2);
    assert_eq!(results[0].as_ref().unwrap().0, 0);
    assert_eq!(results[0].as_ref().unwrap().1, b"line 0");
    assert_eq!(results[1].as_ref().unwrap().0, 2);
    assert_eq!(results[1].as_ref().unwrap().1, b"line 2");
}

#[test]
fn test_scan_empty() {
    let db = ToonStore::create();
    let results = db.scan();
    assert_eq!(results.len(), 0);
}

#[test]
fn test_delete_nonexistent() {
    let mut db = ToonStore::create();
    db.put(b"line 0").unwrap();
    assert!(matches!(db.delete(5), Err(Error::NotFound)));
}

#[test]
fn append_and_read_scenario() {
    let mut db = ToonStore::create();
    assert_eq!(db.put(b"users[1]{id,name}: 1,Alice").unwrap(), 0);
    assert_eq!(db.put(b"users[1]{id,name}: 2,Bob").unwrap(), 1);
    assert_eq!(db.get(0).unwrap(), b"users[1]{id,name}: 1,Alice");
    assert_eq!(db.len(), 2);
}

#[test]
fn persistence_scenario() {
    let mut db = ToonStore::create();
    db.put(b"users[1]{id,name}: 1,Alice").unwrap();
    db.put(b"users[1]{id,name}: 2,Bob").unwrap();
    db.close().unwrap();
    let db = reopen(&db);
    assert_eq!(db.get(1).unwrap(), b"users[1]{id,name}: 2,Bob");
    assert_eq!(db.len(), 2);
}

#[test]
fn tombstone_scenario() {
    let mut db = ToonStore::create();
    assert_eq!(db.put(b"a").unwrap(), 0);
    assert_eq!(db.put(b"b").unwrap(), 1);
    assert_eq!(db.put(b"c").unwrap(), 2);
    db.delete(1).unwrap();
    assert!(matches!(db.get(1), Err(Error::NotFound)));
    let rows: Vec<(u64, Vec<u8>)> = db.scan().into_iter().map(|r| r.unwrap()).collect();
    assert_eq!(rows, vec![(0, b"a".to_vec()), (2, b"c".to_vec())]);
    db.close().unwrap();
    let db = reopen(&db);
    assert!(matches!(db.get(1), Err(Error::NotFound)));
    let rows: Vec<(u64, Vec<u8>)> = db.scan().into_iter().map(|r| r.unwrap()).collect();
    assert_eq!(rows, vec![(0, b"a".to_vec()), (2, b"c".to_vec())]);
}

#[test]
fn density_after_many_puts() {
    let mut db = ToonStore::create();
    for i in 0..50u64 {
        assert_eq!(db.put(format!("row {}", i).as_bytes()).unwrap(), i);
    }
    assert_eq!(db.len(), 50);
    for i in 0..50u64 {
        assert_eq!(db.get(i).unwrap(), format!("row {}", i).as_bytes());
    }
}

#[test]
fn close_writes_row_count_and_index() {
    let mut db = ToonStore::create();
    db.put(b"x").unwrap();
    db.put(b"yz").unwrap();
    db.delete(0).unwrap();
    db.close().unwrap();
    let header = db.header_bytes();
    assert_eq!(&header[0..8], b"TOON001\n");
    assert_eq!(u32::from_le_bytes([header[12], header[13], header[14], header[15]]), 2);
    let idx = db.index_file();
    assert_eq!(&idx[0..8], b"TOONIDX1");
    assert_eq!(u32::from_le_bytes([idx[8], idx[9], idx[10], idx[11]]), 2);
    assert_eq!(u64::from_le_bytes(idx[12..20].try_into().unwrap()), 0);
    assert_eq!(u64::from_le_bytes(idx[20..28].try_into().unwrap()), 18);
    assert!(matches!(db.get(1), Err(Error::Closed)));
}

#[test]
fn open_rejects_bad_files() {
    let db = ToonStore::create();
    let mut data = db.data_image().clone();
    let index = db.index_file();
    assert!(matches!(ToonStore::open(data.clone(), &index[0..10]), Err(Error::Parse(_))));
    let mut bad_index = index.clone();
    bad_index[0] = b'X';
    assert!(matches!(ToonStore::open(data.clone(), &bad_index), Err(Error::Parse(_))));
    let mut truncated = index.clone();
    truncated[8] = 3;
    assert!(matches!(ToonStore::open(data.clone(), &truncated), Err(Error::Parse(_))));
    data[0] = b'X';
    assert!(matches!(ToonStore::open(data, &index), Err(Error::Parse(_))));
}

#[test]
fn error_messages() {
    assert_eq!(Error::NotFound.message(), "Key not found");
    assert_eq!(Error::Closed.message(), "Database is closed");
    assert_eq!(Error::Io("disk".to_string()).message(), "I/O error: disk");
    assert_eq!(Error::Parse("bad".to_string()).message(), "Parse error: bad");
    assert_eq!(Error::DatabaseFull(5).message(), "Database full (max 1 GB)");
}

#[test]
fn unterminated_record_is_an_io_error() {
    let db = ToonStore::create();
    let data = db.data_image().clone();
    let mut index = b"TOONIDX1".to_vec();
    index.extend_from_slice(&1u32.to_le_bytes());
    index.extend_from_slice(&100u64.to_le_bytes());
    let reopened = ToonStore::open(data, &index).unwrap();
    assert_eq!(reopened.len(), 1);
    assert!(matches!(reopened.get(0), Err(Error::Io(_))));
}

#[test]
fn index_offset_inside_header_is_rejected() {
    let db = ToonStore::create();
    let data = db.data_image().clone();
    let mut index = b"TOONIDX1".to_vec();
    index.extend_from_slice(&1u32.to_le_bytes());
    index.extend_from_slice(&5u64.to_le_bytes());
    assert!(matches!(ToonStore::open(data, &index), Err(Error::Parse(_))));
}
