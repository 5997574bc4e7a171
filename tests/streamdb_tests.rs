use streamdb::codec::{decode_db_header, decode_free_list, decode_page_header, encode_free_list};
use streamdb::config::Config;
use streamdb::db::StreamDb;
use streamdb::error::StreamDbError;
use streamdb::trie::Trie;

fn open() -> StreamDb {
    StreamDb::new(Config::default_config())
}

#[test]
fn test_backend_integration() {
    let mut db = open();
    let id = db.write_document(b"path/to/doc", b"data").unwrap();
    assert_eq!(db.get_id_by_path(b"path/to/doc").unwrap(), Some(id));
    assert_eq!(db.read_document(id).unwrap(), b"data".to_vec());
    db.unbind_path(id, b"path/to/doc").unwrap();
    assert_eq!(db.get_id_by_path(b"path/to/doc").unwrap(), None);
}

#[test]
fn test_wasm_file_backend() {
    let mut config = Config::default_config();
    config.use_mmap = false;
    let mut db = StreamDb::new(config);
    db.write_document(b"/path/to/doc", b"data").unwrap();
    assert_eq!(db.get(b"/path/to/doc").unwrap(), b"data".to_vec());
    db.delete(b"/path/to/doc").unwrap();
    assert!(db.get(b"/path/to/doc").is_err());
}

#[test]
fn write_get_and_search() {
    let mut db = open();
    db.write_document(b"/a/b", b"hi").unwrap();
    assert_eq!(db.get(b"/a/b").unwrap(), b"hi".to_vec());
    assert_eq!(db.search(b"/a").unwrap(), vec![b"/a/b".to_vec()]);
}

#[test]
fn large_document_spans_a_chain() {
    let mut db = open();
    let before = db.calculate_statistics().1;
    let data: Vec<u8> = (0..65537u32).map(|i| (i % 251) as u8).collect();
    db.write_document(b"/x", &data).unwrap();
    assert_eq!(db.get(b"/x").unwrap(), data);
    let after = db.calculate_statistics().1;
    assert_eq!(after - before, 17);
}

#[test]
fn aliases_share_a_document() {
    let mut db = open();
    let id = db.write_document(b"/x", b"payload").unwrap();
    db.bind_to_path(id, b"/alias").unwrap();
    assert_eq!(db.get(b"/alias").unwrap(), db.get(b"/x").unwrap());
    let mut paths = db.list_paths(id).unwrap();
    paths.sort();
    assert_eq!(paths, vec![b"/alias".to_vec(), b"/x".to_vec()]);
}

#[test]
fn rollback_discards_and_commit_applies() {
    let mut db = open();
    db.begin_transaction().unwrap();
    db.write_document(b"/t", b"x").unwrap();
    db.rollback_transaction().unwrap();
    assert_eq!(db.get(b"/t"), Err(StreamDbError::NotFound));
    db.begin_transaction().unwrap();
    db.write_document(b"/t", b"x").unwrap();
    assert_eq!(db.get(b"/t"), Err(StreamDbError::NotFound));
    db.commit_transaction().unwrap();
    assert_eq!(db.get(b"/t").unwrap(), b"x".to_vec());
}

#[test]
fn nested_begin_is_refused() {
    let mut db = open();
    db.begin_transaction().unwrap();
    assert_eq!(db.begin_transaction(), Err(StreamDbError::TransactionError));
    assert_eq!(db.commit_transaction(), Ok(()));
    assert_eq!(db.commit_transaction(), Err(StreamDbError::TransactionError));
}

#[test]
fn gc_frees_the_older_version() {
    let mut config = Config::default_config();
    config.versions_to_keep = 1;
    let mut db = StreamDb::new(config);
    let id = db.write_document(b"/x", b"first").unwrap();
    db.update_document(id, b"second").unwrap();
    assert_eq!(db.count_free_pages(), 0);
    db.gc_old_versions();
    assert_eq!(db.count_free_pages(), 1);
    assert_eq!(db.get(b"/x").unwrap(), b"second".to_vec());
}

#[test]
fn default_keep_retains_one_old_version() {
    let mut db = open();
    let id = db.write_document(b"/x", b"v1").unwrap();
    db.update_document(id, b"v2").unwrap();
    db.update_document(id, b"v3").unwrap();
    db.gc_old_versions();
    assert_eq!(db.count_free_pages(), 1);
    assert_eq!(db.get(b"/x").unwrap(), b"v3".to_vec());
}

#[test]
fn bind_unbind_last_operation_wins() {
    let mut db = open();
    let a = db.write_document(b"/a", b"A").unwrap();
    let b = db.write_document(b"/b", b"B").unwrap();
    db.bind_to_path(a, b"/p").unwrap();
    db.unbind_path(a, b"/p").unwrap();
    db.bind_to_path(b, b"/p").unwrap();
    assert_eq!(db.get_id_by_path(b"/p").unwrap(), Some(b));
    db.unbind_path(b, b"/p").unwrap();
    assert_eq!(db.get_id_by_path(b"/p").unwrap(), None);
}

#[test]
fn search_finds_every_prefix_and_suffix() {
    let mut db = open();
    db.write_document(b"/logs/app/log", b"1").unwrap();
    db.write_document(b"/data/x", b"2").unwrap();
    for k in 1..=b"/logs/app/log".len() {
        let q = &b"/logs/app/log"[..k];
        if q.windows(2).any(|w| w == b"//") {
            continue;
        }
        assert!(db.search(q).unwrap().contains(&b"/logs/app/log".to_vec()));
    }
    let hits = db.search(b"/log").unwrap();
    assert_eq!(hits, vec![b"/logs/app/log".to_vec()]);
    assert_eq!(db.search(b"/data/x").unwrap(), vec![b"/data/x".to_vec()]);
}

#[test]
fn invalid_paths_are_rejected() {
    let mut db = open();
    assert_eq!(db.write_document(b"", b"x"), Err(StreamDbError::InvalidInput));
    assert_eq!(db.write_document(b"/a//b", b"x"), Err(StreamDbError::InvalidInput));
    assert_eq!(db.write_document(b"/a\0b", b"x"), Err(StreamDbError::InvalidInput));
    let long = vec![b'a'; 1025];
    assert_eq!(db.write_document(&long, b"x"), Err(StreamDbError::InvalidInput));
    assert_eq!(db.search(b""), Err(StreamDbError::InvalidInput));
}

#[test]
fn duplicate_path_and_missing_documents() {
    let mut db = open();
    db.write_document(b"/a", b"x").unwrap();
    assert_eq!(db.write_document(b"/a", b"y"), Err(StreamDbError::InvalidInput));
    assert_eq!(db.get(b"/nope"), Err(StreamDbError::NotFound));
    assert_eq!(db.delete(b"/nope"), Err(StreamDbError::NotFound));
    assert_eq!(db.bind_to_path(7, b"/c"), Err(StreamDbError::NotFound));
    assert_eq!(db.unbind_path(7, b"/a"), Err(StreamDbError::NotFound));
    assert_eq!(db.list_paths(7), Err(StreamDbError::NotFound));
    assert_eq!(db.read_document(7), Err(StreamDbError::NotFound));
}

#[test]
fn oversized_document_is_rejected() {
    let mut config = Config::default_config();
    config.max_document_size = 10;
    let mut db = StreamDb::new(config);
    assert_eq!(db.write_document(b"/big", &[0u8; 11]), Err(StreamDbError::InvalidInput));
    assert!(db.write_document(b"/ok", &[0u8; 10]).is_ok());
}

#[test]
fn full_database_rejects_writes() {
    let mut config = Config::default_config();
    config.max_db_size = 4096 * 3;
    let mut db = StreamDb::new(config);
    db.write_document(b"/a", &[1u8; 4000]).unwrap();
    db.write_document(b"/b", &[2u8; 4000]).unwrap();
    assert_eq!(db.write_document(b"/c", &[3u8; 4000]), Err(StreamDbError::InvalidInput));
    assert_eq!(db.get(b"/a").unwrap(), vec![1u8; 4000]);
}

#[test]
fn deleted_pages_are_reused() {
    let mut db = open();
    db.write_document(b"/a", &[1u8; 5000]).unwrap();
    let total = db.calculate_statistics().1;
    db.delete(b"/a").unwrap();
    assert_eq!(db.get(b"/a"), Err(StreamDbError::NotFound));
    db.write_document(b"/b", &[2u8; 5000]).unwrap();
    assert_eq!(db.get(b"/b").unwrap(), vec![2u8; 5000]);
    assert_eq!(db.calculate_statistics().1, total + 1);
}

#[test]
fn compressed_pages_round_trip() {
    let mut config = Config::default_config();
    config.use_compression = true;
    let mut db = StreamDb::new(config);
    let data: Vec<u8> = (0..20000u32).map(|i| (i * 7 % 256) as u8).collect();
    db.write_document(b"/z", &data).unwrap();
    assert_eq!(db.get(b"/z").unwrap(), data);
    assert_eq!(db.get_quick(b"/z", true).unwrap(), data);
}

#[test]
fn cache_counts_hits_and_misses() {
    let mut db = open();
    db.write_document(b"/a", b"x").unwrap();
    db.get(b"/a").unwrap();
    db.get(b"/a").unwrap();
    let stats = db.get_cache_stats();
    assert_eq!(stats.misses, 1);
    assert_eq!(stats.hits, 1);
}

#[test]
fn error_codes() {
    assert_eq!(StreamDbError::Io.code(), -1);
    assert_eq!(StreamDbError::NotFound.code(), -2);
    assert_eq!(StreamDbError::InvalidInput.code(), -3);
    assert_eq!(StreamDbError::TransactionError.code(), -5);
}

#[test]
fn flush_empties_the_log() {
    let mut db = open();
    db.write_document(b"/a", b"x").unwrap();
    db.flush().unwrap();
    assert_eq!(db.get(b"/a").unwrap(), b"x".to_vec());
}

#[test]
fn test_file_backend_persistence() {
    let config = Config::default_config();
    let mut db = StreamDb::new(config);
    db.write_document(b"/path/to/doc", b"data").unwrap();
    let checkpoint = db.checkpoint_bytes().unwrap();
    db.flush().unwrap();
    drop(db);
    let mut db = StreamDb::open_with_config(Config::default_config(), &checkpoint, &[]).unwrap();
    assert_eq!(db.get(b"/path/to/doc").unwrap(), b"data".to_vec());
    db.delete(b"/path/to/doc").unwrap();
}

#[test]
fn deleted_path_stays_gone_after_reopen() {
    let mut db = open();
    db.write_document(b"/a", b"1").unwrap();
    db.write_document(b"/b", b"2").unwrap();
    db.delete(b"/a").unwrap();
    db.flush().unwrap();
    let checkpoint = db.checkpoint_bytes().unwrap();
    let mut db = StreamDb::open_with_config(Config::default_config(), &checkpoint, &[]).unwrap();
    assert_eq!(db.get(b"/a"), Err(StreamDbError::NotFound));
    assert_eq!(db.get(b"/b").unwrap(), b"2".to_vec());
}

#[test]
fn crash_keeps_logged_prefix() {
    let mut db = open();
    let checkpoint = db.checkpoint_bytes().unwrap();
    db.write_document(b"/a", b"first").unwrap();
    db.write_document(b"/b", b"second").unwrap();
    let log = db.log_bytes().unwrap();
    let mut other = open();
    other.write_document(b"/c", b"third").unwrap();
    let extra = other.log_bytes().unwrap();
    let mut torn = log.clone();
    torn.extend_from_slice(&extra[..extra.len() / 2]);
    let mut back = StreamDb::open_with_config(Config::default_config(), &checkpoint, &torn).unwrap();
    assert_eq!(back.get(b"/a").unwrap(), b"first".to_vec());
    assert_eq!(back.get(b"/b").unwrap(), b"second".to_vec());
    assert_eq!(back.get(b"/c"), Err(StreamDbError::NotFound));
}

#[test]
fn corrupt_frame_ends_the_log() {
    let mut db = open();
    db.write_document(b"/a", b"x").unwrap();
    let mut log = db.log_bytes().unwrap();
    let n = log.len();
    log[n - 1] ^= 0xff;
    let mut back = StreamDb::open_with_config(Config::default_config(), &[], &log).unwrap();
    assert_eq!(back.get(b"/a"), Err(StreamDbError::NotFound));
}

#[test]
fn file_image_has_header_and_pages() {
    let mut db = open();
    db.write_document(b"/a", &[7u8; 5000]).unwrap();
    let image = db.file_image();
    let (_, total) = db.calculate_statistics();
    assert_eq!(image.len() as u64, total * 4096);
    let header = decode_db_header(&image).unwrap();
    assert_eq!(header.free_list_root.page_id, -1);
    let first = decode_page_header(&image[4096..]);
    assert_eq!(first.next_page_id, 2);
    assert_eq!(first.data_length, 4064);
    let second = decode_page_header(&image[8192..]);
    assert_eq!(second.prev_page_id, 1);
    assert_eq!(second.next_page_id, -1);
    assert_eq!(second.data_length, 5000 - 4064);
    let mut bad = image.clone();
    bad[0] = 0;
    assert!(decode_db_header(&bad).is_none());
}

#[test]
fn free_list_payload_round_trips() {
    let bytes = encode_free_list(9, &vec![3, 4, 5]);
    assert_eq!(bytes.len(), 12 + 24);
    let (next, ids) = decode_free_list(&bytes).unwrap();
    assert_eq!(next, 9);
    assert_eq!(ids, vec![3, 4, 5]);
    assert!(decode_free_list(&bytes[..20]).is_none());
}

#[test]
fn trie_remove_reports_reached_node() {
    let mut t = Trie::new();
    t.insert(&[1, 2], 7);
    assert!(t.remove(&[1]));
    assert_eq!(t.get(&[1, 2]), Some(7));
    assert!(!t.remove(&[3]));
    assert!(t.remove(&[1, 2]));
    assert_eq!(t.get(&[1, 2]), None);
}

#[test]
fn write_in_transaction_is_staged_until_commit() {
    let mut db = open();
    db.begin_transaction().unwrap();
    let id = db.write_document(b"/s", b"v").unwrap();
    assert_eq!(db.get_id_by_path(b"/s").unwrap(), None);
    db.commit_transaction().unwrap();
    assert_eq!(db.get_id_by_path(b"/s").unwrap(), Some(id));
    assert_eq!(db.list_paths(id).unwrap(), vec![b"/s".to_vec()]);
}

#[test]
fn empty_checkpoint_and_log_open() {
    let mut db = StreamDb::open_with_config(Config::default_config(), &[], &[]).unwrap();
    assert_eq!(db.search(b"/a").unwrap(), Vec::<Vec<u8>>::new());
}
