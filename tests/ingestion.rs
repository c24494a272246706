use network_scheduler::data_chunk::{BlockRange, DataChunk};
use network_scheduler::storage::{
    check_continuity, next_poll, objects_to_chunk, parse_chunk_range, read_page, DatasetStorage,
    IngestError, ObjectError, PollAction, S3Object, ERROR_BACKOFF_SECS, IDLE_BACKOFF_SECS,
};

fn obj(key: &str, size: u64) -> S3Object {
    S3Object::from_key(Some(key.to_string()), size).unwrap()
}

fn chunk(begin: u32, end: u32) -> DataChunk {
    DataChunk::new("bucket".to_string(), BlockRange { begin, end }, 1)
}

#[test]
fn object_key_round_trip() {
    let o = obj("top/0000000000-0000000099-abc/blocks.parquet", 7);
    assert_eq!(o.prefix, "top/0000000000-0000000099-abc");
    assert_eq!(o.file_name, "blocks.parquet");
    assert_eq!(o.size, 7);
    assert_eq!(o.key(), "top/0000000000-0000000099-abc/blocks.parquet");
}

#[test]
fn object_key_splits_at_last_slash() {
    let o = obj("a/b/c", 1);
    assert_eq!(o.prefix, "a/b");
    assert_eq!(o.file_name, "c");
}

#[test]
fn object_key_errors() {
    assert_eq!(S3Object::from_key(None, 1).unwrap_err(), ObjectError::KeyMissing);
    assert_eq!(
        S3Object::from_key(Some("noslash".to_string()), 1).unwrap_err(),
        ObjectError::NoPrefix
    );
}

#[test]
fn chunk_range_parsing() {
    let p = |s: &str| parse_chunk_range(&s.to_string());
    assert_eq!(p("top/0000000000-0000000099-abc"), Some(BlockRange { begin: 0, end: 99 }));
    assert_eq!(p("150-199"), Some(BlockRange { begin: 150, end: 199 }));
    assert_eq!(p("x/4294967295-4294967295"), Some(BlockRange { begin: u32::MAX, end: u32::MAX }));
    assert_eq!(p("x/4294967296-4294967297"), None);
    assert_eq!(p("x/20-10"), None);
    assert_eq!(p("x/abc"), None);
    assert_eq!(p("x/-10"), None);
    assert_eq!(p("x/1a-10"), None);
}

#[test]
fn group_forms_chunk() {
    let objs = vec![
        obj("top/0000000100-0000000199-h/blocks.parquet", 10),
        obj("top/0000000100-0000000199-h/logs.parquet", 5),
    ];
    let c = objects_to_chunk(&"bucket".to_string(), &objs).unwrap();
    assert_eq!(c.dataset_url, "bucket");
    assert_eq!(c.block_range, BlockRange { begin: 100, end: 199 });
    assert_eq!(c.size_bytes, 15);
}

#[test]
fn group_errors() {
    let b = "bucket".to_string();
    assert_eq!(objects_to_chunk(&b, &Vec::new()).unwrap_err(), IngestError::EmptyGroup);
    let no_marker = vec![obj("top/0-9-h/logs.parquet", 1)];
    assert_eq!(objects_to_chunk(&b, &no_marker).unwrap_err(), IngestError::MarkerMissing);
    let bad = vec![obj("top/zzz/blocks.parquet", 1)];
    assert_eq!(objects_to_chunk(&b, &bad).unwrap_err(), IngestError::InvalidChunk);
}

#[test]
fn continuity_accepts_contiguous_chunks() {
    assert!(check_continuity(None, &vec![chunk(0, 99), chunk(100, 149)]).is_ok());
    assert!(check_continuity(Some(99), &vec![chunk(100, 199)]).is_ok());
    assert!(check_continuity(Some(5), &Vec::new()).is_ok());
}

#[test]
fn continuity_rejects_gap() {
    let r = check_continuity(None, &vec![chunk(0, 99), chunk(150, 199)]);
    assert_eq!(r.unwrap_err(), IngestError::Gap { expected: 100, found: 150 });
    let r = check_continuity(Some(99), &vec![chunk(0, 99)]);
    assert_eq!(r.unwrap_err(), IngestError::Gap { expected: 100, found: 0 });
    let r = check_continuity(None, &vec![chunk(1, 5)]);
    assert_eq!(r.unwrap_err(), IngestError::Gap { expected: 0, found: 1 });
}

#[test]
fn listing_with_gap_is_refused_and_state_kept() {
    let mut st = DatasetStorage::new("bucket".to_string());
    let objs = vec![
        obj("0000000000-0000000099-a/blocks.parquet", 1),
        obj("0000000150-0000000199-b/blocks.parquet", 1),
    ];
    let r = st.accept_listing(objs);
    assert_eq!(r.unwrap_err(), IngestError::Gap { expected: 100, found: 150 });
    assert_eq!(st.last_block, None);
    assert_eq!(st.last_key, None);
}

#[test]
fn listing_advances_state() {
    let mut st = DatasetStorage::new("bucket".to_string());
    let objs = vec![
        obj("0000000000-0000000099-a/blocks.parquet", 3),
        obj("0000000000-0000000099-a/logs.parquet", 4),
        obj("0000000100-0000000199-b/blocks.parquet", 5),
    ];
    let chunks = st.accept_listing(objs).unwrap();
    assert_eq!(chunks.len(), 2);
    assert_eq!(chunks[0].size_bytes, 7);
    assert_eq!(chunks[1].block_range, BlockRange { begin: 100, end: 199 });
    assert_eq!(st.last_block, Some(199));
    assert_eq!(st.last_key.as_deref(), Some("0000000100-0000000199-b/blocks.parquet"));
    // The next listing must continue at block 200.
    let gap = st.accept_listing(vec![obj("0000000300-0000000399-c/blocks.parquet", 1)]);
    assert_eq!(gap.unwrap_err(), IngestError::Gap { expected: 200, found: 300 });
    let ok = st.accept_listing(vec![obj("0000000200-0000000299-c/blocks.parquet", 1)]);
    assert_eq!(ok.unwrap().len(), 1);
    assert_eq!(st.last_block, Some(299));
}

#[test]
fn empty_listing_changes_nothing() {
    let mut st = DatasetStorage::new("bucket".to_string());
    assert!(st.accept_listing(Vec::new()).unwrap().is_empty());
    assert_eq!(st.last_block, None);
}

#[test]
fn polling_decisions() {
    assert_eq!(next_poll(&Err(IngestError::EmptyGroup)), PollAction::WaitSecs(ERROR_BACKOFF_SECS));
    assert_eq!(next_poll(&Ok(Vec::new())), PollAction::WaitSecs(IDLE_BACKOFF_SECS));
    assert_eq!(next_poll(&Ok(vec![chunk(0, 1)])), PollAction::Send);
    assert_eq!(ERROR_BACKOFF_SECS, 60);
    assert_eq!(IDLE_BACKOFF_SECS, 300);
}

#[test]
fn page_reading() {
    assert!(read_page(Vec::new()).is_none());
    let (objs, last) = read_page(vec![(Some("a/x".to_string()), 1), (Some("b/c/y".to_string()), 2)]).unwrap();
    assert_eq!(objs.len(), 2);
    assert_eq!(objs[1].prefix, "b/c");
    assert_eq!(objs[1].size, 2);
    assert_eq!(last, "b/c/y");
    assert!(read_page(vec![(Some("a/x".to_string()), 1), (None, 2)]).is_none());
    assert!(read_page(vec![(Some("plain".to_string()), 1)]).is_none());
}

#[test]
fn listing_failure_backs_off() {
    assert_eq!(next_poll(&Err(IngestError::ListingFailed)), PollAction::WaitSecs(ERROR_BACKOFF_SECS));
}
