use phoenix::arguments::{Chunk, ChunkId, FileId, FileMetadata, FilePath};
use phoenix::db::{Db, DbError};
use phoenix::digest::chunk_digest;
use phoenix::messaging::{Directive, Message, Payload};
use phoenix::session::handle_client_msg;
use std::time;

fn now_ms() -> u128 {
    time::SystemTime::now()
        .duration_since(time::UNIX_EPOCH)
        .unwrap()
        .as_millis()
}

fn test_file() -> FileMetadata {
    FileMetadata {
        file_id: FileId {
            path: "TestFile".to_string(),
            hash: [0u8; 32],
        },
        file_name: "TestFile".to_owned(),
        permissions: 0b110110000,
        modified: now_ms(),
        created: now_ms(),
        chunks: vec![],
    }
}

fn db_with_test_data() -> Db {
    let mut db = Db::new();
    let _ = db.add_file(&test_file());
    db
}

#[test]
fn test_get_file() {
    let db = db_with_test_data();
    let file = test_file();
    assert_eq!(Some(file), db.get_file("TestFile"))
}

#[test]
fn mod_test_file_rm() {
    let mut db = db_with_test_data();
    db.rm_file(&FilePath("TestFile".to_owned())).unwrap();
    assert_eq!(None, db.get_file("TestFile"))
}

fn zeros() -> Vec<u8> {
    vec![0u8; 1024]
}

fn c0() -> ChunkId {
    chunk_digest(&zeros())
}

fn two_zero_chunks(path: &str) -> FileMetadata {
    FileMetadata {
        file_id: FileId { path: path.to_string(), hash: [9u8; 32] },
        file_name: path.to_string(),
        permissions: 0o644,
        modified: 1,
        created: 1,
        chunks: vec![c0(), c0()],
    }
}

#[test]
fn first_upload_requests_one_distinct_chunk() {
    let mut db = Db::new();
    let a = two_zero_chunks("a.txt");
    let missing = db.add_file(&a).unwrap();
    assert_eq!(missing, vec![c0()]);
    assert_eq!(db.get_file("a.txt"), None);
    let done = db.add_chunk(&Chunk { id: c0(), data: zeros() });
    assert_eq!(done, vec![a.file_id.clone()]);
    assert_eq!(db.get_file("a.txt"), Some(a));
    let stored = db.get_chunk(<[u8; 32]>::try_from(c0().0.as_slice()).unwrap()).unwrap();
    assert_eq!(stored.data, zeros());
}

#[test]
fn dedup_across_files_and_deletion() {
    let mut db = Db::new();
    let a = two_zero_chunks("a.txt");
    db.add_file(&a).unwrap();
    db.add_chunk(&Chunk { id: c0(), data: zeros() });
    let b = two_zero_chunks("b.txt");
    assert_eq!(db.add_file(&b).unwrap(), Vec::<ChunkId>::new());
    assert_eq!(db.get_file("b.txt"), Some(b));
    db.rm_file(&FilePath("b.txt".to_string())).unwrap();
    assert_eq!(db.get_file("b.txt"), None);
    let key = <[u8; 32]>::try_from(c0().0.as_slice()).unwrap();
    assert!(db.get_chunk(key).is_some());
    db.rm_file(&FilePath("a.txt".to_string())).unwrap();
    assert!(db.get_chunk(key).is_none());
    assert_eq!(db.get_files().0.len(), 0);
}

#[test]
fn unrequested_chunks_are_dropped() {
    let mut db = Db::new();
    let data = vec![5u8; 10];
    let id = chunk_digest(&data);
    assert!(db.add_chunk(&Chunk { id: id.clone(), data }).is_empty());
    let key = <[u8; 32]>::try_from(id.0.as_slice()).unwrap();
    assert!(db.get_chunk(key).is_none());
}

#[test]
fn chunks_whose_id_is_not_their_digest_are_dropped() {
    let mut db = Db::new();
    let a = two_zero_chunks("a.txt");
    db.add_file(&a).unwrap();
    let forged = Chunk { id: c0(), data: vec![1u8; 1024] };
    assert!(db.add_chunk(&forged).is_empty());
    assert_eq!(db.get_file("a.txt"), None);
    let key = <[u8; 32]>::try_from(c0().0.as_slice()).unwrap();
    assert!(db.get_chunk(key).is_none());
    assert_eq!(db.add_chunk(&Chunk { id: c0(), data: zeros() }).len(), 1);
}

#[test]
fn reannouncing_a_stored_file_is_a_duplicate() {
    let mut db = Db::new();
    let f = test_file();
    assert_eq!(db.add_file(&f).unwrap(), Vec::<ChunkId>::new());
    assert_eq!(db.add_file(&f), Err(DbError::DuplicateFile));
    let mut later = test_file();
    later.modified += 1000;
    assert_eq!(db.add_file(&later), Err(DbError::DuplicateFile));
}

#[test]
fn delete_after_full_upload_empties_the_engine() {
    let mut db = Db::new();
    let data_a = vec![1u8; 1024];
    let data_b = vec![2u8; 100];
    let m = FileMetadata {
        file_id: FileId { path: "f".to_string(), hash: [0u8; 32] },
        file_name: "f".to_string(),
        permissions: 0,
        modified: 0,
        created: 0,
        chunks: vec![chunk_digest(&data_a), chunk_digest(&data_b), chunk_digest(&data_a)],
    };
    let missing = db.add_file(&m).unwrap();
    assert_eq!(missing, vec![chunk_digest(&data_a), chunk_digest(&data_b)]);
    assert!(db.add_chunk(&Chunk { id: chunk_digest(&data_a), data: data_a.clone() }).is_empty());
    assert_eq!(db.add_chunk(&Chunk { id: chunk_digest(&data_b), data: data_b.clone() }).len(), 1);
    db.rm_file(&FilePath("f".to_string())).unwrap();
    assert_eq!(db.get_files().0.len(), 0);
    for d in [&data_a, &data_b] {
        let key = <[u8; 32]>::try_from(chunk_digest(d).0.as_slice()).unwrap();
        assert!(db.get_chunk(key).is_none());
    }
    // nothing is left waiting either: the same chunk is no longer accepted
    assert!(db.add_chunk(&Chunk { id: chunk_digest(&data_a), data: data_a }).is_empty());
}

#[test]
fn one_chunk_completes_every_waiting_file() {
    let mut db = Db::new();
    let a = two_zero_chunks("a.txt");
    let b = FileMetadata { chunks: vec![c0()], ..two_zero_chunks("b.txt") };
    db.add_file(&a).unwrap();
    db.add_file(&b).unwrap();
    let done = db.add_chunk(&Chunk { id: c0(), data: zeros() });
    assert_eq!(done, vec![a.file_id.clone(), b.file_id.clone()]);
    assert_eq!(db.get_files().0.len(), 2);
}

#[test]
fn updating_a_file_swaps_its_chunks() {
    let mut db = Db::new();
    let old_data = vec![3u8; 1024];
    let new_data = vec![4u8; 1024];
    let old = FileMetadata { chunks: vec![chunk_digest(&old_data)], ..two_zero_chunks("u") };
    db.add_file(&old).unwrap();
    db.add_chunk(&Chunk { id: chunk_digest(&old_data), data: old_data.clone() });
    let both = FileMetadata { chunks: vec![chunk_digest(&old_data), chunk_digest(&new_data)], ..two_zero_chunks("u") };
    assert_eq!(db.add_file(&both).unwrap(), vec![chunk_digest(&new_data)]);
    db.add_chunk(&Chunk { id: chunk_digest(&new_data), data: new_data.clone() });
    assert_eq!(db.get_file("u"), Some(both));
    let only_new = FileMetadata { chunks: vec![chunk_digest(&new_data)], ..two_zero_chunks("u") };
    assert_eq!(db.add_file(&only_new).unwrap(), Vec::<ChunkId>::new());
    let old_key = <[u8; 32]>::try_from(chunk_digest(&old_data).0.as_slice()).unwrap();
    assert!(db.get_chunk(old_key).is_none());
}

#[test]
fn session_upload_then_dedup() {
    let mut db = Db::new();
    let a = two_zero_chunks("a.txt");
    let out = handle_client_msg(&mut db, &Message { id: 0, verb: Directive::SendFile, argument: Some(Payload::FileMetadata(a.clone())) });
    assert!(out.broadcasts.is_empty());
    assert_eq!(out.replies.len(), 1);
    match &out.replies[0].argument {
        Some(Payload::QualifiedChunkId(q)) => {
            assert_eq!(q.offset, 0);
            assert_eq!(q.id, c0());
            assert_eq!(q.path, a.file_id);
        }
        other => panic!("unexpected reply {:?}", other),
    }
    let out = handle_client_msg(&mut db, &Message { id: 1, verb: Directive::SendChunk, argument: Some(Payload::Chunk(Chunk { id: c0(), data: zeros() })) });
    assert!(out.replies.is_empty());
    assert_eq!(out.broadcasts.len(), 1);
    assert_eq!(out.broadcasts[0].argument, Some(Payload::FileMetadata(a.clone())));
    let b = two_zero_chunks("b.txt");
    let out = handle_client_msg(&mut db, &Message { id: 2, verb: Directive::SendFile, argument: Some(Payload::FileMetadata(b.clone())) });
    assert!(out.replies.is_empty());
    assert_eq!(out.broadcasts[0].argument, Some(Payload::FileMetadata(b)));
    let out = handle_client_msg(&mut db, &Message { id: 3, verb: Directive::ListFiles, argument: None });
    match &out.replies[0].argument {
        Some(Payload::FileList(l)) => assert_eq!(l.0.len(), 2),
        other => panic!("unexpected reply {:?}", other),
    }
    let out = handle_client_msg(&mut db, &Message { id: 4, verb: Directive::DeleteFile, argument: Some(Payload::FilePath(FilePath("b.txt".to_string()))) });
    assert!(out.replies.is_empty() && out.broadcasts.is_empty());
    assert_eq!(db.get_file("b.txt"), None);
}

#[test]
fn session_serves_files_and_chunks() {
    let mut db = Db::new();
    let a = two_zero_chunks("a.txt");
    db.add_file(&a).unwrap();
    db.add_chunk(&Chunk { id: c0(), data: zeros() });
    let out = handle_client_msg(&mut db, &Message { id: 0, verb: Directive::RequestFile, argument: Some(Payload::FileId(a.file_id.clone())) });
    assert_eq!(out.replies[0].argument, Some(Payload::FileMetadata(a.clone())));
    let q = phoenix::arguments::QualifiedChunkId { path: a.file_id.clone(), offset: 1024, id: c0() };
    let out = handle_client_msg(&mut db, &Message { id: 1, verb: Directive::RequestChunk, argument: Some(Payload::QualifiedChunkId(q.clone())) });
    match &out.replies[0].argument {
        Some(Payload::QualifiedChunk(c)) => {
            assert_eq!(c.id, q);
            assert_eq!(c.data, zeros());
        }
        other => panic!("unexpected reply {:?}", other),
    }
    let out = handle_client_msg(&mut db, &Message { id: 2, verb: Directive::Response, argument: None });
    assert!(out.replies.is_empty());
}

#[test]
fn reannouncing_a_pending_file_is_a_duplicate() {
    let mut db = Db::new();
    let a = two_zero_chunks("a.txt");
    assert_eq!(db.add_file(&a).unwrap(), vec![c0()]);
    assert_eq!(db.add_file(&a), Err(DbError::DuplicateFile));
    // the chunk is still awaited once, and completes the file
    assert_eq!(db.add_chunk(&Chunk { id: c0(), data: zeros() }).len(), 1);
    db.rm_file(&FilePath("a.txt".to_string())).unwrap();
    let key = <[u8; 32]>::try_from(c0().0.as_slice()).unwrap();
    assert!(db.get_chunk(key).is_none());
}

#[test]
fn replacing_a_pending_file_forgets_its_old_chunks() {
    let mut db = Db::new();
    let old_data = vec![6u8; 10];
    let new_data = vec![7u8; 10];
    let first = FileMetadata { chunks: vec![chunk_digest(&old_data)], ..two_zero_chunks("p") };
    let second = FileMetadata { chunks: vec![chunk_digest(&new_data)], ..two_zero_chunks("p") };
    assert_eq!(db.add_file(&first).unwrap(), vec![chunk_digest(&old_data)]);
    assert_eq!(db.add_file(&second).unwrap(), vec![chunk_digest(&new_data)]);
    // the first version's chunk is no longer awaited
    assert!(db.add_chunk(&Chunk { id: chunk_digest(&old_data), data: old_data }).is_empty());
    assert_eq!(db.add_chunk(&Chunk { id: chunk_digest(&new_data), data: new_data }).len(), 1);
    assert_eq!(db.get_file("p"), Some(second));
}

#[test]
fn updating_to_a_version_with_missing_chunks_leaves_it_pending_only() {
    let mut db = Db::new();
    let empty = FileMetadata { chunks: vec![], ..two_zero_chunks("u") };
    db.add_file(&empty).unwrap();
    let data = vec![8u8; 10];
    let grown = FileMetadata { chunks: vec![chunk_digest(&data)], ..two_zero_chunks("u") };
    assert_eq!(db.add_file(&grown).unwrap(), vec![chunk_digest(&data)]);
    assert_eq!(db.get_file("u"), None);
    assert_eq!(db.add_chunk(&Chunk { id: chunk_digest(&data), data }).len(), 1);
    assert_eq!(db.get_file("u"), Some(grown));
}

#[test]
fn file_list_comes_in_key_order() {
    let mut db = Db::new();
    for p in ["b", "a/x", "c", "a"] {
        db.add_file(&FileMetadata { chunks: vec![], ..two_zero_chunks(p) }).unwrap();
    }
    let paths: Vec<String> = db.get_files().0.into_iter().map(|f| f.path).collect();
    assert_eq!(paths, vec!["a", "a/x", "b", "c"]);
}

#[test]
fn pending_files_are_hidden_until_complete() {
    let mut db = Db::new();
    let a = two_zero_chunks("a.txt");
    db.add_file(&a).unwrap();
    assert_eq!(db.get_files().0.len(), 0);
    assert_eq!(db.get_file("a.txt"), None);
    db.add_chunk(&Chunk { id: c0(), data: zeros() });
    assert_eq!(db.get_files().0, vec![a.file_id.clone()]);
}

#[test]
fn counts_follow_references() {
    let mut db = Db::new();
    let a = two_zero_chunks("a.txt");
    db.add_file(&a).unwrap();
    assert_eq!(db.chunk_refs(&c0()), 2);
    assert!(db.is_awaited(&c0()));
    db.add_chunk(&Chunk { id: c0(), data: zeros() });
    assert!(!db.is_awaited(&c0()));
    db.add_file(&two_zero_chunks("b.txt")).unwrap();
    assert_eq!(db.chunk_refs(&c0()), 4);
    db.rm_file(&FilePath("b.txt".to_string())).unwrap();
    assert_eq!(db.chunk_refs(&c0()), 2);
}
