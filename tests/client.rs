use phoenix::arguments::{ChunkId, FileId, FileList, FileMetadata, QualifiedChunkId};
use phoenix::digest::{chunk_digest, file_digest};
use phoenix::sync::{
    chunk_ids, download_requests, file_metadata, reply_to_chunk_request, sync_plan, Blacklist,
    FsAction, FsEventKind, CHUNK_SIZE,
};

#[test]
fn digest_is_blake3_and_not_the_input() {
    let d = chunk_digest(b"abc");
    assert_eq!(d.0.len(), 32);
    assert_ne!(d.0, b"abc".to_vec());
    assert_eq!(
        d.0[..4].to_vec(),
        vec![0x64, 0x37, 0xb3, 0xac],
    );
    assert_eq!(file_digest(b"abc").to_vec(), d.0);
}

#[test]
fn chunking_splits_on_chunk_size() {
    let data: Vec<u8> = (0..2500u32).map(|i| (i % 251) as u8).collect();
    let ids = chunk_ids(&data);
    assert_eq!(ids.len(), 3);
    assert_eq!(ids[0], chunk_digest(&data[0..CHUNK_SIZE]));
    assert_eq!(ids[1], chunk_digest(&data[CHUNK_SIZE..2 * CHUNK_SIZE]));
    assert_eq!(ids[2], chunk_digest(&data[2 * CHUNK_SIZE..]));
    assert!(chunk_ids(&[]).is_empty());
    assert_eq!(chunk_ids(&vec![0u8; 2048]).len(), 2);
}

#[test]
fn metadata_of_a_file() {
    let data = vec![0u8; 2048];
    let m = file_metadata("dir/a.txt".to_string(), &data, 0o600, 5, 6).unwrap();
    assert_eq!(m.file_name, "a.txt");
    assert_eq!(m.file_id.hash, file_digest(&data));
    assert_eq!(m.chunks, vec![chunk_digest(&data[..1024]), chunk_digest(&data[..1024])]);
    assert!(file_metadata("dir/".to_string(), &data, 0, 0, 0).is_err());
}

#[test]
fn downloads_request_every_position() {
    let m = FileMetadata {
        file_id: FileId { path: "a".to_string(), hash: [0u8; 32] },
        file_name: "a".to_string(),
        permissions: 0,
        modified: 0,
        created: 0,
        chunks: vec![ChunkId(vec![1u8; 32]), ChunkId(vec![1u8; 32]), ChunkId(vec![2u8; 32])],
    };
    let r = download_requests(&m);
    assert_eq!(r.len(), 3);
    assert_eq!(r.iter().map(|q| q.offset).collect::<Vec<_>>(), vec![0, 1024, 2048]);
    assert_eq!(r[2].id, ChunkId(vec![2u8; 32]));
}

#[test]
fn changed_chunks_are_not_sent() {
    let data = vec![0u8; 1024];
    let q = QualifiedChunkId {
        path: FileId { path: "a".to_string(), hash: [0u8; 32] },
        offset: 0,
        id: chunk_digest(&data),
    };
    let c = reply_to_chunk_request(&q, data.clone()).unwrap();
    assert_eq!(c.data, data);
    assert!(reply_to_chunk_request(&q, vec![1u8; 1024]).is_none());
}

#[test]
fn sync_plan_pushes_and_pulls_differences() {
    let f = |p: &str| FileId { path: p.to_string(), hash: [0u8; 32] };
    let local = FileList(vec![f("a"), f("b")]);
    let remote = FileList(vec![f("b"), f("c")]);
    let (push, pull) = sync_plan(&local, &remote);
    assert_eq!(push, vec![f("a")]);
    assert_eq!(pull, vec![f("c")]);
}

#[test]
fn blacklist_suppresses_echo_until_hash_matches() {
    let mut bl = Blacklist::new();
    let m = FileMetadata {
        file_id: FileId { path: "a.txt".to_string(), hash: [4u8; 32] },
        file_name: "a.txt".to_string(),
        permissions: 0,
        modified: 0,
        created: 0,
        chunks: vec![],
    };
    let p = "a.txt".to_string();
    assert_eq!(bl.fs_action(FsEventKind::Write, &p), FsAction::SendFile);
    bl.start_download(&m);
    assert_eq!(bl.fs_action(FsEventKind::Create, &p), FsAction::Ignore);
    assert_eq!(bl.fs_action(FsEventKind::Remove, &"b".to_string()), FsAction::DeleteFile);
    assert!(!bl.finish_if_complete(&p, &[5u8; 32]));
    assert!(bl.contains(&p));
    assert!(bl.finish_if_complete(&p, &[4u8; 32]));
    assert!(!bl.contains(&p));
    assert_eq!(bl.fs_action(FsEventKind::Chmod, &p), FsAction::SendFile);
}

#[test]
fn file_list_names_each_file_with_its_digest() {
    let list = phoenix::sync::generate_file_list(vec![
        ("a".to_string(), vec![1u8, 2, 3]),
        ("d/b".to_string(), vec![]),
    ]);
    assert_eq!(list.0.len(), 2);
    assert_eq!(list.0[0].path, "a");
    assert_eq!(list.0[0].hash, file_digest(&[1u8, 2, 3]));
    assert_eq!(list.0[1].path, "d/b");
    assert_eq!(list.0[1].hash, file_digest(&[]));
}
