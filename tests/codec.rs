use phoenix::arguments::{
    Chunk, ChunkId, FileId, FileList, FileMetadata, FilePath, QualifiedChunk, QualifiedChunkId,
    ResponseCode, Version,
};
use phoenix::error::MessageError;
use phoenix::messaging::{Directive, Message, MessageBuilder, Payload, RawMessage};
use sha2::{Digest, Sha256};

fn hello_world_sha() -> [u8; 32] {
    let mut h = Sha256::new();
    h.update(b"Hello world");
    let mut b = [0u8; 32];
    b.copy_from_slice(&h.finalize());
    b
}

fn fileid_case() {
    let mut a = vec![112, 97, 116, 104, 47, 116, 111, 47, 102, 105, 108, 101];
    let b = hello_world_sha();
    a.extend_from_slice(&b);
    assert_eq!(
        FileId {
            path: "path/to/file".to_string(),
            hash: b
        }
        .to_bin(),
        a
    );
    assert_eq!(
        FileId::from_bin(&a).unwrap(),
        FileId {
            path: "path/to/file".to_string(),
            hash: b
        }
    );
}

fn chunkid_case() {
    assert_eq!(
        ChunkId(b"Hello world".to_vec()).to_bin(),
        vec![72, 101, 108, 108, 111, 32, 119, 111, 114, 108, 100]
    );
    assert_eq!(
        ChunkId::from_bin(&[72, 101, 108, 108, 111, 32, 119, 111, 114, 108, 100]).unwrap(),
        ChunkId(b"Hello world".to_vec())
    );
}

#[test]
fn arguments_test_argument_version() {
    assert_eq!(Version(1).to_bin(), vec![1u8]);
    assert_eq!(Version::from_bin(&[1u8]).unwrap(), Version(1));
}

#[test]
fn tests_test_argument_version() {
    assert_eq!(Version(1).to_bin(), vec![1u8]);
    assert_eq!(Version::from_bin(&[1u8]).unwrap(), Version(1));
}

#[test]
fn arguments_test_argument_fileid() {
    fileid_case();
}

#[test]
fn tests_test_argument_fileid() {
    fileid_case();
}

#[test]
fn arguments_test_argument_chunkid() {
    chunkid_case();
}

#[test]
fn tests_test_argument_chunkid() {
    chunkid_case();
}

fn dir_file_qcid() -> QualifiedChunkId {
    QualifiedChunkId {
        path: FileId {
            path: "dir/file".to_string(),
            hash: [0u8; 32],
        },
        offset: 0x02020202,
        id: ChunkId([1u8; 32].to_vec()),
    }
}

#[test]
fn test_qualfied_chunk() {
    let chunk = QualifiedChunk {
        id: dir_file_qcid(),
        data: vec![9, 8, 7, 6, 5, 4, 3, 2, 1, 0],
    };
    assert_eq!(chunk, QualifiedChunk::from_bin(&chunk.to_bin()).unwrap())
}

#[test]
fn test_qualified_chunkid() {
    let chunk_id = dir_file_qcid();
    let mut expected = vec![0u8, 0, 0, 40, 100, 105, 114, 47, 102, 105, 108, 101];
    expected.extend_from_slice(&[0u8; 32]);
    expected.extend_from_slice(&[2u8, 2, 2, 2]);
    expected.extend_from_slice(&[1u8; 32]);
    assert_eq!(chunk_id.to_bin(), expected);
    assert_eq!(QualifiedChunkId::from_bin(&expected).unwrap(), chunk_id);
}

#[test]
fn mod_test_msg_ser() {
    let mut msg: RawMessage = RawMessage {
        id: 0,
        verb: Directive::SendFile,
        data: Some(vec![1, 2, 3]),
    };
    assert_eq!(msg.to_bin(), vec!(0, 0, 0, 5, 1, 2, 3),);
    msg = RawMessage {
        id: 1,
        verb: Directive::ListFiles,
        data: None,
    };
    assert_eq!(msg.to_bin(), vec!(0, 1, 0, 1));
}

#[test]
fn mod_test_msg_de() {
    let mut msg_raw: &[u8] = &[0u8, 0u8, 0u8, 0u8, 1u8][..];
    let mut msg = RawMessage {
        id: 0,
        verb: Directive::AnnounceVersion,
        data: Some(vec![1]),
    };
    assert_eq!(RawMessage::from_bin(msg_raw).unwrap(), msg,);
    msg_raw = &[1u8, 0u8, 0u8, 0u8, 1u8];
    msg.id += 256;
    assert_eq!(RawMessage::from_bin(msg_raw).unwrap(), msg,);
}

fn sample_metadata() -> FileMetadata {
    FileMetadata {
        file_id: FileId {
            path: "docs/a.txt".to_string(),
            hash: [7u8; 32],
        },
        file_name: "a.txt".to_string(),
        permissions: 0o644,
        modified: 1_700_000_000_123,
        created: 1_600_000_000_456,
        chunks: vec![ChunkId(vec![1u8; 32]), ChunkId(vec![2u8; 32]), ChunkId(vec![1u8; 32])],
    }
}

#[test]
fn metadata_layout_is_exact() {
    let m = sample_metadata();
    let b = m.to_bin();
    assert_eq!(&b[0..8], &[0u8, 0, 0, 0, 0, 0, 0, 10]);
    assert_eq!(&b[8..18], b"docs/a.txt");
    assert_eq!(&b[18..22], &0o644u32.to_be_bytes());
    assert_eq!(&b[22..38], &1_700_000_000_123u128.to_be_bytes());
    assert_eq!(&b[38..54], &1_600_000_000_456u128.to_be_bytes());
    assert_eq!(&b[54..86], &[7u8; 32]);
    assert_eq!(b.len(), 86 + 3 * 32);
    let back = FileMetadata::from_bin(&b).unwrap();
    assert_eq!(back, m);
    assert_eq!(back.modified, m.modified);
    assert_eq!(back.created, m.created);
    assert_eq!(back.file_name, "a.txt");
}

#[test]
fn metadata_decoder_rejects_bad_frames() {
    let b = sample_metadata().to_bin();
    assert!(matches!(FileMetadata::from_bin(&b[..b.len() - 1]), Err(e) if matches!(e.0, MessageError::InvalidBin)));
    assert!(matches!(FileMetadata::from_bin(&b[..7]), Err(e) if matches!(e.0, MessageError::InvalidBin)));
    let mut bad = b.clone();
    bad[8] = 0xff;
    assert!(matches!(FileMetadata::from_bin(&bad), Err(e) if matches!(e.0, MessageError::UtfError)));
    let mut dir = FileMetadata { file_id: FileId { path: "dir/".to_string(), hash: [0u8; 32] }, ..sample_metadata() };
    dir.chunks.clear();
    assert!(matches!(FileMetadata::from_bin(&dir.to_bin()), Err(e) if matches!(e.0, MessageError::EmptyPath)));
}

#[test]
fn file_list_round_trip_and_layout() {
    let list = FileList(vec![
        FileId { path: "a".to_string(), hash: [1u8; 32] },
        FileId { path: "bb/c".to_string(), hash: [2u8; 32] },
    ]);
    let b = list.to_bin();
    assert_eq!(&b[0..2], &[0u8, 33]);
    assert_eq!(b[2], b'a');
    assert_eq!(&b[35..37], &[0u8, 36]);
    assert_eq!(b.len(), 2 + 33 + 2 + 36);
    assert_eq!(FileList::from_bin(&b).unwrap(), list);
    assert!(FileList::from_bin(&b[..b.len() - 1]).is_err());
    assert_eq!(FileList::from_bin(&[]).unwrap(), FileList(vec![]));
}

#[test]
fn short_arguments_are_rejected() {
    assert!(matches!(FileId::from_bin(&[1u8; 31]), Err(e) if matches!(e.0, MessageError::InvalidBin)));
    assert!(matches!(Chunk::from_bin(&[1u8; 31]), Err(e) if matches!(e.0, MessageError::InvalidBin)));
    assert!(matches!(Version::from_bin(&[]), Err(e) if matches!(e.0, MessageError::InvalidBin)));
    assert!(matches!(Version::from_bin(&[1, 2]), Err(e) if matches!(e.0, MessageError::InvalidBin)));
    assert!(matches!(ResponseCode::from_bin(&[1]), Err(e) if matches!(e.0, MessageError::InvalidBin)));
    assert!(matches!(QualifiedChunkId::from_bin(&[0, 0, 0]), Err(e) if matches!(e.0, MessageError::InvalidBin)));
    assert!(matches!(QualifiedChunk::from_bin(&[0, 0, 0, 0, 0, 0, 0, 9]), Err(e) if matches!(e.0, MessageError::InvalidBin)));
}

#[test]
fn raw_frames_with_unknown_verb_or_short_header_fail() {
    assert!(matches!(RawMessage::from_bin(&[0, 0, 0, 10]), Err(e) if matches!(e.0, MessageError::UnknownVerb)));
    assert!(matches!(RawMessage::from_bin(&[0, 0, 0]), Err(e) if matches!(e.0, MessageError::InvalidBin)));
    assert_eq!(
        RawMessage::from_bin(&[0, 7, 0, 9]).unwrap(),
        RawMessage { id: 7, verb: Directive::SendQualifiedChunk, data: None }
    );
}

fn round_trip(m: Message) {
    let mut b = MessageBuilder::new(1);
    for _ in 0..m.id {
        b.increment_counter();
    }
    let bytes = b.encode_message(m.verb, m.argument.clone());
    let back = *MessageBuilder::decode_message(&bytes).unwrap();
    assert_eq!(back, m);
}

#[test]
fn every_message_kind_round_trips() {
    round_trip(Message { id: 0, verb: Directive::AnnounceVersion, argument: Some(Payload::Version(Version(3))) });
    round_trip(Message { id: 1, verb: Directive::ListFiles, argument: None });
    round_trip(Message {
        id: 2,
        verb: Directive::SendFiles,
        argument: Some(Payload::FileList(FileList(vec![FileId { path: "x".to_string(), hash: [3u8; 32] }]))),
    });
    round_trip(Message {
        id: 3,
        verb: Directive::RequestFile,
        argument: Some(Payload::FileId(FileId { path: "x/y".to_string(), hash: [4u8; 32] })),
    });
    round_trip(Message { id: 4, verb: Directive::RequestChunk, argument: Some(Payload::QualifiedChunkId(dir_file_qcid())) });
    round_trip(Message { id: 5, verb: Directive::SendFile, argument: Some(Payload::FileMetadata(sample_metadata())) });
    round_trip(Message {
        id: 6,
        verb: Directive::SendChunk,
        argument: Some(Payload::Chunk(Chunk { id: ChunkId(vec![5u8; 32]), data: vec![1, 2, 3] })),
    });
    round_trip(Message { id: 7, verb: Directive::DeleteFile, argument: Some(Payload::FilePath(FilePath("gone.txt".to_string()))) });
    round_trip(Message { id: 8, verb: Directive::Response, argument: Some(Payload::ResponseCode(ResponseCode(513))) });
    round_trip(Message {
        id: 9,
        verb: Directive::SendQualifiedChunk,
        argument: Some(Payload::QualifiedChunk(QualifiedChunk { id: dir_file_qcid(), data: vec![0u8; 5] })),
    });
}

#[test]
fn empty_file_list_round_trips() {
    round_trip(Message { id: 3, verb: Directive::SendFiles, argument: Some(Payload::FileList(FileList(vec![]))) });
    let back = *MessageBuilder::decode_message(&[0, 0, 0, 2]).unwrap();
    assert_eq!(back.argument, Some(Payload::FileList(FileList(vec![]))));
}

#[test]
fn builder_numbers_frames_and_wraps() {
    let mut b = MessageBuilder::new(1);
    let first = b.encode_message::<Payload>(Directive::ListFiles, None);
    let second = b.encode_message::<Payload>(Directive::ListFiles, None);
    assert_eq!(first, vec![0, 0, 0, 1]);
    assert_eq!(second, vec![0, 1, 0, 1]);
    for _ in 0..65533 {
        b.increment_counter();
    }
    assert_eq!(b.encode_message::<Payload>(Directive::ListFiles, None), vec![255, 255, 0, 1]);
    assert_eq!(b.encode_message::<Payload>(Directive::ListFiles, None), vec![0, 0, 0, 1]);
}

#[test]
fn frame_length_limit() {
    assert!(phoenix::error::check_frame_len(65535).is_ok());
    assert!(matches!(phoenix::error::check_frame_len(65536), Err(phoenix::error::NetError::MsgLength(65536))));
}
