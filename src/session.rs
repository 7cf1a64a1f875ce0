//! What a server session does with each frame a client sends.
use vstd::prelude::*;
use vstd::utf8::encode_utf8;
use crate::arguments::{
    digest_at, file_id_encoding, file_id_views, file_id_wf, file_list_wf, qcid_wf, ChunkId, FileIdV, FileMetadata, FileMetadataV,
    QualifiedChunk, QualifiedChunkId,
};
use crate::db::{add_chunk_spec, add_file_spec, rm_file_spec, stores_file_id, Db, DbV};
use crate::digest::digest_of;
use crate::messaging::{Directive, Message, MessageV, Payload, PayloadV};
use crate::sync::chunk_offset;

verus! {

/// The frames a session sends after handling one client frame: replies to that client and
/// broadcasts to every session. Their ids are assigned when they are encoded.
pub struct Outbox {
    pub replies: Vec<Message>,
    pub broadcasts: Vec<Message>,
}

pub open spec fn messages_view(ms: Seq<Message>) -> Seq<MessageV> {
    ms.map_values(|m: Message| m@)
}

/// A frame announcing a file's metadata.
pub open spec fn send_file_msg(m: FileMetadataV) -> MessageV {
    MessageV { id: 0, verb: Directive::SendFile, argument: Some(PayloadV::FileMetadata(m)) }
}

/// `i` is the position of the first occurrence of `c` in `s`.
pub open spec fn first_position(s: Seq<Seq<u8>>, c: Seq<u8>, i: int) -> bool {
    0 <= i < s.len() && s[i] == c && forall|j: int| 0 <= j < i ==> s[j] != c
}

/// `r` asks for chunk `c` of the file `m`, at the offset of its first occurrence.
pub open spec fn is_chunk_request(r: MessageV, m: FileMetadataV, c: Seq<u8>) -> bool {
    &&& r.id == 0
    &&& r.verb == Directive::RequestChunk
    &&& r.argument matches Some(PayloadV::QualifiedChunkId(q)) && q.path == m.file_id && q.id == c
        && exists|i: int| first_position(m.chunks, c, i) && q.offset == chunk_offset(i)
}

/// The announcements of the completed files among `ids` that `s` stores, in order.
pub open spec fn announce_completed(s: DbV, ids: Seq<FileIdV>) -> Seq<MessageV>
    decreases ids.len(),
{
    if ids.len() == 0 {
        seq![]
    } else {
        let rest = announce_completed(s, ids.drop_last());
        let k = encode_utf8(ids.last().path);
        if s.files.contains_key(k) {
            rest.push(send_file_msg(s.files[k]))
        } else {
            rest
        }
    }
}

/// The request for chunk `c` of `meta`, at the offset of the chunk's first occurrence.
fn request_for(meta: &FileMetadata, c: &ChunkId) -> (r: Message)
    ensures
        meta@.chunks.contains(c@) ==> is_chunk_request(r@, meta@, c@),
{
    let mut i: usize = 0;
    let mut found = false;
    while i < meta.chunks.len() && !found
        invariant
            i <= meta.chunks@.len(),
            found ==> i < meta.chunks@.len() && meta@.chunks[i as int] == c@,
            forall|j: int| 0 <= j < i ==> meta@.chunks[j] != c@,
        decreases meta.chunks@.len() - i + if found {
            0int
        } else {
            1int
        },
    {
        if meta.chunks[i].same(c) {
            found = true;
        } else {
            i = i + 1;
        }
    }
    let q: usize = i % 0x40_0000;
    assert(q < 0x40_0000);
    let offset: u32 = (q as u32) * 1024u32;
    let r = Message {
        id: 0,
        verb: Directive::RequestChunk,
        argument: Some(
            Payload::QualifiedChunkId(
                QualifiedChunkId { path: meta.file_id.duplicate(), offset, id: c.duplicate() },
            ),
        ),
    };
    proof {
        if meta@.chunks.contains(c@) {
            if i == meta.chunks@.len() {
                let k = choose|k: int| 0 <= k < meta@.chunks.len() && meta@.chunks[k] == c@;
                assert(false);
            }
            assert(first_position(meta@.chunks, c@, i as int));
            assert(offset == chunk_offset(i as int));
            assert(r@.argument matches Some(PayloadV::QualifiedChunkId(qv)) && qv.offset == chunk_offset(i as int) && qv.id == c@ && qv.path == meta@.file_id);
        }
    }
    r
}

/// Handles one frame from a client against the engine.
pub fn handle_client_msg(db: &mut Db, msg: &Message) -> (r: Outbox)
    requires
        old(db).wf(),
    ensures
        final(db).wf(),
        match msg@.argument {
            Some(PayloadV::FileMetadata(m)) if msg@.verb == Directive::SendFile => {
                &&& final(db)@ == add_file_spec(old(db)@, m).0
                &&& match add_file_spec(old(db)@, m).1 {
                    Ok(miss) => if miss.len() == 0 {
                        r.replies@.len() == 0 && messages_view(r.broadcasts@) == seq![
                            send_file_msg(m),
                        ]
                    } else {
                        &&& r.broadcasts@.len() == 0
                        &&& r.replies@.len() == miss.len()
                        &&& forall|i: int|
                            0 <= i < miss.len() ==> is_chunk_request(
                                #[trigger] r.replies@[i]@,
                                m,
                                miss[i],
                            )
                    },
                    Err(_) => r.replies@.len() == 0 && r.broadcasts@.len() == 0,
                }
            },
            Some(PayloadV::Chunk(c)) if msg@.verb == Directive::SendChunk => {
                let (s1, done) = add_chunk_spec(old(db)@, c, digest_of(c.data));
                &&& final(db)@ == s1
                &&& r.replies@.len() == 0
                &&& messages_view(r.broadcasts@) == announce_completed(s1, done)
            },
            Some(PayloadV::FilePath(p)) if msg@.verb == Directive::DeleteFile => {
                &&& final(db)@ == rm_file_spec(old(db)@, encode_utf8(p)).0
                &&& r.replies@.len() == 0
                &&& r.broadcasts@.len() == 0
            },
            Some(PayloadV::FileId(f)) if msg@.verb == Directive::RequestFile => {
                let k = encode_utf8(f.path);
                &&& final(db)@ == old(db)@
                &&& r.broadcasts@.len() == 0
                &&& if old(db)@.files.contains_key(k) {
                    messages_view(r.replies@) == seq![send_file_msg(old(db)@.files[k])]
                } else {
                    r.replies@.len() == 0
                }
            },
            Some(PayloadV::QualifiedChunkId(q)) if msg@.verb == Directive::RequestChunk => {
                &&& final(db)@ == old(db)@
                &&& r.broadcasts@.len() == 0
                &&& if qcid_wf(q) && old(db)@.chunks.contains_key(q.id) {
                    messages_view(r.replies@) == seq![
                        MessageV {
                            id: 0,
                            verb: Directive::SendQualifiedChunk,
                            argument: Some(
                                PayloadV::QualifiedChunk(
                                    crate::arguments::QualifiedChunkV {
                                        id: q,
                                        data: old(db)@.chunks[q.id],
                                    },
                                ),
                            ),
                        },
                    ]
                } else {
                    r.replies@.len() == 0
                }
            },
            _ => {
                &&& final(db)@ == old(db)@
                &&& r.broadcasts@.len() == 0
                &&& (msg@.verb != Directive::ListFiles ==> r.replies@.len() == 0)
                &&& (msg@.verb == Directive::ListFiles ==> (r.replies@.len() == 1 <==> stored_list_fits(
                    old(db)@,
                )) && r.replies@.len() <= 1 && forall|i: int|
                    0 <= i < r.replies@.len() ==> lists_stored_files(
                        old(db)@,
                        #[trigger] r.replies@[i]@,
                    ))
            },
        },
{
    let mut replies: Vec<Message> = Vec::new();
    let mut broadcasts: Vec<Message> = Vec::new();
    match (&msg.verb, &msg.argument) {
        (Directive::SendFile, Some(Payload::FileMetadata(m))) => {
            match db.add_file(m) {
                Ok(miss) => {
                    if miss.len() == 0 {
                        broadcasts.push(
                            Message {
                                id: 0,
                                verb: Directive::SendFile,
                                argument: Some(Payload::FileMetadata(m.duplicate())),
                            },
                        );
                        assert(messages_view(broadcasts@) =~= seq![send_file_msg(m@)]);
                    } else {
                        let ghost mv = crate::db::ids_view(miss@);
                        proof {
                            crate::db::lemma_add_file_missing_listed(old(db)@, m@);
                        }
                        let mut i: usize = 0;
                        while i < miss.len()
                            invariant
                                i <= miss@.len(),
                                mv == crate::db::ids_view(miss@),
                                replies@.len() == i,
                                forall|j: int| 0 <= j < mv.len() ==> m@.chunks.contains(#[trigger] mv[j]),
                                forall|j: int|
                                    0 <= j < i ==> is_chunk_request(
                                        #[trigger] replies@[j]@,
                                        m@,
                                        mv[j],
                                    ),
                            decreases miss@.len() - i,
                        {
                            replies.push(request_for(m, &miss[i]));
                            i = i + 1;
                        }
                    }
                },
                Err(_) => {},
            }
        },
        (Directive::SendChunk, Some(Payload::Chunk(c))) => {
            let done = db.add_chunk(c);
            let ghost dv = file_id_views(done@);
            let mut i: usize = 0;
            assert(messages_view(broadcasts@) =~= Seq::<MessageV>::empty());
            while i < done.len()
                invariant
                    db.wf(),
                    i <= done@.len(),
                    dv == file_id_views(done@),
                    messages_view(broadcasts@) == announce_completed(db@, dv.take(i as int)),
                decreases done@.len() - i,
            {
                assert(dv.take(i + 1).drop_last() =~= dv.take(i as int));
                let ghost before = messages_view(broadcasts@);
                match db.get_file(done[i].path.as_str()) {
                    Some(meta) => {
                        broadcasts.push(
                            Message {
                                id: 0,
                                verb: Directive::SendFile,
                                argument: Some(Payload::FileMetadata(meta)),
                            },
                        );
                        assert(messages_view(broadcasts@) =~= before.push(
                            send_file_msg(db@.files[encode_utf8(dv[i as int].path)]),
                        ));
                    },
                    None => {},
                }
                i = i + 1;
            }
            assert(dv.take(i as int) =~= dv);
        },
        (Directive::DeleteFile, Some(Payload::FilePath(p))) => {
            let _ = db.rm_file(p);
        },
        (Directive::RequestFile, Some(Payload::FileId(f))) => {
            match db.get_file(f.path.as_str()) {
                Some(meta) => {
                    replies.push(
                        Message {
                            id: 0,
                            verb: Directive::SendFile,
                            argument: Some(Payload::FileMetadata(meta)),
                        },
                    );
                    assert(messages_view(replies@) =~= seq![
                        send_file_msg(db@.files[encode_utf8(f@.path)]),
                    ]);
                },
                None => {},
            }
        },
        (Directive::RequestChunk, Some(Payload::QualifiedChunkId(q))) => {
            if q.fits() {
                let key = digest_at(q.id.0.as_slice(), 0);
                assert(key@ =~= q@.id);
                match db.get_chunk(key) {
                    Some(chunk) => {
                        replies.push(
                            Message {
                                id: 0,
                                verb: Directive::SendQualifiedChunk,
                                argument: Some(
                                    Payload::QualifiedChunk(
                                        QualifiedChunk { id: q.clone_id(), data: chunk.data },
                                    ),
                                ),
                            },
                        );
                        assert(messages_view(replies@) =~= seq![replies@[0]@]);
                    },
                    None => {},
                }
            }
        },
        (Directive::ListFiles, _) => {
            let list = db.get_files();
            let ghost lv = list@;
            if list.fits() {
                replies.push(Message { id: 0, verb: Directive::SendFiles, argument: Some(Payload::FileList(list)) });
                assert(lists_stored_files(db@, replies@[0]@));
                assert forall|k: Seq<u8>| #[trigger] db@.files.contains_key(k) implies file_id_wf(db@.files[k].file_id)
                    && file_id_encoding(db@.files[k].file_id).len() <= u16::MAX by {
                    let i = choose|i: int| 0 <= i < lv.len() && lv[i] == db@.files[k].file_id;
                    assert(file_id_wf(lv[i]));
                }
            } else {
                proof {
                    assert(!file_list_wf(lv));
                    let i = choose|i: int| 0 <= i < lv.len() && !(file_id_wf(lv[i]) && file_id_encoding(lv[i]).len() <= u16::MAX);
                    assert(stores_file_id(db@, lv[i]));
                    let k = choose|k: Seq<u8>| db@.files.contains_key(k) && #[trigger] db@.files[k].file_id == lv[i];
                    assert(!stored_list_fits(db@));
                }
            }
        },
        _ => {},
    }
    Outbox { replies, broadcasts }
}

/// Every stored file's id fits a file list entry.
pub open spec fn stored_list_fits(s: DbV) -> bool {
    forall|k: Seq<u8>|
        #[trigger] s.files.contains_key(k) ==> file_id_wf(s.files[k].file_id) && file_id_encoding(
            s.files[k].file_id,
        ).len() <= u16::MAX
}

/// `r` is a `SendFiles` frame listing each stored file's id once, and only those.
pub open spec fn lists_stored_files(s: DbV, r: MessageV) -> bool {
    &&& r.id == 0
    &&& r.verb == Directive::SendFiles
    &&& r.argument matches Some(PayloadV::FileList(l)) && file_list_wf(l) && l.len()
        == s.files.dom().len() && (forall|i: int| 0 <= i < l.len() ==> stores_file_id(s, #[trigger] l[i]))
        && (forall|k: Seq<u8>|
        #[trigger] s.files.contains_key(k) ==> exists|i: int| 0 <= i < l.len() && l[i] == s.files[k].file_id)
}

impl QualifiedChunkId {
    /// A copy of this request.
    pub fn clone_id(&self) -> (r: QualifiedChunkId)
        ensures
            r@ == self@,
    {
        QualifiedChunkId { path: self.path.duplicate(), offset: self.offset, id: self.id.duplicate() }
    }
}

} // verus!
