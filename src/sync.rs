//! Client-side synchronisation logic: chunking file contents, building metadata and the
//! download bookkeeping (the blacklist) that keeps our own writes from echoing to the server.
use vstd::prelude::*;
use vstd::utf8::encode_utf8;
use crate::arguments::{
    display_name, file_id_views, name_of_path, utf8_bytes, ChunkId, Chunk,
    FileId, FileIdV, FileList, FileMetadata, QualifiedChunkId, Error,
};
use crate::db::ids_view;
use crate::digest::{chunk_digest, digest_of, file_digest};
use crate::table::Table;

verus! {

/// Size in bytes of every chunk but possibly a file's last.
pub const CHUNK_SIZE: usize = 1024;

/// The bytes of chunk `i` of `data`.
pub open spec fn chunk_bytes(data: Seq<u8>, i: int) -> Seq<u8> {
    let end = if (i + 1) * CHUNK_SIZE < data.len() {
        (i + 1) * CHUNK_SIZE
    } else {
        data.len() as int
    };
    data.subrange(i * CHUNK_SIZE, end)
}

/// How many chunks `len` bytes make.
pub open spec fn chunk_count(len: nat) -> nat {
    (len + CHUNK_SIZE - 1) as nat / CHUNK_SIZE as nat
}

/// The ids of the consecutive `CHUNK_SIZE` blocks of `data`, the last possibly shorter.
pub fn chunk_ids(data: &[u8]) -> (r: Vec<ChunkId>)
    ensures
        r@.len() == chunk_count(data@.len()),
        forall|i: int| 0 <= i < r@.len() ==> (#[trigger] r@[i])@ == digest_of(chunk_bytes(data@, i)),
{
    let len = data.len();
    let n = len / CHUNK_SIZE + if len % CHUNK_SIZE != 0 {
        1
    } else {
        0
    };
    assert(n == chunk_count(len as nat));
    let mut r: Vec<ChunkId> = Vec::new();
    let mut k: usize = 0;
    while k < n
        invariant
            len == data@.len(),
            n == chunk_count(len as nat),
            k <= n,
            r@.len() == k,
            forall|i: int| 0 <= i < r@.len() ==> (#[trigger] r@[i])@ == digest_of(chunk_bytes(data@, i)),
        decreases n - k,
    {
        assert(k * CHUNK_SIZE < len);
        let start = k * CHUNK_SIZE;
        let end = if len - start > CHUNK_SIZE {
            start + CHUNK_SIZE
        } else {
            len
        };
        let id = chunk_digest(&data[start..end]);
        assert(data@.subrange(start as int, end as int) =~= chunk_bytes(data@, k as int));
        r.push(id);
        k = k + 1;
    }
    r
}

/// A file id for a file at `path` holding `data`.
pub fn file_id_of(path: String, data: &[u8]) -> (r: FileId)
    ensures
        r@.path == path@,
        r@.hash == digest_of(data@),
{
    FileId { path, hash: file_digest(data) }
}

/// The file list of a directory, given each file's path relative to the root and its bytes.
pub fn generate_file_list(files: Vec<(String, Vec<u8>)>) -> (r: FileList)
    ensures
        r@.len() == files@.len(),
        forall|i: int|
            0 <= i < files@.len() ==> (#[trigger] r@[i]).path == files@[i].0@ && r@[i].hash
                == digest_of(files@[i].1@),
{
    let mut out: Vec<FileId> = Vec::new();
    let mut i: usize = 0;
    while i < files.len()
        invariant
            i <= files@.len(),
            out@.len() == i,
            forall|j: int|
                0 <= j < i ==> (#[trigger] out@[j])@.path == files@[j].0@ && out@[j]@.hash
                    == digest_of(files@[j].1@),
        decreases files@.len() - i,
    {
        let (path, data) = &files[i];
        out.push(file_id_of(path.clone(), data.as_slice()));
        i = i + 1;
    }
    FileList(out)
}

/// The ids of the chunks of `data`.
pub open spec fn chunk_id_seq(data: Seq<u8>) -> Seq<Seq<u8>> {
    Seq::new(chunk_count(data.len()), |i: int| digest_of(chunk_bytes(data, i)))
}

/// The metadata of a file at `path` holding `data`: its digest, its display name and the ids
/// of its chunks. Fails when the path has no final component.
pub fn file_metadata(path: String, data: &[u8], permissions: u32, modified: u128, created: u128) -> (r:
    Result<FileMetadata, Error>)
    ensures
        match (r, display_name(encode_utf8(path@))) {
            (Ok(m), Ok(name)) => {
                &&& m@.file_id.path == path@
                &&& m@.file_id.hash == digest_of(data@)
                &&& m@.file_name == name
                &&& m@.permissions == permissions
                &&& m@.modified == modified
                &&& m@.created == created
                &&& m@.chunks == chunk_id_seq(data@)
            },
            (Err(e), Err(k)) => e.0 == k,
            _ => false,
        },
{
    let pb = utf8_bytes(&path);
    let file_name = match name_of_path(pb.as_slice()) {
        Ok(n) => n,
        Err(e) => return Err(e),
    };
    let chunks = chunk_ids(data);
    assert(ids_view(chunks@) =~= chunk_id_seq(data@));
    Ok(FileMetadata { file_id: file_id_of(path, data), file_name, permissions, modified, created, chunks })
}

/// The byte offset of chunk `i`, `i * CHUNK_SIZE` reduced to the protocol's 32-bit field.
pub open spec fn chunk_offset(i: int) -> u32 {
    ((i % 0x40_0000) * CHUNK_SIZE) as u32
}

/// One request for each chunk position of a file being downloaded, in file order.
pub fn download_requests(meta: &FileMetadata) -> (r: Vec<QualifiedChunkId>)
    ensures
        r@.len() == meta@.chunks.len(),
        forall|i: int|
            0 <= i < r@.len() ==> (#[trigger] r@[i])@.path == meta@.file_id && r@[i]@.offset
                == chunk_offset(i) && r@[i]@.id == meta@.chunks[i],
{
    let mut r: Vec<QualifiedChunkId> = Vec::new();
    let mut i: usize = 0;
    while i < meta.chunks.len()
        invariant
            i <= meta.chunks@.len(),
            r@.len() == i,
            forall|j: int|
                0 <= j < i ==> (#[trigger] r@[j])@.path == meta@.file_id && r@[j]@.offset
                    == chunk_offset(j) && r@[j]@.id == meta@.chunks[j],
        decreases meta.chunks@.len() - i,
    {
        let q: usize = i % 0x40_0000;
        assert(q < 0x40_0000);
        let offset: u32 = (q as u32) * 1024u32;
        r.push(
            QualifiedChunkId {
                path: meta.file_id.duplicate(),
                offset,
                id: meta.chunks[i].duplicate(),
            },
        );
        i = i + 1;
    }
    r
}

/// The reply to a chunk request, given the bytes now at the requested position and their
/// digest: the chunk when the digest is still the requested id, otherwise nothing (the file
/// changed since it was announced).
pub fn chunk_reply(request: &QualifiedChunkId, data: Vec<u8>, digest: &ChunkId) -> (r: Option<Chunk>)
    ensures
        r is Some <==> digest@ == request@.id,
        r matches Some(c) ==> c@.id == request@.id && c@.data == data@,
{
    if digest.same(&request.id) {
        Some(Chunk { id: request.id.duplicate(), data })
    } else {
        None
    }
}

/// `chunk_reply` with the digest computed here.
pub fn reply_to_chunk_request(request: &QualifiedChunkId, data: Vec<u8>) -> (r: Option<Chunk>)
    ensures
        r is Some <==> digest_of(data@) == request@.id,
        r matches Some(c) ==> c@.id == request@.id && c@.data == data@,
{
    let d = chunk_digest(data.as_slice());
    chunk_reply(request, data, &d)
}

/// Whether `f` is among `fs`.
pub open spec fn listed(fs: Seq<FileIdV>, f: FileIdV) -> bool {
    exists|i: int| 0 <= i < fs.len() && fs[i] == f
}

fn position_of(fs: &Vec<FileId>, f: &FileId) -> (r: bool)
    ensures
        r == listed(file_id_views(fs@), f@),
{
    let mut i: usize = 0;
    while i < fs.len()
        invariant
            i <= fs@.len(),
            forall|j: int| 0 <= j < i ==> fs@[j]@ != f@,
        decreases fs@.len() - i,
    {
        if fs[i].same(f) {
            assert(file_id_views(fs@)[i as int] == f@);
            return true;
        }
        i = i + 1;
    }
    proof {
        if listed(file_id_views(fs@), f@) {
            let j = choose|j: int| 0 <= j < fs@.len() && file_id_views(fs@)[j] == f@;
            assert(fs@[j]@ == f@);
        }
    }
    false
}

/// The files of `a` that `b` lacks, in `a`'s order.
pub open spec fn files_missing_from(a: Seq<FileIdV>, b: Seq<FileIdV>) -> Seq<FileIdV> {
    a.filter(|f: FileIdV| !listed(b, f))
}

fn difference(a: &Vec<FileId>, b: &Vec<FileId>) -> (r: Vec<FileId>)
    ensures
        file_id_views(r@) == files_missing_from(file_id_views(a@), file_id_views(b@)),
{
    let ghost av = file_id_views(a@);
    let ghost bv = file_id_views(b@);
    let mut r: Vec<FileId> = Vec::new();
    let mut i: usize = 0;
    while i < a.len()
        invariant
            i <= a@.len(),
            av == file_id_views(a@),
            bv == file_id_views(b@),
            file_id_views(r@) == files_missing_from(av.take(i as int), bv),
        decreases a@.len() - i,
    {
        let ghost before = file_id_views(r@);
        assert(av.take(i + 1).drop_last() =~= av.take(i as int));
        reveal(Seq::filter);
        if !position_of(b, &a[i]) {
            r.push(a[i].duplicate());
            assert(file_id_views(r@) =~= before.push(av[i as int]));
        } else {
            assert(file_id_views(r@) =~= before);
        }
        i = i + 1;
    }
    assert(av.take(a@.len() as int) =~= av);
    r
}

/// What a client does on receiving the server's file list: send the metadata of each local
/// file the server lacks, and request each server file not held locally.
pub fn sync_plan(local: &FileList, remote: &FileList) -> (r: (Vec<FileId>, Vec<FileId>))
    ensures
        file_id_views(r.0@) == files_missing_from(local@, remote@),
        file_id_views(r.1@) == files_missing_from(remote@, local@),
{
    (difference(&local.0, &remote.0), difference(&remote.0, &local.0))
}

/// What a filesystem event asks of the client.
#[derive(Debug, Clone, Copy, PartialEq, Eq, Structural)]
pub enum FsEventKind {
    Create,
    Write,
    Chmod,
    Rename,
    Remove,
}

/// The client's response to a filesystem event.
#[derive(Debug, PartialEq, Eq, Clone, Copy, Structural)]
pub enum FsAction {
    /// Send the file's metadata to the server.
    SendFile,
    /// Tell the server the file is gone.
    DeleteFile,
    /// Nothing: the path is being downloaded, so the event is our own write.
    Ignore,
}

/// Paths being downloaded, each with the metadata the server announced for it.
pub struct Blacklist {
    entries: Table<FileMetadata>,
}

impl View for Blacklist {
    type V = Map<Seq<u8>, crate::arguments::FileMetadataV>;

    closed spec fn view(&self) -> Map<Seq<u8>, crate::arguments::FileMetadataV> {
        self.entries.map().map_values(|m: FileMetadata| m@)
    }
}

impl Blacklist {
    pub closed spec fn wf(&self) -> bool {
        self.entries.wf()
    }

    pub fn new() -> (r: Blacklist)
        ensures
            r.wf(),
            r@ == Map::<Seq<u8>, crate::arguments::FileMetadataV>::empty(),
    {
        let r = Blacklist { entries: Table::new() };
        assert(r@ =~= Map::empty());
        r
    }

    /// Puts a download on the list before any of its bytes are written.
    pub fn start_download(&mut self, meta: &FileMetadata)
        requires
            old(self).wf(),
        ensures
            final(self).wf(),
            final(self)@ == old(self)@.insert(encode_utf8(meta@.file_id.path), meta@),
    {
        let key = utf8_bytes(&meta.file_id.path);
        self.entries.insert(key, meta.duplicate());
        assert(self@ =~= old(self)@.insert(encode_utf8(meta@.file_id.path), meta@));
    }

    /// How many downloads are in progress.
    pub fn len(&self) -> (r: usize)
        requires
            self.wf(),
        ensures
            r == self@.dom().len(),
    {
        proof {
            self.entries.lemma_positions();
            assert(self@.dom() =~= self.entries.map().dom());
        }
        self.entries.len()
    }

    pub fn contains(&self, path: &String) -> (r: bool)
        requires
            self.wf(),
        ensures
            r == self@.contains_key(encode_utf8(path@)),
    {
        let key = utf8_bytes(path);
        self.entries.contains(key.as_slice())
    }

    /// After a chunk of `path` was written and the file's digest is `digest`: the download is
    /// complete, and leaves the list, when that digest is the announced one.
    pub fn finish_if_complete(&mut self, path: &String, digest: &[u8]) -> (r: bool)
        requires
            old(self).wf(),
        ensures
            final(self).wf(),
            r == (old(self)@.contains_key(encode_utf8(path@)) && old(self)@[encode_utf8(
                path@,
            )].file_id.hash == digest@),
            r ==> final(self)@ == old(self)@.remove(encode_utf8(path@)),
            !r ==> final(self)@ == old(self)@,
    {
        let key = utf8_bytes(path);
        let done = match self.entries.get(key.as_slice()) {
            Some(m) => crate::bytes::bytes_eq(&m.file_id.hash, digest),
            None => false,
        };
        if done {
            self.entries.remove(key.as_slice());
            assert(self@ =~= old(self)@.remove(encode_utf8(path@)));
        }
        done
    }

    /// What to do about a filesystem event on `path` (relative to the watched root).
    pub fn fs_action(&self, kind: FsEventKind, path: &String) -> (r: FsAction)
        requires
            self.wf(),
        ensures
            self@.contains_key(encode_utf8(path@)) && kind != FsEventKind::Remove ==> r
                == FsAction::Ignore,
            !self@.contains_key(encode_utf8(path@)) && kind != FsEventKind::Remove ==> r
                == FsAction::SendFile,
            self@.contains_key(encode_utf8(path@)) && kind == FsEventKind::Remove ==> r
                == FsAction::Ignore,
            !self@.contains_key(encode_utf8(path@)) && kind == FsEventKind::Remove ==> r
                == FsAction::DeleteFile,
    {
        if self.contains(path) {
            FsAction::Ignore
        } else {
            match kind {
                FsEventKind::Remove => FsAction::DeleteFile,
                _ => FsAction::SendFile,
            }
        }
    }
}

} // verus!
