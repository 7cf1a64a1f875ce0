//! Directive arguments: their values, their byte layouts and their decoders.
//!
//! Every argument type has a view, a spec `encoding` of that view, and a spec parser
//! (`parse_*`) that states what the decoder returns for every input. The lemmas at the end of
//! each section show that parsing an encoding gives the encoded value back.
use vstd::prelude::*;
use vstd::utf8::{decode_utf8, encode_utf8, valid_utf8};
use crate::bytes::{
    be128, be16, be32, be64, copy_range, extend_bytes, from_be128, from_be16, from_be32,
    from_be64, lemma_be128, lemma_be16, lemma_be32, lemma_be64, push_be128, push_be16, push_be32,
    push_be64, read_be128, read_be16, read_be32, read_be64,
};
use crate::error::MessageError;

verus! {

broadcast use vstd::utf8::encode_utf8_valid_utf8, vstd::utf8::encode_utf8_decode_utf8;

/// Length in bytes of a chunk or file digest.
pub const DIGEST_LEN: usize = 32;

/// A decoding failure.
#[derive(Debug, Clone)]
pub struct Error(pub MessageError);

/// Whether a decoder's result `r` is what the spec parser gives.
pub open spec fn parsed_as<T: View>(r: Result<T, Error>, p: Result<T::V, MessageError>) -> bool {
    match (r, p) {
        (Ok(x), Ok(v)) => x@ == v,
        (Err(e), Err(k)) => e.0 == k,
        _ => false,
    }
}

/// Relies on `String::from_utf8`: it accepts exactly the valid UTF-8 byte strings and the
/// string it returns holds the characters they encode.
#[verifier::external_body]
fn string_from_utf8(b: Vec<u8>) -> (r: Option<String>)
    ensures
        r is Some <==> valid_utf8(b@),
        r matches Some(s) ==> s@ == decode_utf8(b@),
{
    String::from_utf8(b).ok()
}

/// The UTF-8 bytes of `s`.
pub fn utf8_bytes(s: &String) -> (r: Vec<u8>)
    ensures
        r@ == encode_utf8(s@),
{
    let b: &[u8] = s.as_str().as_bytes();
    let mut r: Vec<u8> = Vec::new();
    extend_bytes(&mut r, b);
    r
}

/// Decodes UTF-8 text, failing with `UtfError`.
pub fn utf8_string(b: Vec<u8>) -> (r: Result<String, Error>)
    ensures
        parsed_as(r, parse_utf8(b@)),
{
    match string_from_utf8(b) {
        Some(s) => Ok(s),
        None => Err(Error(MessageError::UtfError)),
    }
}

pub open spec fn parse_utf8(b: Seq<u8>) -> Result<Seq<char>, MessageError> {
    if valid_utf8(b) {
        Ok(decode_utf8(b))
    } else {
        Err(MessageError::UtfError)
    }
}

pub proof fn lemma_parse_utf8(s: Seq<char>)
    ensures
        parse_utf8(encode_utf8(s)) == Ok::<Seq<char>, MessageError>(s),
{
}

// ---------------------------------------------------------------- Version

/// The protocol version a client announces.
#[derive(Debug, PartialEq, Eq, Clone, Copy)]
pub struct Version(pub u8);

impl View for Version {
    type V = u8;

    open spec fn view(&self) -> u8 {
        self.0
    }
}

pub open spec fn version_encoding(v: u8) -> Seq<u8> {
    seq![v]
}

pub open spec fn parse_version(data: Seq<u8>) -> Result<u8, MessageError> {
    if data.len() == 1 {
        Ok(data[0])
    } else {
        Err(MessageError::InvalidBin)
    }
}

impl Version {
    pub fn to_bin(&self) -> (r: Vec<u8>)
        ensures
            r@ == version_encoding(self@),
    {
        let mut r: Vec<u8> = Vec::new();
        r.push(self.0);
        assert(r@ =~= version_encoding(self@));
        r
    }

    pub fn from_bin(data: &[u8]) -> (r: Result<Version, Error>)
        ensures
            parsed_as(r, parse_version(data@)),
    {
        if data.len() == 1 {
            Ok(Version(data[0]))
        } else {
            Err(Error(MessageError::InvalidBin))
        }
    }
}

pub proof fn lemma_version_round_trip(v: u8)
    ensures
        parse_version(version_encoding(v)) == Ok::<u8, MessageError>(v),
{
}

// ---------------------------------------------------------------- ResponseCode

/// A status code carried by a `Response` directive.
#[derive(Debug, PartialEq, Eq, Clone, Copy)]
pub struct ResponseCode(pub u16);

impl View for ResponseCode {
    type V = u16;

    open spec fn view(&self) -> u16 {
        self.0
    }
}

pub open spec fn parse_response_code(data: Seq<u8>) -> Result<u16, MessageError> {
    if data.len() == 2 {
        Ok(from_be16(data))
    } else {
        Err(MessageError::InvalidBin)
    }
}

impl ResponseCode {
    pub fn to_bin(&self) -> (r: Vec<u8>)
        ensures
            r@ == be16(self@),
    {
        let mut r: Vec<u8> = Vec::new();
        push_be16(&mut r, self.0);
        assert(r@ =~= be16(self@));
        r
    }

    pub fn from_bin(data: &[u8]) -> (r: Result<ResponseCode, Error>)
        ensures
            parsed_as(r, parse_response_code(data@)),
    {
        if data.len() == 2 {
            assert(data@.subrange(0, 2) =~= data@);
            Ok(ResponseCode(read_be16(data, 0)))
        } else {
            Err(Error(MessageError::InvalidBin))
        }
    }
}

pub proof fn lemma_response_code_round_trip(c: u16)
    ensures
        parse_response_code(be16(c)) == Ok::<u16, MessageError>(c),
{
    lemma_be16(c);
}

// ---------------------------------------------------------------- ChunkId

/// The digest that names a chunk.
#[derive(Debug, PartialEq, Eq, Clone, Hash)]
pub struct ChunkId(pub Vec<u8>);

impl View for ChunkId {
    type V = Seq<u8>;

    open spec fn view(&self) -> Seq<u8> {
        self.0@
    }
}

impl ChunkId {
    /// A chunk id on its own is its raw bytes.
    pub fn to_bin(&self) -> (r: Vec<u8>)
        ensures
            r@ == self@,
    {
        self.0.clone()
    }

    pub fn from_bin(data: &[u8]) -> (r: Result<ChunkId, Error>)
        ensures
            r matches Ok(c) && c@ == data@,
    {
        Ok(ChunkId(copy_range(data, 0, data.len())))
    }

    /// A copy of this id.
    pub fn duplicate(&self) -> (r: ChunkId)
        ensures
            r@ == self@,
    {
        ChunkId(self.0.clone())
    }

    /// Whether two chunk ids are the same bytes.
    pub fn same(&self, other: &ChunkId) -> (r: bool)
        ensures
            r == (self@ == other@),
    {
        crate::bytes::bytes_eq(self.0.as_slice(), other.0.as_slice())
    }
}

// ---------------------------------------------------------------- FileId

/// A file on the wire: its path relative to the synchronised root and its content digest.
#[derive(Debug, PartialEq, Eq, Hash, Clone)]
pub struct FileId {
    pub path: String,
    pub hash: [u8; 32],
}

pub struct FileIdV {
    pub path: Seq<char>,
    pub hash: Seq<u8>,
}

impl View for FileId {
    type V = FileIdV;

    open spec fn view(&self) -> FileIdV {
        FileIdV { path: self.path@, hash: self.hash@ }
    }
}

/// Path bytes, then the 32 digest bytes.
pub open spec fn file_id_encoding(f: FileIdV) -> Seq<u8> {
    encode_utf8(f.path) + f.hash
}

pub open spec fn file_id_wf(f: FileIdV) -> bool {
    f.hash.len() == DIGEST_LEN
}

pub open spec fn parse_file_id(data: Seq<u8>) -> Result<FileIdV, MessageError> {
    if data.len() < DIGEST_LEN {
        Err(MessageError::InvalidBin)
    } else {
        let cut = data.len() - DIGEST_LEN;
        match parse_utf8(data.subrange(0, cut)) {
            Ok(path) => Ok(FileIdV { path, hash: data.subrange(cut, data.len() as int) }),
            Err(e) => Err(e),
        }
    }
}

/// Copies 32 bytes starting at `at` into a digest array.
pub fn digest_at(data: &[u8], at: usize) -> (r: [u8; 32])
    requires
        at + DIGEST_LEN <= data@.len(),
    ensures
        r@ == data@.subrange(at as int, at + DIGEST_LEN),
{
    let n = data.len();
    let mut r: [u8; 32] = [0u8; 32];
    let mut i: usize = 0;
    while i < DIGEST_LEN
        invariant
            n == data@.len(),
            at + DIGEST_LEN <= data@.len(),
            i <= DIGEST_LEN,
            r@.len() == DIGEST_LEN,
            forall|j: int| 0 <= j < i ==> r@[j] == data@[at + j],
        decreases DIGEST_LEN - i,
    {
        r[i] = data[at + i];
        i = i + 1;
    }
    assert(r@ =~= data@.subrange(at as int, at + DIGEST_LEN));
    r
}

impl FileId {
    pub fn to_bin(&self) -> (r: Vec<u8>)
        ensures
            r@ == file_id_encoding(self@),
    {
        let mut r = utf8_bytes(&self.path);
        extend_bytes(&mut r, &self.hash);
        r
    }

    pub fn from_bin(data: &[u8]) -> (r: Result<FileId, Error>)
        ensures
            parsed_as(r, parse_file_id(data@)),
    {
        let len = data.len();
        if len < DIGEST_LEN {
            return Err(Error(MessageError::InvalidBin));
        }
        let cut = len - DIGEST_LEN;
        let path = match utf8_string(copy_range(data, 0, cut)) {
            Ok(s) => s,
            Err(e) => return Err(e),
        };
        let hash = digest_at(data, cut);
        Ok(FileId { path, hash })
    }

    /// A copy of this id.
    pub fn duplicate(&self) -> (r: FileId)
        ensures
            r@ == self@,
    {
        FileId { path: self.path.clone(), hash: self.hash }
    }

    /// Whether two file ids name the same path with the same digest.
    pub fn same(&self, other: &FileId) -> (r: bool)
        ensures
            r == (self@ == other@),
    {
        let p = self.path == other.path;
        let h = crate::bytes::bytes_eq(&self.hash, &other.hash);
        proof {
            if p && h {
                assert(self@ == other@);
            }
        }
        p && h
    }
}

pub proof fn lemma_file_id_round_trip(f: FileIdV)
    requires
        file_id_wf(f),
    ensures
        parse_file_id(file_id_encoding(f)) == Ok::<FileIdV, MessageError>(f),
{
    let e = file_id_encoding(f);
    let cut = e.len() - DIGEST_LEN;
    assert(e.subrange(0, cut) =~= encode_utf8(f.path));
    assert(e.subrange(cut, e.len() as int) =~= f.hash);
}

// ---------------------------------------------------------------- FilePath

/// A bare relative path, as carried by `DeleteFile`.
#[derive(Debug, PartialEq, Eq, Clone)]
pub struct FilePath(pub String);

impl View for FilePath {
    type V = Seq<char>;

    open spec fn view(&self) -> Seq<char> {
        self.0@
    }
}

impl FilePath {
    pub fn to_bin(&self) -> (r: Vec<u8>)
        ensures
            r@ == encode_utf8(self@),
    {
        utf8_bytes(&self.0)
    }

    pub fn from_bin(data: &[u8]) -> (r: Result<FilePath, Error>)
        ensures
            parsed_as(r, parse_utf8(data@)),
    {
        let b = copy_range(data, 0, data.len());
        assert(b@ =~= data@);
        match utf8_string(b) {
            Ok(s) => Ok(FilePath(s)),
            Err(e) => Err(e),
        }
    }
}

// ---------------------------------------------------------------- QualifiedChunkId

/// A chunk named together with the file it belongs to and its byte offset in that file.
#[derive(Debug, PartialEq, Eq, Clone)]
pub struct QualifiedChunkId {
    pub path: FileId,
    /// Offset of the chunk's first byte in the file.
    pub offset: u32,
    pub id: ChunkId,
}

pub struct QualifiedChunkIdV {
    pub path: FileIdV,
    pub offset: u32,
    pub id: Seq<u8>,
}

impl View for QualifiedChunkId {
    type V = QualifiedChunkIdV;

    open spec fn view(&self) -> QualifiedChunkIdV {
        QualifiedChunkIdV { path: self.path@, offset: self.offset, id: self.id@ }
    }
}

/// Length of the file id (u32), the file id, the offset (u32), then the 32 id bytes.
pub open spec fn qcid_encoding(q: QualifiedChunkIdV) -> Seq<u8> {
    let f = file_id_encoding(q.path);
    be32(f.len() as u32) + f + be32(q.offset) + q.id
}

pub open spec fn qcid_wf(q: QualifiedChunkIdV) -> bool {
    &&& file_id_wf(q.path)
    &&& file_id_encoding(q.path).len() <= u32::MAX
    &&& q.id.len() == DIGEST_LEN
}

pub open spec fn parse_qcid(data: Seq<u8>) -> Result<QualifiedChunkIdV, MessageError> {
    if data.len() < 4 {
        Err(MessageError::InvalidBin)
    } else {
        let n = from_be32(data.subrange(0, 4)) as int;
        if data.len() != n + 8 + DIGEST_LEN {
            Err(MessageError::InvalidBin)
        } else {
            match parse_file_id(data.subrange(4, 4 + n)) {
                Ok(path) => Ok(
                    QualifiedChunkIdV {
                        path,
                        offset: from_be32(data.subrange(4 + n, 8 + n)),
                        id: data.subrange(8 + n, data.len() as int),
                    },
                ),
                Err(e) => Err(e),
            }
        }
    }
}

impl QualifiedChunkId {
    pub fn to_bin(&self) -> (r: Vec<u8>)
        requires
            qcid_wf(self@),
        ensures
            r@ == qcid_encoding(self@),
    {
        let f = self.path.to_bin();
        let mut r: Vec<u8> = Vec::new();
        push_be32(&mut r, f.len() as u32);
        extend_bytes(&mut r, f.as_slice());
        push_be32(&mut r, self.offset);
        extend_bytes(&mut r, self.id.0.as_slice());
        r
    }

    pub fn from_bin(data: &[u8]) -> (r: Result<QualifiedChunkId, Error>)
        ensures
            parsed_as(r, parse_qcid(data@)),
    {
        let len = data.len();
        if len < 4 {
            return Err(Error(MessageError::InvalidBin));
        }
        let n = read_be32(data, 0) as usize;
        if len - 4 < 4 + DIGEST_LEN || len - 8 - DIGEST_LEN != n {
            return Err(Error(MessageError::InvalidBin));
        }
        let path = match FileId::from_bin(&data[4..4 + n]) {
            Ok(p) => p,
            Err(e) => return Err(e),
        };
        let offset = read_be32(data, 4 + n);
        let id = ChunkId(copy_range(data, 8 + n, len));
        Ok(QualifiedChunkId { path, offset, id })
    }
}

pub proof fn lemma_qcid_round_trip(q: QualifiedChunkIdV)
    requires
        qcid_wf(q),
    ensures
        parse_qcid(qcid_encoding(q)) == Ok::<QualifiedChunkIdV, MessageError>(q),
{
    let f = file_id_encoding(q.path);
    let e = qcid_encoding(q);
    let n = f.len() as int;
    lemma_be32(n as u32);
    lemma_be32(q.offset);
    lemma_file_id_round_trip(q.path);
    assert(e.subrange(0, 4) =~= be32(n as u32));
    assert(e.subrange(4, 4 + n) =~= f);
    assert(e.subrange(4 + n, 8 + n) =~= be32(q.offset));
    assert(e.subrange(8 + n, e.len() as int) =~= q.id);
}

// ---------------------------------------------------------------- Chunk

/// A chunk's id and its bytes.
#[derive(Debug, PartialEq, Eq, Clone)]
pub struct Chunk {
    pub id: ChunkId,
    pub data: Vec<u8>,
}

pub struct ChunkV {
    pub id: Seq<u8>,
    pub data: Seq<u8>,
}

impl View for Chunk {
    type V = ChunkV;

    open spec fn view(&self) -> ChunkV {
        ChunkV { id: self.id@, data: self.data@ }
    }
}

/// The 32 id bytes, then the data.
pub open spec fn chunk_encoding(c: ChunkV) -> Seq<u8> {
    c.id + c.data
}

pub open spec fn chunk_wf(c: ChunkV) -> bool {
    c.id.len() == DIGEST_LEN
}

pub open spec fn parse_chunk(data: Seq<u8>) -> Result<ChunkV, MessageError> {
    if data.len() < DIGEST_LEN {
        Err(MessageError::InvalidBin)
    } else {
        Ok(
            ChunkV {
                id: data.subrange(0, DIGEST_LEN as int),
                data: data.subrange(DIGEST_LEN as int, data.len() as int),
            },
        )
    }
}

impl Chunk {
    pub fn to_bin(&self) -> (r: Vec<u8>)
        ensures
            r@ == chunk_encoding(self@),
    {
        let mut r = self.id.to_bin();
        extend_bytes(&mut r, self.data.as_slice());
        r
    }

    pub fn from_bin(data: &[u8]) -> (r: Result<Chunk, Error>)
        ensures
            parsed_as(r, parse_chunk(data@)),
    {
        let len = data.len();
        if len < DIGEST_LEN {
            return Err(Error(MessageError::InvalidBin));
        }
        Ok(
            Chunk {
                id: ChunkId(copy_range(data, 0, DIGEST_LEN)),
                data: copy_range(data, DIGEST_LEN, len),
            },
        )
    }
}

pub proof fn lemma_chunk_round_trip(c: ChunkV)
    requires
        chunk_wf(c),
    ensures
        parse_chunk(chunk_encoding(c)) == Ok::<ChunkV, MessageError>(c),
{
    let e = chunk_encoding(c);
    assert(e.subrange(0, DIGEST_LEN as int) =~= c.id);
    assert(e.subrange(DIGEST_LEN as int, e.len() as int) =~= c.data);
}

// ---------------------------------------------------------------- QualifiedChunk

/// A chunk's bytes together with where they belong, as sent to a downloading client.
#[derive(Debug, PartialEq, Eq, Clone)]
pub struct QualifiedChunk {
    pub id: QualifiedChunkId,
    pub data: Vec<u8>,
}

pub struct QualifiedChunkV {
    pub id: QualifiedChunkIdV,
    pub data: Seq<u8>,
}

impl View for QualifiedChunk {
    type V = QualifiedChunkV;

    open spec fn view(&self) -> QualifiedChunkV {
        QualifiedChunkV { id: self.id@, data: self.data@ }
    }
}

/// Length of the qualified id (u64), the qualified id, then the data.
pub open spec fn qchunk_encoding(c: QualifiedChunkV) -> Seq<u8> {
    let q = qcid_encoding(c.id);
    be64(q.len() as u64) + q + c.data
}

pub open spec fn qchunk_wf(c: QualifiedChunkV) -> bool {
    qcid_wf(c.id)
}

pub open spec fn parse_qchunk(data: Seq<u8>) -> Result<QualifiedChunkV, MessageError> {
    if data.len() < 8 {
        Err(MessageError::InvalidBin)
    } else {
        let n = from_be64(data.subrange(0, 8)) as int;
        if n > data.len() - 8 {
            Err(MessageError::InvalidBin)
        } else {
            match parse_qcid(data.subrange(8, 8 + n)) {
                Ok(id) => Ok(QualifiedChunkV { id, data: data.subrange(8 + n, data.len() as int) }),
                Err(e) => Err(e),
            }
        }
    }
}

impl QualifiedChunk {
    pub fn to_bin(&self) -> (r: Vec<u8>)
        requires
            qchunk_wf(self@),
        ensures
            r@ == qchunk_encoding(self@),
    {
        let q = self.id.to_bin();
        let mut r: Vec<u8> = Vec::new();
        push_be64(&mut r, q.len() as u64);
        extend_bytes(&mut r, q.as_slice());
        extend_bytes(&mut r, self.data.as_slice());
        r
    }

    pub fn from_bin(data: &[u8]) -> (r: Result<QualifiedChunk, Error>)
        ensures
            parsed_as(r, parse_qchunk(data@)),
    {
        let len = data.len();
        if len < 8 {
            return Err(Error(MessageError::InvalidBin));
        }
        let n64 = read_be64(data, 0);
        if n64 > (len - 8) as u64 {
            return Err(Error(MessageError::InvalidBin));
        }
        let n = n64 as usize;
        let id = match QualifiedChunkId::from_bin(&data[8..8 + n]) {
            Ok(q) => q,
            Err(e) => return Err(e),
        };
        Ok(QualifiedChunk { id, data: copy_range(data, 8 + n, len) })
    }
}

pub proof fn lemma_qchunk_round_trip(c: QualifiedChunkV)
    requires
        qchunk_wf(c),
    ensures
        parse_qchunk(qchunk_encoding(c)) == Ok::<QualifiedChunkV, MessageError>(c),
{
    let q = qcid_encoding(c.id);
    let e = qchunk_encoding(c);
    let n = q.len() as int;
    lemma_be64(n as u64);
    lemma_qcid_round_trip(c.id);
    assert(e.subrange(0, 8) =~= be64(n as u64));
    assert(e.subrange(8, 8 + n) =~= q);
    assert(e.subrange(8 + n, e.len() as int) =~= c.data);
}

// ---------------------------------------------------------------- FileMetadata

/// Everything the server keeps about a file: its id, display name, permission bits,
/// timestamps (milliseconds since the epoch) and the ordered ids of its chunks.
#[derive(Debug, Clone)]
pub struct FileMetadata {
    pub file_id: FileId,
    pub file_name: String,
    pub permissions: u32,
    pub modified: u128,
    pub created: u128,
    pub chunks: Vec<ChunkId>,
}

pub struct FileMetadataV {
    pub file_id: FileIdV,
    pub file_name: Seq<char>,
    pub permissions: u32,
    pub modified: u128,
    pub created: u128,
    pub chunks: Seq<Seq<u8>>,
}

pub open spec fn chunk_views(chunks: Seq<ChunkId>) -> Seq<Seq<u8>> {
    chunks.map_values(|c: ChunkId| c@)
}

impl View for FileMetadata {
    type V = FileMetadataV;

    open spec fn view(&self) -> FileMetadataV {
        FileMetadataV {
            file_id: self.file_id@,
            file_name: self.file_name@,
            permissions: self.permissions,
            modified: self.modified,
            created: self.created,
            chunks: chunk_views(self.chunks@),
        }
    }
}

/// Two metadata records describe the same file version: timestamps are not compared.
pub open spec fn same_metadata(a: FileMetadataV, b: FileMetadataV) -> bool {
    &&& a.file_id == b.file_id
    &&& a.file_name == b.file_name
    &&& a.permissions == b.permissions
    &&& a.chunks == b.chunks
}

/// The ids laid end to end.
pub open spec fn concat_ids(ids: Seq<Seq<u8>>) -> Seq<u8>
    decreases ids.len(),
{
    if ids.len() == 0 {
        seq![]
    } else {
        concat_ids(ids.drop_last()) + ids.last()
    }
}

/// The bytes cut into consecutive 32-byte ids.
pub open spec fn split_ids(s: Seq<u8>) -> Seq<Seq<u8>> {
    Seq::new(
        s.len() / DIGEST_LEN as nat,
        |i: int| s.subrange(DIGEST_LEN * i, DIGEST_LEN * i + DIGEST_LEN),
    )
}

/// Where the final component of a path starts: just after its last `/`, or at 0.
pub open spec fn name_start(p: Seq<u8>) -> int
    decreases p.len(),
{
    if p.len() == 0 {
        0
    } else if p.last() == 47u8 {
        p.len() as int
    } else {
        name_start(p.drop_last())
    }
}

/// The display name of a file: the text of its path's final component, which must not be empty.
pub open spec fn display_name(path: Seq<u8>) -> Result<Seq<char>, MessageError> {
    let nb = path.subrange(name_start(path), path.len() as int);
    if nb.len() == 0 {
        Err(MessageError::EmptyPath)
    } else {
        parse_utf8(nb)
    }
}

/// Fixed-size fields after the path: permissions, two timestamps and the file digest.
pub const META_FIXED_LEN: usize = 68;

/// Path length (u64), path, permissions (u32), modified and created (u128 each),
/// the 32-byte file digest, then the chunk ids.
pub open spec fn metadata_encoding(m: FileMetadataV) -> Seq<u8> {
    let p = encode_utf8(m.file_id.path);
    be64(p.len() as u64) + p + be32(m.permissions) + be128(m.modified) + be128(m.created)
        + m.file_id.hash + concat_ids(m.chunks)
}

pub open spec fn metadata_wf(m: FileMetadataV) -> bool {
    &&& file_id_wf(m.file_id)
    &&& encode_utf8(m.file_id.path).len() <= u64::MAX
    &&& display_name(encode_utf8(m.file_id.path)) == Ok::<Seq<char>, MessageError>(m.file_name)
    &&& forall|i: int| 0 <= i < m.chunks.len() ==> (#[trigger] m.chunks[i]).len() == DIGEST_LEN
}

pub open spec fn parse_metadata(data: Seq<u8>) -> Result<FileMetadataV, MessageError> {
    if data.len() < 8 {
        Err(MessageError::InvalidBin)
    } else {
        let n = from_be64(data.subrange(0, 8)) as int;
        if n + 8 + META_FIXED_LEN > data.len() {
            Err(MessageError::InvalidBin)
        } else {
            let pb = data.subrange(8, 8 + n);
            let base = 8 + n + META_FIXED_LEN;
            let rest = data.subrange(base, data.len() as int);
            if rest.len() % DIGEST_LEN as nat != 0 {
                Err(MessageError::InvalidBin)
            } else {
                match parse_utf8(pb) {
                    Err(e) => Err(e),
                    Ok(path) => match display_name(pb) {
                        Err(e) => Err(e),
                        Ok(file_name) => Ok(
                            FileMetadataV {
                                file_id: FileIdV { path, hash: data.subrange(base - 32, base) },
                                file_name,
                                permissions: from_be32(data.subrange(8 + n, 12 + n)),
                                modified: from_be128(data.subrange(12 + n, 28 + n)),
                                created: from_be128(data.subrange(28 + n, 44 + n)),
                                chunks: split_ids(rest),
                            },
                        ),
                    },
                }
            }
        }
    }
}

/// Finds where the final component of `p` starts.
fn find_name_start(p: &[u8]) -> (r: usize)
    ensures
        r == name_start(p@),
        r <= p@.len(),
{
    let mut i = p.len();
    assert(p@ =~= p@.subrange(0, p@.len() as int));
    while i > 0 && p[i - 1] != 47u8
        invariant
            i <= p@.len(),
            name_start(p@) == name_start(p@.subrange(0, i as int)),
        decreases i,
    {
        assert(p@.subrange(0, i as int).drop_last() =~= p@.subrange(0, i - 1));
        i = i - 1;
    }
    assert(p@ =~= p@.subrange(0, p@.len() as int));
    i
}

/// Decodes a path's display name.
pub fn name_of_path(pb: &[u8]) -> (r: Result<String, Error>)
    ensures
        parsed_as(r, display_name(pb@)),
{
    let start = find_name_start(pb);
    let nb = copy_range(pb, start, pb.len());
    if nb.len() == 0 {
        return Err(Error(MessageError::EmptyPath));
    }
    utf8_string(nb)
}

proof fn lemma_concat_ids_len(ids: Seq<Seq<u8>>)
    requires
        forall|i: int| 0 <= i < ids.len() ==> (#[trigger] ids[i]).len() == DIGEST_LEN,
    ensures
        concat_ids(ids).len() == DIGEST_LEN * ids.len(),
    decreases ids.len(),
{
    if ids.len() > 0 {
        lemma_concat_ids_len(ids.drop_last());
    }
}

proof fn lemma_split_concat_ids(ids: Seq<Seq<u8>>)
    requires
        forall|i: int| 0 <= i < ids.len() ==> (#[trigger] ids[i]).len() == DIGEST_LEN,
    ensures
        split_ids(concat_ids(ids)) == ids,
    decreases ids.len(),
{
    lemma_concat_ids_len(ids);
    if ids.len() > 0 {
        let init = ids.drop_last();
        lemma_split_concat_ids(init);
        lemma_concat_ids_len(init);
        let c = concat_ids(ids);
        let ci = concat_ids(init);
        assert forall|i: int| 0 <= i < ids.len() implies #[trigger] split_ids(c)[i] == ids[i] by {
            if i < init.len() {
                assert(c.subrange(DIGEST_LEN * i, DIGEST_LEN * i + DIGEST_LEN) =~= ci.subrange(
                    DIGEST_LEN * i,
                    DIGEST_LEN * i + DIGEST_LEN,
                ));
                assert(split_ids(ci)[i] == init[i]);
            } else {
                assert(c.subrange(DIGEST_LEN * i, DIGEST_LEN * i + DIGEST_LEN) =~= ids.last());
            }
        }
        assert(split_ids(c) =~= ids);
    } else {
        assert(split_ids(concat_ids(ids)) =~= ids);
    }
}

impl FileMetadata {
    pub fn to_bin(&self) -> (r: Vec<u8>)
        ensures
            r@ == metadata_encoding(self@),
    {
        let p = utf8_bytes(&self.file_id.path);
        let mut r: Vec<u8> = Vec::new();
        push_be64(&mut r, p.len() as u64);
        extend_bytes(&mut r, p.as_slice());
        push_be32(&mut r, self.permissions);
        push_be128(&mut r, self.modified);
        push_be128(&mut r, self.created);
        extend_bytes(&mut r, &self.file_id.hash);
        let ghost head = r@;
        let ghost ids = chunk_views(self.chunks@);
        let mut k: usize = 0;
        while k < self.chunks.len()
            invariant
                k <= self.chunks@.len(),
                ids == chunk_views(self.chunks@),
                r@ == head + concat_ids(ids.take(k as int)),
            decreases self.chunks@.len() - k,
        {
            extend_bytes(&mut r, self.chunks[k].0.as_slice());
            k = k + 1;
            assert(ids.take(k as int).drop_last() =~= ids.take(k - 1));
        }
        assert(ids.take(k as int) =~= ids);
        r
    }

    pub fn from_bin(data: &[u8]) -> (r: Result<FileMetadata, Error>)
        ensures
            parsed_as(r, parse_metadata(data@)),
    {
        let len = data.len();
        if len < 8 {
            return Err(Error(MessageError::InvalidBin));
        }
        let n64 = read_be64(data, 0);
        if n64 > (len - 8) as u64 || (len - 8 - n64 as usize) < META_FIXED_LEN {
            return Err(Error(MessageError::InvalidBin));
        }
        let n = n64 as usize;
        let base = 8 + n + META_FIXED_LEN;
        if (len - base) % DIGEST_LEN != 0 {
            return Err(Error(MessageError::InvalidBin));
        }
        let pb = copy_range(data, 8, 8 + n);
        let path = match utf8_string(copy_range(data, 8, 8 + n)) {
            Ok(s) => s,
            Err(e) => return Err(e),
        };
        let file_name = match name_of_path(pb.as_slice()) {
            Ok(s) => s,
            Err(e) => return Err(e),
        };
        let permissions = read_be32(data, 8 + n);
        let modified = read_be128(data, 12 + n);
        let created = read_be128(data, 28 + n);
        let hash = digest_at(data, base - DIGEST_LEN);
        let count = (len - base) / DIGEST_LEN;
        let ghost rest = data@.subrange(base as int, len as int);
        let mut chunks: Vec<ChunkId> = Vec::new();
        let mut k: usize = 0;
        while k < count
            invariant
                len == data@.len(),
                base <= len,
                count == (len - base) / (DIGEST_LEN as int),
                rest == data@.subrange(base as int, len as int),
                k <= count,
                chunks@.len() == k,
                chunk_views(chunks@) =~= split_ids(rest).take(k as int),
            decreases count - k,
        {
            let at = base + DIGEST_LEN * k;
            let id = ChunkId(copy_range(data, at, at + DIGEST_LEN));
            assert(id@ =~= split_ids(rest)[k as int]);
            let ghost before = chunks@;
            chunks.push(id);
            k = k + 1;
            assert forall|j: int| 0 <= j < k implies #[trigger] chunk_views(chunks@)[j]
                == split_ids(rest).take(k as int)[j] by {
                if j < k - 1 {
                    assert(chunks@[j] == before[j]);
                    assert(chunk_views(before)[j] == split_ids(rest).take(k - 1)[j]);
                }
            }
            assert(chunk_views(chunks@) =~= split_ids(rest).take(k as int));
        }
        assert(split_ids(rest).take(k as int) =~= split_ids(rest));
        Ok(FileMetadata { file_id: FileId { path, hash }, file_name, permissions, modified, created, chunks })
    }

    /// A copy of this record.
    pub fn duplicate(&self) -> (r: FileMetadata)
        ensures
            r@ == self@,
    {
        let mut chunks: Vec<ChunkId> = Vec::new();
        let mut i: usize = 0;
        while i < self.chunks.len()
            invariant
                i <= self.chunks@.len(),
                chunk_views(chunks@) =~= chunk_views(self.chunks@).take(i as int),
            decreases self.chunks@.len() - i,
        {
            let ghost before = chunk_views(chunks@);
            chunks.push(self.chunks[i].duplicate());
            i = i + 1;
            assert(chunk_views(chunks@) =~= before.push(self.chunks@[i - 1]@));
        }
        assert(chunk_views(self.chunks@).take(i as int) =~= chunk_views(self.chunks@));
        FileMetadata {
            file_id: self.file_id.duplicate(),
            file_name: self.file_name.clone(),
            permissions: self.permissions,
            modified: self.modified,
            created: self.created,
            chunks,
        }
    }

    /// Whether two records describe the same file version (timestamps are not compared).
    pub fn same_as(&self, other: &FileMetadata) -> (r: bool)
        ensures
            r == same_metadata(self@, other@),
    {
        if !self.file_id.same(&other.file_id) || self.file_name != other.file_name
            || self.permissions != other.permissions {
            return false;
        }
        if self.chunks.len() != other.chunks.len() {
            assert(chunk_views(self.chunks@).len() != chunk_views(other.chunks@).len());
            return false;
        }
        let mut k: usize = 0;
        while k < self.chunks.len()
            invariant
                self.chunks@.len() == other.chunks@.len(),
                k <= self.chunks@.len(),
                forall|j: int| 0 <= j < k ==> self.chunks@[j]@ == other.chunks@[j]@,
            decreases self.chunks@.len() - k,
        {
            if !self.chunks[k].same(&other.chunks[k]) {
                assert(chunk_views(self.chunks@)[k as int] != chunk_views(other.chunks@)[k as int]);
                return false;
            }
            k = k + 1;
        }
        assert(chunk_views(self.chunks@) =~= chunk_views(other.chunks@));
        true
    }
}

/// Equality of metadata ignores the timestamps.
impl PartialEq for FileMetadata {
    fn eq(&self, other: &FileMetadata) -> (r: bool) {
        self.same_as(other)
    }
}

impl vstd::std_specs::cmp::PartialEqSpecImpl for FileMetadata {
    open spec fn obeys_eq_spec() -> bool {
        true
    }

    open spec fn eq_spec(&self, other: &FileMetadata) -> bool {
        same_metadata(self@, other@)
    }
}

impl Eq for FileMetadata {

}

/// Where each field of an encoded metadata record lies.
proof fn lemma_metadata_layout(m: FileMetadataV)
    requires
        file_id_wf(m.file_id),
    ensures
        ({
            let p = encode_utf8(m.file_id.path);
            let n = p.len() as int;
            let e = metadata_encoding(m);
            let base = 8 + n + META_FIXED_LEN;
            &&& e.len() == base + concat_ids(m.chunks).len()
            &&& e.subrange(0, 8) == be64(n as u64)
            &&& e.subrange(8, 8 + n) == p
            &&& e.subrange(8 + n, 12 + n) == be32(m.permissions)
            &&& e.subrange(12 + n, 28 + n) == be128(m.modified)
            &&& e.subrange(28 + n, 44 + n) == be128(m.created)
            &&& e.subrange(base - 32, base) == m.file_id.hash
            &&& e.subrange(base, e.len() as int) == concat_ids(m.chunks)
        }),
{
    let p = encode_utf8(m.file_id.path);
    let n = p.len() as int;
    let a = be64(n as u64);
    let b = be32(m.permissions);
    let c = be128(m.modified);
    let d = be128(m.created);
    let h = m.file_id.hash;
    let ids = concat_ids(m.chunks);
    lemma_be64(n as u64);
    lemma_be32(m.permissions);
    lemma_be128(m.modified);
    lemma_be128(m.created);
    let e = metadata_encoding(m);
    assert(e == a + p + b + c + d + h + ids);
    assert(e.subrange(0, 8) =~= a);
    assert(e.subrange(8, 8 + n) =~= p);
    assert(e.subrange(8 + n, 12 + n) =~= b);
    assert(e.subrange(12 + n, 28 + n) =~= c);
    assert(e.subrange(28 + n, 44 + n) =~= d);
    assert(e.subrange(44 + n, 76 + n) =~= h);
    assert(e.subrange(76 + n, e.len() as int) =~= ids);
}

pub proof fn lemma_metadata_round_trip(m: FileMetadataV)
    requires
        metadata_wf(m),
    ensures
        parse_metadata(metadata_encoding(m)) == Ok::<FileMetadataV, MessageError>(m),
{
    let p = encode_utf8(m.file_id.path);
    let n = p.len() as int;
    let e = metadata_encoding(m);
    lemma_be64(n as u64);
    lemma_be32(m.permissions);
    lemma_be128(m.modified);
    lemma_be128(m.created);
    lemma_concat_ids_len(m.chunks);
    lemma_split_concat_ids(m.chunks);
    lemma_metadata_layout(m);
    let base = 8 + n + META_FIXED_LEN;
    let rest = e.subrange(base, e.len() as int);
    assert((DIGEST_LEN * m.chunks.len()) % (DIGEST_LEN as int) == 0) by (nonlinear_arith);
    assert(rest.len() % DIGEST_LEN as nat == 0);
    assert(from_be64(e.subrange(0, 8)) as int == n);
    assert(parse_utf8(p) == Ok::<Seq<char>, MessageError>(m.file_id.path));
    assert(display_name(p) == Ok::<Seq<char>, MessageError>(m.file_name));
    assert(split_ids(rest) == m.chunks);
}

// ---------------------------------------------------------------- FileList

/// The files the server holds, as sent in reply to `ListFiles`.
#[derive(Debug, PartialEq, Eq, Clone)]
pub struct FileList(pub Vec<FileId>);

pub open spec fn file_id_views(fs: Seq<FileId>) -> Seq<FileIdV> {
    fs.map_values(|f: FileId| f@)
}

impl View for FileList {
    type V = Seq<FileIdV>;

    open spec fn view(&self) -> Seq<FileIdV> {
        file_id_views(self.0@)
    }
}

/// One list entry: the file id's length (u16), then the file id.
pub open spec fn list_entry(f: FileIdV) -> Seq<u8> {
    be16(file_id_encoding(f).len() as u16) + file_id_encoding(f)
}

pub open spec fn file_list_encoding(fs: Seq<FileIdV>) -> Seq<u8>
    decreases fs.len(),
{
    if fs.len() == 0 {
        seq![]
    } else {
        list_entry(fs[0]) + file_list_encoding(fs.drop_first())
    }
}

pub open spec fn file_list_wf(fs: Seq<FileIdV>) -> bool {
    forall|i: int|
        0 <= i < fs.len() ==> file_id_wf(#[trigger] fs[i]) && file_id_encoding(fs[i]).len()
            <= u16::MAX
}

pub open spec fn parse_file_list(data: Seq<u8>) -> Result<Seq<FileIdV>, MessageError>
    decreases data.len(),
{
    if data.len() == 0 {
        Ok(seq![])
    } else if data.len() < 2 {
        Err(MessageError::InvalidBin)
    } else {
        let n = from_be16(data.subrange(0, 2)) as int;
        if n > data.len() - 2 {
            Err(MessageError::InvalidBin)
        } else {
            match parse_file_id(data.subrange(2, 2 + n)) {
                Err(e) => Err(e),
                Ok(f) => match parse_file_list(data.subrange(2 + n, data.len() as int)) {
                    Err(e) => Err(e),
                    Ok(rest) => Ok(seq![f] + rest),
                },
            }
        }
    }
}

/// `r` with `fs` put in front of the list it holds.
pub open spec fn prepend_files(fs: Seq<FileIdV>, r: Result<Seq<FileIdV>, MessageError>) -> Result<
    Seq<FileIdV>,
    MessageError,
> {
    match r {
        Ok(rest) => Ok(fs + rest),
        Err(e) => Err(e),
    }
}

proof fn lemma_file_list_push(fs: Seq<FileIdV>, f: FileIdV)
    ensures
        file_list_encoding(fs.push(f)) == file_list_encoding(fs) + list_entry(f),
    decreases fs.len(),
{
    if fs.len() == 0 {
        assert(fs.push(f).drop_first() =~= Seq::<FileIdV>::empty());
        assert(fs.push(f)[0] == f);
        assert(file_list_encoding(Seq::<FileIdV>::empty()) == Seq::<u8>::empty());
        assert(file_list_encoding(fs) == Seq::<u8>::empty());
        assert(file_list_encoding(fs.push(f)) =~= list_entry(f));
    } else {
        assert(fs.push(f).drop_first() =~= fs.drop_first().push(f));
        assert(fs.push(f)[0] == fs[0]);
        lemma_file_list_push(fs.drop_first(), f);
        assert(file_list_encoding(fs.push(f)) =~= file_list_encoding(fs) + list_entry(f));
    }
}

impl FileList {
    pub fn to_bin(&self) -> (r: Vec<u8>)
        requires
            file_list_wf(self@),
        ensures
            r@ == file_list_encoding(self@),
    {
        let ghost fs = self@;
        let mut r: Vec<u8> = Vec::new();
        let mut k: usize = 0;
        while k < self.0.len()
            invariant
                fs == self@,
                file_list_wf(fs),
                k <= self.0@.len(),
                r@ == file_list_encoding(fs.take(k as int)),
            decreases self.0@.len() - k,
        {
            let e = self.0[k].to_bin();
            assert(file_id_wf(fs[k as int]));
            push_be16(&mut r, e.len() as u16);
            extend_bytes(&mut r, e.as_slice());
            proof {
                lemma_file_list_push(fs.take(k as int), fs[k as int]);
                assert(fs.take(k + 1) =~= fs.take(k as int).push(fs[k as int]));
            }
            k = k + 1;
        }
        assert(fs.take(k as int) =~= fs);
        r
    }

    pub fn from_bin(data: &[u8]) -> (r: Result<FileList, Error>)
        ensures
            parsed_as(r, parse_file_list(data@)),
    {
        let len = data.len();
        let mut files: Vec<FileId> = Vec::new();
        let mut cur: usize = 0;
        assert(data@.subrange(0, len as int) =~= data@);
        proof {
            match parse_file_list(data@) {
                Ok(all) => {
                    assert(Seq::<FileIdV>::empty() + all =~= all);
                },
                Err(_) => {},
            }
            assert(file_id_views(files@) =~= Seq::<FileIdV>::empty());
        }
        while cur < len
            invariant
                len == data@.len(),
                cur <= len,
                parse_file_list(data@) == prepend_files(
                    file_id_views(files@),
                    parse_file_list(data@.subrange(cur as int, len as int)),
                ),
            decreases len - cur,
        {
            let ghost tail = data@.subrange(cur as int, len as int);
            if len - cur < 2 {
                return Err(Error(MessageError::InvalidBin));
            }
            let n = read_be16(data, cur) as usize;
            assert(tail.subrange(0, 2) =~= data@.subrange(cur as int, cur + 2));
            if n > len - cur - 2 {
                return Err(Error(MessageError::InvalidBin));
            }
            assert(tail.subrange(2, 2 + n) =~= data@.subrange(cur + 2, cur + 2 + n));
            let f = match FileId::from_bin(&data[cur + 2..cur + 2 + n]) {
                Ok(f) => f,
                Err(e) => return Err(e),
            };
            assert(tail.subrange(2 + n, tail.len() as int) =~= data@.subrange(
                cur + 2 + n,
                len as int,
            ));
            let ghost before = file_id_views(files@);
            files.push(f);
            assert(file_id_views(files@) =~= before.push(f@));
            cur = cur + 2 + n;
            proof {
                match parse_file_list(data@.subrange(cur as int, len as int)) {
                    Ok(rest) => {
                        assert(before + (seq![f@] + rest) =~= before.push(f@) + rest);
                    },
                    Err(_) => {},
                }
            }
        }
        assert(data@.subrange(cur as int, len as int) =~= Seq::<u8>::empty());
        assert(file_id_views(files@) + Seq::<FileIdV>::empty() =~= file_id_views(files@));
        Ok(FileList(files))
    }
}

pub proof fn lemma_file_list_round_trip(fs: Seq<FileIdV>)
    requires
        file_list_wf(fs),
    ensures
        parse_file_list(file_list_encoding(fs)) == Ok::<Seq<FileIdV>, MessageError>(fs),
    decreases fs.len(),
{
    if fs.len() == 0 {
        assert(fs =~= Seq::<FileIdV>::empty());
    } else {
        let e = file_list_encoding(fs);
        let f = fs[0];
        let fe = file_id_encoding(f);
        let n = fe.len() as int;
        let rest = fs.drop_first();
        assert(file_list_wf(rest)) by {
            assert forall|i: int| 0 <= i < rest.len() implies file_id_wf(#[trigger] rest[i])
                && file_id_encoding(rest[i]).len() <= u16::MAX by {
                assert(rest[i] == fs[i + 1]);
            }
        }
        assert(file_id_wf(fs[0]));
        lemma_be16(n as u16);
        lemma_file_id_round_trip(f);
        lemma_file_list_round_trip(rest);
        assert(e.subrange(0, 2) =~= be16(n as u16));
        assert(e.subrange(2, 2 + n) =~= fe);
        assert(e =~= list_entry(f) + file_list_encoding(rest));
        assert(e.subrange(2 + n, e.len() as int) =~= file_list_encoding(rest));
        assert(from_be16(e.subrange(0, 2)) as int == n);
        assert(parse_file_id(e.subrange(2, 2 + n)) == Ok::<FileIdV, MessageError>(f));
        assert(seq![f] + rest =~= fs);
    }
}

// ---------------------------------------------------------------- layout checks

impl QualifiedChunkId {
    /// Whether this request fits its layout.
    pub fn fits(&self) -> (r: bool)
        ensures
            r == qcid_wf(self@),
    {
        let p = utf8_bytes(&self.path.path);
        p.len() <= (u32::MAX as usize) - DIGEST_LEN && self.id.0.len() == DIGEST_LEN
    }
}

impl FileList {
    /// Whether every entry fits its 16-bit length field.
    pub fn fits(&self) -> (r: bool)
        ensures
            r == file_list_wf(self@),
    {
        let mut i: usize = 0;
        while i < self.0.len()
            invariant
                i <= self.0@.len(),
                forall|j: int|
                    0 <= j < i ==> file_id_wf(#[trigger] self@[j]) && file_id_encoding(self@[j]).len()
                        <= u16::MAX,
            decreases self.0@.len() - i,
        {
            let p = utf8_bytes(&self.0[i].path);
            if p.len() > (u16::MAX as usize) - DIGEST_LEN {
                assert(!(file_id_encoding(self@[i as int]).len() <= u16::MAX));
                return false;
            }
            i = i + 1;
        }
        true
    }
}

impl Chunk {
    /// Whether the id is a digest's length.
    pub fn fits(&self) -> (r: bool)
        ensures
            r == chunk_wf(self@),
    {
        self.id.0.len() == DIGEST_LEN
    }
}

impl QualifiedChunk {
    pub fn fits(&self) -> (r: bool)
        ensures
            r == qchunk_wf(self@),
    {
        self.id.fits()
    }
}

impl FileMetadata {
    /// Whether the record fits its layout: the display name is the path's final component
    /// and every chunk id is a digest's length.
    pub fn fits(&self) -> (r: bool)
        ensures
            r == metadata_wf(self@),
    {
        let p = utf8_bytes(&self.file_id.path);
        let name_ok = match name_of_path(p.as_slice()) {
            Ok(n) => n == self.file_name,
            Err(_) => false,
        };
        if !name_ok {
            return false;
        }
        let mut i: usize = 0;
        while i < self.chunks.len()
            invariant
                i <= self.chunks@.len(),
                forall|j: int| 0 <= j < i ==> (#[trigger] self@.chunks[j]).len() == DIGEST_LEN,
            decreases self.chunks@.len() - i,
        {
            if self.chunks[i].0.len() != DIGEST_LEN {
                assert(self@.chunks[i as int].len() != DIGEST_LEN);
                return false;
            }
            i = i + 1;
        }
        true
    }
}

} // verus!
