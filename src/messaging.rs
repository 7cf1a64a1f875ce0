//! Protocol frames: `<msg-id:u16> <verb:u16> [<argument>]`, all big-endian.
//!
//! A frame's argument depends on its verb; [`Payload`] is the tagged union of all argument
//! kinds and [`parse_message`] states what [`MessageBuilder::decode_message`] returns.
use vstd::prelude::*;
use crate::arguments::{
    chunk_encoding, chunk_wf, file_id_encoding, file_id_wf, file_list_encoding, file_list_wf,
    lemma_chunk_round_trip, lemma_file_id_round_trip, lemma_file_list_round_trip,
    lemma_metadata_round_trip, lemma_parse_utf8, lemma_qchunk_round_trip, lemma_qcid_round_trip,
    lemma_response_code_round_trip, lemma_version_round_trip, metadata_encoding, metadata_wf,
    parse_chunk, parse_file_id, parse_file_list, parse_metadata, parse_qchunk, parse_qcid,
    parse_response_code, parse_utf8, parse_version, parsed_as, qchunk_encoding, qchunk_wf,
    qcid_encoding, qcid_wf, version_encoding, Chunk, ChunkV, Error, FileId, FileIdV, FileList,
    FileMetadata, FileMetadataV, FilePath, QualifiedChunk, QualifiedChunkId, QualifiedChunkIdV,
    QualifiedChunkV, ResponseCode, Version,
};
use crate::bytes::{be16, copy_range, extend_bytes, from_be16, lemma_be16, push_be16, read_be16};
use crate::error::MessageError;

verus! {

/// The protocol's verbs.
#[derive(Debug, PartialEq, Eq, Structural, Clone, Copy)]
pub enum Directive {
    AnnounceVersion,
    ListFiles,
    SendFiles,
    RequestFile,
    RequestChunk,
    SendFile,
    SendChunk,
    DeleteFile,
    Response,
    SendQualifiedChunk,
}

/// The stable wire code of each verb.
pub open spec fn directive_code(d: Directive) -> u16 {
    match d {
        Directive::AnnounceVersion => 0,
        Directive::ListFiles => 1,
        Directive::SendFiles => 2,
        Directive::RequestFile => 3,
        Directive::RequestChunk => 4,
        Directive::SendFile => 5,
        Directive::SendChunk => 6,
        Directive::DeleteFile => 7,
        Directive::Response => 8,
        Directive::SendQualifiedChunk => 9,
    }
}

/// The verb with wire code `c`, if any.
pub open spec fn directive_of(c: u16) -> Option<Directive> {
    if c == 0 {
        Some(Directive::AnnounceVersion)
    } else if c == 1 {
        Some(Directive::ListFiles)
    } else if c == 2 {
        Some(Directive::SendFiles)
    } else if c == 3 {
        Some(Directive::RequestFile)
    } else if c == 4 {
        Some(Directive::RequestChunk)
    } else if c == 5 {
        Some(Directive::SendFile)
    } else if c == 6 {
        Some(Directive::SendChunk)
    } else if c == 7 {
        Some(Directive::DeleteFile)
    } else if c == 8 {
        Some(Directive::Response)
    } else if c == 9 {
        Some(Directive::SendQualifiedChunk)
    } else {
        None
    }
}

impl Directive {
    pub fn code(&self) -> (r: u16)
        ensures
            r == directive_code(*self),
    {
        match self {
            Directive::AnnounceVersion => 0,
            Directive::ListFiles => 1,
            Directive::SendFiles => 2,
            Directive::RequestFile => 3,
            Directive::RequestChunk => 4,
            Directive::SendFile => 5,
            Directive::SendChunk => 6,
            Directive::DeleteFile => 7,
            Directive::Response => 8,
            Directive::SendQualifiedChunk => 9,
        }
    }

    pub fn from_code(c: u16) -> (r: Option<Directive>)
        ensures
            r == directive_of(c),
    {
        match c {
            0 => Some(Directive::AnnounceVersion),
            1 => Some(Directive::ListFiles),
            2 => Some(Directive::SendFiles),
            3 => Some(Directive::RequestFile),
            4 => Some(Directive::RequestChunk),
            5 => Some(Directive::SendFile),
            6 => Some(Directive::SendChunk),
            7 => Some(Directive::DeleteFile),
            8 => Some(Directive::Response),
            9 => Some(Directive::SendQualifiedChunk),
            _ => None,
        }
    }
}

// ---------------------------------------------------------------- raw frames

/// A frame with its argument still in bytes.
#[derive(Debug, PartialEq, Eq, Clone)]
pub struct RawMessage {
    pub id: u16,
    pub verb: Directive,
    pub data: Option<Vec<u8>>,
}

pub struct RawMessageV {
    pub id: u16,
    pub verb: Directive,
    pub data: Option<Seq<u8>>,
}

impl View for RawMessage {
    type V = RawMessageV;

    open spec fn view(&self) -> RawMessageV {
        RawMessageV {
            id: self.id,
            verb: self.verb,
            data: match self.data {
                Some(d) => Some(d@),
                None => None,
            },
        }
    }
}

pub open spec fn raw_encoding(r: RawMessageV) -> Seq<u8> {
    be16(r.id) + be16(directive_code(r.verb)) + match r.data {
        Some(d) => d,
        None => Seq::<u8>::empty(),
    }
}

/// A frame with an empty argument cannot be told apart from one without.
pub open spec fn raw_wf(r: RawMessageV) -> bool {
    r.data matches Some(d) ==> d.len() > 0
}

pub open spec fn parse_raw(data: Seq<u8>) -> Result<RawMessageV, MessageError> {
    if data.len() < 4 {
        Err(MessageError::InvalidBin)
    } else {
        match directive_of(from_be16(data.subrange(2, 4))) {
            None => Err(MessageError::UnknownVerb),
            Some(verb) => Ok(
                RawMessageV {
                    id: from_be16(data.subrange(0, 2)),
                    verb,
                    data: if data.len() == 4 {
                        None
                    } else {
                        Some(data.subrange(4, data.len() as int))
                    },
                },
            ),
        }
    }
}

impl RawMessage {
    pub fn to_bin(&self) -> (r: Vec<u8>)
        ensures
            r@ == raw_encoding(self@),
    {
        let mut r: Vec<u8> = Vec::new();
        push_be16(&mut r, self.id);
        push_be16(&mut r, self.verb.code());
        match &self.data {
            Some(d) => extend_bytes(&mut r, d.as_slice()),
            None => {
                assert(r@ =~= r@ + Seq::<u8>::empty());
            },
        }
        r
    }

    pub fn from_bin(msg: &[u8]) -> (r: Result<RawMessage, Error>)
        ensures
            parsed_as(r, parse_raw(msg@)),
    {
        let len = msg.len();
        if len < 4 {
            return Err(Error(MessageError::InvalidBin));
        }
        let verb = match Directive::from_code(read_be16(msg, 2)) {
            Some(v) => v,
            None => return Err(Error(MessageError::UnknownVerb)),
        };
        let id = read_be16(msg, 0);
        let data = if len == 4 {
            None
        } else {
            Some(copy_range(msg, 4, len))
        };
        Ok(RawMessage { id, verb, data })
    }
}

pub proof fn lemma_raw_round_trip(r: RawMessageV)
    requires
        raw_wf(r),
    ensures
        parse_raw(raw_encoding(r)) == Ok::<RawMessageV, MessageError>(r),
{
    let e = raw_encoding(r);
    lemma_be16(r.id);
    lemma_be16(directive_code(r.verb));
    assert(e.subrange(0, 2) =~= be16(r.id));
    assert(e.subrange(2, 4) =~= be16(directive_code(r.verb)));
    match r.data {
        Some(d) => {
            assert(e.subrange(4, e.len() as int) =~= d);
        },
        None => {},
    }
}

// ---------------------------------------------------------------- arguments as a tagged union

/// Values that can stand as a frame's argument.
pub trait Argument: Sized {
    spec fn encoding(&self) -> Seq<u8>;

    /// The value fits its byte layout (length fields do not overflow, ids are 32 bytes).
    spec fn wf(&self) -> bool;

    fn to_bin(&self) -> (r: Vec<u8>)
        requires
            self.wf(),
        ensures
            r@ == self.encoding(),
    ;
}

/// The argument of a decoded frame, tagged by kind.
#[derive(Debug, PartialEq, Eq, Clone)]
pub enum Payload {
    Version(Version),
    FileList(FileList),
    FileId(FileId),
    QualifiedChunkId(QualifiedChunkId),
    FileMetadata(FileMetadata),
    Chunk(Chunk),
    FilePath(FilePath),
    ResponseCode(ResponseCode),
    QualifiedChunk(QualifiedChunk),
}

pub enum PayloadV {
    Version(u8),
    FileList(Seq<FileIdV>),
    FileId(FileIdV),
    QualifiedChunkId(QualifiedChunkIdV),
    FileMetadata(FileMetadataV),
    Chunk(ChunkV),
    FilePath(Seq<char>),
    ResponseCode(u16),
    QualifiedChunk(QualifiedChunkV),
}

impl View for Payload {
    type V = PayloadV;

    open spec fn view(&self) -> PayloadV {
        match self {
            Payload::Version(x) => PayloadV::Version(x@),
            Payload::FileList(x) => PayloadV::FileList(x@),
            Payload::FileId(x) => PayloadV::FileId(x@),
            Payload::QualifiedChunkId(x) => PayloadV::QualifiedChunkId(x@),
            Payload::FileMetadata(x) => PayloadV::FileMetadata(x@),
            Payload::Chunk(x) => PayloadV::Chunk(x@),
            Payload::FilePath(x) => PayloadV::FilePath(x@),
            Payload::ResponseCode(x) => PayloadV::ResponseCode(x@),
            Payload::QualifiedChunk(x) => PayloadV::QualifiedChunk(x@),
        }
    }
}

pub open spec fn payload_encoding(p: PayloadV) -> Seq<u8> {
    match p {
        PayloadV::Version(x) => version_encoding(x),
        PayloadV::FileList(x) => file_list_encoding(x),
        PayloadV::FileId(x) => file_id_encoding(x),
        PayloadV::QualifiedChunkId(x) => qcid_encoding(x),
        PayloadV::FileMetadata(x) => metadata_encoding(x),
        PayloadV::Chunk(x) => chunk_encoding(x),
        PayloadV::FilePath(x) => vstd::utf8::encode_utf8(x),
        PayloadV::ResponseCode(x) => be16(x),
        PayloadV::QualifiedChunk(x) => qchunk_encoding(x),
    }
}

pub open spec fn payload_wf(p: PayloadV) -> bool {
    match p {
        PayloadV::Version(_) => true,
        PayloadV::FileList(x) => file_list_wf(x),
        PayloadV::FileId(x) => file_id_wf(x),
        PayloadV::QualifiedChunkId(x) => qcid_wf(x),
        PayloadV::FileMetadata(x) => metadata_wf(x),
        PayloadV::Chunk(x) => chunk_wf(x),
        PayloadV::FilePath(_) => true,
        PayloadV::ResponseCode(_) => true,
        PayloadV::QualifiedChunk(x) => qchunk_wf(x),
    }
}

/// The verb whose argument is of this kind.
pub open spec fn payload_verb(p: PayloadV) -> Directive {
    match p {
        PayloadV::Version(_) => Directive::AnnounceVersion,
        PayloadV::FileList(_) => Directive::SendFiles,
        PayloadV::FileId(_) => Directive::RequestFile,
        PayloadV::QualifiedChunkId(_) => Directive::RequestChunk,
        PayloadV::FileMetadata(_) => Directive::SendFile,
        PayloadV::Chunk(_) => Directive::SendChunk,
        PayloadV::FilePath(_) => Directive::DeleteFile,
        PayloadV::ResponseCode(_) => Directive::Response,
        PayloadV::QualifiedChunk(_) => Directive::SendQualifiedChunk,
    }
}

/// Wraps a parse result as a payload of kind `k`.
pub open spec fn tag<T>(r: Result<T, MessageError>, k: spec_fn(T) -> PayloadV) -> Result<
    Option<PayloadV>,
    MessageError,
> {
    match r {
        Ok(x) => Ok(Some(k(x))),
        Err(e) => Err(e),
    }
}

/// What the argument bytes of a frame with verb `verb` decode to. `ListFiles` carries none.
pub open spec fn parse_payload(verb: Directive, data: Seq<u8>) -> Result<
    Option<PayloadV>,
    MessageError,
> {
    match verb {
        Directive::AnnounceVersion => tag(parse_version(data), |x| PayloadV::Version(x)),
        Directive::ListFiles => Ok(None),
        Directive::SendFiles => tag(parse_file_list(data), |x| PayloadV::FileList(x)),
        Directive::RequestFile => tag(parse_file_id(data), |x| PayloadV::FileId(x)),
        Directive::RequestChunk => tag(parse_qcid(data), |x| PayloadV::QualifiedChunkId(x)),
        Directive::SendFile => tag(parse_metadata(data), |x| PayloadV::FileMetadata(x)),
        Directive::SendChunk => tag(parse_chunk(data), |x| PayloadV::Chunk(x)),
        Directive::DeleteFile => tag(parse_utf8(data), |x| PayloadV::FilePath(x)),
        Directive::Response => tag(parse_response_code(data), |x| PayloadV::ResponseCode(x)),
        Directive::SendQualifiedChunk => tag(parse_qchunk(data), |x| PayloadV::QualifiedChunk(x)),
    }
}

impl Argument for Payload {
    open spec fn encoding(&self) -> Seq<u8> {
        payload_encoding(self@)
    }

    open spec fn wf(&self) -> bool {
        payload_encodable(self@)
    }

    fn to_bin(&self) -> (r: Vec<u8>) {
        match self {
            Payload::Version(x) => x.to_bin(),
            Payload::FileList(x) => x.to_bin(),
            Payload::FileId(x) => x.to_bin(),
            Payload::QualifiedChunkId(x) => x.to_bin(),
            Payload::FileMetadata(x) => x.to_bin(),
            Payload::Chunk(x) => x.to_bin(),
            Payload::FilePath(x) => x.to_bin(),
            Payload::ResponseCode(x) => x.to_bin(),
            Payload::QualifiedChunk(x) => x.to_bin(),
        }
    }
}

impl Argument for FileMetadata {
    open spec fn encoding(&self) -> Seq<u8> {
        metadata_encoding(self@)
    }

    open spec fn wf(&self) -> bool {
        true
    }

    fn to_bin(&self) -> (r: Vec<u8>) {
        FileMetadata::to_bin(self)
    }
}

impl Argument for QualifiedChunkId {
    open spec fn encoding(&self) -> Seq<u8> {
        qcid_encoding(self@)
    }

    open spec fn wf(&self) -> bool {
        qcid_wf(self@)
    }

    fn to_bin(&self) -> (r: Vec<u8>) {
        QualifiedChunkId::to_bin(self)
    }
}

/// The argument fits the length fields of its byte layout, so that it can be encoded.
pub open spec fn payload_encodable(p: PayloadV) -> bool {
    match p {
        PayloadV::FileList(x) => file_list_wf(x),
        PayloadV::QualifiedChunkId(x) => qcid_wf(x),
        PayloadV::QualifiedChunk(x) => qchunk_wf(x),
        _ => true,
    }
}

impl Payload {
    /// Whether the argument fits its layout, so that it can be encoded.
    pub fn fits(&self) -> (r: bool)
        ensures
            r == payload_encodable(self@),
    {
        match self {
            Payload::Version(_) => true,
            Payload::FileList(x) => x.fits(),
            Payload::FileId(_) => true,
            Payload::QualifiedChunkId(x) => x.fits(),
            Payload::FileMetadata(_) => true,
            Payload::Chunk(_) => true,
            Payload::FilePath(_) => true,
            Payload::ResponseCode(_) => true,
            Payload::QualifiedChunk(x) => x.fits(),
        }
    }
}

/// Decodes the argument bytes of a frame with verb `verb`.
pub fn decode_payload(verb: Directive, data: &[u8]) -> (r: Result<Option<Payload>, Error>)
    ensures
        match (r, parse_payload(verb, data@)) {
            (Ok(Some(x)), Ok(Some(v))) => x@ == v,
            (Ok(None), Ok(None)) => true,
            (Err(e), Err(k)) => e.0 == k,
            _ => false,
        },
{
    match verb {
        Directive::AnnounceVersion => match Version::from_bin(data) {
            Ok(x) => Ok(Some(Payload::Version(x))),
            Err(e) => Err(e),
        },
        Directive::ListFiles => Ok(None),
        Directive::SendFiles => match FileList::from_bin(data) {
            Ok(x) => Ok(Some(Payload::FileList(x))),
            Err(e) => Err(e),
        },
        Directive::RequestFile => match FileId::from_bin(data) {
            Ok(x) => Ok(Some(Payload::FileId(x))),
            Err(e) => Err(e),
        },
        Directive::RequestChunk => match QualifiedChunkId::from_bin(data) {
            Ok(x) => Ok(Some(Payload::QualifiedChunkId(x))),
            Err(e) => Err(e),
        },
        Directive::SendFile => match FileMetadata::from_bin(data) {
            Ok(x) => Ok(Some(Payload::FileMetadata(x))),
            Err(e) => Err(e),
        },
        Directive::SendChunk => match Chunk::from_bin(data) {
            Ok(x) => Ok(Some(Payload::Chunk(x))),
            Err(e) => Err(e),
        },
        Directive::DeleteFile => match FilePath::from_bin(data) {
            Ok(x) => Ok(Some(Payload::FilePath(x))),
            Err(e) => Err(e),
        },
        Directive::Response => match ResponseCode::from_bin(data) {
            Ok(x) => Ok(Some(Payload::ResponseCode(x))),
            Err(e) => Err(e),
        },
        Directive::SendQualifiedChunk => match QualifiedChunk::from_bin(data) {
            Ok(x) => Ok(Some(Payload::QualifiedChunk(x))),
            Err(e) => Err(e),
        },
    }
}

// ---------------------------------------------------------------- messages

/// A decoded frame.
#[derive(Debug, PartialEq, Eq, Clone)]
pub struct Message {
    pub id: u16,
    pub verb: Directive,
    pub argument: Option<Payload>,
}

pub struct MessageV {
    pub id: u16,
    pub verb: Directive,
    pub argument: Option<PayloadV>,
}

impl View for Message {
    type V = MessageV;

    open spec fn view(&self) -> MessageV {
        MessageV {
            id: self.id,
            verb: self.verb,
            argument: match self.argument {
                Some(p) => Some(p@),
                None => None,
            },
        }
    }
}

pub open spec fn message_encoding(m: MessageV) -> Seq<u8> {
    raw_encoding(
        RawMessageV {
            id: m.id,
            verb: m.verb,
            data: match m.argument {
                Some(p) => Some(payload_encoding(p)),
                None => None,
            },
        },
    )
}

/// A well-formed message: its argument, if any, is of the kind its verb carries, fits its
/// layout, and does not encode to nothing.
pub open spec fn message_wf(m: MessageV) -> bool {
    match m.argument {
        None => m.verb != Directive::SendFiles,
        Some(p) => {
            &&& payload_wf(p)
            &&& payload_verb(p) == m.verb
            &&& (payload_encoding(p).len() > 0 || p is FileList)
        },
    }
}

/// The argument of a frame that carries no argument bytes: an empty file list for
/// `SendFiles`, none otherwise.
pub open spec fn bare_argument(verb: Directive) -> Option<PayloadV> {
    if verb == Directive::SendFiles {
        Some(PayloadV::FileList(Seq::<FileIdV>::empty()))
    } else {
        None
    }
}

pub open spec fn parse_message(data: Seq<u8>) -> Result<MessageV, MessageError> {
    match parse_raw(data) {
        Err(e) => Err(e),
        Ok(r) => match r.data {
            None => Ok(MessageV { id: r.id, verb: r.verb, argument: bare_argument(r.verb) }),
            Some(d) => match parse_payload(r.verb, d) {
                Err(e) => Err(e),
                Ok(argument) => Ok(MessageV { id: r.id, verb: r.verb, argument }),
            },
        },
    }
}

/// Encoding a well-formed message and decoding the bytes gives the message back.
pub proof fn lemma_message_round_trip(m: MessageV)
    requires
        message_wf(m),
    ensures
        parse_message(message_encoding(m)) == Ok::<MessageV, MessageError>(m),
{
    let r = RawMessageV {
        id: m.id,
        verb: m.verb,
        data: match m.argument {
            Some(p) => if payload_encoding(p).len() > 0 {
                Some(payload_encoding(p))
            } else {
                None
            },
            None => None,
        },
    };
    assert(raw_encoding(r) =~= message_encoding(m));
    lemma_raw_round_trip(r);
    match m.argument {
        None => {},
        Some(p) => {
            if payload_encoding(p).len() == 0 {
                if let PayloadV::FileList(x) = p {
                    if x.len() > 0 {
                        assert(file_list_encoding(x).len() >= 2);
                    }
                    assert(x =~= Seq::<FileIdV>::empty());
                }
            }
            match p {
                PayloadV::Version(x) => lemma_version_round_trip(x),
                PayloadV::FileList(x) => lemma_file_list_round_trip(x),
                PayloadV::FileId(x) => lemma_file_id_round_trip(x),
                PayloadV::QualifiedChunkId(x) => lemma_qcid_round_trip(x),
                PayloadV::FileMetadata(x) => lemma_metadata_round_trip(x),
                PayloadV::Chunk(x) => lemma_chunk_round_trip(x),
                PayloadV::FilePath(x) => lemma_parse_utf8(x),
                PayloadV::ResponseCode(x) => lemma_response_code_round_trip(x),
                PayloadV::QualifiedChunk(x) => lemma_qchunk_round_trip(x),
            }
        },
    }
}

/// The id that follows `id`, wrapping after `u16::MAX`.
pub open spec fn next_message_id(id: u16) -> u16 {
    if id == u16::MAX {
        0
    } else {
        (id + 1) as u16
    }
}

/// Builds and reads the frames of one connection, numbering outgoing frames in order.
pub struct MessageBuilder {
    protocol_version: Version,
    current_request: u16,
}

impl MessageBuilder {
    /// The id the next encoded frame will carry.
    pub closed spec fn next_id(&self) -> u16 {
        self.current_request
    }

    pub closed spec fn version(&self) -> u8 {
        self.protocol_version.0
    }

    pub fn new(ver: u8) -> (r: MessageBuilder)
        ensures
            r.next_id() == 0,
            r.version() == ver,
    {
        MessageBuilder { protocol_version: Version(ver), current_request: 0 }
    }

    /// Encodes a frame with the next id, then advances the id.
    pub fn encode_message<T: Argument>(&mut self, verb: Directive, argument: Option<T>) -> (r: Vec<
        u8,
    >)
        requires
            argument matches Some(a) ==> a.wf(),
        ensures
            r@ == be16(old(self).next_id()) + be16(directive_code(verb)) + match argument {
                Some(a) => a.encoding(),
                None => Seq::<u8>::empty(),
            },
            final(self).next_id() == next_message_id(old(self).next_id()),
            final(self).version() == old(self).version(),
    {
        let mut r: Vec<u8> = Vec::new();
        push_be16(&mut r, self.current_request);
        push_be16(&mut r, verb.code());
        match argument {
            Some(a) => {
                let b = a.to_bin();
                extend_bytes(&mut r, b.as_slice());
            },
            None => {
                assert(r@ =~= r@ + Seq::<u8>::empty());
            },
        }
        self.increment_counter();
        r
    }

    /// Decodes a frame.
    pub fn decode_message(message: &[u8]) -> (r: Result<Box<Message>, Error>)
        ensures
            match (r, parse_message(message@)) {
                (Ok(m), Ok(v)) => (*m)@ == v,
                (Err(e), Err(k)) => e.0 == k,
                _ => false,
            },
    {
        let raw = match RawMessage::from_bin(message) {
            Ok(x) => x,
            Err(e) => return Err(e),
        };
        let argument = match raw.data {
            None => match raw.verb {
                Directive::SendFiles => {
                    let l = FileList(Vec::new());
                    assert(l@ =~= Seq::<FileIdV>::empty());
                    Some(Payload::FileList(l))
                },
                _ => None,
            },
            Some(d) => match decode_payload(raw.verb, d.as_slice()) {
                Ok(a) => a,
                Err(e) => return Err(e),
            },
        };
        Ok(Box::new(Message { id: raw.id, verb: raw.verb, argument }))
    }

    /// Skips one id.
    pub fn increment_counter(&mut self)
        ensures
            final(self).next_id() == next_message_id(old(self).next_id()),
            final(self).version() == old(self).version(),
    {
        if self.current_request == u16::MAX {
            self.current_request = 0;
        } else {
            self.current_request = self.current_request + 1;
        }
    }
}

} // verus!
