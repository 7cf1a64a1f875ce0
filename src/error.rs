//! Errors of the wire codec and of the transport layer.
use vstd::prelude::*;

verus! {

/// Why a frame or an argument could not be decoded.
#[derive(Debug, Clone)]
pub enum MessageError {
    /// The bytes are truncated, oversized or otherwise malformed.
    InvalidBin,
    /// A file path has no final component to name the file by.
    EmptyPath,
    /// A path is not valid UTF-8.
    UtfError,
    /// The directive code is not one of the protocol's codes.
    UnknownVerb,
    /// An I/O failure, described in words.
    IO(String),
}

/// Transport errors.
#[derive(Debug, Clone)]
pub enum NetError {
    /// Failure inside the Noise session, described in words.
    Noise(String),
    /// A plaintext frame longer than one Noise message can carry.
    MsgLength(usize),
    /// An I/O failure, described in words.
    IO(String),
}

/// The largest plaintext frame the transport carries.
pub const MAX_FRAME_LEN: usize = 65535;

/// Checks that a frame fits in one transport message.
pub fn check_frame_len(len: usize) -> (r: Result<(), NetError>)
    ensures
        r is Ok <==> len <= MAX_FRAME_LEN,
        r matches Err(NetError::MsgLength(n)) ==> n == len,
{
    if len > MAX_FRAME_LEN {
        Err(NetError::MsgLength(len))
    } else {
        Ok(())
    }
}

} // verus!
