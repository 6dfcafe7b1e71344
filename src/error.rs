//! What can go wrong while decoding or encoding.

use vstd::prelude::*;

use crate::io::Error;

verus! {

/// Why a stream could not be decoded.
#[derive(Clone, Copy, Debug, PartialEq, Eq)]
pub enum DecoderError {
    /// The first four bytes are not the signature; they are kept here.
    InvalidSignature([u8; 4]),
    /// The header's channel count is neither 3 nor 4.
    InvalidChannelCount(u8),
    /// A chunk begins with a byte that no tag matches.
    InvalidChunkStart(u8),
    /// The four bytes after the last chunk are not all zero; they are kept here.
    InvalidPadding([u8; 4]),
    /// The byte source failed.
    IoError(Error),
}

/// Why an image could not be encoded: only the sink can fail.
#[derive(Clone, Copy, Debug, PartialEq, Eq)]
pub enum EncoderError {
    IoError(Error),
}

impl From<Error> for DecoderError {
    fn from(e: Error) -> (r: DecoderError)
        ensures
            r == DecoderError::IoError(e),
    {
        DecoderError::IoError(e)
    }
}

impl vstd::std_specs::convert::FromSpecImpl<Error> for DecoderError {
    open spec fn obeys_from_spec() -> bool {
        true
    }

    open spec fn from_spec(v: Error) -> DecoderError {
        DecoderError::IoError(v)
    }
}

impl From<Error> for EncoderError {
    fn from(e: Error) -> (r: EncoderError)
        ensures
            r == EncoderError::IoError(e),
    {
        EncoderError::IoError(e)
    }
}

impl vstd::std_specs::convert::FromSpecImpl<Error> for EncoderError {
    open spec fn obeys_from_spec() -> bool {
        true
    }

    open spec fn from_spec(v: Error) -> EncoderError {
        EncoderError::IoError(v)
    }
}

/// The error a faultless source gives when it runs dry.
pub open spec fn eof() -> DecoderError {
    DecoderError::IoError(Error::UnexpectedEof)
}

} // verus!
