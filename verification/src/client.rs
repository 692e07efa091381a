//! The client's side of the protocol: building a request frame and sizing
//! the response from its header, each with the limit check that goes with
//! it.

use vstd::prelude::*;
use crate::codec::{encode, encoded, header_value, read_header, HEADER_LEN, MAX_PAYLOAD};

verus! {

/// What a client can find wrong with a message.
#[derive(Clone, Copy, Debug, PartialEq, Eq, Structural)]
pub enum ClientError {
    /// The payload to send exceeds `MAX_PAYLOAD`.
    MessageTooLong,
    /// What was read as a response header is not `HEADER_LEN` bytes long.
    BadResponse,
    /// The response announces a payload that exceeds `MAX_PAYLOAD`.
    ResponseTooLong,
}

/// What `request_frame` gives for `payload`.
pub open spec fn request_for(payload: Seq<u8>) -> Result<Seq<u8>, ClientError> {
    if payload.len() > MAX_PAYLOAD {
        Err(ClientError::MessageTooLong)
    } else {
        Ok(encoded(payload))
    }
}

/// What `response_length` gives for `header`.
pub open spec fn announced_length(header: Seq<u8>) -> Result<usize, ClientError> {
    if header.len() != HEADER_LEN {
        Err(ClientError::BadResponse)
    } else if header_value(header) > MAX_PAYLOAD {
        Err(ClientError::ResponseTooLong)
    } else {
        Ok(header_value(header) as usize)
    }
}

/// The bytes to send for a request that carries `payload`, or
/// `MessageTooLong` if the payload is over the limit.
pub fn request_frame(payload: &[u8]) -> (frame: Result<Vec<u8>, ClientError>)
    ensures
        match frame {
            Ok(bytes) => request_for(payload@) == Ok::<Seq<u8>, ClientError>(bytes@),
            Err(e) => request_for(payload@) == Err::<Seq<u8>, ClientError>(e),
        },
{
    if payload.len() > MAX_PAYLOAD {
        return Err(ClientError::MessageTooLong);
    }
    Ok(encode(payload))
}

/// The number of payload bytes that a response header announces: how many
/// more bytes the client has to read. A header of the wrong size is a
/// `BadResponse`; one that announces more than the limit is
/// `ResponseTooLong`.
pub fn response_length(header: &[u8]) -> (length: Result<usize, ClientError>)
    ensures
        length == announced_length(header@),
{
    if header.len() != HEADER_LEN {
        return Err(ClientError::BadResponse);
    }
    let announced: u32 = read_header(header);
    if announced as u64 > MAX_PAYLOAD as u64 {
        return Err(ClientError::ResponseTooLong);
    }
    Ok(announced as usize)
}

/// A client that sends the frame for a payload within the limit and reads
/// back the same bytes finds, in the response header, the length of the
/// payload it sent.
pub proof fn lemma_response_length_of_echo(payload: Seq<u8>)
    requires
        payload.len() <= MAX_PAYLOAD,
    ensures
        request_for(payload) == Ok::<Seq<u8>, ClientError>(encoded(payload)),
        announced_length(encoded(payload).subrange(0, 4)) == Ok::<usize, ClientError>(
            payload.len() as usize,
        ),
        encoded(payload).subrange(4, 4 + payload.len() as int) == payload,
{
    crate::codec::lemma_header_value_of_bytes(payload.len());
    let header = encoded(payload).subrange(0, 4);
    assert(header_value(header) == header_value(crate::codec::header_bytes(payload.len())));
    assert(encoded(payload).subrange(4, 4 + payload.len() as int) =~= payload);
}

} // verus!
