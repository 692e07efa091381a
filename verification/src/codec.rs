//! The wire format: a four-byte little-endian length followed by that many
//! payload bytes.

use vstd::arithmetic::div_mod::lemma_fundamental_div_mod_converse;
use vstd::prelude::*;
use vstd::slice::{slice_subrange, slice_to_vec};

verus! {

/// Largest payload, in bytes, that one frame may carry.
pub const MAX_PAYLOAD: usize = 4096;

/// Number of bytes in the length header that precedes every payload.
pub const HEADER_LEN: usize = 4;

/// The number that the first four bytes of `s` spell in little-endian order.
pub open spec fn header_value(s: Seq<u8>) -> nat
    recommends
        s.len() >= 4,
{
    (s[0] as nat) + 256 * (s[1] as nat) + 65536 * (s[2] as nat) + 16777216 * (s[3] as nat)
}

/// The four bytes that spell `n` in little-endian order.
pub open spec fn header_bytes(n: nat) -> Seq<u8>
    recommends
        n <= u32::MAX,
{
    seq![
        (n % 256) as u8,
        ((n / 256) % 256) as u8,
        ((n / 65536) % 256) as u8,
        ((n / 16777216) % 256) as u8,
    ]
}

/// The frame that carries `payload`: its length header, then the payload.
pub open spec fn encoded(payload: Seq<u8>) -> Seq<u8> {
    header_bytes(payload.len()) + payload
}

/// What the front of a byte buffer holds, as a mathematical value.
pub enum Parsed {
    /// Not enough bytes yet for a header, or for the payload it announces.
    Incomplete,
    /// One whole frame: its payload and the number of bytes it occupies.
    Frame { payload: Seq<u8>, consumed: nat },
    /// The header announces more than `MAX_PAYLOAD` bytes.
    Violation,
}

/// Result of trying to decode one frame from the front of a buffer.
#[derive(Debug, PartialEq, Eq)]
pub enum Decoded {
    /// More bytes are needed before anything can be said.
    Incomplete,
    /// A whole frame was present; `consumed` bytes belong to it.
    Frame { payload: Vec<u8>, consumed: usize },
    /// The peer announced an oversized payload; the stream cannot be trusted.
    Violation,
}

impl View for Decoded {
    type V = Parsed;

    open spec fn view(&self) -> Parsed {
        match self {
            Decoded::Incomplete => Parsed::Incomplete,
            Decoded::Frame { payload, consumed } => Parsed::Frame {
                payload: payload@,
                consumed: *consumed as nat,
            },
            Decoded::Violation => Parsed::Violation,
        }
    }
}

/// What decoding finds at the front of `buf`.
pub open spec fn parse_one(buf: Seq<u8>) -> Parsed {
    if buf.len() < 4 {
        Parsed::Incomplete
    } else if header_value(buf) > MAX_PAYLOAD {
        Parsed::Violation
    } else if buf.len() < 4 + header_value(buf) {
        Parsed::Incomplete
    } else {
        Parsed::Frame {
            payload: buf.subrange(4, 4 + header_value(buf) as int),
            consumed: 4 + header_value(buf),
        }
    }
}

/// Reads the little-endian length header at the front of `buffer`.
pub fn read_header(buffer: &[u8]) -> (n: u32)
    requires
        buffer@.len() >= 4,
    ensures
        n == header_value(buffer@),
{
    let b0: u32 = buffer[0] as u32;
    let b1: u32 = buffer[1] as u32;
    let b2: u32 = buffer[2] as u32;
    let b3: u32 = buffer[3] as u32;
    b0 + 256 * b1 + 65536 * b2 + 16777216 * b3
}

/// Appends the little-endian length header for `n` to `out`.
pub fn write_header(out: &mut Vec<u8>, n: u32)
    ensures
        final(out)@ == old(out)@ + header_bytes(n as nat),
{
    out.push((n % 256) as u8);
    out.push(((n / 256) % 256) as u8);
    out.push(((n / 65536) % 256) as u8);
    out.push(((n / 16777216) % 256) as u8);
}

/// Tries to take one frame off the front of `buffer`.
///
/// Nothing is returned for a frame that has only partly arrived, and an
/// oversized announcement is reported whatever follows it.
pub fn decode_one(buffer: &[u8]) -> (r: Decoded)
    ensures
        r@ == parse_one(buffer@),
{
    if buffer.len() < HEADER_LEN {
        return Decoded::Incomplete;
    }
    let announced: u32 = read_header(buffer);
    if announced as u64 > MAX_PAYLOAD as u64 {
        return Decoded::Violation;
    }
    let len: usize = announced as usize;
    if buffer.len() - HEADER_LEN < len {
        return Decoded::Incomplete;
    }
    let payload = slice_to_vec(slice_subrange(buffer, HEADER_LEN, HEADER_LEN + len));
    Decoded::Frame { payload, consumed: HEADER_LEN + len }
}

/// Builds the frame that carries `payload`.
pub fn encode(payload: &[u8]) -> (frame: Vec<u8>)
    requires
        payload@.len() <= u32::MAX,
    ensures
        frame@ == encoded(payload@),
{
    let mut frame: Vec<u8> = Vec::new();
    write_header(&mut frame, payload.len() as u32);
    frame.extend_from_slice(payload);
    frame
}

/// Reading back a written length header gives the length that was written.
pub proof fn lemma_header_value_of_bytes(n: nat)
    requires
        n <= u32::MAX,
    ensures
        header_bytes(n).len() == 4,
        header_value(header_bytes(n)) == n,
{
}

/// Writing the length that four bytes spell gives those four bytes back.
pub proof fn lemma_header_bytes_of_value(s: Seq<u8>)
    requires
        s.len() >= 4,
    ensures
        header_value(s) <= u32::MAX,
        header_bytes(header_value(s)) == s.subrange(0, 4),
{
    let b0: int = s[0] as int;
    let b1: int = s[1] as int;
    let b2: int = s[2] as int;
    let b3: int = s[3] as int;
    let v: int = header_value(s) as int;
    lemma_fundamental_div_mod_converse(v, 256, b1 + 256 * b2 + 65536 * b3, b0);
    lemma_fundamental_div_mod_converse(v, 65536, b2 + 256 * b3, b0 + 256 * b1);
    lemma_fundamental_div_mod_converse(v, 16777216, b3, b0 + 256 * b1 + 65536 * b2);
    lemma_fundamental_div_mod_converse(v / 256, 256, b2 + 256 * b3, b1);
    lemma_fundamental_div_mod_converse(v / 65536, 256, b3, b2);
    assert(header_bytes(header_value(s)) =~= s.subrange(0, 4));
}

/// Framing round-trip: decoding the frame built for a payload of at most
/// `MAX_PAYLOAD` bytes gives that payload back and consumes the whole frame.
pub proof fn lemma_decode_encoded(payload: Seq<u8>)
    requires
        payload.len() <= MAX_PAYLOAD,
    ensures
        parse_one(encoded(payload)) == (Parsed::Frame {
            payload,
            consumed: 4 + payload.len(),
        }),
{
    let frame = encoded(payload);
    lemma_header_value_of_bytes(payload.len());
    assert(header_value(frame) == header_value(header_bytes(payload.len())));
    assert(frame.subrange(4, 4 + payload.len() as int) =~= payload);
}

/// Trailing bytes do not disturb a frame: whatever follows the frame built
/// for `payload`, decoding finds that frame first.
pub proof fn lemma_decode_encoded_then(payload: Seq<u8>, tail: Seq<u8>)
    requires
        payload.len() <= MAX_PAYLOAD,
    ensures
        parse_one(encoded(payload) + tail) == (Parsed::Frame {
            payload,
            consumed: 4 + payload.len(),
        }),
{
    let buf = encoded(payload) + tail;
    lemma_header_value_of_bytes(payload.len());
    assert(header_value(buf) == header_value(header_bytes(payload.len())));
    assert(buf.subrange(4, 4 + payload.len() as int) =~= payload);
}

/// Incomplete detection: every proper prefix of the frame built for a
/// payload of at most `MAX_PAYLOAD` bytes decodes as incomplete.
pub proof fn lemma_prefix_incomplete(payload: Seq<u8>, k: int)
    requires
        payload.len() <= MAX_PAYLOAD,
        0 <= k < 4 + payload.len(),
    ensures
        parse_one(encoded(payload).subrange(0, k)) == Parsed::Incomplete,
{
    let prefix = encoded(payload).subrange(0, k);
    lemma_header_value_of_bytes(payload.len());
    if k >= 4 {
        assert(header_value(prefix) == header_value(header_bytes(payload.len())));
    }
}

/// Oversize rejection: once four bytes announce more than `MAX_PAYLOAD`,
/// the buffer is a violation whatever bytes follow them.
pub proof fn lemma_oversize_violation(header: Seq<u8>, rest: Seq<u8>)
    requires
        header.len() == 4,
        header_value(header) > MAX_PAYLOAD,
    ensures
        parse_one(header + rest) == Parsed::Violation,
{
    assert(header_value(header + rest) == header_value(header));
}

/// A frame that decoding finds is the frame that encoding its payload
/// builds: the consumed bytes are exactly `encoded(payload)`.
pub proof fn lemma_frame_is_encoded(buf: Seq<u8>)
    requires
        parse_one(buf) is Frame,
    ensures
        parse_one(buf)->payload.len() <= MAX_PAYLOAD,
        parse_one(buf)->consumed == 4 + parse_one(buf)->payload.len(),
        parse_one(buf)->consumed <= buf.len(),
        encoded(parse_one(buf)->payload) == buf.subrange(0, parse_one(buf)->consumed as int),
{
    lemma_header_bytes_of_value(buf);
    let n: int = header_value(buf) as int;
    assert(encoded(buf.subrange(4, 4 + n)) =~= buf.subrange(0, 4 + n));
}

/// What decoding finds depends only on the bytes already present: once a
/// buffer holds a frame or a violation, appending bytes changes nothing.
pub proof fn lemma_parse_stable(buf: Seq<u8>, more: Seq<u8>)
    requires
        parse_one(buf) != Parsed::Incomplete,
    ensures
        parse_one(buf + more) == parse_one(buf),
{
    let both = buf + more;
    assert(header_value(both) == header_value(buf));
    if parse_one(buf) is Frame {
        let n: int = header_value(buf) as int;
        assert(both.subrange(4, 4 + n) =~= buf.subrange(4, 4 + n));
    }
}

} // verus!
