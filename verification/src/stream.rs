//! A byte stream as a run of frames: what a receiver that decodes greedily
//! finds in a buffer, and the bytes an echo server owes in return.

use vstd::prelude::*;
use crate::codec::{encoded, parse_one, Parsed, MAX_PAYLOAD};
use crate::codec::{lemma_decode_encoded_then, lemma_frame_is_encoded, lemma_parse_stable};

verus! {

/// Outcome of decoding a buffer front to back for as long as whole frames
/// are found.
pub struct Drained {
    /// Payloads of the frames found, in arrival order.
    pub frames: Seq<Seq<u8>>,
    /// The bytes left where decoding stopped.
    pub rest: Seq<u8>,
    /// Whether decoding stopped at an oversized announcement.
    pub violated: bool,
}

/// Decodes `buf` greedily: frame after frame until the front of what is
/// left is incomplete or a violation.
pub open spec fn drain(buf: Seq<u8>) -> Drained
    decreases buf.len(),
{
    match parse_one(buf) {
        Parsed::Incomplete => Drained { frames: Seq::empty(), rest: buf, violated: false },
        Parsed::Violation => Drained { frames: Seq::empty(), rest: buf, violated: true },
        Parsed::Frame { payload, consumed } => {
            if 0 < consumed <= buf.len() {
                let later = drain(buf.skip(consumed as int));
                Drained {
                    frames: seq![payload] + later.frames,
                    rest: later.rest,
                    violated: later.violated,
                }
            } else {
                Drained { frames: Seq::empty(), rest: buf, violated: false }
            }
        },
    }
}

/// The bytes an echo server sends for `frames`: one frame per payload, in
/// the same order.
pub open spec fn responses(frames: Seq<Seq<u8>>) -> Seq<u8>
    decreases frames.len(),
{
    if frames.len() == 0 {
        Seq::empty()
    } else {
        responses(frames.drop_last()) + encoded(frames.last())
    }
}

/// All the chunks of a delivery, joined in order into one stream.
pub open spec fn joined(chunks: Seq<Seq<u8>>) -> Seq<u8>
    decreases chunks.len(),
{
    if chunks.len() == 0 {
        Seq::empty()
    } else {
        joined(chunks.drop_last()) + chunks.last()
    }
}

/// Decoding a stream that arrives chunk by chunk: each chunk is appended to
/// what the previous ones left over and the result is drained again. A
/// violation ends the delivery; later chunks are not looked at.
pub open spec fn delivered(chunks: Seq<Seq<u8>>) -> Drained
    decreases chunks.len(),
{
    if chunks.len() == 0 {
        Drained { frames: Seq::empty(), rest: Seq::empty(), violated: false }
    } else {
        let before = delivered(chunks.drop_last());
        if before.violated {
            before
        } else {
            let now = drain(before.rest + chunks.last());
            Drained {
                frames: before.frames + now.frames,
                rest: now.rest,
                violated: now.violated,
            }
        }
    }
}

/// The response owed for a single frame is the frame for the same payload.
pub proof fn lemma_responses_single(payload: Seq<u8>)
    ensures
        responses(seq![payload]) == encoded(payload),
{
    assert(seq![payload].drop_last() =~= Seq::<Seq<u8>>::empty());
    assert(responses(Seq::<Seq<u8>>::empty()) =~= Seq::<u8>::empty());
    assert(responses(seq![payload]) =~= encoded(payload));
}

/// The responses owed for at least one frame are not empty.
pub proof fn lemma_responses_nonempty(frames: Seq<Seq<u8>>)
    requires
        frames.len() > 0,
    ensures
        responses(frames).len() > 0,
{
}

/// The responses for two runs of frames are the responses for the first
/// followed by those for the second.
pub proof fn lemma_responses_concat(first: Seq<Seq<u8>>, second: Seq<Seq<u8>>)
    ensures
        responses(first + second) == responses(first) + responses(second),
    decreases second.len(),
{
    if second.len() == 0 {
        assert(first + second =~= first);
    } else {
        lemma_responses_concat(first, second.drop_last());
        assert((first + second).drop_last() =~= first + second.drop_last());
        assert((first + second).last() == second.last());
    }
}

/// Every payload that draining finds respects the payload limit.
pub proof fn lemma_drained_frames_bounded(buf: Seq<u8>)
    ensures
        forall|i: int|
            0 <= i < drain(buf).frames.len() ==> (#[trigger] drain(buf).frames[i]).len()
                <= MAX_PAYLOAD,
    decreases buf.len(),
{
    if parse_one(buf) is Frame {
        lemma_frame_is_encoded(buf);
        let payload = parse_one(buf)->payload;
        let n = parse_one(buf)->consumed as int;
        let later = drain(buf.skip(n));
        lemma_drained_frames_bounded(buf.skip(n));
        assert forall|i: int| 0 <= i < drain(buf).frames.len() implies (#[trigger] drain(
            buf,
        ).frames[i]).len() <= MAX_PAYLOAD by {
            if i > 0 {
                assert(drain(buf).frames[i] == later.frames[i - 1]);
            }
        }
    }
}

/// Draining stops only where no whole frame is in sight: unless it met a
/// violation, what is left is incomplete and shorter than one full-size
/// frame.
pub proof fn lemma_drained_rest_incomplete(buf: Seq<u8>)
    ensures
        drain(buf).violated ==> parse_one(drain(buf).rest) == Parsed::Violation,
        !drain(buf).violated ==> parse_one(drain(buf).rest) == Parsed::Incomplete,
        !drain(buf).violated ==> drain(buf).rest.len() < 4 + MAX_PAYLOAD,
    decreases buf.len(),
{
    if parse_one(buf) is Frame {
        lemma_frame_is_encoded(buf);
        let n = parse_one(buf)->consumed as int;
        lemma_drained_rest_incomplete(buf.skip(n));
    }
}

/// An echo server repeats its input: the responses for the frames found in
/// a buffer, followed by what draining left over, are the buffer itself.
pub proof fn lemma_echo_repeats_input(buf: Seq<u8>)
    ensures
        responses(drain(buf).frames) + drain(buf).rest == buf,
    decreases buf.len(),
{
    if parse_one(buf) is Frame {
        lemma_frame_is_encoded(buf);
        let payload = parse_one(buf)->payload;
        let n = parse_one(buf)->consumed as int;
        let later = drain(buf.skip(n));
        lemma_echo_repeats_input(buf.skip(n));
        lemma_responses_concat(seq![payload], later.frames);
        lemma_responses_single(payload);
        assert(buf =~= buf.subrange(0, n) + buf.skip(n));
        assert(responses(drain(buf).frames) + drain(buf).rest =~= buf);
    } else {
        assert(responses(drain(buf).frames) + drain(buf).rest =~= buf);
    }
}

/// Echo: a buffer that holds exactly the frame for `payload` drains to that
/// one payload with nothing left over, and the response owed is that same
/// frame.
pub proof fn lemma_echo_one(payload: Seq<u8>)
    requires
        payload.len() <= MAX_PAYLOAD,
    ensures
        drain(encoded(payload)) == (Drained {
            frames: seq![payload],
            rest: Seq::empty(),
            violated: false,
        }),
        responses(seq![payload]) == encoded(payload),
{
    let buf = encoded(payload);
    lemma_decode_encoded_then(payload, Seq::empty());
    assert(buf + Seq::<u8>::empty() =~= buf);
    let n = 4 + payload.len() as int;
    assert(buf.skip(n) =~= Seq::<u8>::empty());
    assert(parse_one(Seq::<u8>::empty()) == Parsed::Incomplete);
    assert(drain(Seq::<u8>::empty()).frames =~= Seq::<Seq<u8>>::empty());
    assert(drain(buf).frames =~= seq![payload]);
    assert(drain(buf).rest =~= Seq::<u8>::empty());
    lemma_responses_single(payload);
}

/// Pipelining: two frames sent back to back drain to their two payloads in
/// sending order, and the responses owed are the two frames in that order.
pub proof fn lemma_pipelined_pair(first: Seq<u8>, second: Seq<u8>)
    requires
        first.len() <= MAX_PAYLOAD,
        second.len() <= MAX_PAYLOAD,
    ensures
        drain(encoded(first) + encoded(second)) == (Drained {
            frames: seq![first, second],
            rest: Seq::empty(),
            violated: false,
        }),
        responses(seq![first, second]) == encoded(first) + encoded(second),
{
    let one = encoded(first);
    let two = encoded(second);
    lemma_echo_one(first);
    lemma_echo_one(second);
    lemma_drain_append(one, two);
    assert(drain(one).rest + two =~= two);
    assert(seq![first] + seq![second] =~= seq![first, second]);
    lemma_responses_concat(seq![first], seq![second]);
}

/// Bytes that arrive later never change what was already decoded: draining
/// `early + late` finds the frames of `early` first and then whatever
/// draining the leftover of `early` followed by `late` finds. After a
/// violation in `early`, nothing that follows is decoded.
pub proof fn lemma_drain_append(early: Seq<u8>, late: Seq<u8>)
    ensures
        !drain(early).violated ==> drain(early + late) == (Drained {
            frames: drain(early).frames + drain(drain(early).rest + late).frames,
            rest: drain(drain(early).rest + late).rest,
            violated: drain(drain(early).rest + late).violated,
        }),
        drain(early).violated ==> drain(early + late).violated && drain(early + late).frames
            == drain(early).frames,
    decreases early.len(),
{
    let both = early + late;
    match parse_one(early) {
        Parsed::Incomplete => {
            assert(drain(early).frames + drain(both).frames =~= drain(both).frames);
        },
        Parsed::Violation => {
            lemma_parse_stable(early, late);
        },
        Parsed::Frame { payload, consumed } => {
            lemma_parse_stable(early, late);
            lemma_frame_is_encoded(early);
            let n = consumed as int;
            assert(both.skip(n) =~= early.skip(n) + late);
            lemma_drain_append(early.skip(n), late);
            let head = drain(early.skip(n));
            if !head.violated {
                let tail = drain(head.rest + late);
                assert(seq![payload] + (head.frames + tail.frames) =~= (seq![payload]
                    + head.frames) + tail.frames);
            }
        },
    }
}

/// Partial delivery: however a stream is cut into chunks, decoding it chunk
/// by chunk finds the same frames, and so owes the same responses, as
/// decoding it in one piece; a violation is met in one case exactly when it
/// is met in the other, and without one the same bytes are left over.
pub proof fn lemma_chunking_is_invisible(chunks: Seq<Seq<u8>>)
    ensures
        delivered(chunks).frames == drain(joined(chunks)).frames,
        responses(delivered(chunks).frames) == responses(drain(joined(chunks)).frames),
        delivered(chunks).violated == drain(joined(chunks)).violated,
        !delivered(chunks).violated ==> delivered(chunks).rest == drain(joined(chunks)).rest,
    decreases chunks.len(),
{
    if chunks.len() == 0 {
        assert(drain(Seq::<u8>::empty()).frames =~= Seq::<Seq<u8>>::empty());
    } else {
        lemma_chunking_is_invisible(chunks.drop_last());
        lemma_drain_append(joined(chunks.drop_last()), chunks.last());
    }
}

} // verus!
