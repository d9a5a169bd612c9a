//! Frames in the byte stream that a client sends: as many whole frames as a
//! buffer holds, whatever the pieces in which the bytes arrived.

use vstd::prelude::*;
use crate::frame::{
    decode, frame_views, lemma_decode_extend, lemma_frame_views_push, spec_decode, DecodeError,
    Frame, FrameView, Opcode, ProtocolError,
};

verus! {

/// How a run of inbound frames ended.
#[derive(Clone, Copy, Debug, PartialEq, Eq, Structural)]
pub enum StreamEnd {
    /// What is left of the buffer is the beginning of a frame, or nothing.
    NeedMoreData,
    /// The last frame taken was a Close frame.
    CloseFrame,
    /// What is left of the buffer starts with a frame that breaks the protocol.
    Violation(ProtocolError),
}

/// What a buffer of inbound bytes holds.
pub struct Decoded {
    /// The whole frames at its start, in order, up to a Close frame.
    pub frames: Seq<FrameView>,
    /// The number of bytes that those frames take.
    pub consumed: nat,
    pub end: StreamEnd,
}

/// The frames at the start of what a client sent: frame after frame, each of
/// them masked and within the maximum, until a Close frame was taken, a frame
/// breaks the protocol or the bytes run out.
pub open spec fn decode_stream(buf: Seq<u8>, max_payload: nat) -> Decoded
    decreases buf.len(),
{
    match spec_decode(buf, max_payload, true) {
        Err(DecodeError::NeedMoreData) => Decoded {
            frames: Seq::empty(),
            consumed: 0,
            end: StreamEnd::NeedMoreData,
        },
        Err(DecodeError::Protocol(e)) => Decoded {
            frames: Seq::empty(),
            consumed: 0,
            end: StreamEnd::Violation(e),
        },
        Ok((frame, n)) => if frame.opcode == Opcode::Close {
            Decoded { frames: seq![frame], consumed: n, end: StreamEnd::CloseFrame }
        } else {
            let rest = decode_stream(buf.skip(n as int), max_payload);
            Decoded {
                frames: seq![frame] + rest.frames,
                consumed: n + rest.consumed,
                end: rest.end,
            }
        },
    }
}

/// Decodes the frames at the start of what a client sent, and says how many
/// bytes they take and how the run ended.
pub fn decode_frames(buf: &[u8], max_payload: usize) -> (result: (Vec<Frame>, usize, StreamEnd))
    ensures
        decode_stream(buf@, max_payload as nat) == (Decoded {
            frames: frame_views(result.0@),
            consumed: result.1 as nat,
            end: result.2,
        }),
        result.1 <= buf@.len(),
{
    let total = buf.len();
    let mut frames: Vec<Frame> = Vec::new();
    let mut pos: usize = 0;
    let mut end = StreamEnd::NeedMoreData;
    let mut done = false;
    assert(buf@.skip(0) =~= buf@);
    assert(frame_views(frames@) =~= Seq::<FrameView>::empty());
    while !done
        invariant
            total == buf@.len(),
            pos <= total,
            !done ==> end == StreamEnd::NeedMoreData,
            !done ==> ({
                let rest = decode_stream(buf@.skip(pos as int), max_payload as nat);
                decode_stream(buf@, max_payload as nat) == (Decoded {
                    frames: frame_views(frames@) + rest.frames,
                    consumed: pos as nat + rest.consumed,
                    end: rest.end,
                })
            }),
            done ==> decode_stream(buf@, max_payload as nat) == (Decoded {
                frames: frame_views(frames@),
                consumed: pos as nat,
                end,
            }),
        decreases (if done { 0 } else { 1 + total - pos }),
    {
        let ghost tail = buf@.skip(pos as int);
        let ghost before = frame_views(frames@);
        let window = vstd::slice::slice_subrange(buf, pos, total);
        assert(window@ =~= tail);
        match decode(window, max_payload, true) {
            Ok((frame, n)) => {
                let is_close = match frame.opcode {
                    Opcode::Close => true,
                    _ => false,
                };
                proof {
                    lemma_frame_views_push(frames@, frame);
                    assert(before + seq![frame@] =~= before.push(frame@));
                    assert(tail.skip(n as int) =~= buf@.skip(pos + n));
                    if !is_close {
                        let rest = decode_stream(tail.skip(n as int), max_payload as nat);
                        assert(before + (seq![frame@] + rest.frames) =~= before.push(frame@)
                            + rest.frames);
                    }
                }
                pos = pos + n;
                frames.push(frame);
                if is_close {
                    end = StreamEnd::CloseFrame;
                    done = true;
                }
            },
            Err(DecodeError::NeedMoreData) => {
                assert(before + Seq::<FrameView>::empty() =~= before);
                done = true;
            },
            Err(DecodeError::Protocol(e)) => {
                assert(before + Seq::<FrameView>::empty() =~= before);
                end = StreamEnd::Violation(e);
                done = true;
            },
        }
    }
    (frames, pos, end)
}

/// What a run of inbound frames is made of and what it leaves: every frame
/// in it was masked and within the maximum, only the last can be a Close
/// frame, and what is left of the buffer is what ended the run.
pub proof fn lemma_decode_stream_rest(buf: Seq<u8>, max_payload: nat)
    ensures
        ({
            let decoded = decode_stream(buf, max_payload);
            let rest = buf.skip(decoded.consumed as int);
            &&& decoded.consumed <= buf.len()
            &&& forall|i: int|
                0 <= i < decoded.frames.len() ==> {
                    &&& (#[trigger] decoded.frames[i]).mask is Some
                    &&& decoded.frames[i].payload.len() <= max_payload
                    &&& i < decoded.frames.len() - 1 ==> decoded.frames[i].opcode != Opcode::Close
                }
            &&& match decoded.end {
                StreamEnd::NeedMoreData => spec_decode(rest, max_payload, true) == Err::<
                    (FrameView, nat),
                    DecodeError,
                >(DecodeError::NeedMoreData),
                StreamEnd::Violation(e) => spec_decode(rest, max_payload, true) == Err::<
                    (FrameView, nat),
                    DecodeError,
                >(DecodeError::Protocol(e)),
                StreamEnd::CloseFrame => decoded.frames.len() > 0 && decoded.frames.last().opcode
                    == Opcode::Close,
            }
        }),
    decreases buf.len(),
{
    match spec_decode(buf, max_payload, true) {
        Ok((frame, n)) => {
            if frame.opcode != Opcode::Close {
                let tail = buf.skip(n as int);
                lemma_decode_stream_rest(tail, max_payload);
                let rest = decode_stream(tail, max_payload);
                assert(tail.skip(rest.consumed as int) =~= buf.skip((n + rest.consumed) as int));
            }
        },
        Err(_) => {
            assert(buf.skip(0) =~= buf);
        },
    }
}

/// Bytes may arrive in any pieces: the frames of a buffer and of what comes
/// behind it are the frames of the two together, as long as the buffer alone
/// ended in a call for more data. A run that a Close frame or a violation
/// ended stays as it is, whatever comes behind.
pub proof fn lemma_decode_stream_extend(buf: Seq<u8>, more: Seq<u8>, max_payload: nat)
    ensures
        ({
            let first = decode_stream(buf, max_payload);
            let second = decode_stream(buf.skip(first.consumed as int) + more, max_payload);
            decode_stream(buf + more, max_payload) == if first.end == StreamEnd::NeedMoreData {
                Decoded {
                    frames: first.frames + second.frames,
                    consumed: first.consumed + second.consumed,
                    end: second.end,
                }
            } else {
                first
            }
        }),
    decreases buf.len(),
{
    let first = decode_stream(buf, max_payload);
    let second = decode_stream(buf.skip(first.consumed as int) + more, max_payload);
    match spec_decode(buf, max_payload, true) {
        Ok((frame, n)) => {
            lemma_decode_extend(buf, more, max_payload, true);
            if frame.opcode != Opcode::Close {
                let tail = buf.skip(n as int);
                lemma_decode_stream_extend(tail, more, max_payload);
                lemma_decode_stream_rest(tail, max_payload);
                let rest = decode_stream(tail, max_payload);
                assert((buf + more).skip(n as int) =~= tail + more);
                assert(tail.skip(rest.consumed as int) =~= buf.skip((n + rest.consumed) as int));
                assert(seq![frame] + (rest.frames + second.frames) =~= (seq![frame] + rest.frames)
                    + second.frames);
            }
        },
        Err(DecodeError::Protocol(e)) => {
            lemma_decode_extend(buf, more, max_payload, true);
        },
        Err(DecodeError::NeedMoreData) => {
            assert(buf.skip(0) =~= buf);
            assert(Seq::<FrameView>::empty() + second.frames =~= second.frames);
        },
    }
}

} // verus!
