//! Length-delimited message frames.
//!
//! A frame is a payload behind its length, four bytes in big-endian order.

use crate::buffer::{
    self, advance, buffer_len, buffer_slice, bytes_slice, extend_from_slice, new_buffer, put_u32,
    reserve_ahead, reserve_for_frame, split_to,
};
use crate::decimal::{self, append_decimal};
use bytes::{Bytes, BytesMut};
use vstd::prelude::*;
use vstd::string::*;

verus! {

/// Maximum number of bytes to pre-allocate when decoding a frame: 1 MB.
pub const MAX_PREALLOCATION: usize = 0x10_0000;

/// Default maximum frame length: 8 MB.
pub const DEFAULT_MAX_FRAME_LENGTH: usize = 0x80_0000;

/// Number of bytes of a frame's length prefix.
pub const LENGTH_PREFIX: usize = 4;

/// A length-delimited codec with a 4-byte big-endian length prefix. It limits
/// the frames that it reads and writes to a maximum payload length.
pub struct MessageFrameCodec {
    state: DecodeState,
    max_frame_length: usize,
}

/// How far the decoder has come with the frame that it is reading.
#[derive(Debug, Clone, Copy)]
enum DecodeState {
    /// Waiting for the 4-byte length prefix.
    Head,
    /// Accumulating body bytes; stores the total expected frame length.
    Data(usize),
}

/// Whether the peer's frame or the caller's own is at fault.
#[derive(Debug, Clone, Copy, PartialEq, Eq, Structural)]
pub enum FrameErrorKind {
    /// A received length prefix announces a frame that is too long.
    InvalidData,
    /// A payload to be sent is too long.
    InvalidInput,
}

/// A frame exceeds the maximum frame length.
#[derive(Debug, Clone, Copy, PartialEq, Eq, Structural)]
pub struct FrameError {
    pub kind: FrameErrorKind,
    /// The length of the frame's payload.
    pub length: usize,
    /// The limit that it exceeds.
    pub max_frame_length: usize,
}

impl FrameError {
    /// The error in words.
    pub fn message(&self) -> (text: String)
        ensures
            text@ == "frame of length "@ + decimal::decimal(self.length as nat)
                + " exceeds max frame length of "@ + decimal::decimal(
                self.max_frame_length as nat,
            ),
    {
        let mut text = String::from_str("frame of length ");
        append_decimal(&mut text, self.length);
        text.append(" exceeds max frame length of ");
        append_decimal(&mut text, self.max_frame_length);
        text
    }
}

/// What of a network's configuration concerns its frames.
#[derive(Debug, Clone, Copy)]
pub struct Config {
    /// The maximum frame length, if it is not the default.
    pub max_frame_size: Option<usize>,
}

impl Config {
    /// The maximum frame length, if it is not the default.
    pub fn max_frame_size(&self) -> (size: Option<usize>)
        ensures
            size == self.max_frame_size,
    {
        self.max_frame_size
    }
}

/// Returns a fully configured message frame codec for writing/reading serialized
/// frames to/from a socket.
pub fn network_message_frame_codec(config: &Config) -> (codec: MessageFrameCodec)
    ensures
        codec.pending() == None::<nat>,
        codec.max_frame_length() == (match config.max_frame_size {
            Some(size) => size,
            None => DEFAULT_MAX_FRAME_LENGTH,
        }),
        DEFAULT_MAX_FRAME_LENGTH == 8 * 1024 * 1024,
{
    let max_frame_length: usize = config.max_frame_size().unwrap_or(DEFAULT_MAX_FRAME_LENGTH);
    MessageFrameCodec::new(max_frame_length)
}

/// What the decoder makes of the bytes that it has.
pub enum Outcome {
    /// More bytes are needed.
    Incomplete,
    /// A whole frame, with this payload.
    Frame(Seq<u8>),
    /// A length prefix that announces this many bytes, over the limit.
    TooLong(nat),
}

/// An outcome, with what the decoder knows and what is left of the bytes
/// afterwards.
pub struct Decoding {
    pub outcome: Outcome,
    /// The length of the frame whose prefix has been read, if there is one.
    pub pending: Option<nat>,
    pub rest: Seq<u8>,
}

/// A payload of `len` bytes taken off the front of `src`, if it is all there.
pub open spec fn take_payload(len: nat, src: Seq<u8>) -> Decoding {
    if src.len() < len {
        Decoding { outcome: Outcome::Incomplete, pending: Some(len), rest: src }
    } else {
        Decoding {
            outcome: Outcome::Frame(src.take(len as int)),
            pending: None,
            rest: src.skip(len as int),
        }
    }
}

/// One step of decoding: at most one frame off the front of `src`, for a decoder
/// that has read a prefix announcing `pending` bytes or waits for a prefix.
pub open spec fn decoding(pending: Option<nat>, max: nat, src: Seq<u8>) -> Decoding {
    match pending {
        Some(len) => take_payload(len, src),
        None => if src.len() < LENGTH_PREFIX {
            Decoding { outcome: Outcome::Incomplete, pending: None, rest: src }
        } else {
            let len = buffer::be_value(src);
            let body = src.skip(LENGTH_PREFIX as int);
            if len > max {
                Decoding { outcome: Outcome::TooLong(len), pending: None, rest: body }
            } else {
                take_payload(len, body)
            }
        },
    }
}

/// The bytes of a frame on the wire. The prefix is the payload's length modulo
/// 2^32, which is the length for every payload that a prefix can announce.
pub open spec fn frame_bytes(payload: Seq<u8>) -> Seq<u8> {
    buffer::be_bytes(payload.len() % 0x1_0000_0000) + payload
}

/// How many bytes to reserve for `missing` bytes that a peer has announced: all
/// of them, up to [`MAX_PREALLOCATION`].
pub fn preallocation(missing: usize) -> (to_reserve: usize)
    ensures
        to_reserve == vstd::math::min(missing as int, MAX_PREALLOCATION as int),
        to_reserve <= missing,
        to_reserve <= 1024 * 1024,
        to_reserve == missing || to_reserve == 1024 * 1024,
{
    if missing < MAX_PREALLOCATION {
        missing
    } else {
        MAX_PREALLOCATION
    }
}

impl MessageFrameCodec {
    /// The length announced by the prefix that was read last, while its payload
    /// is awaited.
    pub closed spec fn pending(self) -> Option<nat> {
        match self.state {
            DecodeState::Head => None,
            DecodeState::Data(len) => Some(len as nat),
        }
    }

    /// The longest payload that the codec reads or writes.
    pub closed spec fn max_frame_length(self) -> usize {
        self.max_frame_length
    }

    /// An awaited payload is not empty and is within the limit.
    #[verifier::type_invariant]
    spec fn valid(self) -> bool {
        self.state matches DecodeState::Data(len) ==> 0 < len <= self.max_frame_length
    }

    /// A codec that waits for a frame.
    pub fn new(max_frame_length: usize) -> (codec: Self)
        ensures
            codec.pending() == None::<nat>,
            codec.max_frame_length() == max_frame_length,
    {
        Self { state: DecodeState::Head, max_frame_length }
    }

    /// Takes the next frame off the front of `src`, if all of it is there.
    ///
    /// A prefix is taken off as soon as it is there. Memory is reserved for what
    /// is missing, as [`preallocation`] says: never for more than
    /// [`MAX_PREALLOCATION`] bytes, whatever length a prefix announces. How much
    /// the buffer has allocated afterwards is left unsaid.
    pub fn decode(&mut self, src: &mut BytesMut) -> (result: Result<Option<BytesMut>, FrameError>)
        requires
            buffer::bytes_mut_contents(*old(src)).len() + MAX_PREALLOCATION <= isize::MAX,
        ensures
            final(self).max_frame_length() == old(self).max_frame_length(),
            final(self).pending() matches Some(len) ==> 0 < len <= final(self).max_frame_length(),
            ({
                let done = decoding(
                    old(self).pending(),
                    old(self).max_frame_length() as nat,
                    buffer::bytes_mut_contents(*old(src)),
                );
                &&& final(self).pending() == done.pending
                &&& buffer::bytes_mut_contents(*final(src)) == done.rest
                &&& match done.outcome {
                    Outcome::Incomplete => result matches Ok(None),
                    Outcome::Frame(payload) => {
                        &&& result matches Ok(Some(frame))
                        &&& buffer::bytes_mut_contents(frame) == payload
                    },
                    Outcome::TooLong(len) => {
                        &&& result matches Err(error)
                        &&& error.kind == FrameErrorKind::InvalidData
                        &&& error.length == len
                        &&& error.max_frame_length == old(self).max_frame_length()
                    },
                }
            }),
    {
        proof {
            use_type_invariant(&*self);
        }
        let len: usize = match self.state {
            DecodeState::Head => {
                let buffered: usize = buffer_len(src);
                if buffered < LENGTH_PREFIX {
                    reserve_ahead(src, LENGTH_PREFIX - buffered);
                    return Ok(None);
                }
                let len: usize = read_prefix(buffer_slice(src));
                advance(src, LENGTH_PREFIX);
                if len > self.max_frame_length {
                    return Err(
                        FrameError {
                            kind: FrameErrorKind::InvalidData,
                            length: len,
                            max_frame_length: self.max_frame_length,
                        },
                    );
                }
                if len == 0 {
                    return Ok(Some(new_buffer()));
                }
                reserve_ahead(src, preallocation(len));
                self.state = DecodeState::Data(len);
                len
            },
            DecodeState::Data(len) => len,
        };
        let buffered: usize = buffer_len(src);
        if buffered < len {
            reserve_ahead(src, preallocation(len - buffered));
            return Ok(None);
        }
        self.state = DecodeState::Head;
        Ok(Some(split_to(src, len)))
    }

    /// Appends `data` to `dst` as one frame, if it is within the limit.
    pub fn encode(&mut self, data: Bytes, dst: &mut BytesMut) -> (result: Result<(), FrameError>)
        requires
            buffer::bytes_contents(data).len() <= old(self).max_frame_length() ==>
                buffer::bytes_mut_contents(*old(dst)).len() + LENGTH_PREFIX
                + buffer::bytes_contents(data).len() <= isize::MAX,
        ensures
            *final(self) == *old(self),
            ({
                let payload = buffer::bytes_contents(data);
                if payload.len() <= old(self).max_frame_length() {
                    &&& result is Ok
                    &&& buffer::bytes_mut_contents(*final(dst))
                        == buffer::bytes_mut_contents(*old(dst)) + frame_bytes(payload)
                } else {
                    &&& result matches Err(error)
                    &&& error.kind == FrameErrorKind::InvalidInput
                    &&& error.length == payload.len()
                    &&& error.max_frame_length == old(self).max_frame_length()
                    &&& buffer::bytes_mut_contents(*final(dst))
                        == buffer::bytes_mut_contents(*old(dst))
                }
            }),
    {
        let payload = bytes_slice(&data);
        let len: usize = payload.len();
        if len > self.max_frame_length {
            return Err(
                FrameError {
                    kind: FrameErrorKind::InvalidInput,
                    length: len,
                    max_frame_length: self.max_frame_length,
                },
            );
        }
        reserve_for_frame(dst, payload);
        put_u32(dst, (len as u64 % 0x1_0000_0000) as u32);
        extend_from_slice(dst, payload);
        Ok(())
    }
}

/// The length that a prefix announces.
fn read_prefix(prefix: &[u8]) -> (len: usize)
    requires
        prefix@.len() >= LENGTH_PREFIX,
    ensures
        len == buffer::be_value(prefix@),
{
    let b0: u32 = prefix[0] as u32;
    let b1: u32 = prefix[1] as u32;
    let b2: u32 = prefix[2] as u32;
    let b3: u32 = prefix[3] as u32;
    (b0 * 0x100_0000 + b1 * 0x1_0000 + b2 * 0x100 + b3) as usize
}

/// What a decoder has made of a stretch of bytes when it can go no further.
pub struct Drained {
    /// The payloads of the frames, in order.
    pub frames: Seq<Seq<u8>>,
    /// The length that a prefix announced over the limit, if one did.
    pub too_long: Option<nat>,
    pub pending: Option<nat>,
    pub rest: Seq<u8>,
}

/// Decodes `src` step by step until a step gives no frame.
pub open spec fn drained(pending: Option<nat>, max: nat, src: Seq<u8>) -> Drained
    decreases src.len(), pending.is_some() as nat,
{
    let step = decoding(pending, max, src);
    match step.outcome {
        Outcome::Incomplete => Drained {
            frames: seq![],
            too_long: None,
            pending: step.pending,
            rest: step.rest,
        },
        Outcome::TooLong(len) => Drained {
            frames: seq![],
            too_long: Some(len),
            pending: step.pending,
            rest: step.rest,
        },
        Outcome::Frame(payload) => {
            let more = drained(step.pending, max, step.rest);
            Drained { frames: seq![payload] + more.frames, ..more }
        },
    }
}

/// The frames of `payloads` one after the other.
pub open spec fn stream_bytes(payloads: Seq<Seq<u8>>) -> Seq<u8>
    decreases payloads.len(),
{
    if payloads.len() == 0 {
        seq![]
    } else {
        frame_bytes(payloads[0]) + stream_bytes(payloads.drop_first())
    }
}

/// Decoding gives back what was encoded, and leaves what follows it: the payload
/// of a frame within the limit is what the next step yields.
pub proof fn decoding_gives_back_the_payload(max: nat, payload: Seq<u8>, rest: Seq<u8>)
    requires
        payload.len() <= max,
        payload.len() < 0x1_0000_0000,
    ensures
        decoding(None, max, frame_bytes(payload) + rest) == (Decoding {
            outcome: Outcome::Frame(payload),
            pending: None,
            rest,
        }),
{
    let len = payload.len();
    let prefix = buffer::be_bytes(len);
    assert(len % 0x1_0000_0000 == len);
    assert(prefix.len() == LENGTH_PREFIX && buffer::be_value(prefix + (payload + rest)) == len) by {
        buffer::be_value_of_be_bytes(len, payload + rest);
    }
    decoding_after_a_prefix(max, prefix, payload, rest);
    appending_is_associative(prefix, payload, rest);
}

proof fn appending_is_associative(a: Seq<u8>, b: Seq<u8>, c: Seq<u8>)
    ensures
        (a + b) + c == a + (b + c),
{
    assert((a + b) + c =~= a + (b + c));
}

/// The payload behind a prefix that announces it.
proof fn decoding_after_a_prefix(max: nat, prefix: Seq<u8>, payload: Seq<u8>, rest: Seq<u8>)
    requires
        payload.len() <= max,
        prefix.len() == LENGTH_PREFIX,
        buffer::be_value(prefix + (payload + rest)) == payload.len(),
    ensures
        decoding(None, max, prefix + (payload + rest)) == (Decoding {
            outcome: Outcome::Frame(payload),
            pending: None,
            rest,
        }),
{
    let body = payload + rest;
    assert((prefix + body).skip(LENGTH_PREFIX as int) =~= body);
    assert(body.take(payload.len() as int) =~= payload);
    assert(body.skip(payload.len() as int) =~= rest);
}

/// A frame whose prefix announces more than the limit is rejected, whatever
/// follows the prefix, and the prefix is gone.
pub proof fn decoding_rejects_long_frames(max: nat, len: nat, rest: Seq<u8>)
    requires
        max < len < 0x1_0000_0000,
    ensures
        decoding(None, max, buffer::be_bytes(len) + rest) == (Decoding {
            outcome: Outcome::TooLong(len),
            pending: None,
            rest,
        }),
{
    buffer::be_value_of_be_bytes(len, rest);
    assert((buffer::be_bytes(len) + rest).skip(LENGTH_PREFIX as int) =~= rest);
}

/// Bytes may arrive in pieces: a step that found a frame incomplete, repeated
/// when more bytes are there, ends as one step over all the bytes does.
pub proof fn decoding_resumes(pending: Option<nat>, max: nat, first: Seq<u8>, more: Seq<u8>)
    requires
        decoding(pending, max, first).outcome is Incomplete,
    ensures
        ({
            let so_far = decoding(pending, max, first);
            decoding(so_far.pending, max, so_far.rest + more) == decoding(
                pending,
                max,
                first + more,
            )
        }),
{
    if pending is None && first.len() >= LENGTH_PREFIX {
        assert((first + more).skip(LENGTH_PREFIX as int) =~= first.skip(LENGTH_PREFIX as int)
            + more);
    }
}

/// A step that ended with a frame or an error ends the same way when more bytes
/// are there, and leaves those bytes.
pub proof fn decoding_ignores_what_follows(
    pending: Option<nat>,
    max: nat,
    src: Seq<u8>,
    more: Seq<u8>,
)
    requires
        !(decoding(pending, max, src).outcome is Incomplete),
    ensures
        ({
            let alone = decoding(pending, max, src);
            decoding(pending, max, src + more) == (Decoding { rest: alone.rest + more, ..alone })
        }),
{
    let body = if pending is None {
        src.skip(LENGTH_PREFIX as int)
    } else {
        src
    };
    if pending is None {
        assert((src + more).skip(LENGTH_PREFIX as int) =~= body + more);
    }
    let len = match pending {
        Some(len) => len,
        None => buffer::be_value(src),
    };
    if len <= body.len() {
        assert((body + more).take(len as int) =~= body.take(len as int));
        assert((body + more).skip(len as int) =~= body.skip(len as int) + more);
    }
}

/// However the bytes of a connection are cut into pieces, the same frames come
/// out: decoding `first` and then what is left of it with `more` yields the
/// frames of `first + more`, and ends the same way.
pub proof fn draining_in_pieces(pending: Option<nat>, max: nat, first: Seq<u8>, more: Seq<u8>)
    requires
        drained(pending, max, first).too_long is None,
    ensures
        ({
            let so_far = drained(pending, max, first);
            let then = drained(so_far.pending, max, so_far.rest + more);
            drained(pending, max, first + more) == (Drained {
                frames: so_far.frames + then.frames,
                ..then
            })
        }),
    decreases first.len(), pending.is_some() as nat,
{
    let step = decoding(pending, max, first);
    if step.outcome is Incomplete {
        decoding_resumes(pending, max, first, more);
        let so_far = drained(pending, max, first);
        let then = drained(so_far.pending, max, so_far.rest + more);
        assert(so_far.frames + then.frames =~= then.frames);
        drained_depends_on_the_step(pending, max, first + more, so_far.pending, so_far.rest + more);
    } else {
        decoding_ignores_what_follows(pending, max, first, more);
        draining_in_pieces(step.pending, max, step.rest, more);
        let so_far = drained(step.pending, max, step.rest);
        let then = drained(so_far.pending, max, so_far.rest + more);
        let payload = step.outcome->Frame_0;
        assert(seq![payload] + (so_far.frames + then.frames) =~= (seq![payload] + so_far.frames)
            + then.frames);
    }
}

/// Two decoders whose next steps are the same drain alike.
proof fn drained_depends_on_the_step(
    pending1: Option<nat>,
    max: nat,
    src1: Seq<u8>,
    pending2: Option<nat>,
    src2: Seq<u8>,
)
    requires
        decoding(pending1, max, src1) == decoding(pending2, max, src2),
    ensures
        drained(pending1, max, src1) == drained(pending2, max, src2),
{
}

/// Frames come out in the order in which they were written: draining the frames
/// of `payloads`, each within the limit, yields `payloads` and leaves nothing.
pub proof fn draining_gives_back_the_payloads(max: nat, payloads: Seq<Seq<u8>>)
    requires
        forall|i: int|
            0 <= i < payloads.len() ==> (#[trigger] payloads[i]).len() <= max
                && payloads[i].len() < 0x1_0000_0000,
    ensures
        drained(None, max, stream_bytes(payloads)) == (Drained {
            frames: payloads,
            too_long: None,
            pending: None,
            rest: seq![],
        }),
    decreases payloads.len(),
{
    if payloads.len() == 0 {
        assert(payloads =~= seq![]);
    } else {
        let rest = payloads.drop_first();
        decoding_gives_back_the_payload(max, payloads[0], stream_bytes(rest));
        assert forall|i: int| 0 <= i < rest.len() implies (#[trigger] rest[i]).len() <= max
            && rest[i].len() < 0x1_0000_0000 by {
            assert(rest[i] == payloads[i + 1]);
        }
        draining_gives_back_the_payloads(max, rest);
        assert(seq![payloads[0]] + rest =~= payloads);
    }
}

/// How many of `payloads` have their frames wholly in the first `len` bytes of their
/// stream.
pub open spec fn whole_frames(payloads: Seq<Seq<u8>>, len: nat) -> nat
    decreases payloads.len(),
{
    if payloads.len() == 0 || len < frame_bytes(payloads[0]).len() {
        0
    } else {
        1 + whole_frames(
            payloads.drop_first(),
            (len - frame_bytes(payloads[0]).len()) as nat,
        )
    }
}

/// The frames that count as whole are in the first `len` bytes, and the next one is
/// not.
pub proof fn whole_frames_fit(payloads: Seq<Seq<u8>>, len: nat)
    ensures
        ({
            let count = whole_frames(payloads, len);
            &&& count <= payloads.len()
            &&& stream_bytes(payloads.take(count as int)).len() <= len
            &&& count < payloads.len() ==> len < stream_bytes(payloads.take(count as int + 1)).len()
        }),
    decreases payloads.len(),
{
    let count = whole_frames(payloads, len);
    if payloads.len() > 0 {
        let rest = payloads.drop_first();
        assert(rest.take(0).len() == 0);
        stream_of_the_first(payloads, 1);
        if count > 0 {
            whole_frames_fit(rest, (len - frame_bytes(payloads[0]).len()) as nat);
            stream_of_the_first(payloads, count);
            if count < payloads.len() {
                stream_of_the_first(payloads, count + 1);
            }
        }
    }
}

/// The stream of the first payloads starts with the first frame.
proof fn stream_of_the_first(payloads: Seq<Seq<u8>>, count: nat)
    requires
        0 < count <= payloads.len(),
    ensures
        stream_bytes(payloads.take(count as int)) == frame_bytes(payloads[0]) + stream_bytes(
            payloads.drop_first().take(count - 1),
        ),
{
    let first = payloads.take(count as int);
    assert(first[0] == payloads[0]);
    assert(first.drop_first() =~= payloads.drop_first().take(count - 1));
}

/// A frame comes out as soon as its last byte is there, and no earlier: draining the
/// first `len` bytes of a stream yields exactly the payloads whose frames lie wholly
/// in them.
pub proof fn frames_come_out_when_whole(max: nat, payloads: Seq<Seq<u8>>, len: nat)
    requires
        forall|i: int|
            0 <= i < payloads.len() ==> (#[trigger] payloads[i]).len() <= max
                && payloads[i].len() < 0x1_0000_0000,
        len <= stream_bytes(payloads).len(),
    ensures
        ({
            let done = drained(None, max, stream_bytes(payloads).take(len as int));
            &&& done.frames == payloads.take(whole_frames(payloads, len) as int)
            &&& done.too_long is None
        }),
    decreases payloads.len(),
{
    if payloads.len() == 0 {
        assert(payloads.take(0) =~= seq![]);
        assert(stream_bytes(payloads).take(0).len() == 0);
    } else {
        let payload = payloads[0];
        let rest = payloads.drop_first();
        let frame = frame_bytes(payload);
        let tail = stream_bytes(rest);
        if len < frame.len() {
            incomplete_frame(max, payload, tail, len);
            assert(payloads.take(0) =~= seq![]);
        } else {
            let left = (len - frame.len()) as nat;
            let count = whole_frames(rest, left);
            assert forall|i: int| 0 <= i < rest.len() implies (#[trigger] rest[i]).len() <= max
                && rest[i].len() < 0x1_0000_0000 by {
                assert(rest[i] == payloads[i + 1]);
            }
            frames_come_out_when_whole(max, rest, left);
            whole_frames_fit(rest, left);
            assert((frame + tail).take(len as int) =~= frame + tail.take(left as int));
            draining_a_frame(max, payload, tail.take(left as int));
            assert(seq![payload] + rest.take(count as int) =~= payloads.take(count as int + 1));
        }
    }
}

/// The frame at the front comes out first.
proof fn draining_a_frame(max: nat, payload: Seq<u8>, rest: Seq<u8>)
    requires
        payload.len() <= max,
        payload.len() < 0x1_0000_0000,
    ensures
        ({
            let more = drained(None, max, rest);
            drained(None, max, frame_bytes(payload) + rest) == (Drained {
                frames: seq![payload] + more.frames,
                ..more
            })
        }),
{
    decoding_gives_back_the_payload(max, payload, rest);
}

/// A frame that is not all there is incomplete.
proof fn incomplete_frame(max: nat, payload: Seq<u8>, rest: Seq<u8>, len: nat)
    requires
        payload.len() <= max,
        payload.len() < 0x1_0000_0000,
        len < frame_bytes(payload).len(),
    ensures
        decoding(None, max, (frame_bytes(payload) + rest).take(len as int)).outcome is Incomplete,
{
    let src = (frame_bytes(payload) + rest).take(len as int);
    if !(decoding(None, max, src).outcome is Incomplete) {
        let more = (frame_bytes(payload) + rest).skip(len as int);
        assert(src + more =~= frame_bytes(payload) + rest);
        decoding_ignores_what_follows(None, max, src, more);
        decoding_gives_back_the_payload(max, payload, rest);
    }
}

/// Pieces of a stream put together.
pub open spec fn joined(chunks: Seq<Seq<u8>>) -> Seq<u8>
    decreases chunks.len(),
{
    if chunks.len() == 0 {
        seq![]
    } else {
        joined(chunks.drop_last()) + chunks.last()
    }
}

/// What the last of several rounds gives. In each round a chunk is appended to what
/// is left, and decoded until no more frames come out.
pub open spec fn last_round(max: nat, chunks: Seq<Seq<u8>>) -> Drained
    decreases chunks.len(),
{
    if chunks.len() == 0 {
        Drained { frames: seq![], too_long: None, pending: None, rest: seq![] }
    } else {
        let before = last_round(max, chunks.drop_last());
        drained(before.pending, max, before.rest + chunks.last())
    }
}

/// However a stream is cut into chunks, every frame comes out in the round in which
/// its last byte arrives, and no round ends with an error. When all of the stream
/// has arrived, nothing is left and no frame is pending.
pub proof fn frames_come_out_with_their_last_byte(
    max: nat,
    payloads: Seq<Seq<u8>>,
    chunks: Seq<Seq<u8>>,
)
    requires
        forall|i: int|
            0 <= i < payloads.len() ==> (#[trigger] payloads[i]).len() <= max
                && payloads[i].len() < 0x1_0000_0000,
        chunks.len() > 0,
        joined(chunks).is_prefix_of(stream_bytes(payloads)),
    ensures
        ({
            let before = whole_frames(payloads, joined(chunks.drop_last()).len());
            let after = whole_frames(payloads, joined(chunks).len());
            let round = last_round(max, chunks);
            &&& before <= after <= payloads.len()
            &&& round.frames == payloads.subrange(before as int, after as int)
            &&& round.too_long is None
            &&& joined(chunks) == stream_bytes(payloads) ==> round.pending is None && round.rest
                == Seq::<u8>::empty()
        }),
{
    let earlier = chunks.drop_last();
    let stream = stream_bytes(payloads);
    let first = joined(earlier);
    let all = joined(chunks);
    let so_far = drained(None, max, first);
    let done = drained(None, max, all);
    let round = last_round(max, chunks);
    let before = whole_frames(payloads, first.len());
    let after = whole_frames(payloads, all.len());
    assert(first =~= stream.take(first.len() as int));
    assert(all =~= stream.take(all.len() as int));
    frames_come_out_when_whole(max, payloads, first.len());
    frames_come_out_when_whole(max, payloads, all.len());
    whole_frames_fit(payloads, first.len());
    whole_frames_fit(payloads, all.len());
    rounds_end_alike(max, payloads, earlier);
    draining_in_pieces(None, max, first, chunks.last());
    assert(so_far.frames + round.frames == done.frames);
    assert(done.frames.len() == after && so_far.frames.len() == before);
    assert(round.frames =~= done.frames.skip(before as int));
    assert(round.frames =~= payloads.subrange(before as int, after as int));
    if all == stream {
        draining_gives_back_the_payloads(max, payloads);
    }
}

/// Rounds leave the decoder as one round with all of the bytes does.
proof fn rounds_end_alike(max: nat, payloads: Seq<Seq<u8>>, chunks: Seq<Seq<u8>>)
    requires
        forall|i: int|
            0 <= i < payloads.len() ==> (#[trigger] payloads[i]).len() <= max
                && payloads[i].len() < 0x1_0000_0000,
        joined(chunks).is_prefix_of(stream_bytes(payloads)),
    ensures
        last_round(max, chunks).pending == drained(None, max, joined(chunks)).pending,
        last_round(max, chunks).rest == drained(None, max, joined(chunks)).rest,
    decreases chunks.len(),
{
    if chunks.len() > 0 {
        let first = joined(chunks.drop_last());
        let stream = stream_bytes(payloads);
        assert(first =~= stream.take(first.len() as int));
        rounds_end_alike(max, payloads, chunks.drop_last());
        frames_come_out_when_whole(max, payloads, first.len());
        draining_in_pieces(None, max, first, chunks.last());
    }
}

/// Decoding stays within the limit: a payload is at most that long, and so is one
/// that is awaited, which is not empty either. After a frame or an error nothing is
/// awaited. Bytes are only ever taken off the front.
pub proof fn decoding_stays_within_the_limit(pending: Option<nat>, max: nat, src: Seq<u8>)
    requires
        pending matches Some(len) ==> 0 < len <= max,
    ensures
        ({
            let done = decoding(pending, max, src);
            &&& done.pending matches Some(len) ==> 0 < len <= max
            &&& done.outcome matches Outcome::Frame(payload) ==> payload.len() <= max
            &&& !(done.outcome is Incomplete) ==> done.pending is None
            &&& done.rest.is_suffix_of(src)
        }),
{
}

/// A call of a codec: a decoding of some bytes, or an encoding of some payload.
pub enum Call {
    Decode(Seq<u8>),
    Encode(Seq<u8>),
}

/// What a codec that awaited `pending` bytes awaits after some calls.
pub open spec fn pending_after(pending: Option<nat>, max: nat, calls: Seq<Call>) -> Option<nat>
    decreases calls.len(),
{
    if calls.len() == 0 {
        pending
    } else {
        let before = pending_after(pending, max, calls.drop_last());
        match calls.last() {
            Call::Decode(src) => decoding(before, max, src).pending,
            Call::Encode(_) => before,
        }
    }
}

/// What the decodings among some calls give.
pub open spec fn decodings(pending: Option<nat>, max: nat, calls: Seq<Call>) -> Seq<Decoding>
    decreases calls.len(),
{
    if calls.len() == 0 {
        seq![]
    } else {
        let earlier = calls.drop_last();
        let so_far = decodings(pending, max, earlier);
        match calls.last() {
            Call::Decode(src) => so_far.push(
                decoding(pending_after(pending, max, earlier), max, src),
            ),
            Call::Encode(_) => so_far,
        }
    }
}

/// Some calls without the encodings among them.
pub open spec fn without_encodings(calls: Seq<Call>) -> Seq<Call>
    decreases calls.len(),
{
    if calls.len() == 0 {
        seq![]
    } else {
        let so_far = without_encodings(calls.drop_last());
        match calls.last() {
            Call::Decode(_) => so_far.push(calls.last()),
            Call::Encode(_) => so_far,
        }
    }
}

/// A new codec stays valid, whatever is decoded and encoded with it: it awaits
/// nothing or a payload within the limit, and every frame that it gives is within
/// the limit.
pub proof fn codec_stays_within_the_limit(max: nat, calls: Seq<Call>)
    ensures
        pending_after(None, max, calls) matches Some(len) ==> 0 < len <= max,
        forall|i: int|
            0 <= i < decodings(None, max, calls).len() ==> ((
            #[trigger] decodings(None, max, calls)[i]).outcome matches Outcome::Frame(payload)
                ==> payload.len() <= max),
    decreases calls.len(),
{
    if calls.len() > 0 {
        let earlier = calls.drop_last();
        codec_stays_within_the_limit(max, earlier);
        if let Call::Decode(src) = calls.last() {
            decoding_stays_within_the_limit(pending_after(None, max, earlier), max, src);
            let so_far = decodings(None, max, earlier);
            assert forall|i: int| 0 <= i < decodings(None, max, calls).len() implies ((
            #[trigger] decodings(None, max, calls)[i]).outcome matches Outcome::Frame(payload)
                ==> payload.len() <= max) by {
                if i < so_far.len() {
                    assert(decodings(None, max, calls)[i] == so_far[i]);
                }
            }
        }
    }
}

/// Encodings put between decodings change nothing of what these give. (Nor do
/// decodings change what an encoding gives, which depends on the limit and the
/// payload alone.)
pub proof fn encoding_disturbs_no_decoding(pending: Option<nat>, max: nat, calls: Seq<Call>)
    ensures
        decodings(pending, max, calls) == decodings(pending, max, without_encodings(calls)),
        pending_after(pending, max, calls) == pending_after(
            pending,
            max,
            without_encodings(calls),
        ),
    decreases calls.len(),
{
    if calls.len() > 0 {
        encoding_disturbs_no_decoding(pending, max, calls.drop_last());
        if calls.last() is Decode {
            let kept = without_encodings(calls);
            assert(kept.drop_last() =~= without_encodings(calls.drop_last()));
        }
    }
}

/// A decoder that waits for a prefix goes by the first four bytes, the most significant
/// first: fewer are not enough, a number over the limit is an error, and otherwise that
/// many bytes behind them are the payload.
pub proof fn prefix_decides(max: nat, src: Seq<u8>)
    ensures
        ({
            let done = decoding(None, max, src);
            let len = src[0] * 16777216 + src[1] * 65536 + src[2] * 256 + src[3];
            if src.len() < 4 {
                &&& done.outcome is Incomplete
                &&& done.pending is None
                &&& done.rest == src
            } else if len > max {
                &&& done.outcome == Outcome::TooLong(len as nat)
                &&& done.pending is None
                &&& done.rest == src.skip(4)
            } else if src.len() < 4 + len {
                &&& done.outcome is Incomplete
                &&& done.pending == Some(len as nat)
                &&& done.rest == src.skip(4)
            } else {
                &&& done.outcome == Outcome::Frame(src.subrange(4, 4 + len))
                &&& done.pending is None
                &&& done.rest == src.skip(4 + len)
            }
        }),
{
    let len = src[0] * 16777216 + src[1] * 65536 + src[2] * 256 + src[3];
    if src.len() >= 4 + len {
        assert(src.skip(4).take(len) =~= src.subrange(4, 4 + len));
        assert(src.skip(4).skip(len) =~= src.skip(4 + len));
    }
}

/// A decoder that awaits a payload takes exactly the bytes that were announced, when
/// they are all there, and changes nothing before.
pub proof fn payload_is_awaited(len: nat, max: nat, payload: Seq<u8>, rest: Seq<u8>)
    ensures
        payload.len() < len ==> decoding(Some(len), max, payload) == (Decoding {
            outcome: Outcome::Incomplete,
            pending: Some(len),
            rest: payload,
        }),
        payload.len() == len ==> decoding(Some(len), max, payload + rest) == (Decoding {
            outcome: Outcome::Frame(payload),
            pending: None,
            rest,
        }),
{
    if payload.len() == len {
        assert((payload + rest).take(len as int) =~= payload);
        assert((payload + rest).skip(len as int) =~= rest);
    }
}

/// A frame, byte by byte: four bytes that make up the payload's length, the most
/// significant first, and the payload.
pub proof fn frame_layout(payload: Seq<u8>)
    ensures
        ({
            let frame = frame_bytes(payload);
            let len = frame[0] * 16777216 + frame[1] * 65536 + frame[2] * 256 + frame[3];
            &&& frame.len() == 4 + payload.len()
            &&& len == payload.len() % 0x1_0000_0000
            &&& payload.len() < 0x1_0000_0000 ==> len == payload.len()
            &&& frame.skip(4) == payload
        }),
{
    let frame = frame_bytes(payload);
    let len = payload.len() % 0x1_0000_0000;
    buffer::be_value_of_be_bytes(len, payload);
    assert(frame.skip(4) =~= payload);
}

} // verus!
