//! Messages: requests and responses on the wire.
//!
//! A message is a version frame, followed by a message frame with the serialized
//! header and a message frame with the body.

use crate::buffer::{self, extend_from_slice, freeze};
use crate::frame::{self, FrameError, FrameErrorKind, MessageFrameCodec};
use crate::version::{self, read_version_frame, write_version_frame, Version, VersionError};
use bytes::{Bytes, BytesMut};
use vstd::prelude::*;

verus! {

/// The bytes of a message.
pub open spec fn message_bytes(version: Version, header: Seq<u8>, body: Seq<u8>) -> Seq<u8> {
    version::version_frame(version) + frame::frame_bytes(header) + frame::frame_bytes(body)
}

/// Appends a message to `dst`: its version, header and body, as far as they are
/// within the limit.
pub fn write_message(
    codec: &mut MessageFrameCodec,
    version: Version,
    header: Bytes,
    body: Bytes,
    dst: &mut BytesMut,
) -> (result: Result<(), FrameError>)
    requires
        ({
            let max = old(codec).max_frame_length();
            let head = buffer::bytes_contents(header).len();
            let rest = buffer::bytes_contents(body).len();
            let start = buffer::bytes_mut_contents(*old(dst)).len() + version::VERSION_FRAME;
            &&& start <= isize::MAX
            &&& head <= max ==> start + frame::LENGTH_PREFIX + head <= isize::MAX
            &&& head <= max && rest <= max ==> start + 2 * frame::LENGTH_PREFIX + head + rest
                <= isize::MAX
        }),
    ensures
        *final(codec) == *old(codec),
        ({
            let max = old(codec).max_frame_length();
            let head = buffer::bytes_contents(header);
            let rest = buffer::bytes_contents(body);
            let before = buffer::bytes_mut_contents(*old(dst));
            let after = buffer::bytes_mut_contents(*final(dst));
            if head.len() > max {
                &&& result == Err::<(), FrameError>(
                    FrameError {
                        kind: FrameErrorKind::InvalidInput,
                        length: head.len() as usize,
                        max_frame_length: max,
                    },
                )
                &&& after == before + version::version_frame(version)
            } else if rest.len() > max {
                &&& result == Err::<(), FrameError>(
                    FrameError {
                        kind: FrameErrorKind::InvalidInput,
                        length: rest.len() as usize,
                        max_frame_length: max,
                    },
                )
                &&& after == before + version::version_frame(version) + frame::frame_bytes(head)
            } else {
                &&& result == Ok::<(), FrameError>(())
                &&& after == before + message_bytes(version, head, rest)
            }
        }),
{
    let version_frame = write_version_frame(version);
    extend_from_slice(dst, version_frame.as_slice());
    if let Err(error) = codec.encode(header, dst) {
        return Err(error);
    }
    if let Err(error) = codec.encode(body, dst) {
        return Err(error);
    }
    proof {
        let head = buffer::bytes_contents(header);
        let rest = buffer::bytes_contents(body);
        let before = buffer::bytes_mut_contents(*old(dst));
        assert(buffer::bytes_mut_contents(*dst) =~= before + message_bytes(version, head, rest));
    }
    Ok(())
}

/// Why a message cannot be read.
#[derive(Debug, Clone, Copy, PartialEq, Eq, Structural)]
pub enum ReadError {
    /// It does not start with a version frame of a version that exists.
    Version(VersionError),
    /// The stream ends where a frame should start.
    UnexpectedEof,
}

/// What the reader of a message is waiting for.
#[derive(Debug, Clone, Copy, PartialEq, Eq, Structural)]
pub enum Stage {
    /// For the version frame.
    Version,
    /// For the frame with the header.
    Header(Version),
    /// For the header to be parsed.
    Parsing(Version),
    /// For the frame with the body.
    Body(Version),
    /// For nothing: the message has been read.
    Complete,
    /// For nothing: the message cannot be read.
    Failed,
}

/// What the reader of a message has to do next.
pub enum Action {
    /// Read the next frame.
    ReadFrame,
    /// Parse the header of a message of this version from these bytes.
    ParseHeader(Version, Bytes),
    /// Put the message together, with these bytes as its body.
    Finish(Version, Bytes),
    /// Give up.
    Fail(ReadError),
}

/// What has happened to the reader of a message.
pub enum Event {
    /// The first eight bytes have been read.
    Start([u8; 8]),
    /// A frame has been read.
    Frame(BytesMut),
    /// There are no more frames.
    EndOfStream,
    /// The header has been parsed.
    HeaderParsed,
}

/// Reads a message, piece by piece.
#[derive(Debug, Clone, Copy)]
pub struct MessageReader {
    stage: Stage,
}

/// Whether `event` can happen to a reader at `stage`.
pub open spec fn awaited(stage: Stage, event: Event) -> bool {
    match event {
        Event::Start(_) => stage is Version,
        Event::Frame(_) => stage is Header || stage is Body,
        Event::EndOfStream => stage is Header || stage is Body,
        Event::HeaderParsed => stage is Parsing,
    }
}

/// Whether a reader at `stage` goes on to `next` with `action` when `event`
/// happens.
pub open spec fn steps_to(stage: Stage, event: Event, next: Stage, action: Action) -> bool {
    match event {
        Event::Start(bytes) => match version::parsed_version_frame(bytes@) {
            Ok(version) => next == Stage::Header(version) && action == Action::ReadFrame,
            Err(error) => next == Stage::Failed && action == Action::Fail(
                ReadError::Version(error),
            ),
        },
        Event::Frame(frame) => match stage {
            Stage::Header(version) => {
                &&& next == Stage::Parsing(version)
                &&& action matches Action::ParseHeader(of, bytes)
                &&& of == version
                &&& buffer::bytes_contents(bytes) == buffer::bytes_mut_contents(frame)
            },
            Stage::Body(version) => {
                &&& next == Stage::Complete
                &&& action matches Action::Finish(of, bytes)
                &&& of == version
                &&& buffer::bytes_contents(bytes) == buffer::bytes_mut_contents(frame)
            },
            _ => false,
        },
        Event::EndOfStream => next == Stage::Failed && action == Action::Fail(
            ReadError::UnexpectedEof,
        ),
        Event::HeaderParsed => match stage {
            Stage::Parsing(version) => next == Stage::Body(version) && action == Action::ReadFrame,
            _ => false,
        },
    }
}

impl MessageReader {
    /// What the reader is waiting for.
    pub closed spec fn stage(self) -> Stage {
        self.stage
    }

    /// A reader that has read nothing yet. The first thing to do is to read eight
    /// bytes.
    pub fn new() -> (reader: Self)
        ensures
            reader.stage() == Stage::Version,
    {
        Self { stage: Stage::Version }
    }

    /// Takes note of what has happened, and says what to do next.
    pub fn step(&mut self, event: Event) -> (action: Action)
        requires
            awaited(old(self).stage(), event),
        ensures
            steps_to(old(self).stage(), event, final(self).stage(), action),
            match event {
                Event::Start(start) => if start@ == version::version_frame(Version::V1) {
                    action is ReadFrame && final(self).stage() == Stage::Header(Version::V1)
                } else {
                    action matches Action::Fail(ReadError::Version(_)) && final(self).stage()
                        == Stage::Failed
                },
                Event::Frame(frame) => match action {
                    Action::ParseHeader(version, bytes) => old(self).stage() == Stage::Header(
                        version,
                    ) && buffer::bytes_contents(bytes) == buffer::bytes_mut_contents(frame),
                    Action::Finish(version, bytes) => old(self).stage() == Stage::Body(version)
                        && buffer::bytes_contents(bytes) == buffer::bytes_mut_contents(frame),
                    _ => false,
                },
                Event::EndOfStream => action == Action::Fail(ReadError::UnexpectedEof),
                Event::HeaderParsed => action is ReadFrame,
            },
    {
        proof {
            if let Event::Start(start) = event {
                version::frames_are_told_apart(start@);
            }
        }
        let (stage, action) = match event {
            Event::Start(bytes) => match read_version_frame(&bytes) {
                Ok(version) => (Stage::Header(version), Action::ReadFrame),
                Err(error) => (Stage::Failed, Action::Fail(ReadError::Version(error))),
            },
            Event::Frame(frame) => match self.stage {
                Stage::Header(version) => (
                    Stage::Parsing(version),
                    Action::ParseHeader(version, freeze(frame)),
                ),
                Stage::Body(version) => (Stage::Complete, Action::Finish(version, freeze(frame))),
                _ => (self.stage, Action::ReadFrame),
            },
            Event::EndOfStream => (Stage::Failed, Action::Fail(ReadError::UnexpectedEof)),
            Event::HeaderParsed => match self.stage {
                Stage::Parsing(version) => (Stage::Body(version), Action::ReadFrame),
                _ => (self.stage, Action::ReadFrame),
            },
        };
        self.stage = stage;
        action
    }
}

/// What a message is read as: its version, the payload of its first message frame
/// and the payload of its second, and the bytes behind it.
pub struct Received {
    pub version: Version,
    pub header: Seq<u8>,
    pub body: Seq<u8>,
    pub rest: Seq<u8>,
}

/// The message at the front of `src`, if one is there that is within the limit.
pub open spec fn received(max: nat, src: Seq<u8>) -> Option<Received> {
    if src.len() < version::VERSION_FRAME {
        None
    } else {
        let head = frame::decoding(None, max, src.skip(version::VERSION_FRAME as int));
        let tail = frame::decoding(head.pending, max, head.rest);
        match (
            version::parsed_version_frame(src.take(version::VERSION_FRAME as int)),
            head.outcome,
            tail.outcome,
        ) {
            (Ok(version), frame::Outcome::Frame(header), frame::Outcome::Frame(body)) => Some(
                Received { version, header, body, rest: tail.rest },
            ),
            _ => None,
        }
    }
}

/// Reading gives back what was written: a message whose header and body are
/// within the limit is read as it was, and what follows it is left.
pub proof fn written_messages_are_received(
    max: nat,
    version: Version,
    header: Seq<u8>,
    body: Seq<u8>,
    rest: Seq<u8>,
)
    requires
        header.len() <= max,
        header.len() < 0x1_0000_0000,
        body.len() <= max,
        body.len() < 0x1_0000_0000,
    ensures
        received(max, message_bytes(version, header, body) + rest) == Some(
            Received { version, header, body, rest },
        ),
{
    let src = message_bytes(version, header, body) + rest;
    let start = version::version_frame(version);
    let tail = frame::frame_bytes(body) + rest;
    version::version_frames_are_read_back(version, start);
    assert(src.take(version::VERSION_FRAME as int) =~= start);
    assert(src.skip(version::VERSION_FRAME as int) =~= frame::frame_bytes(header) + tail);
    frame::decoding_gives_back_the_payload(max, header, tail);
    frame::decoding_gives_back_the_payload(max, body, rest);
}

/// A reader that is handed the version frame and the two frames of a received
/// message has the header parsed and finishes, with what was received.
pub proof fn reader_finishes_with_what_was_received(
    max: nat,
    src: Seq<u8>,
    start: [u8; 8],
    frames: (BytesMut, BytesMut),
    stages: (Stage, Stage, Stage, Stage),
    actions: (Action, Action, Action, Action),
)
    requires
        received(max, src) is Some,
        start@ == src.take(version::VERSION_FRAME as int),
        buffer::bytes_mut_contents(frames.0) == received(max, src)->Some_0.header,
        buffer::bytes_mut_contents(frames.1) == received(max, src)->Some_0.body,
        steps_to(Stage::Version, Event::Start(start), stages.0, actions.0),
        steps_to(stages.0, Event::Frame(frames.0), stages.1, actions.1),
        steps_to(stages.1, Event::HeaderParsed, stages.2, actions.2),
        steps_to(stages.2, Event::Frame(frames.1), stages.3, actions.3),
    ensures
        awaited(stages.0, Event::Frame(frames.0)),
        awaited(stages.1, Event::HeaderParsed),
        awaited(stages.2, Event::Frame(frames.1)),
        ({
            let message = received(max, src)->Some_0;
            &&& actions.1 matches Action::ParseHeader(version, header)
            &&& version == message.version
            &&& buffer::bytes_contents(header) == message.header
            &&& actions.3 matches Action::Finish(version, body)
            &&& version == message.version
            &&& buffer::bytes_contents(body) == message.body
            &&& stages.3 == Stage::Complete
        }),
{
}

/// A truncated message is never taken for a whole one.
pub proof fn truncated_messages_are_not_received(
    max: nat,
    version: Version,
    header: Seq<u8>,
    body: Seq<u8>,
    len: nat,
)
    requires
        header.len() <= max,
        header.len() < 0x1_0000_0000,
        body.len() <= max,
        body.len() < 0x1_0000_0000,
        len < message_bytes(version, header, body).len(),
    ensures
        received(max, message_bytes(version, header, body).take(len as int)) is None,
{
    let message = message_bytes(version, header, body);
    let src = message.take(len as int);
    let more = message.skip(len as int);
    if received(max, src) is Some {
        let start = version::VERSION_FRAME as int;
        let head = frame::decoding(None, max, src.skip(start));
        frame::decoding_ignores_what_follows(None, max, src.skip(start), more);
        frame::decoding_ignores_what_follows(head.pending, max, head.rest, more);
        assert(message.skip(start) =~= src.skip(start) + more);
        assert(message.take(start) =~= src.take(start));
        assert(message + Seq::<u8>::empty() =~= message);
        written_messages_are_received(max, version, header, body, seq![]);
    }
}

/// What one side writes the other side reads: a reader with at least the limit of
/// the writer, handed the version frame and the two frames that come out of the
/// bytes of a message, has the header parsed that was written, and finishes with the
/// version and the body that were written.
pub proof fn written_message_is_read_back(
    limits: (nat, nat),
    version: Version,
    header: Seq<u8>,
    body: Seq<u8>,
    rest: Seq<u8>,
    start: [u8; 8],
    frames: (BytesMut, BytesMut),
    stages: (Stage, Stage, Stage, Stage),
    actions: (Action, Action, Action, Action),
)
    requires
        limits.0 <= limits.1,
        header.len() <= limits.0,
        header.len() < 0x1_0000_0000,
        body.len() <= limits.0,
        body.len() < 0x1_0000_0000,
        ({
            let src = message_bytes(version, header, body) + rest;
            let head = frame::decoding(None, limits.1, src.skip(version::VERSION_FRAME as int));
            let tail = frame::decoding(head.pending, limits.1, head.rest);
            &&& start@ == src.take(version::VERSION_FRAME as int)
            &&& head.outcome == frame::Outcome::Frame(buffer::bytes_mut_contents(frames.0))
            &&& tail.outcome == frame::Outcome::Frame(buffer::bytes_mut_contents(frames.1))
        }),
        steps_to(Stage::Version, Event::Start(start), stages.0, actions.0),
        steps_to(stages.0, Event::Frame(frames.0), stages.1, actions.1),
        steps_to(stages.1, Event::HeaderParsed, stages.2, actions.2),
        steps_to(stages.2, Event::Frame(frames.1), stages.3, actions.3),
    ensures
        actions.1 matches Action::ParseHeader(of, bytes) && of == version && buffer::bytes_contents(
            bytes,
        ) == header,
        actions.3 matches Action::Finish(of, bytes) && of == version && buffer::bytes_contents(
            bytes,
        ) == body,
        stages.3 == Stage::Complete,
{
    let src = message_bytes(version, header, body) + rest;
    written_messages_are_received(limits.1, version, header, body, rest);
    reader_finishes_with_what_was_received(limits.1, src, start, frames, stages, actions);
}

/// A reader gets beyond its start exactly on the frame of a version that exists, and
/// gives up on all other bytes, with the reason.
pub proof fn reader_starts_on_a_version_frame(start: [u8; 8], next: Stage, action: Action)
    requires
        steps_to(Stage::Version, Event::Start(start), next, action),
    ensures
        action is ReadFrame <==> start@ == version::version_frame(Version::V1),
        action is ReadFrame <==> exists|version: Version|
            start@ == #[trigger] version::version_frame(version),
        action is ReadFrame ==> next == Stage::Header(Version::V1),
        !(action is ReadFrame) ==> {
            &&& next == Stage::Failed
            &&& action matches Action::Fail(ReadError::Version(error))
            &&& version::parsed_version_frame(start@) == Err::<Version, VersionError>(error)
            &&& match error {
                VersionError::InvalidProtocolHeader => !(start@[0] == 0x61 && start@[1] == 0x6e
                    && start@[2] == 0x65 && start@[3] == 0x6d && start@[4] == 0x6f && start@[7]
                    == 0),
                VersionError::InvalidVersion(number) => number == start@[5] * 256 + start@[6]
                    && number != 1,
            }
        },
{
    version::frames_are_told_apart(start@);
}

/// A reader hands out what its frames hold: the first as the header to be parsed, the
/// second, once that is done, as the body.
pub proof fn reader_hands_out_its_frames(
    version: Version,
    frames: (BytesMut, BytesMut),
    nexts: (Stage, Stage, Stage),
    actions: (Action, Action, Action),
)
    requires
        steps_to(Stage::Header(version), Event::Frame(frames.0), nexts.0, actions.0),
        steps_to(nexts.0, Event::HeaderParsed, nexts.1, actions.1),
        steps_to(nexts.1, Event::Frame(frames.1), nexts.2, actions.2),
    ensures
        actions.0 matches Action::ParseHeader(of, bytes) && of == version && buffer::bytes_contents(
            bytes,
        ) == buffer::bytes_mut_contents(frames.0),
        actions.1 is ReadFrame,
        actions.2 matches Action::Finish(of, bytes) && of == version && buffer::bytes_contents(
            bytes,
        ) == buffer::bytes_mut_contents(frames.1),
        awaited(nexts.0, Event::HeaderParsed),
        awaited(nexts.1, Event::Frame(frames.1)),
        nexts.2 == Stage::Complete,
{
}

/// Where the stream ends before a frame, the message cannot be read. This can happen
/// exactly where a frame can be read.
pub proof fn end_of_stream_ends_the_reading(
    stage: Stage,
    next: Stage,
    action: Action,
    frame: BytesMut,
)
    requires
        awaited(stage, Event::EndOfStream),
        steps_to(stage, Event::EndOfStream, next, action),
    ensures
        next == Stage::Failed,
        action == Action::Fail(ReadError::UnexpectedEof),
        awaited(stage, Event::Frame(frame)),
        stage matches Stage::Header(_) || stage matches Stage::Body(_),
{
}

/// A reader finishes with nothing but the frame of a body, gives up on nothing but a
/// bad start or the end of the stream, and waits for nothing afterwards.
pub proof fn reading_ends_once(
    stage: Stage,
    event: Event,
    next: Stage,
    action: Action,
    other: Event,
)
    requires
        awaited(stage, event),
        steps_to(stage, event, next, action),
    ensures
        action is Finish <==> next == Stage::Complete,
        action is Finish <==> event is Frame && stage is Body,
        action is ParseHeader <==> event is Frame && stage is Header,
        action is Fail <==> next == Stage::Failed,
        event is EndOfStream ==> action is Fail,
        action is Fail ==> event is EndOfStream || event is Start,
        action is Finish || action is Fail ==> !awaited(next, other),
{
}

/// A message, part by part: eight bytes of version frame, the header behind its length
/// and the body behind its length.
pub proof fn message_layout(version: Version, header: Seq<u8>, body: Seq<u8>)
    ensures
        ({
            let message = message_bytes(version, header, body);
            let end = 12 + header.len() as int;
            &&& message.len() == 16 + header.len() + body.len()
            &&& message.take(8) == version::version_frame(version)
            &&& message.subrange(8, 12) == buffer::be_bytes(header.len() % 0x1_0000_0000)
            &&& message.subrange(12, end) == header
            &&& message.subrange(end, end + 4) == buffer::be_bytes(
                body.len() % 0x1_0000_0000,
            )
            &&& message.skip(end + 4) == body
        }),
{
    let message = message_bytes(version, header, body);
    let end = 12 + header.len() as int;
    assert(message.take(8) =~= version::version_frame(version));
    assert(message.subrange(8, 12) =~= buffer::be_bytes(header.len() % 0x1_0000_0000));
    assert(message.subrange(12, end) =~= header);
    assert(message.subrange(end, end + 4) =~= buffer::be_bytes(body.len() % 0x1_0000_0000));
    assert(message.skip(end + 4) =~= body);
}

/// What a reader waits for: eight bytes at first, then a frame, or the end of the stream
/// in place of it, then the parsed header, and then a frame again.
pub proof fn reader_waits_in_turn(version: Version, start: [u8; 8], frame: BytesMut)
    ensures
        awaited(Stage::Version, Event::Start(start)),
        awaited(Stage::Header(version), Event::Frame(frame)),
        awaited(Stage::Header(version), Event::EndOfStream),
        awaited(Stage::Parsing(version), Event::HeaderParsed),
        awaited(Stage::Body(version), Event::Frame(frame)),
        awaited(Stage::Body(version), Event::EndOfStream),
{
}

} // verus!
