//! The handshake that follows the establishment of a connection.
//!
//! Both sides of a connection authenticate each other. Due to the order in which
//! certificates are exchanged, the side that initiated the connection may think
//! that it is fully established when the other side may still reject it. So the
//! other side, which the connection is inbound to, sends a version frame once it
//! has accepted the connection, and the initiating side waits for it.

use crate::version::{self, read_version_frame, write_version_frame, Version, VersionError};
use vstd::prelude::*;

verus! {

/// Which side initiated a connection.
#[derive(Debug, Clone, Copy, PartialEq, Eq, Structural)]
pub enum ConnectionOrigin {
    /// The peer did.
    Inbound,
    /// This side did.
    Outbound,
}

/// What the handshake is waiting for.
#[derive(Debug, Clone, Copy, PartialEq, Eq, Structural)]
pub enum Stage {
    /// For a unidirectional stream to the peer.
    Opening,
    /// For the version frame to be written to it.
    Writing,
    /// For the stream to be finished.
    Finishing,
    /// For the peer to have taken note of that.
    Stopping,
    /// For a unidirectional stream from the peer.
    Accepting,
    /// For a version frame to be read from it.
    Reading,
    /// For nothing: the handshake has succeeded.
    Complete,
    /// For nothing: the handshake has failed.
    Failed,
}

/// What is to be done next.
#[derive(Debug, Clone, Copy)]
pub enum Action {
    /// Open a unidirectional stream.
    OpenUni,
    /// Write these bytes to the stream.
    Write([u8; 8]),
    /// Finish the stream.
    Finish,
    /// Wait until the peer has stopped reading.
    AwaitStopped,
    /// Accept a unidirectional stream.
    AcceptUni,
    /// Read eight bytes from the stream.
    Read,
    /// Go on with the connection.
    Proceed,
    /// Give the connection up.
    Fail(VersionError),
}

/// What has been done.
#[derive(Debug, Clone, Copy)]
pub enum Event {
    Opened,
    Written,
    Finished,
    Stopped,
    Accepted,
    /// These eight bytes have been read.
    Read([u8; 8]),
}

/// A handshake under way.
#[derive(Debug, Clone, Copy)]
pub struct Handshake {
    stage: Stage,
}

/// The first stage of a handshake.
pub open spec fn first_stage(origin: ConnectionOrigin) -> Stage {
    match origin {
        ConnectionOrigin::Inbound => Stage::Opening,
        ConnectionOrigin::Outbound => Stage::Accepting,
    }
}

/// Whether `event` is what a handshake at `stage` waits for.
pub open spec fn awaited(stage: Stage, event: Event) -> bool {
    match event {
        Event::Opened => stage == Stage::Opening,
        Event::Written => stage == Stage::Writing,
        Event::Finished => stage == Stage::Finishing,
        Event::Stopped => stage == Stage::Stopping,
        Event::Accepted => stage == Stage::Accepting,
        Event::Read(_) => stage == Stage::Reading,
    }
}

/// The stage after `event`, which was awaited.
pub open spec fn next_stage(event: Event) -> Stage {
    match event {
        Event::Opened => Stage::Writing,
        Event::Written => Stage::Finishing,
        Event::Finished => Stage::Stopping,
        Event::Stopped => Stage::Complete,
        Event::Accepted => Stage::Reading,
        Event::Read(frame) => match version::parsed_version_frame(frame@) {
            Ok(_) => Stage::Complete,
            Err(_) => Stage::Failed,
        },
    }
}

/// Whether `action` is what is to be done on entering `stage`, by reason of
/// `event` if there was one.
pub open spec fn demanded(stage: Stage, event: Option<Event>, action: Action) -> bool {
    match stage {
        Stage::Opening => action matches Action::OpenUni,
        Stage::Writing => action matches Action::Write(frame) && frame@ == version::version_frame(
            Version::V1,
        ),
        Stage::Finishing => action matches Action::Finish,
        Stage::Stopping => action matches Action::AwaitStopped,
        Stage::Accepting => action matches Action::AcceptUni,
        Stage::Reading => action matches Action::Read,
        Stage::Complete => action matches Action::Proceed,
        Stage::Failed => {
            &&& action matches Action::Fail(error)
            &&& event matches Some(Event::Read(frame))
            &&& version::parsed_version_frame(frame@) == Err::<Version, VersionError>(error)
        },
    }
}

impl Handshake {
    /// What the handshake is waiting for.
    pub closed spec fn stage(self) -> Stage {
        self.stage
    }

    /// The handshake of a new connection, and the first thing to do.
    pub fn start(origin: ConnectionOrigin) -> (started: (Self, Action))
        ensures
            started.0.stage() == first_stage(origin),
            demanded(started.0.stage(), None, started.1),
            match origin {
                ConnectionOrigin::Inbound => started.1 is OpenUni,
                ConnectionOrigin::Outbound => started.1 is AcceptUni,
            },
    {
        match origin {
            ConnectionOrigin::Inbound => (Self { stage: Stage::Opening }, Action::OpenUni),
            ConnectionOrigin::Outbound => (Self { stage: Stage::Accepting }, Action::AcceptUni),
        }
    }

    /// Takes note of what has been done, and says what is to be done next.
    pub fn step(&mut self, event: Event) -> (action: Action)
        requires
            awaited(old(self).stage(), event),
        ensures
            final(self).stage() == next_stage(event),
            demanded(final(self).stage(), Some(event), action),
            match event {
                Event::Opened => action matches Action::Write(frame) && frame@
                    == version::version_frame(Version::V1),
                Event::Written => action is Finish,
                Event::Finished => action is AwaitStopped,
                Event::Stopped => action is Proceed,
                Event::Accepted => action is Read,
                Event::Read(frame) => if frame@ == version::version_frame(Version::V1) {
                    action is Proceed && final(self).stage() == Stage::Complete
                } else {
                    action is Fail && final(self).stage() == Stage::Failed
                },
            },
    {
        proof {
            if let Event::Read(frame) = event {
                version::frames_are_told_apart(frame@);
            }
        }
        let (stage, action) = match event {
            Event::Opened => {
                (Stage::Writing, Action::Write(write_version_frame(Version::V1)))
            },
            Event::Written => (Stage::Finishing, Action::Finish),
            Event::Finished => (Stage::Stopping, Action::AwaitStopped),
            Event::Stopped => (Stage::Complete, Action::Proceed),
            Event::Accepted => (Stage::Reading, Action::Read),
            Event::Read(frame) => match read_version_frame(&frame) {
                Ok(_) => (Stage::Complete, Action::Proceed),
                Err(error) => (Stage::Failed, Action::Fail(error)),
            },
        };
        self.stage = stage;
        action
    }
}

/// The two sides of a connection agree: what the inbound side is told to write is
/// what lets the outbound side proceed.
pub proof fn written_frame_completes_the_peer(write: Action, frame: [u8; 8])
    requires
        demanded(Stage::Writing, Some(Event::Opened), write),
        write == Action::Write(frame),
    ensures
        next_stage(Event::Read(frame)) == Stage::Complete,
{
    version::version_frames_are_read_back(Version::V1, frame@);
}

/// The outbound side proceeds on nothing but a frame of a version that exists,
/// whatever the peer sends.
pub proof fn only_a_version_frame_completes(frame: [u8; 8])
    ensures
        next_stage(Event::Read(frame)) == Stage::Complete <==> frame@ == version::version_frame(
            Version::V1,
        ),
{
    version::version_frames_are_read_back(Version::V1, frame@);
}

/// Whether eight bytes are those of a version frame of version 1 is all that the
/// outbound side goes by: it is told to proceed on exactly those bytes, and to give
/// up on all others, with the reason.
pub proof fn frame_decides_the_handshake(frame: [u8; 8], action: Action)
    requires
        demanded(next_stage(Event::Read(frame)), Some(Event::Read(frame)), action),
    ensures
        action is Proceed <==> frame@ == version::version_frame(Version::V1),
        action is Proceed || action is Fail,
        action matches Action::Fail(error) ==> version::parsed_version_frame(frame@) == Err::<
            Version,
            VersionError,
        >(error) && match error {
            VersionError::InvalidProtocolHeader => !(frame@[0] == 0x61 && frame@[1] == 0x6e
                && frame@[2] == 0x65 && frame@[3] == 0x6d && frame@[4] == 0x6f && frame@[7] == 0),
            VersionError::InvalidVersion(number) => number == frame@[5] * 256 + frame@[6] && number
                != 1,
        },
{
    version::frames_are_told_apart(frame@);
}

/// The inbound side opens a stream, writes the frame of version 1 to it, finishes it,
/// waits until the peer has stopped reading, and then proceeds; after each of these it
/// waits for that to be done.
pub proof fn inbound_side_announces_its_version(
    actions: (Action, Action, Action, Action, Action),
)
    requires
        demanded(first_stage(ConnectionOrigin::Inbound), None, actions.0),
        demanded(next_stage(Event::Opened), Some(Event::Opened), actions.1),
        demanded(next_stage(Event::Written), Some(Event::Written), actions.2),
        demanded(next_stage(Event::Finished), Some(Event::Finished), actions.3),
        demanded(next_stage(Event::Stopped), Some(Event::Stopped), actions.4),
    ensures
        actions.0 is OpenUni,
        awaited(first_stage(ConnectionOrigin::Inbound), Event::Opened),
        actions.1 matches Action::Write(frame) && frame@ == version::version_frame(Version::V1),
        awaited(next_stage(Event::Opened), Event::Written),
        actions.2 is Finish,
        awaited(next_stage(Event::Written), Event::Finished),
        actions.3 is AwaitStopped,
        awaited(next_stage(Event::Finished), Event::Stopped),
        actions.4 is Proceed,
{
}

/// The outbound side accepts a stream and reads eight bytes from it; after each of
/// these it waits for that to be done.
pub proof fn outbound_side_waits_for_a_version(actions: (Action, Action), frame: [u8; 8])
    requires
        demanded(first_stage(ConnectionOrigin::Outbound), None, actions.0),
        demanded(next_stage(Event::Accepted), Some(Event::Accepted), actions.1),
    ensures
        actions.0 is AcceptUni,
        awaited(first_stage(ConnectionOrigin::Outbound), Event::Accepted),
        actions.1 is Read,
        awaited(next_stage(Event::Accepted), Event::Read(frame)),
{
}

/// A handshake is told to proceed exactly when it is complete, and to give up exactly
/// when it has failed. After either it waits for nothing, and otherwise for one kind
/// of event.
pub proof fn handshake_ends_once(stage: Stage, event: Event, action: Action, other: Event)
    requires
        awaited(stage, event),
        demanded(next_stage(event), Some(event), action),
    ensures
        action is Proceed <==> next_stage(event) == Stage::Complete,
        action is Fail <==> next_stage(event) == Stage::Failed,
        action is Proceed ==> event is Stopped || event is Read,
        action is Fail ==> event is Read,
        action is Proceed || action is Fail ==> !awaited(next_stage(event), other),
        awaited(stage, other) ==> (event is Opened <==> other is Opened) && (event is Written
            <==> other is Written) && (event is Finished <==> other is Finished) && (
        event is Stopped <==> other is Stopped) && (event is Accepted <==> other is Accepted) && (event is Read
            <==> other is Read),
{
}

} // verus!
