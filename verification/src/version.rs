//! Protocol versions, and the frame that announces one.

use vstd::prelude::*;

verus! {

/// A version of the protocol.
#[derive(Debug, Clone, Copy, PartialEq, Eq, Structural)]
pub enum Version {
    V1,
}

/// Why a version frame is not accepted.
#[derive(Debug, Clone, Copy, PartialEq, Eq, Structural)]
pub enum VersionError {
    /// The bytes are not those of a version frame.
    InvalidProtocolHeader,
    /// A version frame of a version that does not exist.
    InvalidVersion(u16),
}

/// Number of bytes of a version frame.
pub const VERSION_FRAME: usize = 8;

/// The name that opens a version frame: `anemo`.
pub open spec fn protocol_name() -> Seq<u8> {
    seq![0x61u8, 0x6eu8, 0x65u8, 0x6du8, 0x6fu8]
}

/// The number of a version.
pub open spec fn version_number(version: Version) -> u16 {
    match version {
        Version::V1 => 1,
    }
}

/// The version with a number, if there is one.
pub open spec fn numbered_version(number: u16) -> Result<Version, VersionError> {
    if number == 1 {
        Ok(Version::V1)
    } else {
        Err(VersionError::InvalidVersion(number))
    }
}

/// The bytes of a version frame: the protocol's name, the version's number in
/// big-endian order, and a reserved byte that is zero.
pub open spec fn version_frame(version: Version) -> Seq<u8> {
    let number = version_number(version);
    protocol_name() + seq![(number / 0x100) as u8, (number % 0x100) as u8, 0u8]
}

/// What the eight bytes of a version frame say.
pub open spec fn parsed_version_frame(frame: Seq<u8>) -> Result<Version, VersionError> {
    if frame.take(5) != protocol_name() || frame[7] != 0 {
        Err(VersionError::InvalidProtocolHeader)
    } else {
        numbered_version((frame[5] * 0x100 + frame[6]) as u16)
    }
}

impl Version {
    /// The version with the given number.
    pub fn new(number: u16) -> (version: Result<Self, VersionError>)
        ensures
            version == numbered_version(number),
            version is Ok <==> number == 1,
            version matches Err(error) ==> error == VersionError::InvalidVersion(number),
    {
        if number == 1 {
            Ok(Version::V1)
        } else {
            Err(VersionError::InvalidVersion(number))
        }
    }

    /// The number of the version.
    pub fn to_u16(self) -> (number: u16)
        ensures
            number == version_number(self),
            number == 1,
    {
        match self {
            Version::V1 => 1,
        }
    }
}

/// The version that a version frame announces.
pub fn read_version_frame(frame: &[u8; 8]) -> (version: Result<Version, VersionError>)
    ensures
        version == parsed_version_frame(frame@),
        version is Ok <==> frame@ == version_frame(Version::V1),
        version == Err::<Version, VersionError>(VersionError::InvalidProtocolHeader) <==> !(
        frame@[0] == 0x61 && frame@[1] == 0x6e && frame@[2] == 0x65 && frame@[3] == 0x6d
            && frame@[4] == 0x6f && frame@[7] == 0),
        version matches Err(VersionError::InvalidVersion(number)) ==> number == frame@[5] * 256
            + frame@[6],
{
    proof {
        frames_are_told_apart(frame@);
    }
    let named: bool = frame[0] == 0x61 && frame[1] == 0x6e && frame[2] == 0x65 && frame[3] == 0x6d
        && frame[4] == 0x6f;
    assert(named == (frame@.take(5) =~= protocol_name())) by {
        let name = frame@.take(5);
        if name =~= protocol_name() {
            assert(name[0] == 0x61 && name[1] == 0x6e && name[2] == 0x65 && name[3] == 0x6d
                && name[4] == 0x6f);
        }
    }
    if !named || frame[7] != 0 {
        return Err(VersionError::InvalidProtocolHeader);
    }
    let high: u16 = frame[5] as u16;
    let low: u16 = frame[6] as u16;
    Version::new(high * 0x100 + low)
}

/// The version frame that announces `version`.
pub fn write_version_frame(version: Version) -> (frame: [u8; 8])
    ensures
        frame@ == version_frame(version),
        frame@ == seq![0x61u8, 0x6eu8, 0x65u8, 0x6du8, 0x6fu8, 0u8, 1u8, 0u8],
{
    let number: u16 = version.to_u16();
    let high: u8 = (number / 0x100) as u8;
    let low: u8 = (number % 0x100) as u8;
    let frame: [u8; 8] = [0x61, 0x6e, 0x65, 0x6d, 0x6f, high, low, 0];
    assert(frame@ =~= version_frame(version));
    frame
}

/// Reading a version frame gives back the version that was written, and no other
/// bytes are read as that version.
pub proof fn version_frames_are_read_back(version: Version, frame: Seq<u8>)
    requires
        frame.len() == VERSION_FRAME,
    ensures
        version_frame(version).len() == VERSION_FRAME,
        parsed_version_frame(frame) == Ok::<Version, VersionError>(version) <==> frame
            == version_frame(version),
{
    let own = version_frame(version);
    assert(own.take(5) =~= protocol_name());
    if parsed_version_frame(frame) == Ok::<Version, VersionError>(version) {
        assert(frame =~= own) by {
            assert(forall|i: int| 0 <= i < 5 ==> frame[i] == #[trigger] frame.take(5)[i]);
            assert(frame[5] * 0x100 + frame[6] == 1);
        }
    }
}

/// A version frame, byte by byte: the letters of `anemo`, the number 1 in two bytes,
/// and a zero.
pub proof fn version_frame_bytes()
    ensures
        version_frame(Version::V1) == seq![
            0x61u8, 0x6eu8, 0x65u8, 0x6du8, 0x6fu8, 0u8, 1u8, 0u8,
        ],
{
    assert(version_frame(Version::V1) =~= seq![
        0x61u8, 0x6eu8, 0x65u8, 0x6du8, 0x6fu8, 0u8, 1u8, 0u8,
    ]);
}

/// Every eight bytes are told apart in one of three ways. They are the frame of
/// version 1; or the name or the reserved byte is wrong; or they announce another
/// number, which the error gives.
pub proof fn frames_are_told_apart(frame: Seq<u8>)
    requires
        frame.len() == VERSION_FRAME,
    ensures
        ({
            let named = frame[0] == 0x61 && frame[1] == 0x6e && frame[2] == 0x65 && frame[3] == 0x6d
                && frame[4] == 0x6f && frame[7] == 0;
            let number = frame[5] * 256 + frame[6];
            match parsed_version_frame(frame) {
                Ok(version) => version == Version::V1 && named && number == 1,
                Err(VersionError::InvalidProtocolHeader) => !named,
                Err(VersionError::InvalidVersion(other)) => named && other == number && number != 1,
            }
        }),
        parsed_version_frame(frame) is Ok <==> frame == version_frame(Version::V1),
{
    version_frames_are_read_back(Version::V1, frame);
    let name = frame.take(5);
    if frame[0] == 0x61 && frame[1] == 0x6e && frame[2] == 0x65 && frame[3] == 0x6d && frame[4]
        == 0x6f {
        assert(name =~= protocol_name());
    }
    if name == protocol_name() {
        assert(name[0] == 0x61 && name[1] == 0x6e && name[2] == 0x65 && name[3] == 0x6d && name[4]
            == 0x6f);
    }
}

/// There is one version, and its number is 1.
pub proof fn version_1_is_the_only_one(version: Version, number: u16)
    ensures
        version_number(version) == 1,
        numbered_version(number) == Ok::<Version, VersionError>(version) <==> number == 1,
        number != 1 ==> numbered_version(number) == Err::<Version, VersionError>(
            VersionError::InvalidVersion(number),
        ),
{
}

} // verus!
