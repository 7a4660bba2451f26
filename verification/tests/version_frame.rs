use anemo::handshake::{Action, ConnectionOrigin, Event, Handshake};
use anemo::version::{read_version_frame, write_version_frame, Version, VersionError};

const HEADER: [u8; 8] = [b'a', b'n', b'e', b'm', b'o', 0, 1, 0];

#[test]
fn read_version_header() {
    let version = read_version_frame(&HEADER).unwrap();
    assert_eq!(Version::V1, version);
}

#[test]
fn read_incorrect_version_header() {
    // ANEMO header incorrect
    let header = [b'h', b't', b't', b'p', b'3', 0, 1, 0];
    assert_eq!(
        read_version_frame(&header).unwrap_err(),
        VersionError::InvalidProtocolHeader
    );

    // Reserved byte not 0
    let header = [b'a', b'n', b'e', b'm', b'o', 0, 1, 1];
    assert_eq!(
        read_version_frame(&header).unwrap_err(),
        VersionError::InvalidProtocolHeader
    );

    // Version is not 1
    let header = [b'a', b'n', b'e', b'm', b'o', 1, 0, 0];
    assert_eq!(
        read_version_frame(&header).unwrap_err(),
        VersionError::InvalidVersion(256)
    );
}

#[test]
fn write_version_header() {
    let buf = write_version_frame(Version::V1);
    assert_eq!(HEADER, buf);
}

#[test]
fn every_byte_of_a_version_header_counts() {
    for i in 0..8 {
        let mut header = HEADER;
        header[i] ^= 0x40;
        assert!(read_version_frame(&header).is_err());
    }
}

#[test]
fn only_version_1_exists() {
    for number in 0..=u16::MAX {
        let version = Version::new(number);
        if number == 1 {
            assert_eq!(version, Ok(Version::V1));
        } else {
            assert_eq!(version, Err(VersionError::InvalidVersion(number)));
        }
    }
    assert_eq!(Version::V1.to_u16(), 1);
}

#[test]
fn both_sides_complete_the_handshake() {
    let (mut server, action) = Handshake::start(ConnectionOrigin::Inbound);
    assert!(matches!(action, Action::OpenUni));
    let frame = match server.step(Event::Opened) {
        Action::Write(frame) => frame,
        _ => panic!("the server writes"),
    };
    assert_eq!(frame, HEADER);
    assert!(matches!(server.step(Event::Written), Action::Finish));
    assert!(matches!(server.step(Event::Finished), Action::AwaitStopped));
    assert!(matches!(server.step(Event::Stopped), Action::Proceed));

    let (mut client, action) = Handshake::start(ConnectionOrigin::Outbound);
    assert!(matches!(action, Action::AcceptUni));
    assert!(matches!(client.step(Event::Accepted), Action::Read));
    assert!(matches!(client.step(Event::Read(frame)), Action::Proceed));
}

#[test]
fn client_gives_up_on_another_version() {
    let (mut client, _) = Handshake::start(ConnectionOrigin::Outbound);
    client.step(Event::Accepted);
    let frame = [b'a', b'n', b'e', b'm', b'o', 0, 2, 0];
    assert!(matches!(
        client.step(Event::Read(frame)),
        Action::Fail(VersionError::InvalidVersion(2))
    ));
}
