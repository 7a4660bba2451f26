use anemo::frame::{FrameError, FrameErrorKind, MessageFrameCodec};
use anemo::message::{write_message, Action, Event, MessageReader, ReadError};
use anemo::version::{Version, VersionError};
use bytes::{Bytes, BytesMut};

const START: [u8; 8] = *b"anemo\0\x01\0";

#[test]
fn message_is_a_version_frame_and_two_message_frames() {
    let mut codec = MessageFrameCodec::new(16);
    let mut out = BytesMut::from(&b"!"[..]);
    write_message(
        &mut codec,
        Version::V1,
        Bytes::from_static(b"head"),
        Bytes::from_static(b"body!"),
        &mut out,
    )
    .unwrap();
    assert_eq!(&out[..], b"!anemo\0\x01\0\0\0\0\x04head\0\0\0\x05body!");
}

#[test]
fn written_message_is_read_back() {
    let mut codec = MessageFrameCodec::new(16);
    let mut wire = BytesMut::new();
    write_message(
        &mut codec,
        Version::V1,
        Bytes::from_static(b"head"),
        Bytes::new(),
        &mut wire,
    )
    .unwrap();

    let mut start = [0u8; 8];
    start.copy_from_slice(&wire.split_to(8));
    let mut reader = MessageReader::new();
    assert!(matches!(
        reader.step(Event::Start(start)),
        Action::ReadFrame
    ));
    let frame = codec.decode(&mut wire).unwrap().unwrap();
    match reader.step(Event::Frame(frame)) {
        Action::ParseHeader(version, header) => {
            assert_eq!(version, Version::V1);
            assert_eq!(&header[..], b"head");
        }
        _ => panic!("the header is next"),
    }
    assert!(matches!(
        reader.step(Event::HeaderParsed),
        Action::ReadFrame
    ));
    let frame = codec.decode(&mut wire).unwrap().unwrap();
    match reader.step(Event::Frame(frame)) {
        Action::Finish(version, body) => {
            assert_eq!(version, Version::V1);
            assert!(body.is_empty());
        }
        _ => panic!("the body is next"),
    }
    assert!(wire.is_empty());
}

#[test]
fn oversized_header_stops_behind_the_version_frame() {
    let mut codec = MessageFrameCodec::new(3);
    let mut out = BytesMut::new();
    let result = write_message(
        &mut codec,
        Version::V1,
        Bytes::from_static(b"head"),
        Bytes::from_static(b"body!"),
        &mut out,
    );
    assert_eq!(
        result,
        Err(FrameError {
            kind: FrameErrorKind::InvalidInput,
            length: 4,
            max_frame_length: 3
        })
    );
    assert_eq!(&out[..], &START);
}

#[test]
fn oversized_body_stops_behind_the_header() {
    let mut codec = MessageFrameCodec::new(4);
    let mut out = BytesMut::new();
    let result = write_message(
        &mut codec,
        Version::V1,
        Bytes::from_static(b"head"),
        Bytes::from_static(b"body!"),
        &mut out,
    );
    assert_eq!(
        result,
        Err(FrameError {
            kind: FrameErrorKind::InvalidInput,
            length: 5,
            max_frame_length: 4
        })
    );
    assert_eq!(&out[..], b"anemo\0\x01\0\0\0\0\x04head");
}

#[test]
fn reader_rejects_another_protocol() {
    let mut reader = MessageReader::new();
    assert!(matches!(
        reader.step(Event::Start(*b"http3\0\x01\0")),
        Action::Fail(ReadError::Version(VersionError::InvalidProtocolHeader))
    ));
}

#[test]
fn reader_needs_a_header_and_a_body() {
    let mut reader = MessageReader::new();
    reader.step(Event::Start(START));
    assert!(matches!(
        reader.step(Event::EndOfStream),
        Action::Fail(ReadError::UnexpectedEof)
    ));

    let mut reader = MessageReader::new();
    reader.step(Event::Start(START));
    reader.step(Event::Frame(BytesMut::new()));
    reader.step(Event::HeaderParsed);
    assert!(matches!(
        reader.step(Event::EndOfStream),
        Action::Fail(ReadError::UnexpectedEof)
    ));
}

#[test]
fn truncated_message_is_never_read_as_a_whole_one() {
    let mut codec = MessageFrameCodec::new(16);
    let mut wire = BytesMut::new();
    write_message(
        &mut codec,
        Version::V1,
        Bytes::from_static(b"head"),
        Bytes::from_static(b"body"),
        &mut wire,
    )
    .unwrap();
    for len in 8..wire.len() {
        let mut codec = MessageFrameCodec::new(16);
        let mut src = BytesMut::from(&wire[8..len]);
        let mut reader = MessageReader::new();
        let mut action = reader.step(Event::Start(START));
        loop {
            let event = match action {
                Action::ReadFrame => match codec.decode(&mut src).unwrap() {
                    Some(frame) => Event::Frame(frame),
                    None => Event::EndOfStream,
                },
                Action::ParseHeader(_, _) => Event::HeaderParsed,
                Action::Finish(_, _) => panic!("{len} bytes are not the whole message"),
                Action::Fail(error) => {
                    assert_eq!(error, ReadError::UnexpectedEof);
                    break;
                }
            };
            action = reader.step(event);
        }
    }
}
