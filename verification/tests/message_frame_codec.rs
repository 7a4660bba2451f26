use anemo::frame::{
    network_message_frame_codec, preallocation, Config, FrameErrorKind, MessageFrameCodec,
    DEFAULT_MAX_FRAME_LENGTH, MAX_PREALLOCATION,
};
use bytes::{BufMut, Bytes, BytesMut};
use tokio_util::codec::{Decoder, Encoder, LengthDelimitedCodec};

fn new_legacy_codec() -> LengthDelimitedCodec {
    LengthDelimitedCodec::builder()
        .length_field_length(4)
        .big_endian()
        .new_codec()
}

fn legacy_encode(codec: &mut LengthDelimitedCodec, data: &[u8]) -> BytesMut {
    let mut buf = BytesMut::new();
    codec
        .encode(Bytes::copy_from_slice(data), &mut buf)
        .unwrap();
    buf
}

fn custom_encode(codec: &mut MessageFrameCodec, data: &[u8]) -> BytesMut {
    let mut buf = BytesMut::new();
    codec
        .encode(Bytes::copy_from_slice(data), &mut buf)
        .unwrap();
    buf
}

#[test]
fn empty_frame_legacy_to_custom() {
    let mut enc = new_legacy_codec();
    let wire = legacy_encode(&mut enc, &[]);

    let mut dec = MessageFrameCodec::new(DEFAULT_MAX_FRAME_LENGTH);
    let frame = dec.decode(&mut wire.clone()).unwrap().unwrap();
    assert!(frame.is_empty());
}

#[test]
fn empty_frame_custom_to_legacy() {
    let mut enc = MessageFrameCodec::new(DEFAULT_MAX_FRAME_LENGTH);
    let wire = custom_encode(&mut enc, &[]);

    let mut dec = new_legacy_codec();
    let frame = dec.decode(&mut wire.clone()).unwrap().unwrap();
    assert!(frame.is_empty());
}

#[test]
fn small_frame_legacy_to_custom() {
    let data: Vec<u8> = (0..64).collect();
    let mut enc = new_legacy_codec();
    let wire = legacy_encode(&mut enc, &data);

    let mut dec = MessageFrameCodec::new(DEFAULT_MAX_FRAME_LENGTH);
    let frame = dec.decode(&mut wire.clone()).unwrap().unwrap();
    assert_eq!(&frame[..], &data);
}

#[test]
fn small_frame_custom_to_legacy() {
    let data: Vec<u8> = (0..64).collect();
    let mut enc = MessageFrameCodec::new(DEFAULT_MAX_FRAME_LENGTH);
    let wire = custom_encode(&mut enc, &data);

    let mut dec = new_legacy_codec();
    let frame = dec.decode(&mut wire.clone()).unwrap().unwrap();
    assert_eq!(&frame[..], &data);
}

#[test]
fn medium_frame_around_preallocation_boundary() {
    let size = MAX_PREALLOCATION + 1;
    let data: Vec<u8> = (0..size).map(|i| (i % 256) as u8).collect();

    // Legacy encode -> custom decode
    let mut enc = new_legacy_codec();
    let wire = legacy_encode(&mut enc, &data);
    let mut dec = MessageFrameCodec::new(DEFAULT_MAX_FRAME_LENGTH);
    let frame = dec.decode(&mut wire.clone()).unwrap().unwrap();
    assert_eq!(&frame[..], &data);

    // Custom encode -> legacy decode
    let mut enc = MessageFrameCodec::new(DEFAULT_MAX_FRAME_LENGTH);
    let wire = custom_encode(&mut enc, &data);
    let mut dec = new_legacy_codec();
    let frame = dec.decode(&mut wire.clone()).unwrap().unwrap();
    assert_eq!(&frame[..], &data);
}

#[test]
fn large_frame_above_preallocation_limit() {
    let size = MAX_PREALLOCATION * 3 + 1;
    let data: Vec<u8> = (0..size).map(|i| (i % 256) as u8).collect();

    // Encode with custom codec, decode with custom codec (full buffer available)
    let mut enc = MessageFrameCodec::new(DEFAULT_MAX_FRAME_LENGTH);
    let wire = custom_encode(&mut enc, &data);
    let mut dec = MessageFrameCodec::new(DEFAULT_MAX_FRAME_LENGTH);
    let frame = dec.decode(&mut wire.clone()).unwrap().unwrap();
    assert_eq!(frame.len(), size);
    assert_eq!(&frame[..], &data);

    // Cross-codec: legacy encode -> custom decode
    let mut enc = new_legacy_codec();
    let wire = legacy_encode(&mut enc, &data);
    let mut dec = MessageFrameCodec::new(DEFAULT_MAX_FRAME_LENGTH);
    let frame = dec.decode(&mut wire.clone()).unwrap().unwrap();
    assert_eq!(&frame[..], &data);

    // Cross-codec: custom encode -> legacy decode
    let mut enc = MessageFrameCodec::new(DEFAULT_MAX_FRAME_LENGTH);
    let wire = custom_encode(&mut enc, &data);
    let mut dec = new_legacy_codec();
    let frame = dec.decode(&mut wire.clone()).unwrap().unwrap();
    assert_eq!(&frame[..], &data);
}

#[test]
fn max_frame_length_rejection_custom() {
    let max = 128;
    let data = vec![0u8; max + 1];

    // Encode should fail
    let mut enc = MessageFrameCodec::new(max);
    let mut buf = BytesMut::new();
    assert!(enc.encode(Bytes::from(data.clone()), &mut buf).is_err());

    // Decode should fail when length prefix exceeds max
    let mut dec = MessageFrameCodec::new(max);
    let mut wire = BytesMut::new();
    wire.put_u32((max + 1) as u32);
    assert!(dec.decode(&mut wire).is_err());
}

#[test]
fn max_frame_length_rejection_matches_legacy() {
    let max = 128;
    let data = vec![0u8; max + 1];

    let mut legacy = LengthDelimitedCodec::builder()
        .length_field_length(4)
        .big_endian()
        .max_frame_length(max)
        .new_codec();
    let mut buf = BytesMut::new();
    let legacy_result = legacy.encode(Bytes::from(data.clone()), &mut buf);

    let mut custom = MessageFrameCodec::new(max);
    let mut buf = BytesMut::new();
    let custom_result = custom.encode(Bytes::from(data), &mut buf);

    // Both should reject oversized frames
    assert!(legacy_result.is_err());
    assert!(custom_result.is_err());
}

#[test]
fn incremental_delivery_one_byte_at_a_time() {
    let data: Vec<u8> = (0..256).map(|i| (i % 256) as u8).collect();
    let mut enc = MessageFrameCodec::new(DEFAULT_MAX_FRAME_LENGTH);
    let wire = custom_encode(&mut enc, &data);

    let mut dec = MessageFrameCodec::new(DEFAULT_MAX_FRAME_LENGTH);
    let mut src = BytesMut::new();

    // Feed one byte at a time; should return None until complete
    for i in 0..wire.len() - 1 {
        src.extend_from_slice(&wire[i..i + 1]);
        assert!(
            dec.decode(&mut src).unwrap().is_none(),
            "should not produce frame at byte {}",
            i
        );
    }

    // Feed the last byte
    src.extend_from_slice(&wire[wire.len() - 1..]);
    let frame = dec.decode(&mut src).unwrap().unwrap();
    assert_eq!(&frame[..], &data);
}

#[test]
fn multiple_frames_in_sequence() {
    let data1: Vec<u8> = (0..100).collect();
    let data2: Vec<u8> = (100..250).collect();

    let mut enc = MessageFrameCodec::new(DEFAULT_MAX_FRAME_LENGTH);
    let mut wire = BytesMut::new();
    enc.encode(Bytes::from(data1.clone()), &mut wire).unwrap();
    enc.encode(Bytes::from(data2.clone()), &mut wire).unwrap();

    let mut dec = MessageFrameCodec::new(DEFAULT_MAX_FRAME_LENGTH);
    let frame1 = dec.decode(&mut wire).unwrap().unwrap();
    assert_eq!(&frame1[..], &data1);
    let frame2 = dec.decode(&mut wire).unwrap().unwrap();
    assert_eq!(&frame2[..], &data2);
}

#[test]
fn preallocation_cap() {
    // Create a frame with a large claimed length
    let claimed_len: usize = 64 * 1024 * 1024; // 64 MB
    let mut wire = BytesMut::new();
    wire.put_u32(claimed_len as u32);
    // Only provide a few bytes of actual data, not the full frame
    wire.extend_from_slice(&[0u8; 64]);

    let mut dec = MessageFrameCodec::new(claimed_len);
    // Decode should return None (not enough data)
    assert!(dec.decode(&mut wire).unwrap().is_none());

    // The buffer capacity should be bounded to at most MAX_PREALLOCATION plus some overhead.
    assert!(
        wire.capacity() < MAX_PREALLOCATION * 2,
        "buffer capacity {} should be bounded",
        wire.capacity(),
    );
}

#[test]
fn wire_format_compatibility() {
    // Verify the wire format is identical between legacy and custom codecs
    let data = b"hello world";

    let mut legacy = new_legacy_codec();
    let legacy_wire = legacy_encode(&mut legacy, data);

    let mut custom = MessageFrameCodec::new(DEFAULT_MAX_FRAME_LENGTH);
    let custom_wire = custom_encode(&mut custom, data);

    assert_eq!(legacy_wire, custom_wire);
}

#[test]
fn frame_is_the_length_in_big_endian_order_and_the_payload() {
    let mut enc = MessageFrameCodec::new(0x1_0000);
    let data = vec![7u8; 0x0102];
    let wire = custom_encode(&mut enc, &data);
    assert_eq!(&wire[..4], &[0, 0, 1, 2]);
    assert_eq!(&wire[4..], &data[..]);

    // Appended behind what is there.
    let mut buf = BytesMut::from(&b"ab"[..]);
    enc.encode(Bytes::from_static(b"xyz"), &mut buf).unwrap();
    assert_eq!(&buf[..], b"ab\0\0\0\x03xyz");
}

#[test]
fn oversized_payload_leaves_the_buffer_alone() {
    let mut enc = MessageFrameCodec::new(2);
    let mut buf = BytesMut::from(&b"ab"[..]);
    let error = enc
        .encode(Bytes::from_static(b"xyz"), &mut buf)
        .unwrap_err();
    assert_eq!(error.kind, FrameErrorKind::InvalidInput);
    assert_eq!(
        error.message(),
        "frame of length 3 exceeds max frame length of 2"
    );
    assert_eq!(&buf[..], b"ab");
}

#[test]
fn oversized_prefix_is_consumed() {
    let mut dec = MessageFrameCodec::new(128);
    let mut src = BytesMut::from(&b"\x01\0\0\0\0\0\0\x02hi"[..]);
    let error = dec.decode(&mut src).unwrap_err();
    assert_eq!(error.kind, FrameErrorKind::InvalidData);
    assert_eq!(error.length, 0x0100_0000);
    assert_eq!(
        error.message(),
        "frame of length 16777216 exceeds max frame length of 128"
    );
    assert_eq!(&src[..], b"\0\0\0\x02hi");
    assert_eq!(&dec.decode(&mut src).unwrap().unwrap()[..], b"hi");
}

#[test]
fn frame_at_the_limit_is_accepted() {
    let mut codec = MessageFrameCodec::new(3);
    let mut wire = custom_encode(&mut codec, b"abc");
    assert_eq!(&codec.decode(&mut wire).unwrap().unwrap()[..], b"abc");
    assert!(wire.is_empty());
}

#[test]
fn what_follows_a_frame_is_left() {
    let mut dec = MessageFrameCodec::new(DEFAULT_MAX_FRAME_LENGTH);
    let mut src = BytesMut::from(&b"\0\0\0\0\0\0\0\x01ax"[..]);
    assert!(dec.decode(&mut src).unwrap().unwrap().is_empty());
    assert_eq!(&dec.decode(&mut src).unwrap().unwrap()[..], b"a");
    assert_eq!(&src[..], b"x");
    assert!(dec.decode(&mut src).unwrap().is_none());
    assert_eq!(&src[..], b"x");
}

#[test]
fn prefix_is_taken_off_before_the_payload_is_there() {
    let mut dec = MessageFrameCodec::new(DEFAULT_MAX_FRAME_LENGTH);
    let mut src = BytesMut::from(&b"\0\0\0\x03a"[..]);
    assert!(dec.decode(&mut src).unwrap().is_none());
    assert_eq!(&src[..], b"a");
    assert!(dec.decode(&mut src).unwrap().is_none());
    src.extend_from_slice(b"bcd");
    assert_eq!(&dec.decode(&mut src).unwrap().unwrap()[..], b"abc");
    assert_eq!(&src[..], b"d");
}

#[test]
fn every_cut_of_a_stream_gives_the_same_frames() {
    let payloads: [&[u8]; 4] = [b"", b"a", b"bcd", b""];
    let mut codec = MessageFrameCodec::new(16);
    let mut wire = BytesMut::new();
    for payload in payloads {
        codec
            .encode(Bytes::copy_from_slice(payload), &mut wire)
            .unwrap();
    }
    for cut in 0..=wire.len() {
        let mut dec = MessageFrameCodec::new(16);
        let mut src = BytesMut::new();
        let mut frames = Vec::new();
        for piece in [&wire[..cut], &wire[cut..]] {
            src.extend_from_slice(piece);
            while let Some(frame) = dec.decode(&mut src).unwrap() {
                frames.push(frame);
            }
        }
        assert!(src.is_empty());
        assert_eq!(frames, payloads);
    }
}

#[test]
fn preallocation_is_capped() {
    assert_eq!(preallocation(0), 0);
    assert_eq!(preallocation(MAX_PREALLOCATION - 1), 1_048_575);
    assert_eq!(preallocation(MAX_PREALLOCATION), 1_048_576);
    assert_eq!(preallocation(usize::MAX), 1_048_576);
}

#[test]
fn codec_has_the_configured_limit() {
    let config = Config {
        max_frame_size: Some(2),
    };
    assert_eq!(config.max_frame_size(), Some(2));
    let mut codec = network_message_frame_codec(&config);
    let mut buf = BytesMut::new();
    assert!(codec.encode(Bytes::from_static(b"ab"), &mut buf).is_ok());
    assert!(codec.encode(Bytes::from_static(b"abc"), &mut buf).is_err());

    let config = Config {
        max_frame_size: None,
    };
    let mut codec = network_message_frame_codec(&config);
    let mut wire = BytesMut::new();
    wire.put_u32(8 * 1024 * 1024 + 1);
    let error = codec.decode(&mut wire).unwrap_err();
    assert_eq!(error.max_frame_length, 8 * 1024 * 1024);
    wire.put_u32(8 * 1024 * 1024);
    assert!(codec.decode(&mut wire).unwrap().is_none());
}

#[test]
fn frames_come_out_in_the_round_of_their_last_byte() {
    let payloads: [&[u8]; 4] = [b"abc", b"", b"defgh", b"i"];
    let mut codec = MessageFrameCodec::new(16);
    let mut wire = BytesMut::new();
    let mut ends = Vec::new();
    for payload in payloads {
        codec
            .encode(Bytes::copy_from_slice(payload), &mut wire)
            .unwrap();
        ends.push(wire.len());
    }
    for step in 1..wire.len() {
        let mut dec = MessageFrameCodec::new(16);
        let mut src = BytesMut::new();
        let mut next = 0;
        for (round, chunk) in wire.chunks(step).enumerate() {
            src.extend_from_slice(chunk);
            let arrived = (step * (round + 1)).min(wire.len());
            while let Some(frame) = dec.decode(&mut src).unwrap() {
                assert_eq!(&frame[..], payloads[next]);
                assert!(ends[next] <= arrived);
                next += 1;
            }
            assert!(next == payloads.len() || ends[next] > arrived);
        }
        assert_eq!(next, payloads.len());
        assert!(src.is_empty());
    }
}

#[test]
fn encoding_disturbs_no_decoding() {
    let mut codec = MessageFrameCodec::new(16);
    let mut wire = BytesMut::new();
    codec
        .encode(Bytes::from_static(b"hello"), &mut wire)
        .unwrap();
    let mut src = BytesMut::from(&wire[..6]);
    assert!(codec.decode(&mut src).unwrap().is_none());

    // In the middle of a frame, one encoding succeeds and one fails.
    let mut other = BytesMut::new();
    codec.encode(Bytes::from_static(b"x"), &mut other).unwrap();
    assert_eq!(&other[..], [0, 0, 0, 1, b'x']);
    assert!(codec
        .encode(Bytes::from_static(&[0; 17]), &mut other)
        .is_err());

    src.extend_from_slice(&wire[6..]);
    assert_eq!(&codec.decode(&mut src).unwrap().unwrap()[..], b"hello");
}
