use bytes::Bytes;
use dogstatsd_utils::{DogStatsDReplayReader, DogStatsDReplayReaderError};

const TWO_MSGS_ONE_LINE_EACH: &[u8] = &[
    0xd4, 0x74, 0xd0, 0x60, 0xf3, 0xff, 0x00, 0x00, 0x93, 0x00, 0x00, 0x00, 0x08, 0x84, 0xe2,
    0x88, 0x8a, 0xe0, 0xb6, 0x87, 0xbf, 0x17, 0x10, 0x83, 0x01, 0x1a, 0x83, 0x01, 0x73, 0x74,
    0x61, 0x74, 0x73, 0x64, 0x2e, 0x65, 0x78, 0x61, 0x6d, 0x70, 0x6c, 0x65, 0x2e, 0x74, 0x69,
    0x6d, 0x65, 0x2e, 0x6d, 0x69, 0x63, 0x72, 0x6f, 0x73, 0x3a, 0x32, 0x2e, 0x33, 0x39, 0x32,
    0x38, 0x33, 0x7c, 0x64, 0x7c, 0x40, 0x31, 0x2e, 0x30, 0x30, 0x30, 0x30, 0x30, 0x30, 0x7c,
    0x23, 0x65, 0x6e, 0x76, 0x69, 0x72, 0x6f, 0x6e, 0x6d, 0x65, 0x6e, 0x74, 0x3a, 0x64, 0x65,
    0x76, 0x7c, 0x63, 0x3a, 0x32, 0x61, 0x32, 0x35, 0x66, 0x37, 0x66, 0x63, 0x38, 0x66, 0x62,
    0x66, 0x35, 0x37, 0x33, 0x64, 0x36, 0x32, 0x30, 0x35, 0x33, 0x64, 0x37, 0x32, 0x36, 0x33,
    0x64, 0x64, 0x32, 0x64, 0x34, 0x34, 0x30, 0x63, 0x30, 0x37, 0x62, 0x36, 0x61, 0x62, 0x34,
    0x64, 0x32, 0x62, 0x31, 0x30, 0x37, 0x65, 0x35, 0x30, 0x62, 0x30, 0x64, 0x34, 0x64, 0x66,
    0x31, 0x66, 0x32, 0x65, 0x65, 0x31, 0x35, 0x66, 0x0a, 0x93, 0x00, 0x00, 0x00, 0x08, 0x9f,
    0xe9, 0xbd, 0x83, 0xe3, 0xb6, 0x87, 0xbf, 0x17, 0x10, 0x83, 0x01, 0x1a, 0x83, 0x01, 0x73,
    0x74, 0x61, 0x74, 0x73, 0x64, 0x2e, 0x65, 0x78, 0x61, 0x6d, 0x70, 0x6c, 0x65, 0x2e, 0x74,
    0x69, 0x6d, 0x65, 0x2e, 0x6d, 0x69, 0x63, 0x72, 0x6f, 0x73, 0x3a, 0x32, 0x2e, 0x33, 0x39,
    0x32, 0x38, 0x33, 0x7c, 0x64, 0x7c, 0x40, 0x31, 0x2e, 0x30, 0x30, 0x30, 0x30, 0x30, 0x30,
    0x7c, 0x23, 0x65, 0x6e, 0x76, 0x69, 0x72, 0x6f, 0x6e, 0x6d, 0x65, 0x6e, 0x74, 0x3a, 0x64,
    0x65, 0x76, 0x7c, 0x63, 0x3a, 0x32, 0x61, 0x32, 0x35, 0x66, 0x37, 0x66, 0x63, 0x38, 0x66,
    0x62, 0x66, 0x35, 0x37, 0x33, 0x64, 0x36, 0x32, 0x30, 0x35, 0x33, 0x64, 0x37, 0x32, 0x36,
    0x33, 0x64, 0x64, 0x32, 0x64, 0x34, 0x34, 0x30, 0x63, 0x30, 0x37, 0x62, 0x36, 0x61, 0x62,
    0x34, 0x64, 0x32, 0x62, 0x31, 0x30, 0x37, 0x65, 0x35, 0x30, 0x62, 0x30, 0x64, 0x34, 0x64,
    0x66, 0x31, 0x66, 0x32, 0x65, 0x65, 0x31, 0x35, 0x66, 0x0a, 0x00, 0x00, 0x00, 0x00, 0x00,
    0x00, 0x00, 0x00,
];

const ONE_MSG_TWO_LINES: &[u8] = &[
    0xd4, 0x74, 0xd0, 0x60, 0xf3, 0xff, 0x00, 0x00, 0xe6, 0x00, 0x00, 0x00, 0x08, 0xf7, 0xc3,
    0xb4, 0xdc, 0xfa, 0x85, 0x88, 0xbf, 0x17, 0x10, 0xd6, 0x01, 0x1a, 0xd6, 0x01, 0x73, 0x74,
    0x61, 0x74, 0x73, 0x64, 0x2e, 0x65, 0x78, 0x61, 0x6d, 0x70, 0x6c, 0x65, 0x2e, 0x74, 0x69,
    0x6d, 0x65, 0x2e, 0x6d, 0x69, 0x63, 0x72, 0x6f, 0x73, 0x3a, 0x32, 0x2e, 0x33, 0x39, 0x32,
    0x38, 0x33, 0x7c, 0x64, 0x7c, 0x40, 0x31, 0x2e, 0x30, 0x30, 0x30, 0x30, 0x30, 0x30, 0x7c,
    0x23, 0x65, 0x6e, 0x76, 0x69, 0x72, 0x6f, 0x6e, 0x6d, 0x65, 0x6e, 0x74, 0x3a, 0x64, 0x65,
    0x76, 0x2c, 0x6e, 0x6f, 0x77, 0x3a, 0x32, 0x30, 0x32, 0x33, 0x2d, 0x30, 0x38, 0x2d, 0x32,
    0x33, 0x54, 0x32, 0x31, 0x3a, 0x32, 0x34, 0x3a, 0x35, 0x39, 0x2b, 0x30, 0x30, 0x3a, 0x30,
    0x30, 0x7c, 0x63, 0x3a, 0x32, 0x61, 0x32, 0x35, 0x66, 0x37, 0x66, 0x63, 0x38, 0x66, 0x62,
    0x66, 0x35, 0x37, 0x33, 0x64, 0x36, 0x32, 0x30, 0x35, 0x33, 0x64, 0x37, 0x32, 0x36, 0x33,
    0x64, 0x64, 0x32, 0x64, 0x34, 0x34, 0x30, 0x63, 0x30, 0x37, 0x62, 0x36, 0x61, 0x62, 0x34,
    0x64, 0x32, 0x62, 0x31, 0x30, 0x37, 0x65, 0x35, 0x30, 0x62, 0x30, 0x64, 0x34, 0x64, 0x66,
    0x31, 0x66, 0x32, 0x65, 0x65, 0x31, 0x35, 0x66, 0x0a, 0x73, 0x74, 0x61, 0x74, 0x73, 0x64,
    0x2e, 0x6f, 0x74, 0x68, 0x65, 0x72, 0x2e, 0x6d, 0x65, 0x74, 0x72, 0x69, 0x63, 0x3a, 0x38,
    0x2e, 0x37, 0x7c, 0x67, 0x7c, 0x40, 0x31, 0x2e, 0x30, 0x30, 0x30, 0x30, 0x30, 0x30, 0x7c,
    0x23, 0x65, 0x6e, 0x76, 0x69, 0x72, 0x6f, 0x6e, 0x6d, 0x65, 0x6e, 0x74, 0x3a, 0x64, 0x65,
    0x76, 0x0a, 0x00, 0x00, 0x00, 0x00, 0x00, 0x00, 0x00, 0x00,
];
const ONE_MSG_THREE_LINES: &[u8] = &[
    0xd4, 0x74, 0xd0, 0x60, 0xf3, 0xff, 0x00, 0x00, 0xa9, 0x00, 0x00, 0x00, 0x08, 0xa7, 0xe3,
    0x97, 0xff, 0xaf, 0xbb, 0x88, 0xbf, 0x17, 0x10, 0x99, 0x01, 0x1a, 0x99, 0x01, 0x73, 0x74,
    0x61, 0x74, 0x73, 0x64, 0x2e, 0x6f, 0x74, 0x68, 0x65, 0x72, 0x2e, 0x6d, 0x65, 0x74, 0x72,
    0x69, 0x63, 0x3a, 0x33, 0x7c, 0x63, 0x7c, 0x40, 0x31, 0x2e, 0x30, 0x30, 0x30, 0x30, 0x30,
    0x30, 0x7c, 0x23, 0x65, 0x6e, 0x76, 0x69, 0x72, 0x6f, 0x6e, 0x6d, 0x65, 0x6e, 0x74, 0x3a,
    0x64, 0x65, 0x76, 0x0a, 0x73, 0x74, 0x61, 0x74, 0x73, 0x64, 0x2e, 0x6f, 0x74, 0x68, 0x65,
    0x72, 0x2e, 0x6d, 0x65, 0x74, 0x72, 0x69, 0x63, 0x3a, 0x38, 0x7c, 0x63, 0x7c, 0x40, 0x31,
    0x2e, 0x30, 0x30, 0x30, 0x30, 0x30, 0x30, 0x7c, 0x23, 0x65, 0x6e, 0x76, 0x69, 0x72, 0x6f,
    0x6e, 0x6d, 0x65, 0x6e, 0x74, 0x3a, 0x64, 0x65, 0x76, 0x0a, 0x73, 0x74, 0x61, 0x74, 0x73,
    0x64, 0x2e, 0x6f, 0x74, 0x68, 0x65, 0x72, 0x2e, 0x6d, 0x65, 0x74, 0x72, 0x69, 0x63, 0x3a,
    0x37, 0x7c, 0x63, 0x7c, 0x40, 0x31, 0x2e, 0x30, 0x30, 0x30, 0x30, 0x30, 0x30, 0x7c, 0x23,
    0x65, 0x6e, 0x76, 0x69, 0x72, 0x6f, 0x6e, 0x6d, 0x65, 0x6e, 0x74, 0x3a, 0x64, 0x65, 0x76,
    0x0a, 0x00, 0x00, 0x00, 0x00, 0x00, 0x00, 0x00, 0x00,
];

#[test]
fn two_msg_two_lines() {
    let mut replay = DogStatsDReplayReader::new(Bytes::from(TWO_MSGS_ONE_LINE_EACH)).unwrap();
    let mut s = String::new();
    let res = replay.read_msg(&mut s).unwrap();
    assert_eq!(res, 1);
    assert_eq!("statsd.example.time.micros:2.39283|d|@1.000000|#environment:dev|c:2a25f7fc8fbf573d62053d7263dd2d440c07b6ab4d2b107e50b0d4df1f2ee15f", s);
    s.clear();
    let res = replay.read_msg(&mut s).unwrap();
    assert_eq!(res, 1);
    assert_eq!("statsd.example.time.micros:2.39283|d|@1.000000|#environment:dev|c:2a25f7fc8fbf573d62053d7263dd2d440c07b6ab4d2b107e50b0d4df1f2ee15f", s);
    let res = replay.read_msg(&mut s).unwrap();
    assert_eq!(res, 0);
}

#[test]
fn one_msg_two_lines() {
    let mut replay = DogStatsDReplayReader::new(Bytes::from(ONE_MSG_TWO_LINES)).unwrap();
    let mut s = String::new();
    let res = replay.read_msg(&mut s).unwrap();
    assert_eq!(res, 1);
    assert_eq!("statsd.example.time.micros:2.39283|d|@1.000000|#environment:dev,now:2023-08-23T21:24:59+00:00|c:2a25f7fc8fbf573d62053d7263dd2d440c07b6ab4d2b107e50b0d4df1f2ee15f", s);
    s.clear();
    let res = replay.read_msg(&mut s).unwrap();
    assert_eq!(res, 1);
    assert_eq!("statsd.other.metric:8.7|g|@1.000000|#environment:dev", s);
    let res = replay.read_msg(&mut s).unwrap();
    assert_eq!(res, 0);
}

#[test]
fn one_msg_three_lines() {
    let mut replay = DogStatsDReplayReader::new(Bytes::from(ONE_MSG_THREE_LINES)).unwrap();
    let mut s = String::new();

    let res = replay.read_msg(&mut s).unwrap();
    assert_eq!(res, 1);
    assert_eq!("statsd.other.metric:3|c|@1.000000|#environment:dev", s);
    s.clear();

    let res = replay.read_msg(&mut s).unwrap();
    assert_eq!(res, 1);
    assert_eq!("statsd.other.metric:8|c|@1.000000|#environment:dev", s);
    s.clear();

    let res = replay.read_msg(&mut s).unwrap();
    assert_eq!(res, 1);
    assert_eq!("statsd.other.metric:7|c|@1.000000|#environment:dev", s);
    s.clear();

    let res = replay.read_msg(&mut s).unwrap();
    assert_eq!(res, 0);
}

const HEADER: [u8; 8] = [0xd4, 0x74, 0xd0, 0x60, 0xf3, 0xff, 0x00, 0x00];
const CLOSING: [u8; 8] = [0; 8];

fn varint(mut v: u64, out: &mut Vec<u8>) {
    while v >= 0x80 {
        out.push((v as u8 & 0x7f) | 0x80);
        v >>= 7;
    }
    out.push(v as u8);
}

/// A frame whose message carries a timestamp, the payload size and the payload.
fn frame(payload: &[u8]) -> Vec<u8> {
    let mut msg = vec![0x08];
    varint(1_692_825_899_000_000_000, &mut msg);
    msg.push(0x10);
    varint(payload.len() as u64, &mut msg);
    msg.push(0x1a);
    varint(payload.len() as u64, &mut msg);
    msg.extend_from_slice(payload);
    msg.push(0x20);
    varint(4242, &mut msg);
    let mut out = (msg.len() as u32).to_le_bytes().to_vec();
    out.extend_from_slice(&msg);
    out
}

fn replay(frames: &[Vec<u8>]) -> Vec<u8> {
    let mut out = HEADER.to_vec();
    for f in frames {
        out.extend_from_slice(f);
    }
    out
}

fn open(buf: Vec<u8>) -> DogStatsDReplayReader {
    DogStatsDReplayReader::new(Bytes::from(buf)).unwrap()
}

fn next_line(r: &mut DogStatsDReplayReader) -> Result<(usize, String), DogStatsDReplayReaderError> {
    let mut s = String::new();
    let n = r.read_msg(&mut s)?;
    Ok((n, s))
}

#[test]
fn missing_marker_is_not_a_replay() {
    for buf in [vec![], vec![0xd4, 0x74], vec![0x00, 0x74, 0xd0, 0x60, 0xf3, 0, 0, 0], b"statsd.metric:1|c\n".to_vec()] {
        let r = DogStatsDReplayReader::new(Bytes::from(buf));
        assert_eq!(r.err(), Some(DogStatsDReplayReaderError::NotAReplayFile));
    }
}

#[test]
fn unknown_version_is_refused() {
    for buf in [
        vec![0xd4, 0x74, 0xd0, 0x60],
        vec![0xd4, 0x74, 0xd0, 0x60, 0xf2, 0xff, 0x00, 0x00],
        vec![0xd4, 0x74, 0xd0, 0x60, 0xf3, 0xff, 0x00],
        vec![0xd4, 0x74, 0xd0, 0x60, 0x03, 0xff, 0x00, 0x00, 0, 0, 0, 0, 0, 0, 0, 0],
    ] {
        let r = DogStatsDReplayReader::new(Bytes::from(buf));
        assert_eq!(r.err(), Some(DogStatsDReplayReaderError::UnsupportedReplayVersion));
    }
}

#[test]
fn header_alone_reads_nothing() {
    let mut r = open(HEADER.to_vec());
    assert_eq!(next_line(&mut r).unwrap(), (0, String::new()));
    assert!(r.is_exhausted());
}

#[test]
fn from_vec_reads_the_same_lines() {
    let mut r = DogStatsDReplayReader::from_vec(replay(&[frame(b"a:1|c\nb:2|c"), CLOSING.to_vec()])).unwrap();
    assert_eq!(next_line(&mut r).unwrap(), (1, "a:1|c".to_string()));
    assert_eq!(next_line(&mut r).unwrap(), (1, "b:2|c".to_string()));
    assert_eq!(next_line(&mut r).unwrap(), (0, String::new()));
}

#[test]
fn records_of_a_frame_come_in_order_before_the_next_frame() {
    let mut r = open(replay(&[frame(b"x:1|c\ny:2|c\nz:3|c\n"), frame(b"w:4|g"), CLOSING.to_vec()]));
    let mut got = Vec::new();
    for _ in 0..4 {
        let (n, s) = next_line(&mut r).unwrap();
        assert_eq!(n, 1);
        got.push(s);
    }
    assert_eq!(got, vec!["x:1|c", "y:2|c", "z:3|c", "w:4|g"]);
    assert_eq!(next_line(&mut r).unwrap().0, 0);
    assert!(r.is_exhausted());
}

#[test]
fn empty_payload_reads_zero_but_stream_goes_on() {
    let mut r = open(replay(&[frame(b""), frame(b"after:1|c"), CLOSING.to_vec()]));
    assert_eq!(next_line(&mut r).unwrap(), (0, String::new()));
    assert!(!r.is_exhausted());
    assert_eq!(next_line(&mut r).unwrap(), (1, "after:1|c".to_string()));
    assert_eq!(next_line(&mut r).unwrap(), (0, String::new()));
    assert!(r.is_exhausted());
}

#[test]
fn nothing_after_the_closing_frame_is_read() {
    let mut r = open(replay(&[frame(b"before:1|c"), CLOSING.to_vec(), frame(b"after:1|c")]));
    assert_eq!(next_line(&mut r).unwrap(), (1, "before:1|c".to_string()));
    assert_eq!(next_line(&mut r).unwrap(), (0, String::new()));
    assert!(r.is_exhausted());
    assert_eq!(next_line(&mut r).unwrap(), (0, String::new()));
}

#[test]
fn truncated_frame_ends_the_stream() {
    let mut buf = replay(&[frame(b"whole:1|c")]);
    let cut = frame(b"cut:1|c");
    buf.extend_from_slice(&cut[..cut.len() - 3]);
    let mut r = open(buf);
    assert_eq!(next_line(&mut r).unwrap(), (1, "whole:1|c".to_string()));
    assert_eq!(next_line(&mut r).unwrap(), (0, String::new()));
    assert!(r.is_exhausted());
}

#[test]
fn invalid_utf8_payload_is_an_error() {
    let mut r = open(replay(&[frame(b"ok:1|c"), frame(&[0x61, 0xff, 0x0a]), CLOSING.to_vec()]));
    assert_eq!(next_line(&mut r).unwrap(), (1, "ok:1|c".to_string()));
    assert_eq!(next_line(&mut r), Err(DogStatsDReplayReaderError::InvalidUtf8Sequence));
}

#[test]
fn multibyte_text_is_decoded() {
    let mut r = open(replay(&[frame("température:21|g|#lieu:salon\n".as_bytes()), CLOSING.to_vec()]));
    assert_eq!(next_line(&mut r).unwrap(), (1, "température:21|g|#lieu:salon".to_string()));
}

#[test]
fn blank_line_between_records_is_kept() {
    let mut r = open(replay(&[frame(b"a:1|c\n\nb:2|c\n"), CLOSING.to_vec()]));
    assert_eq!(next_line(&mut r).unwrap(), (1, "a:1|c".to_string()));
    assert_eq!(next_line(&mut r).unwrap(), (1, String::new()));
    assert_eq!(next_line(&mut r).unwrap(), (1, "b:2|c".to_string()));
    assert_eq!(next_line(&mut r).unwrap(), (0, String::new()));
}

#[test]
fn line_is_placed_in_front_of_the_buffer() {
    let mut r = open(replay(&[frame(b"m:1|c"), CLOSING.to_vec()]));
    let mut s = String::from("|tail");
    assert_eq!(r.read_msg(&mut s), Ok(1));
    assert_eq!(s, "m:1|c|tail");
}

#[test]
fn write_to_puts_each_line_on_its_own_line() {
    let mut r = open(replay(&[frame(b"a:1|c\nb:2|c"), frame(b""), frame(b"c:3|g\n"), CLOSING.to_vec()]));
    let mut out = String::new();
    assert_eq!(r.write_to(&mut out), Ok(()));
    assert_eq!(out, "a:1|c\nb:2|c\nc:3|g\n");
    let back: Vec<&str> = out.lines().collect();
    assert_eq!(back, vec!["a:1|c", "b:2|c", "c:3|g"]);
}

#[test]
fn write_to_keeps_lines_before_an_error() {
    let mut r = open(replay(&[frame(b"a:1|c"), frame(&[0xc0, 0x80]), frame(b"b:2|c")]));
    let mut out = String::new();
    assert_eq!(r.write_to(&mut out), Err(DogStatsDReplayReaderError::InvalidUtf8Sequence));
    assert_eq!(out, "a:1|c\n");
}

#[test]
fn malformed_message_ends_the_stream() {
    let mut buf = replay(&[frame(b"a:1|c")]);
    // a payload field whose length runs past the frame
    buf.extend_from_slice(&[3, 0, 0, 0, 0x1a, 0x05, 0x61]);
    buf.extend_from_slice(&frame(b"b:2|c"));
    let mut r = open(buf);
    assert_eq!(next_line(&mut r).unwrap(), (1, "a:1|c".to_string()));
    assert_eq!(next_line(&mut r).unwrap(), (0, String::new()));
    assert!(r.is_exhausted());
}

#[test]
fn error_messages() {
    assert_eq!(DogStatsDReplayReaderError::NotAReplayFile.message(), "No dogstatsd replay marker found");
    assert_eq!(DogStatsDReplayReaderError::UnsupportedReplayVersion.message(), "Unsupported replay version");
}
