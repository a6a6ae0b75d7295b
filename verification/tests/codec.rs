//! The frame codec: encoding, parsing, the round trip, and partial-read
//! safety.

use mini_redis::frame::{Error, Frame};

fn sample_frames() -> Vec<Frame> {
    vec![
        Frame::Simple("OK".to_string()),
        Frame::Simple(String::new()),
        Frame::Error("err something".to_string()),
        Frame::Int(0),
        Frame::Int(10),
        Frame::Int(u64::MAX),
        Frame::Bulk(b"hello".to_vec()),
        Frame::Bulk(Vec::new()),
        Frame::Bulk(b"line\r\nwith crlf inside".to_vec()),
        Frame::Null,
        Frame::Array(vec![]),
        Frame::Array(vec![
            Frame::Bulk(b"get".to_vec()),
            Frame::Bulk(b"key".to_vec()),
        ]),
        Frame::Array(vec![
            Frame::Simple("a".to_string()),
            Frame::Int(7),
            Frame::Null,
            Frame::Array(vec![Frame::Bulk(b"x".to_vec())]),
        ]),
        Frame::Simple("héllo wörld".to_string()),
    ]
}

#[test]
fn round_trip_all_samples() {
    for f in sample_frames() {
        let enc = f.encode();
        let mut pos = 0usize;
        let parsed = Frame::parse(&enc, &mut pos).expect("parse of an encoding");
        assert!(parsed == f);
        assert_eq!(pos, enc.len());
    }
}

#[test]
fn round_trip_with_trailing_data() {
    let f = Frame::Array(vec![Frame::Bulk(b"ping".to_vec()), Frame::Int(3)]);
    let mut enc = f.encode();
    let tail_len = enc.len();
    enc.extend_from_slice(b"+more\r\n");
    let mut pos = 0usize;
    let parsed = Frame::parse(&enc, &mut pos).unwrap();
    assert!(parsed == f);
    assert_eq!(pos, tail_len);
}

#[test]
fn check_every_prefix_is_incomplete() {
    for f in sample_frames() {
        let enc = f.encode();
        for cut in 0..enc.len() {
            let prefix = &enc[..cut];
            let mut pos = 0usize;
            match Frame::check(prefix, &mut pos) {
                Err(Error::InComplete) => {}
                other => panic!("prefix of length {} gave {:?}", cut, other),
            }
            assert_eq!(pos, 0);
        }
        let mut pos = 0usize;
        assert!(Frame::check(&enc, &mut pos).is_ok());
        assert_eq!(pos, enc.len());
    }
}

#[test]
fn parse_every_prefix_is_incomplete() {
    let f = Frame::Array(vec![
        Frame::Bulk(b"publish".to_vec()),
        Frame::Bulk(b"news".to_vec()),
        Frame::Bulk(b"hi".to_vec()),
    ]);
    let enc = f.encode();
    for cut in 0..enc.len() {
        let mut pos = 0usize;
        match Frame::parse(&enc[..cut], &mut pos) {
            Err(Error::InComplete) => {}
            other => panic!("prefix of length {} gave {:?}", cut, other),
        }
    }
}

#[test]
fn exact_wire_bytes() {
    assert_eq!(Frame::Simple("OK".to_string()).encode(), b"+OK\r\n".to_vec());
    assert_eq!(Frame::Error("err".to_string()).encode(), b"-err\r\n".to_vec());
    assert_eq!(Frame::Int(1234).encode(), b":1234\r\n".to_vec());
    assert_eq!(Frame::Bulk(b"abc".to_vec()).encode(), b"$3\r\nabc\r\n".to_vec());
    assert_eq!(Frame::Null.encode(), b"$-1\r\n".to_vec());
    assert_eq!(
        Frame::Array(vec![Frame::Int(1), Frame::Int(2)]).encode(),
        b"*2\r\n:1\r\n:2\r\n".to_vec()
    );
}

#[test]
fn parse_accepts_redundant_leading_zeros() {
    let mut pos = 0usize;
    let parsed = Frame::parse(b":007\r\n", &mut pos).unwrap();
    assert!(parsed == Frame::Int(7));
}

#[test]
fn invalid_type_byte_is_fatal() {
    let mut pos = 0usize;
    match Frame::check(b"!oops\r\n", &mut pos) {
        Err(Error::Other(_)) => {}
        other => panic!("got {:?}", other),
    }
    let mut pos = 0usize;
    match Frame::parse(b"!oops\r\n", &mut pos) {
        Err(Error::Other(_)) => {}
        other => panic!("got {:?}", other),
    }
}

#[test]
fn integer_overflow_is_fatal() {
    let mut pos = 0usize;
    match Frame::parse(b":99999999999999999999\r\n", &mut pos) {
        Err(Error::Other(_)) => {}
        other => panic!("got {:?}", other),
    }
}

#[test]
fn negative_bulk_length_other_than_null_is_fatal() {
    let mut pos = 0usize;
    match Frame::parse(b"$-2\r\n", &mut pos) {
        Err(Error::Other(_)) => {}
        other => panic!("got {:?}", other),
    }
}

#[test]
fn invalid_utf8_simple_string_is_fatal_to_parse_but_checks() {
    let bytes: &[u8] = &[b'+', 0xff, b'\r', b'\n'];
    let mut pos = 0usize;
    assert!(Frame::check(bytes, &mut pos).is_ok());
    let mut pos = 0usize;
    match Frame::parse(bytes, &mut pos) {
        Err(Error::Other(_)) => {}
        other => panic!("got {:?}", other),
    }
}

#[test]
fn frames_of_different_shape_differ() {
    assert!(!(Frame::Simple("a".to_string()) == Frame::Bulk(b"a".to_vec())));
    assert!(!(Frame::Int(1) == Frame::Int(2)));
    assert!(
        !(Frame::Array(vec![Frame::Int(1)]) == Frame::Array(vec![Frame::Int(1), Frame::Int(1)]))
    );
}

#[test]
fn array_builder_appends() {
    let mut f = Frame::array();
    f.push_bulk(b"subscribe".to_vec());
    f.push_int(1);
    assert!(f == Frame::Array(vec![Frame::Bulk(b"subscribe".to_vec()), Frame::Int(1)]));
}

#[test]
fn round_trip_witness_function() {
    let f = Frame::Array(vec![
        Frame::Simple("OK".to_string()),
        Frame::Bulk(b"payload".to_vec()),
        Frame::Int(42),
        Frame::Null,
    ]);
    let g = mini_redis::frame::round_trip(&f);
    assert!(g == f);
}
