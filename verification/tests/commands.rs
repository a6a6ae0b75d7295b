//! The command model: arity, case-insensitive names, unknown-command
//! liveness, and the reply builders.

use mini_redis::cmd::{Command, Expiration, Get, Ping, Publish, SetCmd, Unknown};
use mini_redis::frame::Frame;

fn cmd_frame(parts: &[&str]) -> Frame {
    Frame::Array(parts.iter().map(|p| Frame::Bulk(p.as_bytes().to_vec())).collect())
}

#[test]
fn get_parses() {
    let c = Command::from_frame(cmd_frame(&["GET", "mykey"])).unwrap();
    match c {
        Command::Get(g) => assert_eq!(g.key(), "mykey"),
        other => panic!("got {:?}", other),
    }
}

#[test]
fn get_with_trailing_element_fails() {
    assert!(Command::from_frame(cmd_frame(&["GET", "k", "extra"])).is_err());
}

#[test]
fn get_with_missing_key_fails() {
    assert!(Command::from_frame(cmd_frame(&["GET"])).is_err());
}

#[test]
fn set_without_value_fails() {
    assert!(Command::from_frame(cmd_frame(&["SET", "k"])).is_err());
}

#[test]
fn set_plain_parses() {
    let c = Command::from_frame(cmd_frame(&["SET", "k", "v"])).unwrap();
    match c {
        Command::SetCmd(s) => {
            assert_eq!(s.key(), "k");
            assert_eq!(s.value(), &b"v".to_vec());
            assert_eq!(s.expire(), None);
        }
        other => panic!("got {:?}", other),
    }
}

#[test]
fn set_with_ex_parses_seconds() {
    let c = Command::from_frame(cmd_frame(&["SET", "k", "v", "EX", "10"])).unwrap();
    match c {
        Command::SetCmd(s) => assert_eq!(s.expire(), Some(Expiration::Seconds(10))),
        other => panic!("got {:?}", other),
    }
}

#[test]
fn set_with_px_parses_millis() {
    let c = Command::from_frame(cmd_frame(&["set", "k", "v", "px", "2500"])).unwrap();
    match c {
        Command::SetCmd(s) => assert_eq!(s.expire(), Some(Expiration::Millis(2500))),
        other => panic!("got {:?}", other),
    }
}

#[test]
fn set_with_unknown_option_fails() {
    assert!(Command::from_frame(cmd_frame(&["SET", "k", "v", "NX"])).is_err());
}

#[test]
fn set_with_option_missing_amount_fails() {
    assert!(Command::from_frame(cmd_frame(&["SET", "k", "v", "EX"])).is_err());
}

#[test]
fn command_name_is_case_insensitive() {
    let c = Command::from_frame(cmd_frame(&["GeT", "k"])).unwrap();
    assert!(matches!(c, Command::Get(_)));
    assert_eq!(c.get_name(), "get");
}

#[test]
fn unknown_command_parses_and_keeps_connection() {
    let c = Command::from_frame(cmd_frame(&["FROBNICATE", "x"])).unwrap();
    match &c {
        Command::Unknown(u) => assert_eq!(u.get_name(), "frobnicate"),
        other => panic!("got {:?}", other),
    }
    match c {
        Command::Unknown(u) => {
            let reply = u.response();
            assert!(reply == Frame::Error("err unknown command 'frobnicate'".to_string()));
        }
        _ => unreachable!(),
    }
}

#[test]
fn non_array_frame_fails() {
    assert!(Command::from_frame(Frame::Simple("GET k".to_string())).is_err());
    assert!(Command::from_frame(Frame::Null).is_err());
}

#[test]
fn empty_array_fails() {
    assert!(Command::from_frame(Frame::Array(vec![])).is_err());
}

#[test]
fn subscribe_needs_a_channel() {
    assert!(Command::from_frame(cmd_frame(&["SUBSCRIBE"])).is_err());
}

#[test]
fn subscribe_takes_many_channels() {
    let c = Command::from_frame(cmd_frame(&["SUBSCRIBE", "a", "b", "c"])).unwrap();
    match c {
        Command::Subscribe(s) => {
            let names: Vec<&str> = s.channels().iter().map(|c| c.as_str()).collect();
            assert_eq!(names, vec!["a", "b", "c"]);
        }
        other => panic!("got {:?}", other),
    }
}

#[test]
fn unsubscribe_with_no_channels_parses() {
    let c = Command::from_frame(cmd_frame(&["UNSUBSCRIBE"])).unwrap();
    match &c {
        Command::Unsubscribe(u) => assert!(u.channels().is_empty()),
        other => panic!("got {:?}", other),
    }
    assert!(!c.accepted_by_dispatch());
    assert!(c.valid_while_subscribed());
}

#[test]
fn ping_replies_pong_without_message() {
    let c = Command::from_frame(cmd_frame(&["PING"])).unwrap();
    match c {
        Command::Ping(p) => assert!(p.response() == Frame::Simple("PONG".to_string())),
        other => panic!("got {:?}", other),
    }
}

#[test]
fn ping_echoes_its_message() {
    let c = Command::from_frame(cmd_frame(&["PING", "hey"])).unwrap();
    match c {
        Command::Ping(p) => assert!(p.response() == Frame::Bulk(b"hey".to_vec())),
        other => panic!("got {:?}", other),
    }
}

#[test]
fn ping_with_two_arguments_fails() {
    assert!(Command::from_frame(cmd_frame(&["PING", "a", "b"])).is_err());
}

#[test]
fn publish_parses_and_replies_count() {
    let c = Command::from_frame(cmd_frame(&["PUBLISH", "news", "hi"])).unwrap();
    match c {
        Command::Publish(p) => {
            assert_eq!(p.channel(), "news");
            assert_eq!(p.message(), &b"hi".to_vec());
        }
        other => panic!("got {:?}", other),
    }
    assert!(Publish::response(2) == Frame::Int(2));
}

#[test]
fn publish_arity() {
    assert!(Command::from_frame(cmd_frame(&["PUBLISH", "news"])).is_err());
    assert!(Command::from_frame(cmd_frame(&["PUBLISH", "news", "a", "b"])).is_err());
}

#[test]
fn get_response_shapes() {
    assert!(Get::response(Some(b"v".to_vec())) == Frame::Bulk(b"v".to_vec()));
    assert!(Get::response(None) == Frame::Null);
}

#[test]
fn set_response_is_ok() {
    assert!(SetCmd::response() == Frame::Simple("OK".to_string()));
}

#[test]
fn constructors_round_through_accessors() {
    let g = Get::new("k".to_string());
    assert_eq!(g.key(), "k");
    let frame = g.into_frame();
    assert!(
        frame == Frame::Array(vec![Frame::Bulk(b"get".to_vec()), Frame::Bulk(b"k".to_vec())])
    );
    let p = Ping::new(None);
    assert!(p.response() == Frame::Simple("PONG".to_string()));
    let u = Unknown::new("nope".to_string());
    assert_eq!(u.get_name(), "nope");
}

#[test]
fn only_sub_commands_are_valid_while_subscribed() {
    let sub = Command::from_frame(cmd_frame(&["SUBSCRIBE", "a"])).unwrap();
    let ping = Command::from_frame(cmd_frame(&["PING"])).unwrap();
    let get = Command::from_frame(cmd_frame(&["GET", "k"])).unwrap();
    assert!(sub.valid_while_subscribed());
    assert!(ping.valid_while_subscribed());
    assert!(!get.valid_while_subscribed());
    assert!(get.accepted_by_dispatch());
    assert!(sub.accepted_by_dispatch());
}
