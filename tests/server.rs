use htcache::cmd::{handle_frame, parse_command, parse_frame, Command, Config, Del, Get, Ping, SetCommand};
use htcache::connection::Session;
use htcache::db::cache::State;
use htcache::error::{CommandError, FrameError, HandleCommandError};
use htcache::frame::Frame;

fn serve(session: &mut Session, state: &mut State, input: &[u8]) -> Vec<u8> {
    session.receive(input);
    session.process(state, 0).0
}

fn fresh() -> (Session, State) {
    (Session::new(), State::new(1000, 16, 80).unwrap())
}

fn request(parts: &[&[u8]]) -> Frame {
    let mut f = Frame::array();
    for p in parts {
        f.push_back(Frame::Bulk(p.to_vec())).unwrap();
    }
    f
}

fn frames(parts: &[&[u8]]) -> Vec<Frame> {
    parts.iter().map(|p| Frame::Bulk(p.to_vec())).collect()
}

#[test]
fn ping_without_argument() {
    let (mut s, mut st) = fresh();
    assert_eq!(serve(&mut s, &mut st, b"*1\r\n$4\r\nPING\r\n"), b"+PONG\r\n".to_vec());
}

#[test]
fn ping_with_message() {
    let (mut s, mut st) = fresh();
    assert_eq!(
        serve(&mut s, &mut st, b"*2\r\n$4\r\nPING\r\n$5\r\nhello\r\n"),
        b"$5\r\nhello\r\n".to_vec()
    );
}

#[test]
fn set_then_get() {
    let (mut s, mut st) = fresh();
    assert_eq!(
        serve(&mut s, &mut st, b"*3\r\n$3\r\nSET\r\n$3\r\nfoo\r\n$3\r\nbar\r\n"),
        b"+OK\r\n".to_vec()
    );
    assert_eq!(serve(&mut s, &mut st, b"*2\r\n$3\r\nGET\r\n$3\r\nfoo\r\n"), b"$3\r\nbar\r\n".to_vec());
}

#[test]
fn get_missing() {
    let (mut s, mut st) = fresh();
    assert_eq!(serve(&mut s, &mut st, b"*2\r\n$3\r\nGET\r\n$7\r\nmissing\r\n"), b"_\r\n".to_vec());
}

#[test]
fn del_multiple_with_partial_match() {
    let (mut s, mut st) = fresh();
    st.set_kv(b"a", b"1", None);
    st.set_kv(b"b", b"2", None);
    assert_eq!(
        serve(&mut s, &mut st, b"*4\r\n$3\r\nDEL\r\n$1\r\na\r\n$1\r\nb\r\n$1\r\nc\r\n"),
        b":2\r\n".to_vec()
    );
    assert_eq!(st.size(), 0);
}

#[test]
fn unknown_command_keeps_the_connection() {
    let (mut s, mut st) = fresh();
    assert_eq!(
        serve(&mut s, &mut st, b"*1\r\n$7\r\nUNKNOWN\r\n"),
        b"-unknown command: UNKNOWN\r\n".to_vec()
    );
    assert_eq!(serve(&mut s, &mut st, b"*1\r\n$4\r\nPING\r\n"), b"+PONG\r\n".to_vec());
}

#[test]
fn pipelined_partial_arrival() {
    let (mut s, mut st) = fresh();
    let first = serve(&mut s, &mut st, b"*3\r\n$3\r\nSE");
    assert!(first.is_empty());
    assert!(s.has_pending());
    let second = serve(&mut s, &mut st, b"T\r\n$3\r\nfoo\r\n$3\r\nbar\r\n*2\r\n$3\r\nGET\r\n$3\r\nfoo\r\n");
    let mut all = first;
    all.extend(second);
    assert_eq!(all, b"+OK\r\n$3\r\nbar\r\n".to_vec());
    assert!(!s.has_pending());
}

#[test]
fn command_names_are_case_insensitive() {
    let (mut s, mut st) = fresh();
    assert_eq!(serve(&mut s, &mut st, b"*1\r\n$4\r\npInG\r\n"), b"+PONG\r\n".to_vec());
}

#[test]
fn malformed_bytes_get_an_error_and_are_dropped() {
    let (mut s, mut st) = fresh();
    assert_eq!(serve(&mut s, &mut st, b"+bad\rline\r\n"), b"-RESP frame is malformed\r\n".to_vec());
    assert!(!s.has_pending());
    assert_eq!(serve(&mut s, &mut st, b"*1\r\n$4\r\nPING\r\n"), b"+PONG\r\n".to_vec());
}

#[test]
fn end_of_input_tells_close_from_reset() {
    let mut s = Session::new();
    assert!(matches!(s.end_of_input(), FrameError::EOF));
    s.receive(b"*1\r\n");
    assert!(matches!(s.end_of_input(), FrameError::ConnectionReset));
}

#[test]
fn next_frame_leaves_partial_requests() {
    let mut s = Session::new();
    s.receive(b"+a\r\n+b");
    assert!(matches!(s.next_frame(), Ok(Some(Frame::Simple(ref v))) if v == b"a"));
    assert!(matches!(s.next_frame(), Ok(None)));
    s.receive(b"\r\n");
    assert!(matches!(s.next_frame(), Ok(Some(Frame::Simple(ref v))) if v == b"b"));
    assert!(!s.has_pending());
}

#[test]
fn set_wakes_eviction_at_the_mark() {
    let mut s = Session::new();
    let mut st = State::new(2, 2, 50).unwrap();
    s.receive(b"*3\r\n$3\r\nSET\r\n$1\r\nk\r\n$1\r\nv\r\n");
    let (out, wake) = s.process(&mut st, 0);
    assert_eq!(out, b"+OK\r\n".to_vec());
    assert!(wake);
}

#[test]
fn set_with_expiration_options() {
    let c = SetCommand::from(&frames(&[b"SET", b"k", b"v", b"ex", b"10"])).unwrap();
    assert_eq!(c.ttl, Some(10_000));
    let c = SetCommand::from(&frames(&[b"SET", b"k", b"v", b"PX", b"250"])).unwrap();
    assert_eq!(c.ttl, Some(250));
    let c = SetCommand::from(&frames(&[b"SET", b"k", b"v"])).unwrap();
    assert_eq!(c.ttl, None);
    assert_eq!(c.key, b"k".to_vec());
    assert_eq!(c.value, b"v".to_vec());
    assert!(matches!(SetCommand::from(&frames(&[b"SET", b"k", b"v", b"XX", b"1"])), Err(CommandError::Malformed(..))));
    assert!(matches!(SetCommand::from(&frames(&[b"SET", b"k", b"v", b"EX", b"x"])), Err(CommandError::Malformed(..))));
    assert!(matches!(SetCommand::from(&frames(&[b"SET", b"k"])), Err(CommandError::Malformed(..))));

    let mut st = State::new(100, 4, 90).unwrap();
    let c = SetCommand::from(&frames(&[b"SET", b"k", b"v", b"PX", b"100"])).unwrap();
    let (reply, _) = c.apply(&mut st, 1000);
    assert_eq!(reply.encode(), b"+OK\r\n".to_vec());
    assert_eq!(st.evict_expired_keys(1100).iter().sum::<usize>(), 0);
    assert_eq!(st.evict_expired_keys(1101).iter().sum::<usize>(), 1);
}

#[test]
fn command_shapes() {
    assert!(matches!(Get::from(&frames(&[b"GET"])), Err(CommandError::Malformed(..))));
    assert!(matches!(Get::from(&frames(&[b"GET", b"a", b"b"])), Err(CommandError::Malformed(..))));
    assert_eq!(Get::from(&frames(&[b"GET", b"a"])).unwrap().key, b"a".to_vec());
    assert!(matches!(Del::from(&frames(&[b"DEL"])), Err(CommandError::Malformed(..))));
    let mut mixed = frames(&[b"DEL", b"a"]);
    mixed.push(Frame::Integer(1));
    assert!(matches!(Del::from(&mixed), Err(CommandError::Malformed(..))));
    assert_eq!(Del::from(&frames(&[b"DEL", b"a", b"b"])).unwrap().keys.len(), 2);
    assert!(matches!(Ping::from(&frames(&[b"PING", b"a", b"b"])), Err(CommandError::Malformed(..))));
    assert_eq!(Ping::from(&frames(&[b"PING"])).unwrap().message, None);
    assert!(matches!(Config::from(&frames(&[b"CONFIG", b"GET"])), Err(CommandError::Malformed(..))));
}

#[test]
fn config_replies_are_fixed() {
    let c = Config::from(&frames(&[b"CONFIG", b"GET", b"save"])).unwrap();
    assert_eq!(
        c.apply().encode(),
        b"%1\r\n$4\r\nsave\r\n$23\r\n3600 1 300 100 60 10000\r\n".to_vec()
    );
    let c = Config::from(&frames(&[b"CONFIG", b"GET", b"appendonly"])).unwrap();
    assert_eq!(c.apply().encode(), b"%1\r\n$10\r\nappendonly\r\n$2\r\nno\r\n".to_vec());
}

#[test]
fn parse_frame_checks_the_shape() {
    assert!(matches!(parse_frame(Frame::Null), Err(CommandError::NotCmdFrame)));
    assert!(matches!(parse_frame(Frame::array()), Err(CommandError::InvalidCmdFrame)));
    let mut not_bulk = Frame::array();
    not_bulk.push_back(Frame::Integer(1)).unwrap();
    assert!(matches!(parse_frame(not_bulk), Err(CommandError::InvalidCmdFrame)));
    let (name, parts) = parse_frame(request(&[b"get", b"k"])).unwrap();
    assert_eq!(name, b"GET".to_vec());
    assert_eq!(parts.len(), 2);
    assert!(matches!(parse_command(request(&[b"Del", b"k"])), Ok(Command::Del(_))));
    assert!(matches!(parse_command(request(&[b"nope"])), Err(CommandError::Unknown(ref n)) if n == b"NOPE"));
}

#[test]
fn error_replies_carry_the_reason() {
    let mut st = State::new(100, 4, 90).unwrap();
    let (reply, wake) = handle_frame(Frame::Integer(3), &mut st, 0);
    assert!(!wake);
    assert_eq!(reply.encode(), b"-not a command\r\n".to_vec());
    let (reply, _) = handle_frame(request(&[b"GET"]), &mut st, 0);
    assert_eq!(reply.encode(), b"-'GET' command is invalid: requires 1 argument\r\n".to_vec());
    assert_eq!(
        CommandError::InvalidCmdFrame.message(),
        b"not a command".to_vec()
    );
    assert_eq!(
        HandleCommandError::Frame(FrameError::IntFromUTF8).message(),
        b"cannot convert bytes to int".to_vec()
    );
    assert_eq!(
        HandleCommandError::Command(CommandError::Connection).message(),
        b"network error: error while writing to network".to_vec()
    );
    assert_eq!(
        CommandError::FrameDecode(FrameError::UnexpectedEOF).message(),
        b"connection abruptly closed".to_vec()
    );
}
