use wialon_protocol::{Action, Connection, ConsoleStore, FrameError, GeoPacket, Reactor, SERVER};

const SD: &[u8] = b"#SD#280421;055447;5355.09260;N;02732.40990;E;60;0;300;7\r\n";
const D: &[u8] =
    b"#D#280421;055500;5355.09260;N;02732.40990;E;60;0;300;7;22;5;5120;;eee;test1:1:1,var:2:4.5,texttest:3:1\r\n";

fn replies(actions: &[Action]) -> Vec<Vec<u8>> {
    actions
        .iter()
        .filter_map(|a| match a {
            Action::Reply(b) => Some(b.clone()),
            _ => None,
        })
        .collect()
}

fn events(actions: &[Action]) -> Vec<&GeoPacket> {
    actions
        .iter()
        .filter_map(|a| match a {
            Action::Forward(g) => Some(g),
            _ => None,
        })
        .collect()
}

#[test]
fn split_frame_decodes_like_whole() {
    let mut whole = Connection::new();
    let all = whole.get_message(b"#L#1;1\r\n");

    let mut split = Connection::new();
    let first = split.get_message(b"#L#1;");
    assert!(first.is_empty());
    let second = split.get_message(b"1\r\n");
    assert_eq!(replies(&second), replies(&all));
    assert_eq!(replies(&second), vec![b"#AL#1\r\n".to_vec()]);

    let after_whole = whole.get_message(SD);
    let after_split = split.get_message(SD);
    assert_eq!(events(&after_whole)[0].imei, "1");
    assert_eq!(events(&after_split)[0].imei, "1");
}

#[test]
fn terminator_split_between_reads() {
    let mut c = Connection::new();
    assert!(c.get_message(b"#L#7;1\r").is_empty());
    let out = c.get_message(b"\n");
    assert_eq!(replies(&out), vec![b"#AL#1\r\n".to_vec()]);
}

#[test]
fn two_frames_in_one_read() {
    let mut c = Connection::new();
    let mut bytes = b"#L#1;1\r\n".to_vec();
    bytes.extend_from_slice(SD);
    let out = c.get_message(&bytes);
    assert_eq!(out.len(), 3);
    assert!(matches!(&out[0], Action::Reply(b) if b == b"#AL#1\r\n"));
    assert!(matches!(&out[1], Action::Forward(g) if g.imei == "1" && g.speed == 60));
    assert!(matches!(&out[2], Action::Reply(b) if b == b"#ASD#1\r\n"));
}

#[test]
fn telemetry_before_login_carries_the_sentinel() {
    let mut c = Connection::new();
    let out = c.get_message(SD);
    assert_eq!(events(&out)[0].imei, "\u{0}d");
}

#[test]
fn bad_frames_are_dropped_and_the_stream_goes_on() {
    let mut c = Connection::new();
    let mut bytes = b"#Q#1\r\n".to_vec();
    bytes.extend_from_slice(D);
    let out = c.get_message(&bytes);
    assert_eq!(out.len(), 3);
    assert!(matches!(&out[0], Action::Discard(FrameError::UnknownType)));
    assert!(matches!(&out[1], Action::Forward(_)));
    assert!(matches!(&out[2], Action::Reply(b) if b == b"#AD#1\r\n"));
}

#[test]
fn malformed_frame_drops_the_rest_of_the_buffer() {
    let mut c = Connection::new();
    let out = c.get_message(b"garbage\r\n#L#1;1\r\n#L#2");
    assert_eq!(out.len(), 1);
    assert!(matches!(&out[0], Action::Discard(FrameError::Malformed)));
    let out = c.get_message(b";2\r\n");
    assert!(matches!(&out[0], Action::Discard(FrameError::Malformed)));
    let out = c.get_message(b"#L#3;3\r\n");
    assert_eq!(replies(&out), vec![b"#AL#1\r\n".to_vec()]);
    let out = c.get_message(SD);
    assert_eq!(events(&out)[0].imei, "3");
}

#[test]
fn test_server() {
    let mut reactor = Reactor::new();
    let token = reactor.accept().unwrap();
    assert!(token > SERVER);

    let out = reactor.on_readable(token, b"#L#1;1\r\n", false);
    assert_eq!(replies(&out), vec![b"#AL#1\r\n".to_vec()]);

    let out = reactor.on_readable(token, SD, false);
    assert_eq!(replies(&out), vec![b"#ASD#1\r\n".to_vec()]);

    let out = reactor.on_readable(token, D, false);
    assert_eq!(replies(&out), vec![b"#AD#1\r\n".to_vec()]);

    let out = reactor.on_readable(token, b"#ASD#1\n", false);
    assert!(out.is_empty());
    assert!(reactor.contains(token));
}

#[test]
fn end_of_stream_removes_the_connection() {
    let mut reactor = Reactor::new();
    let a = reactor.accept().unwrap();
    let b = reactor.accept().unwrap();
    assert_ne!(a, b);
    assert_eq!(reactor.len(), 2);
    let out = reactor.on_readable(a, b"", true);
    assert!(out.is_empty());
    assert!(!reactor.contains(a));
    assert!(reactor.contains(b));
    assert_eq!(reactor.len(), 1);
}

#[test]
fn last_read_is_handled_before_closing() {
    let mut reactor = Reactor::new();
    let t = reactor.accept().unwrap();
    let out = reactor.on_readable(t, b"#L#1;1\r\n", true);
    assert_eq!(replies(&out), vec![b"#AL#1\r\n".to_vec()]);
    assert!(!reactor.contains(t));
}

#[test]
fn tokens_are_never_reused() {
    let mut reactor = Reactor::new();
    let a = reactor.accept().unwrap();
    assert!(reactor.close(a));
    assert!(!reactor.close(a));
    let b = reactor.accept().unwrap();
    assert!(b > a);
    assert!(reactor.on_readable(a, b"#L#1;1\r\n", false).is_empty());
}

#[test]
fn console_store_is_a_unit() {
    let s = ConsoleStore::new();
    let t = s;
    assert_eq!(format!("{:?}", t), "ConsoleStore");
}
