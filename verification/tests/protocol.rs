use agilulf::database::Database;
use agilulf::error::ProtocolError;
use agilulf::message::{MessageHead, PartHead};
use agilulf::reply::{decode_reply, Reply, Status};
use agilulf::request::{decode_message, Command, GetCommand, PutCommand, ScanCommand};
use agilulf::server::execute_command;
use agilulf::Slice;

fn padded(bytes: &[u8], width: usize) -> Vec<u8> {
    let mut v = bytes.to_vec();
    while v.len() < width {
        v.push(0);
    }
    v
}

#[test]
fn message_head() {
    let message_head = MessageHead::from_buf(b"*100\r\n".to_vec()).unwrap();
    assert_eq!(message_head.count, 100);
    assert_eq!(message_head.into_bytes(), b"*100\r\n".to_vec());
}

#[test]
fn part_head() {
    let part_head = PartHead::from_buf(b"$100\r\n".to_vec()).unwrap();
    assert_eq!(part_head.size, 100);
    assert_eq!(part_head.into_bytes(), b"$100\r\n".to_vec());
}

#[test]
fn wrong_message_head() {
    match MessageHead::from_buf(b"$100\r\r".to_vec()) {
        Err(ProtocolError::GrammarCheckFailed(msg)) => {
            assert_eq!(msg, "* should be the first character of a message")
        }
        Err(_) => assert!(false, "unexpected error kind"),
        Ok(_) => assert!(false, "should throw an error"),
    }
}

#[test]
fn wrong_part_head() {
    match PartHead::from_buf(b"*100\r\r".to_vec()) {
        Err(ProtocolError::GrammarCheckFailed(msg)) => {
            assert_eq!(msg, "$ should be the first character of a message part")
        }
        Err(_) => assert!(false, "unexpected error kind"),
        Ok(_) => assert!(false, "should throw an error"),
    }
}

#[test]
fn parse_head() {
    let buf = b"*12".to_vec();
    let head = MessageHead::new(buf).unwrap();
    assert_eq!(head.count, 12);
}

#[test]
fn command_round_trip() {
    let cmd = Command::PUT(PutCommand {
        key: Slice(padded(b"key0", 8)),
        value: Slice(padded(b"value0", 256)),
    });
    let bytes = cmd.into_bytes();
    let (parts, used) = decode_message(&bytes, 0).unwrap().unwrap();
    assert_eq!(used, bytes.len());
    let decoded = Command::from_message(parts).unwrap();
    match decoded {
        Command::PUT(c) => {
            assert_eq!(c.key.0, padded(b"key0", 8));
            assert_eq!(c.value.0, padded(b"value0", 256));
        }
        _ => assert!(false, "decoded to a different command"),
    }

    let cmd = Command::SCAN(ScanCommand {
        start: Slice(b"a".to_vec()),
        end: Slice(b"z".to_vec()),
    });
    let bytes = cmd.into_bytes();
    let (parts, _) = decode_message(&bytes, 0).unwrap().unwrap();
    match Command::from_message(parts).unwrap() {
        Command::SCAN(c) => {
            assert_eq!(c.start.0, b"a".to_vec());
            assert_eq!(c.end.0, b"z".to_vec());
        }
        _ => assert!(false, "decoded to a different command"),
    }
}

#[test]
fn command_case_insensitive() {
    let mut parts: Vec<Vec<u8>> = Vec::new();
    parts.push(b"get".to_vec());
    parts.push(padded(b"key0", 8));
    match Command::from_message(parts).unwrap() {
        Command::GET(c) => assert_eq!(c.key.0, padded(b"key0", 8)),
        _ => assert!(false, "lower-case name should decode"),
    }
}

#[test]
fn unknown_command_reported() {
    let mut parts: Vec<Vec<u8>> = Vec::new();
    parts.push(b"MUNGE".to_vec());
    match Command::from_message(parts) {
        Err(ProtocolError::CommandNotSupport(name)) => assert_eq!(name, b"MUNGE".to_vec()),
        _ => assert!(false, "unknown command should be reported"),
    }
}

#[test]
fn reply_round_trip() {
    let reply = Reply::StatusReply(Status::OK);
    let bytes = reply.into_bytes();
    assert_eq!(bytes, b"+OK\r\n".to_vec());
    let (decoded, used) = decode_reply(&bytes, 0).unwrap().unwrap();
    assert_eq!(used, 5);
    assert_eq!(decoded, Reply::StatusReply(Status::OK));

    let reply = Reply::ErrorReply(b"KeyNotFound".to_vec());
    let bytes = reply.into_bytes();
    assert_eq!(bytes, b"-KeyNotFound\r\n".to_vec());
    let (decoded, _) = decode_reply(&bytes, 0).unwrap().unwrap();
    assert_eq!(decoded, Reply::ErrorReply(b"KeyNotFound".to_vec()));

    let reply = Reply::SliceReply(Slice(b"abc".to_vec()));
    let bytes = reply.into_bytes();
    assert_eq!(bytes, b"$3\r\nabc\r\n".to_vec());
    let (decoded, _) = decode_reply(&bytes, 0).unwrap().unwrap();
    assert_eq!(decoded, Reply::SliceReply(Slice(b"abc".to_vec())));

    let reply = Reply::MultipleSliceReply(vec![
        Slice(b"k".to_vec()),
        Slice(b"v".to_vec()),
    ]);
    let bytes = reply.into_bytes();
    assert_eq!(bytes, b"*2\r\n$1\r\nk\r\n$1\r\nv\r\n".to_vec());
    let (decoded, _) = decode_reply(&bytes, 0).unwrap().unwrap();
    assert_eq!(
        decoded,
        Reply::MultipleSliceReply(vec![Slice(b"k".to_vec()), Slice(b"v".to_vec())])
    );
}

#[test]
fn incomplete_message_asks_for_more() {
    let bytes = b"*2\r\n$3\r\nPU".to_vec();
    assert!(decode_message(&bytes, 0).unwrap().is_none());
}

#[test]
fn wire_put_then_get() {
    // the literal exchange: a PUT of key0 (padded to 8) and value0
    // (padded to 256) answers +OK; the GET answers the padded value
    let mut db = Database::new();

    let key = padded(b"key0", 8);
    let value = padded(b"value0", 256);

    let mut wire: Vec<u8> = Vec::new();
    wire.extend_from_slice(b"*3\r\n$3\r\nPUT\r\n$8\r\n");
    wire.extend_from_slice(&key);
    wire.extend_from_slice(b"\r\n$256\r\n");
    wire.extend_from_slice(&value);
    wire.extend_from_slice(b"\r\n");

    let (parts, used) = decode_message(&wire, 0).unwrap().unwrap();
    assert_eq!(used, wire.len());
    let cmd = Command::from_message(parts).unwrap();
    let reply = execute_command(&mut db, cmd);
    assert_eq!(reply.into_bytes(), b"+OK\r\n".to_vec());

    let get = Command::GET(GetCommand { key: Slice(key.clone()) });
    let reply = execute_command(&mut db, get);
    let mut expected: Vec<u8> = Vec::new();
    expected.extend_from_slice(b"$256\r\n");
    expected.extend_from_slice(&value);
    expected.extend_from_slice(b"\r\n");
    assert_eq!(reply.into_bytes(), expected);
}

#[test]
fn head_number_too_large() {
    match MessageHead::from_buf(b"*99999999999999999999999999\r\n".to_vec()) {
        Err(ProtocolError::ParseError) => {}
        _ => assert!(false, "an overlong count should fail to parse"),
    }
    match MessageHead::from_buf(b"*12a\r\n".to_vec()) {
        Err(ProtocolError::ParseError) => {}
        _ => assert!(false, "a non-digit should fail to parse"),
    }
}

#[test]
fn oversized_write_is_refused() {
    let mut db = Database::new();
    let cmd = Command::PUT(PutCommand {
        key: Slice(b"too-long-key".to_vec()),
        value: Slice(padded(b"v", 256)),
    });
    match execute_command(&mut db, cmd) {
        Reply::ErrorReply(_) => {}
        _ => assert!(false, "a key of the wrong width should be refused"),
    }
}
