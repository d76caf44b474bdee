use std::borrow::Cow;

use ircparse::{Command, IrcCodec, Message, StreamMessage};

fn b(s: &'static [u8]) -> Cow<'static, [u8]> {
    Cow::Borrowed(s)
}

fn decode_all(chunks: &[&[u8]]) -> Vec<StreamMessage> {
    let mut codec = IrcCodec;
    let mut buf = Vec::new();
    let mut events = Vec::new();
    for chunk in chunks {
        buf.extend_from_slice(chunk);
        while let Some(ev) = codec.decode(&mut buf) {
            events.push(ev);
        }
    }
    events
}

#[test]
fn end_to_end_stream() {
    let events = decode_all(&[b"@id=234AB :dan!d@localhost PRIVMSG #chan :Hey what's up!\r\n"]);
    assert_eq!(events.len(), 1);
    match &events[0] {
        StreamMessage::Message(m) => {
            assert_eq!(m.command, Command::Privmsg { channel: b(b"#chan"), message: b(b"Hey what's up!") });
        }
        _ => panic!("expected a message"),
    }
}

#[test]
fn malformed_line_then_valid_line() {
    let events = decode_all(&[b"@bad tag;;; GARBLED\r\nCAP REQ :sasl\r\n"]);
    assert_eq!(events.len(), 2);
    match &events[0] {
        StreamMessage::Invalid(bytes) => assert_eq!(bytes, &b"@bad tag;;; GARBLED\r\n".to_vec()),
        _ => panic!("expected an invalid line"),
    }
    assert!(!events[0].is_valid());
    assert!(events[1].is_valid());
    match &events[1] {
        StreamMessage::Message(m) => assert_eq!(
            m.command,
            Command::Unknown { command: b(b"CAP"), args: vec![b(b"REQ")], rest: Some(b(b"sasl")) }
        ),
        _ => panic!("expected a message"),
    }
}

#[test]
fn split_line_gives_the_same_events() {
    let line: &[u8] = b"@id=234AB :dan!d@localhost PRIVMSG #chan :Hey what's up!\r\n";
    let whole = decode_all(&[line]);
    for cut in 0..=line.len() {
        let parts = decode_all(&[&line[..cut], &line[cut..]]);
        assert_eq!(parts.len(), whole.len());
        match (&parts[0], &whole[0]) {
            (StreamMessage::Message(a), StreamMessage::Message(b)) => assert_eq!(a, b),
            _ => panic!("expected messages"),
        }
    }
}

#[test]
fn incomplete_input_leaves_the_buffer() {
    let mut codec = IrcCodec;
    let mut buf = b"CAP LS *".to_vec();
    assert!(codec.decode(&mut buf).is_none());
    assert_eq!(buf, b"CAP LS *".to_vec());
    let mut buf = b"@bad tag;;; no newline yet".to_vec();
    assert!(codec.decode(&mut buf).is_none());
    assert_eq!(buf.len(), 26);
}

#[test]
fn encode_appends_the_line() {
    let mut codec = IrcCodec;
    let (m, _) = Message::parse(b"PING :x\r\n").unwrap();
    let mut out = b"PONG\r\n".to_vec();
    codec.encode(m.into_owned(), &mut out);
    assert_eq!(out, b"PONG\r\nPING :x\r\n".to_vec());
}
