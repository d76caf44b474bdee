use std::borrow::Cow;

use ircparse::wire::{prefix, tag, tags};
use ircparse::{Command, Message, Prefix, Tag};

fn b(s: &'static [u8]) -> Cow<'static, [u8]> {
    Cow::Borrowed(s)
}

#[test]
fn test_tag() {
    let input = b"id=123AB;";
    let result = tag(input, 0);
    let expected = Tag { key: b(b"id"), value: Some(b(b"123AB")) };
    assert_eq!(result, Ok((expected, 8)));
    assert_eq!(input[8..].to_vec(), b";".to_vec());

    let input = b"netsplit=tur,ty ";
    let expected = Tag { key: b(b"netsplit"), value: Some(b(b"tur,ty")) };
    assert_eq!(tag(input, 0), Ok((expected, 15)));

    let input = b"rose;";
    let expected = Tag { key: b(b"rose"), value: None };
    assert_eq!(tag(input, 0), Ok((expected, 4)));

    // At the end of the input the tag may still grow.
    assert_eq!(tag(b"netsplit=tur,ty", 0), Err(None));
    assert_eq!(tag(b"rose", 0), Err(None));
}

#[test]
fn test_tags() {
    let input = b"url=;rose;netsplit=tur,ty ";
    let (result, end) = tags(input, 0).unwrap();
    let expected = vec![
        Tag { key: b(b"url"), value: Some(b(b"")) },
        Tag { key: b(b"rose"), value: None },
        Tag { key: b(b"netsplit"), value: Some(b(b"tur,ty")) },
    ];
    assert_eq!(result, expected);
    assert_eq!(end, input.len());
}

#[test]
fn test_prefix() {
    let input = b"dan!d@localhost ";
    let expected = Prefix { nickname: b(b"dan"), user: Some(b(b"d")), host: Some(b(b"localhost")) };
    assert_eq!(prefix(input, 0), Ok((expected, input.len())));

    let input = b"localhost ";
    let expected = Prefix { nickname: b(b"localhost"), user: None, host: None };
    assert_eq!(prefix(input, 0), Ok((expected, input.len())));

    let input = b"dan@localhost ";
    let expected = Prefix { nickname: b(b"dan"), user: None, host: Some(b(b"localhost")) };
    assert_eq!(prefix(input, 0), Ok((expected, input.len())));
}

#[test]
fn prefix_user_without_host_is_rejected() {
    assert_eq!(prefix(b"nick!user ", 0), Err(Some(9)));
    assert!(Message::parse(b":nick!user CMD\r\n").is_err());
}

#[test]
fn vendor_tag_key() {
    let input = b"example.com/foo-bar=1 ";
    let expected = Tag { key: b(b"example.com/foo-bar"), value: Some(b(b"1")) };
    assert_eq!(tag(input, 0), Ok((expected, 21)));
    assert_eq!(tag(b"a.b=1 ", 0), Err(Some(1)));
}

#[test]
fn test_raw_message() {
    let input = b":irc.example.com CAP LS * :multi-prefix extended-join sasl\r\n";
    let (msg, left) = Message::parse(input).unwrap();
    assert!(left.is_empty());
    let expected = Message {
        tags: vec![],
        prefix: Some(Prefix { nickname: b(b"irc.example.com"), user: None, host: None }),
        command: Command::Unknown {
            command: b(b"CAP"),
            args: vec![b(b"LS"), b(b"*")],
            rest: Some(b(b"multi-prefix extended-join sasl")),
        },
    };
    assert_eq!(msg, expected);

    let input = b"@id=234AB :dan!d@localhost PRIVMSG #chan :Hey what's up!\r\n";
    let (msg, left) = Message::parse(input).unwrap();
    assert!(left.is_empty());
    let expected = Message {
        tags: vec![Tag { key: b(b"id"), value: Some(b(b"234AB")) }],
        prefix: Some(Prefix {
            nickname: b(b"dan"),
            user: Some(b(b"d")),
            host: Some(b(b"localhost")),
        }),
        command: Command::Privmsg { channel: b(b"#chan"), message: b(b"Hey what's up!") },
    };
    assert_eq!(msg, expected);

    let input = b"CAP REQ :sasl\r\n";
    let (msg, left) = Message::parse(input).unwrap();
    assert!(left.is_empty());
    let expected = Message {
        tags: vec![],
        prefix: None,
        command: Command::Unknown {
            command: b(b"CAP"),
            args: vec![b(b"REQ")],
            rest: Some(b(b"sasl")),
        },
    };
    assert_eq!(msg, expected);
}

#[test]
fn tag_order_and_duplicates_are_kept() {
    let (msg, _) = Message::parse(b"@a=1;b=2;a=3 COMMAND\r\n").unwrap();
    assert_eq!(
        msg.tags,
        vec![
            Tag { key: b(b"a"), value: Some(b(b"1")) },
            Tag { key: b(b"b"), value: Some(b(b"2")) },
            Tag { key: b(b"a"), value: Some(b(b"3")) },
        ]
    );
}

#[test]
fn prefix_variants() {
    let (m, _) = Message::parse(b":nick CMD\r\n").unwrap();
    assert_eq!(m.prefix, Some(Prefix { nickname: b(b"nick"), user: None, host: None }));
    let (m, _) = Message::parse(b":nick@host CMD\r\n").unwrap();
    assert_eq!(m.prefix, Some(Prefix { nickname: b(b"nick"), user: None, host: Some(b(b"host")) }));
    let (m, _) = Message::parse(b":nick!user@host CMD\r\n").unwrap();
    assert_eq!(
        m.prefix,
        Some(Prefix { nickname: b(b"nick"), user: Some(b(b"user")), host: Some(b(b"host")) })
    );
}

#[test]
fn incomplete_and_invalid_lines() {
    assert_eq!(Message::parse(b"CAP LS *").err(), Some(None));
    assert_eq!(Message::parse(b"").err(), Some(None));
    assert_eq!(Message::parse(b"@bad tag;;; GARBLED\r\n").err(), Some(Some(8)));
    assert_eq!(Message::parse(b"1234 X\r\n").err(), Some(Some(3)));
    assert_eq!(Message::parse(b"CMD a\nb\r\n").err(), Some(Some(5)));
}

#[test]
fn numeric_command_and_remaining_bytes() {
    let input = b"001 me :Welcome\r\nPING x\r\n";
    let (m, left) = Message::parse(input).unwrap();
    assert_eq!(
        m.command,
        Command::Unknown { command: b(b"001"), args: vec![b(b"me")], rest: Some(b(b"Welcome")) }
    );
    assert_eq!(left.to_vec(), b"PING x\r\n".to_vec());
}

#[test]
fn write_then_parse_gives_the_message_back() {
    let m = Message {
        tags: vec![
            Tag { key: b(b"a"), value: Some(b(b"")) },
            Tag { key: b(b"x.y/z"), value: None },
        ],
        prefix: Some(Prefix { nickname: b(b"n"), user: Some(b(b"u")), host: Some(b(b"h")) }),
        command: Command::Unknown {
            command: b(b"MODE"),
            args: vec![b(b"#c"), b(b"+o")],
            rest: Some(b(b"with spaces")),
        },
    };
    let mut out = Vec::new();
    m.write_to(&mut out);
    assert_eq!(out, b"@a=;x.y/z :n!u@h MODE #c +o :with spaces\r\n".to_vec());
    let (back, left) = Message::parse(&out).unwrap();
    assert!(left.is_empty());
    assert_eq!(back, m);
}

#[test]
fn tag_and_prefix_writing() {
    let mut out = Vec::new();
    Tag { key: b(b"k"), value: Some(b(b"v")) }.write_to(&mut out);
    assert_eq!(out, b"k=v".to_vec());
    let mut out = Vec::new();
    Prefix { nickname: b(b"n"), user: None, host: Some(b(b"h")) }.write_to(&mut out);
    assert_eq!(out, b":n@h".to_vec());
}

#[test]
fn owned_copy_outlives_the_buffer() {
    let data = b"@id=1 :a!b@c PRIVMSG #x :y\r\n".to_vec();
    let owned: Message<'static> = {
        let (m, _) = Message::parse(&data).unwrap();
        m.into_owned()
    };
    drop(data);
    assert_eq!(owned.command, Command::Privmsg { channel: b(b"#x"), message: b(b"y") });
    assert!(matches!(owned.tags[0].key, Cow::Owned(_)));
}

#[test]
fn prefix_fields_may_hold_line_breaks() {
    let m = Message {
        tags: vec![],
        prefix: Some(Prefix { nickname: b(b"\r"), user: Some(b(b"u\n")), host: Some(b(b"h\r\n")) }),
        command: Command::Unknown { command: b(b"C"), args: vec![], rest: None },
    };
    let bytes = m.to_bytes();
    assert_eq!(bytes, b":\r!u\n@h\r\n C\r\n".to_vec());
    let (back, left) = Message::parse(&bytes).unwrap();
    assert!(left.is_empty());
    assert_eq!(back, m);

    let input = b"\r ";
    let expected = Prefix { nickname: b(b"\r"), user: None, host: None };
    assert_eq!(prefix(input, 0), Ok((expected, 2)));
}

#[test]
fn to_bytes_writes_one_line() {
    let m = Message {
        tags: vec![Tag { key: b(b"id"), value: Some(b(b"1")) }],
        prefix: None,
        command: Command::Privmsg { channel: b(b"#c"), message: b(b"hi") },
    };
    assert_eq!(m.to_bytes(), b"@id=1 PRIVMSG #c :hi\r\n".to_vec());
    let copy = m.clone();
    assert_eq!(copy, m);
}
