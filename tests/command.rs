use std::borrow::Cow;

use ircparse::{Command, RawCommandAndArgs};

fn b(s: &'static [u8]) -> Cow<'static, [u8]> {
    Cow::Borrowed(s)
}

#[test]
fn test_with_command_args() {
    let input = RawCommandAndArgs {
        command: b(b"PRIVMSG"),
        args: vec![b(b"#foo")],
        rest: Some(b(b"Hello, world!")),
    };
    let result = Command::from(input);
    let expected = Command::Privmsg { channel: b(b"#foo"), message: b(b"Hello, world!") };
    assert_eq!(result, expected);

    let input = RawCommandAndArgs {
        command: b(b"PRIVMSG"),
        args: vec![b(b"#foo"), b(b"a")],
        rest: Some(b(b"Hello, world!")),
    };
    let result = Command::from(input);
    let expected = Command::Unknown {
        command: b(b"PRIVMSG"),
        args: vec![b(b"#foo"), b(b"a")],
        rest: Some(b(b"Hello, world!")),
    };
    assert_eq!(result, expected);

    let input = RawCommandAndArgs {
        command: b(b"FOO"),
        args: vec![b(b"BAR")],
        rest: Some(b(b"baz quux")),
    };
    let result = Command::from(input);
    let expected = Command::Unknown {
        command: b(b"FOO"),
        args: vec![b(b"BAR")],
        rest: Some(b(b"baz quux")),
    };
    assert_eq!(result, expected);
}

#[test]
fn privmsg_without_trailing_is_unknown() {
    let input = RawCommandAndArgs { command: b(b"PRIVMSG"), args: vec![b(b"#foo")], rest: None };
    let result = Command::from(input);
    let expected = Command::Unknown { command: b(b"PRIVMSG"), args: vec![b(b"#foo")], rest: None };
    assert_eq!(result, expected);
}

#[test]
fn catch_all_gives_back_its_raw_form() {
    let input = RawCommandAndArgs {
        command: b(b"CAP"),
        args: vec![b(b"LS"), b(b"*")],
        rest: Some(b(b"")),
    };
    let raw = Command::from(input).into_raw();
    assert_eq!(raw.command, b(b"CAP"));
    assert_eq!(raw.args, vec![b(b"LS"), b(b"*")]);
    assert_eq!(raw.rest, Some(b(b"")));
}

#[test]
fn privmsg_raw_form() {
    let cmd = Command::Privmsg { channel: b(b"#c"), message: b(b"hi there") };
    let raw = cmd.into_raw();
    assert_eq!(raw.command, b(b"PRIVMSG"));
    assert_eq!(raw.args, vec![b(b"#c")]);
    assert_eq!(raw.rest, Some(b(b"hi there")));
    let mut out = Vec::new();
    raw.write_to(&mut out);
    assert_eq!(out, b"PRIVMSG #c :hi there".to_vec());
}

#[test]
fn command_into_owned_keeps_content() {
    let data = b"FOO".to_vec();
    let cmd = Command::Unknown { command: Cow::Borrowed(&data[..]), args: vec![], rest: None };
    let owned: Command<'static> = cmd.into_owned();
    drop(data);
    match owned {
        Command::Unknown { command, args, rest } => {
            assert!(matches!(command, Cow::Owned(_)));
            assert_eq!(command, b(b"FOO"));
            assert!(args.is_empty());
            assert!(rest.is_none());
        }
        _ => panic!("wrong variant"),
    }
}
