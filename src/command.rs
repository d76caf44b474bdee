use std::borrow::Cow;
use vstd::prelude::*;

use crate::data::{
    args_view, bytes_of, is_owned, opt_bytes, opt_owned, owned_bytes, owned_list, owned_opt, put_raw_parts,
    raw_wire, RawCommandAndArgs, RawV,
};

verus! {

/// The meaning of a raw command: a modeled variant, or the raw fields kept
/// unchanged.
#[derive(Debug, PartialEq, Clone)]
pub enum Command<'a> {
    Privmsg { channel: Cow<'a, [u8]>, message: Cow<'a, [u8]> },
    Unknown { command: Cow<'a, [u8]>, args: Vec<Cow<'a, [u8]>>, rest: Option<Cow<'a, [u8]>> },
}

pub ghost enum CommandV {
    Privmsg { channel: Seq<u8>, message: Seq<u8> },
    Unknown { command: Seq<u8>, args: Seq<Seq<u8>>, rest: Option<Seq<u8>> },
}

impl<'a> View for Command<'a> {
    type V = CommandV;

    open spec fn view(&self) -> CommandV {
        match self {
            Command::Privmsg { channel, message } => CommandV::Privmsg {
                channel: channel@,
                message: message@,
            },
            Command::Unknown { command, args, rest } => CommandV::Unknown {
                command: command@,
                args: args_view(args@),
                rest: opt_bytes(*rest),
            },
        }
    }
}

pub open spec fn privmsg_word() -> Seq<u8> {
    seq![80u8, 82u8, 73u8, 86u8, 77u8, 83u8, 71u8]
}

/// Whether a raw shape is the one of the modeled targeted-message command.
pub open spec fn is_privmsg_shape(r: RawV) -> bool {
    r.command == privmsg_word() && r.args.len() == 1 && r.rest is Some
}

pub open spec fn raw_to_command(r: RawV) -> CommandV {
    if is_privmsg_shape(r) {
        CommandV::Privmsg { channel: r.args[0], message: r.rest->Some_0 }
    } else {
        CommandV::Unknown { command: r.command, args: r.args, rest: r.rest }
    }
}

pub open spec fn command_to_raw(c: CommandV) -> RawV {
    match c {
        CommandV::Privmsg { channel, message } => RawV {
            command: privmsg_word(),
            args: seq![channel],
            rest: Some(message),
        },
        CommandV::Unknown { command, args, rest } => RawV { command, args, rest },
    }
}

/// A command is canonical when reading its raw form gives it back: the
/// catch-all variant never holds the modeled shape.
pub open spec fn canonical(c: CommandV) -> bool {
    match c {
        CommandV::Unknown { command, args, rest } => !is_privmsg_shape(RawV { command, args, rest }),
        _ => true,
    }
}

fn is_privmsg(b: &Cow<'_, [u8]>) -> (r: bool)
    ensures
        r == (b@ == privmsg_word()),
{
    let s = bytes_of(b);
    if s.len() != 7 {
        return false;
    }
    let r = s[0] == 80 && s[1] == 82 && s[2] == 73 && s[3] == 86 && s[4] == 77 && s[5] == 83
        && s[6] == 71;
    proof {
        if r {
            assert(s@ =~= privmsg_word());
        }
    }
    r
}

impl<'a> Command<'a> {
    /// Reads the meaning of a raw command; any shape but the modeled one
    /// becomes the catch-all variant with its fields unchanged.
    pub fn from(raw: RawCommandAndArgs<'a>) -> (r: Command<'a>)
        ensures
            r@ == raw_to_command(raw@),
    {
        let RawCommandAndArgs { command, mut args, rest } = raw;
        if is_privmsg(&command) && args.len() == 1 && rest.is_some() {
            let channel = args.pop().unwrap();
            let message = rest.unwrap();
            Command::Privmsg { channel, message }
        } else {
            let r = Command::Unknown { command, args, rest };
            r
        }
    }

    /// The raw shape that this command is written as.
    pub fn into_raw(self) -> (r: RawCommandAndArgs<'a>)
        ensures
            r@ == command_to_raw(self@),
    {
        match self {
            Command::Privmsg { channel, message } => {
                let word: Vec<u8> = vec![80u8, 82u8, 73u8, 86u8, 77u8, 83u8, 71u8];
                let r = RawCommandAndArgs {
                    command: Cow::Owned(word),
                    args: vec![channel],
                    rest: Some(message),
                };
                proof {
                    assert(args_view(r.args@) =~= seq![channel@]);
                    assert(r.command@ =~= privmsg_word());
                }
                r
            },
            Command::Unknown { command, args, rest } => RawCommandAndArgs { command, args, rest },
        }
    }
}

pub open spec fn command_owned(c: Command<'_>) -> bool {
    match c {
        Command::Privmsg { channel, message } => is_owned(channel) && is_owned(message),
        Command::Unknown { command, args, rest } => is_owned(command) && opt_owned(rest) && (
        forall|i: int| 0 <= i < args@.len() ==> is_owned(#[trigger] args@[i])),
    }
}

impl<'a> Command<'a> {
    /// A copy that refers to no buffer.
    pub fn into_owned(self) -> (r: Command<'static>)
        ensures
            r@ == self@,
            command_owned(r),
    {
        match self {
            Command::Privmsg { channel, message } => Command::Privmsg {
                channel: owned_bytes(channel),
                message: owned_bytes(message),
            },
            Command::Unknown { command, args, rest } => Command::Unknown {
                command: owned_bytes(command),
                args: owned_list(args),
                rest: owned_opt(rest),
            },
        }
    }

    /// Appends the raw form of this command.
    pub fn write_to(&self, out: &mut Vec<u8>)
        ensures
            final(out)@ == old(out)@ + raw_wire(command_to_raw(self@)),
    {
        match self {
            Command::Privmsg { channel, message } => {
                let word: Vec<u8> = vec![80u8, 82u8, 73u8, 86u8, 77u8, 83u8, 71u8];
                let command: Cow<'_, [u8]> = Cow::Owned(word);
                let args: Vec<Cow<'_, [u8]>> = vec![Cow::Borrowed(bytes_of(channel))];
                let rest: Option<Cow<'_, [u8]>> = Some(Cow::Borrowed(bytes_of(message)));
                proof {
                    assert(command@ =~= privmsg_word());
                    assert(args_view(args@) =~= seq![channel@]);
                }
                put_raw_parts(out, &command, &args, &rest);
            },
            Command::Unknown { command, args, rest } => {
                put_raw_parts(out, command, args, rest);
            },
        }
    }
}

/// Reading the raw form of any command, then writing it back, gives that raw
/// form unchanged: the catch-all variant keeps the command token, the middle
/// parameters in order and the trailing parameter.
pub proof fn lemma_raw_round_trip(r: RawV)
    ensures
        command_to_raw(raw_to_command(r)) == r,
        !is_privmsg_shape(r) ==> raw_to_command(r) == (CommandV::Unknown {
            command: r.command,
            args: r.args,
            rest: r.rest,
        }),
        canonical(raw_to_command(r)),
{
    if is_privmsg_shape(r) {
        assert(seq![r.args[0]] =~= r.args);
    }
}

/// A canonical command survives being written as a raw form and read back.
pub proof fn lemma_command_round_trip(c: CommandV)
    requires
        canonical(c),
    ensures
        raw_to_command(command_to_raw(c)) == c,
{
}

} // verus!
