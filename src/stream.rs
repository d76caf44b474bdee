//! Framing of a growing byte buffer into messages, one event per call.
use vstd::prelude::*;

use crate::data::{message_wire, opt_prefix_ok, Message, MessageV, LF};
use crate::wire::{parse_line, Scan};

verus! {

/// What one decode step hands out: a message, owned, or the raw bytes of a
/// line that could not be read, through its LF.
#[derive(Debug)]
pub enum StreamMessage {
    Message(Message<'static>),
    Invalid(Vec<u8>),
}

impl StreamMessage {
    pub fn is_valid(&self) -> (r: bool)
        ensures
            r == (self is Message),
    {
        match self {
            StreamMessage::Invalid(_) => false,
            _ => true,
        }
    }
}

/// Whether no byte of `s` is LF.
pub open spec fn no_lf(s: Seq<u8>) -> bool {
    forall|k: int| 0 <= k < s.len() ==> s[k] != LF
}

/// Whether `line` is `s` up to and through its first LF.
pub open spec fn first_line(s: Seq<u8>, line: Seq<u8>) -> bool {
    &&& 0 < line.len() <= s.len()
    &&& line == s.take(line.len() as int)
    &&& line.last() == LF
    &&& no_lf(line.drop_last())
}

/// What a decode step does to the buffer `s`: the event it gives (`None`:
/// none yet) and the buffer after it.
pub open spec fn decode_step(s: Seq<u8>, event: Option<EventV>, after: Seq<u8>) -> bool {
    match parse_line(s) {
        Scan::Done(m, n) => event == Some(EventV::Valid(m)) && after == s.skip(n),
        Scan::More => event is None && after == s,
        Scan::Bad(_) => if no_lf(s) {
            event is None && after == s
        } else {
            match event {
                Some(EventV::Invalid(line)) => first_line(s, line) && after == s.skip(
                    line.len() as int,
                ),
                _ => false,
            }
        },
    }
}

pub ghost enum EventV {
    Valid(MessageV),
    Invalid(Seq<u8>),
}

pub open spec fn event_view(e: Option<StreamMessage>) -> Option<EventV> {
    match e {
        Some(StreamMessage::Message(m)) => Some(EventV::Valid(m@)),
        Some(StreamMessage::Invalid(b)) => Some(EventV::Invalid(b@)),
        None => None,
    }
}

/// Finds the first LF of `s`.
fn find_lf(s: &[u8]) -> (r: Option<usize>)
    ensures
        match r {
            Some(p) => p < s@.len() && s@[p as int] == LF && no_lf(s@.take(p as int)),
            None => no_lf(s@),
        },
{
    let mut i: usize = 0;
    while i < s.len()
        invariant
            i <= s@.len(),
            no_lf(s@.take(i as int)),
        decreases s@.len() - i,
    {
        if s[i] == LF {
            return Some(i);
        }
        i = i + 1;
        assert(s@.take(i as int).drop_last() =~= s@.take(i - 1));
    }
    assert(s@.take(i as int) =~= s@);
    None
}

/// The framer of one connection's byte stream.
pub struct IrcCodec;

impl IrcCodec {
    /// Takes one event off the front of `src`: a message, owned and with its
    /// line removed; the bytes of a line that cannot be read, through its
    /// first LF; or nothing, with `src` left as it was, where more bytes are
    /// needed.
    pub fn decode(&mut self, src: &mut Vec<u8>) -> (r: Option<StreamMessage>)
        ensures
            decode_step(old(src)@, event_view(r), final(src)@),
    {
        let parsed = Message::parse(src.as_slice());
        match parsed {
            Ok((msg, left)) => {
                let msg = msg.into_owned();
                let count = src.len() - left.len();
                let tail = src.split_off(count);
                *src = tail;
                Some(StreamMessage::Message(msg))
            },
            Err(None) => None,
            Err(Some(_)) => {
                match find_lf(src.as_slice()) {
                    Some(p) => {
                        let ghost s = src@;
                        let n = src.len();
                        assert(p < n);
                        let mut line = src.split_off(p + 1);
                        std::mem::swap(src, &mut line);
                        proof {
                            assert(line@.drop_last() =~= s.take(p as int));
                        }
                        Some(StreamMessage::Invalid(line))
                    },
                    None => None,
                }
            },
        }
    }

    /// Appends the line that `item` is written as to `dst`.
    pub fn encode(&mut self, item: Message<'static>, dst: &mut Vec<u8>)
        requires
            opt_prefix_ok(item@.prefix),
        ensures
            final(dst)@ == old(dst)@ + message_wire(item@),
    {
        item.write_to(dst);
    }
}

} // verus!
