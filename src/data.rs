use std::borrow::Cow;
use vstd::prelude::*;

use crate::command::{command_owned, command_to_raw, Command, CommandV};
use crate::laws::{lemma_line_read_iff_written, message_ok};
use crate::wire::{parse_line, parse_message, Scan};

verus! {

/// A metadata entry of a message: a key with an optional value.
#[derive(Debug, PartialEq, Clone)]
pub struct Tag<'a> {
    pub key: Cow<'a, [u8]>,
    pub value: Option<Cow<'a, [u8]>>,
}

/// The source annotation of a message.
#[derive(Debug, PartialEq, Clone)]
pub struct Prefix<'a> {
    pub nickname: Cow<'a, [u8]>,
    pub user: Option<Cow<'a, [u8]>>,
    pub host: Option<Cow<'a, [u8]>>,
}

/// The untyped command token, its middle parameters and its trailing parameter.
#[derive(Debug, PartialEq, Clone)]
pub struct RawCommandAndArgs<'a> {
    pub command: Cow<'a, [u8]>,
    pub args: Vec<Cow<'a, [u8]>>,
    pub rest: Option<Cow<'a, [u8]>>,
}

/// Tags, an optional prefix and a command.
#[derive(Debug, PartialEq, Clone)]
pub struct Message<'a> {
    pub tags: Vec<Tag<'a>>,
    pub prefix: Option<Prefix<'a>>,
    pub command: Command<'a>,
}

pub ghost struct TagV {
    pub key: Seq<u8>,
    pub value: Option<Seq<u8>>,
}

pub ghost struct PrefixV {
    pub nickname: Seq<u8>,
    pub user: Option<Seq<u8>>,
    pub host: Option<Seq<u8>>,
}

pub ghost struct RawV {
    pub command: Seq<u8>,
    pub args: Seq<Seq<u8>>,
    pub rest: Option<Seq<u8>>,
}

pub ghost struct MessageV {
    pub tags: Seq<TagV>,
    pub prefix: Option<PrefixV>,
    pub command: CommandV,
}

pub open spec fn opt_bytes(o: Option<Cow<'_, [u8]>>) -> Option<Seq<u8>> {
    match o {
        Some(b) => Some(b@),
        None => None,
    }
}

pub open spec fn args_view(a: Seq<Cow<'_, [u8]>>) -> Seq<Seq<u8>> {
    a.map_values(|b: Cow<'_, [u8]>| b@)
}

impl<'a> View for Tag<'a> {
    type V = TagV;

    open spec fn view(&self) -> TagV {
        TagV { key: self.key@, value: opt_bytes(self.value) }
    }
}

impl<'a> View for Prefix<'a> {
    type V = PrefixV;

    open spec fn view(&self) -> PrefixV {
        PrefixV { nickname: self.nickname@, user: opt_bytes(self.user), host: opt_bytes(self.host) }
    }
}

impl<'a> View for RawCommandAndArgs<'a> {
    type V = RawV;

    open spec fn view(&self) -> RawV {
        RawV { command: self.command@, args: args_view(self.args@), rest: opt_bytes(self.rest) }
    }
}

pub open spec fn opt_prefix(o: Option<Prefix<'_>>) -> Option<PrefixV> {
    match o {
        Some(p) => Some(p@),
        None => None,
    }
}

impl<'a> View for Message<'a> {
    type V = MessageV;

    open spec fn view(&self) -> MessageV {
        MessageV {
            tags: tags_view(self.tags@),
            prefix: opt_prefix(self.prefix),
            command: self.command@,
        }
    }
}

/// Whether the bytes are held by the value itself rather than borrowed from
/// a buffer.
pub open spec fn is_owned(b: Cow<'_, [u8]>) -> bool {
    b is Owned
}

pub open spec fn opt_owned(o: Option<Cow<'_, [u8]>>) -> bool {
    match o {
        Some(b) => is_owned(b),
        None => true,
    }
}

/// Relies on `Cow`'s `Clone`: it copies the value, borrowed or owned, and
/// returns. This lets the derived `Clone` of the types here call it; nothing
/// is claimed of the copy.
pub assume_specification<'a, B: ?Sized + ToOwned>[ <Cow<'a, B> as Clone>::clone ](
    c: &Cow<'a, B>,
) -> Cow<'a, B>;

pub const SPACE: u8 = 32;
pub const BANG: u8 = 33;
pub const SLASH: u8 = 47;
pub const COLON: u8 = 58;
pub const SEMICOLON: u8 = 59;
pub const EQUALS: u8 = 61;
pub const AT: u8 = 64;
pub const CR: u8 = 13;
pub const LF: u8 = 10;

// ---------------------------------------------------------------------------
// Wire form
// ---------------------------------------------------------------------------
pub open spec fn tag_wire(t: TagV) -> Seq<u8> {
    match t.value {
        Some(v) => t.key + seq![EQUALS] + v,
        None => t.key,
    }
}

/// The tags joined by `;`.
pub open spec fn tag_list_wire(ts: Seq<TagV>) -> Seq<u8>
    decreases ts.len(),
{
    if ts.len() == 0 {
        Seq::empty()
    } else if ts.len() == 1 {
        tag_wire(ts[0])
    } else {
        tag_list_wire(ts.drop_last()) + seq![SEMICOLON] + tag_wire(ts.last())
    }
}

pub open spec fn tags_section(ts: Seq<TagV>) -> Seq<u8> {
    if ts.len() == 0 {
        Seq::empty()
    } else {
        seq![AT] + tag_list_wire(ts) + seq![SPACE]
    }
}

/// The prefix as written, leading `:` included; a user without a host has
/// no wire form.
pub open spec fn prefix_wire(p: PrefixV) -> Seq<u8> {
    seq![COLON] + p.nickname + match (p.user, p.host) {
        (Some(u), Some(h)) => seq![BANG] + u + seq![AT] + h,
        (None, Some(h)) => seq![AT] + h,
        _ => Seq::empty(),
    }
}

pub open spec fn prefix_section(p: Option<PrefixV>) -> Seq<u8> {
    match p {
        Some(p) => prefix_wire(p) + seq![SPACE],
        None => Seq::empty(),
    }
}

/// Each middle parameter with the space before it.
pub open spec fn args_wire(args: Seq<Seq<u8>>) -> Seq<u8>
    decreases args.len(),
{
    if args.len() == 0 {
        Seq::empty()
    } else {
        args_wire(args.drop_last()) + seq![SPACE] + args.last()
    }
}

pub open spec fn rest_wire(rest: Option<Seq<u8>>) -> Seq<u8> {
    match rest {
        Some(r) => seq![SPACE, COLON] + r,
        None => Seq::empty(),
    }
}

pub open spec fn raw_wire(r: RawV) -> Seq<u8> {
    r.command + args_wire(r.args) + rest_wire(r.rest)
}

pub open spec fn crlf() -> Seq<u8> {
    seq![CR, LF]
}

/// The full line that a message serialises to.
pub open spec fn message_wire(m: MessageV) -> Seq<u8> {
    tags_section(m.tags) + prefix_section(m.prefix) + raw_wire(command_to_raw(m.command)) + crlf()
}

// ---------------------------------------------------------------------------
// Ownership conversion and writing
// ---------------------------------------------------------------------------
/// A copy of the bytes that refers to no buffer.
pub fn owned_bytes(b: Cow<'_, [u8]>) -> (r: Cow<'static, [u8]>)
    ensures
        r@ == b@,
        is_owned(r),
{
    match b {
        Cow::Borrowed(s) => Cow::Owned(vstd::slice::slice_to_vec(s)),
        Cow::Owned(v) => Cow::Owned(v),
    }
}

pub fn owned_opt(o: Option<Cow<'_, [u8]>>) -> (r: Option<Cow<'static, [u8]>>)
    ensures
        opt_bytes(r) == opt_bytes(o),
        opt_owned(r),
{
    match o {
        Some(b) => Some(owned_bytes(b)),
        None => None,
    }
}

/// A copy of the bytes behind a reference that refers to no buffer.
pub fn copied_bytes(b: &Cow<'_, [u8]>) -> (r: Cow<'static, [u8]>)
    ensures
        r@ == b@,
        is_owned(r),
{
    match b {
        Cow::Borrowed(s) => Cow::Owned(vstd::slice::slice_to_vec(s)),
        Cow::Owned(v) => Cow::Owned(vstd::slice::slice_to_vec(v.as_slice())),
    }
}

pub fn owned_list(a: Vec<Cow<'_, [u8]>>) -> (r: Vec<Cow<'static, [u8]>>)
    ensures
        args_view(r@) == args_view(a@),
        forall|i: int| 0 <= i < r@.len() ==> is_owned(#[trigger] r@[i]),
{
    let mut r: Vec<Cow<'static, [u8]>> = Vec::new();
    let mut i: usize = 0;
    while i < a.len()
        invariant
            i <= a@.len(),
            r@.len() == i,
            forall|j: int| 0 <= j < i ==> (#[trigger] r@[j])@ == a@[j]@ && is_owned(r@[j]),
        decreases a@.len() - i,
    {
        r.push(copied_bytes(&a[i]));
        i = i + 1;
    }
    assert(args_view(r@) =~= args_view(a@));
    r
}

pub open spec fn prefix_ok(p: PrefixV) -> bool {
    p.user is Some ==> p.host is Some
}

/// Appends one byte.
pub fn put(out: &mut Vec<u8>, b: u8)
    ensures
        final(out)@ == old(out)@ + seq![b],
{
    out.push(b);
}

/// The bytes held, whichever form holds them.
pub fn bytes_of<'b>(b: &'b Cow<'_, [u8]>) -> (r: &'b [u8])
    ensures
        r@ == b@,
{
    match b {
        Cow::Borrowed(s) => s,
        Cow::Owned(v) => v.as_slice(),
    }
}

/// Appends the bytes of `b`.
pub fn put_bytes(out: &mut Vec<u8>, b: &Cow<'_, [u8]>)
    ensures
        final(out)@ == old(out)@ + b@,
{
    let s = bytes_of(b);
    let ghost start = out@;
    let mut i: usize = 0;
    while i < s.len()
        invariant
            i <= s@.len(),
            out@ == start + s@.take(i as int),
        decreases s@.len() - i,
    {
        out.push(s[i]);
        i = i + 1;
        assert(out@ =~= start + s@.take(i as int));
    }
    assert(s@.take(i as int) =~= s@);
}

/// Appends the command token, each middle parameter after a space, and the
/// trailing parameter after ` :`.
pub fn put_raw_parts(
    out: &mut Vec<u8>,
    command: &Cow<'_, [u8]>,
    args: &Vec<Cow<'_, [u8]>>,
    rest: &Option<Cow<'_, [u8]>>,
)
    ensures
        final(out)@ == old(out)@ + raw_wire(
            RawV { command: command@, args: args_view(args@), rest: opt_bytes(*rest) },
        ),
{
    let ghost start = out@;
    put_bytes(out, command);
    let mut i: usize = 0;
    while i < args.len()
        invariant
            i <= args@.len(),
            out@ == start + command@ + args_wire(args_view(args@.take(i as int))),
        decreases args@.len() - i,
    {
        put(out, SPACE);
        put_bytes(out, &args[i]);
        proof {
            let a = args_view(args@.take(i + 1));
            assert(a.drop_last() =~= args_view(args@.take(i as int)));
            assert(a.last() == args@[i as int]@);
        }
        i = i + 1;
    }
    assert(args@.take(i as int) =~= args@);
    if let Some(r) = rest {
        put(out, SPACE);
        put(out, COLON);
        put_bytes(out, r);
    }
    let ghost raw = RawV { command: command@, args: args_view(args@), rest: opt_bytes(*rest) };
    assert(out@ =~= start + raw_wire(raw));
}

impl<'a> Tag<'a> {
    /// A copy that refers to no buffer.
    pub fn into_owned(self) -> (r: Tag<'static>)
        ensures
            r@ == self@,
            is_owned(r.key),
            opt_owned(r.value),
    {
        Tag { key: owned_bytes(self.key), value: owned_opt(self.value) }
    }

    /// Appends `key` or `key=value`.
    pub fn write_to(&self, out: &mut Vec<u8>)
        ensures
            final(out)@ == old(out)@ + tag_wire(self@),
    {
        let ghost start = out@;
        put_bytes(out, &self.key);
        if let Some(v) = &self.value {
            put(out, EQUALS);
            put_bytes(out, v);
        }
        assert(out@ =~= start + tag_wire(self@));
    }
}

impl<'a> Prefix<'a> {
    /// A copy that refers to no buffer.
    pub fn into_owned(self) -> (r: Prefix<'static>)
        ensures
            r@ == self@,
            is_owned(r.nickname),
            opt_owned(r.user),
            opt_owned(r.host),
    {
        Prefix {
            nickname: owned_bytes(self.nickname),
            user: owned_opt(self.user),
            host: owned_opt(self.host),
        }
    }

    /// Appends `:nickname`, then `!user@host`, `@host` or nothing.
    pub fn write_to(&self, out: &mut Vec<u8>)
        requires
            prefix_ok(self@),
        ensures
            final(out)@ == old(out)@ + prefix_wire(self@),
    {
        let ghost start = out@;
        put(out, COLON);
        put_bytes(out, &self.nickname);
        match (&self.user, &self.host) {
            (Some(user), Some(host)) => {
                put(out, BANG);
                put_bytes(out, user);
                put(out, AT);
                put_bytes(out, host);
            },
            (None, Some(host)) => {
                put(out, AT);
                put_bytes(out, host);
            },
            _ => {},
        }
        assert(out@ =~= start + prefix_wire(self@));
    }
}

impl<'a> RawCommandAndArgs<'a> {
    /// A copy that refers to no buffer.
    pub fn into_owned(self) -> (r: RawCommandAndArgs<'static>)
        ensures
            r@ == self@,
            is_owned(r.command),
            forall|i: int| 0 <= i < r.args@.len() ==> is_owned(#[trigger] r.args@[i]),
            opt_owned(r.rest),
    {
        RawCommandAndArgs {
            command: owned_bytes(self.command),
            args: owned_list(self.args),
            rest: owned_opt(self.rest),
        }
    }

    /// Appends the command token, the middle parameters and the trailing one.
    pub fn write_to(&self, out: &mut Vec<u8>)
        ensures
            final(out)@ == old(out)@ + raw_wire(self@),
    {
        put_raw_parts(out, &self.command, &self.args, &self.rest);
    }
}

pub open spec fn opt_prefix_ok(p: Option<PrefixV>) -> bool {
    match p {
        Some(p) => prefix_ok(p),
        None => true,
    }
}

pub open spec fn tags_view<'a>(ts: Seq<Tag<'a>>) -> Seq<TagV> {
    ts.map_values(|t: Tag<'a>| t@)
}

impl<'a> Message<'a> {
    /// A copy that refers to no buffer.
    pub fn into_owned(self) -> (r: Message<'static>)
        ensures
            r@ == self@,
            forall|i: int| 0 <= i < r.tags@.len() ==> is_owned(#[trigger] r.tags@[i].key)
                && opt_owned(r.tags@[i].value),
            command_owned(r.command),
            match r.prefix {
                Some(p) => is_owned(p.nickname) && opt_owned(p.user) && opt_owned(p.host),
                None => true,
            },
    {
        let Message { tags, prefix, command } = self;
        let mut owned: Vec<Tag<'static>> = Vec::new();
        let mut src = tags;
        let ghost orig = src@;
        // Take the tags from the back, then put them in order again.
        let mut back: Vec<Tag<'static>> = Vec::new();
        while src.len() > 0
            invariant
                src@ == orig.take(src@.len() as int),
                back@.len() + src@.len() == orig.len(),
                forall|j: int| 0 <= j < back@.len() ==> (#[trigger] back@[j])@ == orig[orig.len() - 1 - j]@
                    && is_owned(back@[j].key) && opt_owned(back@[j].value),
            decreases src@.len(),
        {
            let t = src.pop().unwrap();
            back.push(t.into_owned());
        }
        while back.len() > 0
            invariant
                back@.len() + owned@.len() == orig.len(),
                forall|j: int| 0 <= j < back@.len() ==> (#[trigger] back@[j])@ == orig[orig.len() - 1 - j]@
                    && is_owned(back@[j].key) && opt_owned(back@[j].value),
                forall|j: int| 0 <= j < owned@.len() ==> (#[trigger] owned@[j])@ == orig[j]@
                    && is_owned(owned@[j].key) && opt_owned(owned@[j].value),
            decreases back@.len(),
        {
            let t = back.pop().unwrap();
            owned.push(t);
        }
        let prefix = match prefix {
            Some(p) => Some(p.into_owned()),
            None => None,
        };
        let r = Message { tags: owned, prefix, command: command.into_owned() };
        assert(tags_view(r.tags@) =~= tags_view(orig));
        r
    }

    /// The line that the message is written as.
    pub fn to_bytes(&self) -> (r: Vec<u8>)
        requires
            opt_prefix_ok(self@.prefix),
        ensures
            r@ == message_wire(self@),
    {
        let mut out: Vec<u8> = Vec::new();
        self.write_to(&mut out);
        assert(out@ =~= message_wire(self@));
        out
    }

    /// Appends the message as one line: the tags after `@` joined by `;`
    /// and a space, the prefix and a space, the command, then CR LF.
    pub fn write_to(&self, out: &mut Vec<u8>)
        requires
            opt_prefix_ok(self@.prefix),
        ensures
            final(out)@ == old(out)@ + message_wire(self@),
    {
        let ghost start = out@;
        let ghost ts = self@.tags;
        if self.tags.len() > 0 {
            let mut i: usize = 0;
            while i < self.tags.len()
                invariant
                    i <= self.tags@.len(),
                    ts == tags_view(self.tags@),
                    i == 0 ==> out@ == start,
                    i > 0 ==> out@ == start + seq![AT] + tag_list_wire(ts.take(i as int)),
                decreases self.tags@.len() - i,
            {
                let ghost before = out@;
                put(out, if i == 0 { AT } else { SEMICOLON });
                self.tags[i].write_to(out);
                proof {
                    let t = ts.take(i + 1);
                    assert(t.last() == ts[i as int]);
                    if i == 0 {
                        assert(out@ =~= start + seq![AT] + tag_list_wire(t));
                    } else {
                        assert(t.drop_last() =~= ts.take(i as int));
                        assert(out@ =~= start + seq![AT] + tag_list_wire(t));
                    }
                }
                i = i + 1;
            }
            assert(ts.take(i as int) =~= ts);
            put(out, SPACE);
        }
        let ghost mid = out@;
        assert(mid =~= start + tags_section(ts));
        if let Some(p) = &self.prefix {
            p.write_to(out);
            put(out, SPACE);
        }
        assert(out@ =~= start + tags_section(ts) + prefix_section(self@.prefix));
        self.command.write_to(out);
        put(out, CR);
        put(out, LF);
        assert(out@ =~= start + message_wire(self@));
    }
}

impl<'a> Message<'a> {
    /// Reads the first line of `data`. On success, gives the message, every
    /// field borrowed from `data`, and the bytes after its CR LF; `Err(None)`
    /// where `data` ends before the line can be decided; `Err(Some(x))` where
    /// the byte at `x` can never continue a line.
    #[verifier::rlimit(40)]
    pub fn parse(data: &'a [u8]) -> (r: Result<(Message<'a>, &'a [u8]), Option<usize>>)
        ensures
            match r {
                Ok((m, left)) => parse_line(data@) == Scan::Done(
                    m@,
                    data@.len() - left@.len(),
                ) && left@.len() <= data@.len() && left@ == data@.skip(
                    data@.len() - left@.len(),
                ),
                Err(None) => parse_line(data@) is More,
                Err(Some(x)) => parse_line(data@) == Scan::<MessageV>::Bad(x as int),
            },
            r matches Ok((m, left)) ==> message_ok(m@) && data@ == message_wire(m@) + left@,
            (exists|m: MessageV, rest: Seq<u8>| message_ok(m) && data@ == message_wire(m) + rest)
                ==> r is Ok,
    {
        proof {
            lemma_line_read_iff_written(data@);
        }
        match parse_message(data) {
            Ok((m, n)) => {
                let left = vstd::slice::slice_subrange(data, n, data.len());
                proof {
                    assert(data@ =~= data@.take(n as int) + data@.skip(n as int));
                }
                Ok((m, left))
            },
            Err(x) => Err(x),
        }
    }
}

} // verus!
