//! What holds of the grammar as a whole: written lines read back as the
//! same message, and a decided line stays decided as more bytes arrive.
use vstd::prelude::*;

use crate::command::{canonical, command_to_raw, lemma_command_round_trip, lemma_raw_round_trip};
use crate::data::{
    args_wire, crlf, message_wire, prefix_section, prefix_wire, raw_wire, rest_wire,
    tag_list_wire, tag_wire, tags_section, MessageV, PrefixV, RawV, TagV, AT, BANG, COLON, CR,
    EQUALS, LF, SEMICOLON, SLASH, SPACE,
};
use crate::stream::{decode_step, first_line, no_lf, EventV};
use crate::wire::{
    after_prefix, after_tags, command_at, host_at, in_class, is_digit, lemma_name_within_vendor,
    lemma_run_bounds, params_from, parse_line, prefix_at, run_end, tag_at, tags_from, value_at,
    Class, Scan,
};

verus! {

// ---------------------------------------------------------------------------
// Well-formed values: those that have a wire form that reads back
// ---------------------------------------------------------------------------
pub open spec fn all_in(b: Seq<u8>, c: Class) -> bool {
    forall|k: int| 0 <= k < b.len() ==> in_class(c, #[trigger] b[k])
}

/// `name` or `vendor/name`.
pub open spec fn key_ok(k: Seq<u8>) -> bool {
    (k.len() > 0 && all_in(k, Class::Name)) || exists|j: int|
        0 < j && j + 1 < k.len() && #[trigger] k[j] == SLASH && all_in(k.take(j), Class::Vendor)
            && all_in(k.skip(j + 1), Class::Name)
}

pub open spec fn tag_ok(t: TagV) -> bool {
    key_ok(t.key) && match t.value {
        Some(v) => all_in(v, Class::Value),
        None => true,
    }
}

pub open spec fn prefix_valid(p: PrefixV) -> bool {
    &&& p.nickname.len() > 0
    &&& all_in(p.nickname, Class::Nick)
    &&& match (p.user, p.host) {
        (Some(u), Some(h)) => u.len() > 0 && all_in(u, Class::User) && h.len() > 0 && all_in(
            h,
            Class::Host,
        ),
        (None, Some(h)) => h.len() > 0 && all_in(h, Class::Host),
        (None, None) => true,
        (Some(_), None) => false,
    }
}

/// A word of letters, `-` and `_`, or exactly three digits.
pub open spec fn command_token_ok(c: Seq<u8>) -> bool {
    (c.len() == 3 && all_in(c, Class::Digit)) || (c.len() > 0 && all_in(c, Class::Word))
}

/// A middle parameter: not empty, no space, CR or LF, and not starting with
/// `:`.
pub open spec fn arg_ok(a: Seq<u8>) -> bool {
    a.len() > 0 && all_in(a, Class::Param) && a[0] != COLON
}

pub open spec fn raw_ok(r: RawV) -> bool {
    &&& command_token_ok(r.command)
    &&& forall|i: int| 0 <= i < r.args.len() ==> arg_ok(#[trigger] r.args[i])
    &&& match r.rest {
        Some(x) => all_in(x, Class::Trail),
        None => true,
    }
}

/// A message that can be written and read back: every field within its
/// byte set, and a command whose catch-all form never holds the modeled
/// shape.
pub open spec fn message_ok(m: MessageV) -> bool {
    &&& forall|i: int| 0 <= i < m.tags.len() ==> tag_ok(#[trigger] m.tags[i])
    &&& match m.prefix {
        Some(p) => prefix_valid(p),
        None => true,
    }
    &&& raw_ok(command_to_raw(m.command))
    &&& canonical(m.command)
}

// ---------------------------------------------------------------------------
// Positions in a byte sequence
// ---------------------------------------------------------------------------
/// Whether `w` stands in `s` at `i`.
pub open spec fn at(s: Seq<u8>, i: int, w: Seq<u8>) -> bool {
    0 <= i && i + w.len() <= s.len() && s.subrange(i, i + w.len()) == w
}

proof fn lemma_at_byte(s: Seq<u8>, i: int, w: Seq<u8>, k: int)
    requires
        at(s, i, w),
        0 <= k < w.len(),
    ensures
        s[i + k] == w[k],
{
    assert(s.subrange(i, i + w.len())[k] == s[i + k]);
}

proof fn lemma_at_split(s: Seq<u8>, i: int, a: Seq<u8>, b: Seq<u8>)
    requires
        at(s, i, a + b),
    ensures
        at(s, i, a),
        at(s, i + a.len(), b),
{
    let w = a + b;
    assert forall|k: int| 0 <= k < a.len() implies s.subrange(i, i + a.len())[k] == a[k] by {
        lemma_at_byte(s, i, w, k);
    }
    assert(s.subrange(i, i + a.len()) =~= a);
    assert forall|k: int| 0 <= k < b.len() implies s.subrange(
        i + a.len(),
        i + a.len() + b.len(),
    )[k] == b[k] by {
        lemma_at_byte(s, i, w, a.len() + k);
    }
    assert(s.subrange(i + a.len(), i + a.len() + b.len()) =~= b);
}

proof fn lemma_run_exact(s: Seq<u8>, i: int, k: int, c: Class)
    requires
        0 <= i <= k <= s.len(),
        forall|j: int| i <= j < k ==> in_class(c, #[trigger] s[j]),
        k == s.len() || !in_class(c, s[k]),
    ensures
        run_end(s, i, c) == k,
    decreases k - i,
{
    if i < k {
        lemma_run_exact(s, i + 1, k, c);
    }
}

/// A run of class `c` over `w`, standing at `i`, ends where `w` ends when the
/// byte after it is outside the class.
proof fn lemma_run_at(s: Seq<u8>, i: int, w: Seq<u8>, c: Class)
    requires
        at(s, i, w),
        all_in(w, c),
        i + w.len() < s.len(),
        !in_class(c, s[i + w.len()]),
    ensures
        run_end(s, i, c) == i + w.len(),
{
    assert forall|j: int| i <= j < i + w.len() implies in_class(c, #[trigger] s[j]) by {
        lemma_at_byte(s, i, w, j - i);
    }
    lemma_run_exact(s, i, i + w.len(), c);
}

// ---------------------------------------------------------------------------
// Written parts read back
// ---------------------------------------------------------------------------
proof fn lemma_value_read(s: Seq<u8>, i: int, t: TagV)
    requires
        tag_ok(t),
        at(s, i, tag_wire(t)),
        i + tag_wire(t).len() < s.len(),
        s[i + tag_wire(t).len()] == SPACE || s[i + tag_wire(t).len()] == SEMICOLON,
    ensures
        value_at(s, i, i + t.key.len()) == Scan::Done(t, i + tag_wire(t).len()),
{
    let ek = i + t.key.len();
    let e = i + tag_wire(t).len();
    match t.value {
        Some(v) => {
            lemma_at_split(s, i, t.key + seq![EQUALS], v);
            lemma_at_split(s, i, t.key, seq![EQUALS]);
            lemma_at_byte(s, ek, seq![EQUALS], 0);
            lemma_run_at(s, ek + 1, v, Class::Value);
        },
        None => {},
    }
}

proof fn lemma_tag_read(s: Seq<u8>, i: int, t: TagV)
    requires
        tag_ok(t),
        at(s, i, tag_wire(t)),
        i + tag_wire(t).len() < s.len(),
        s[i + tag_wire(t).len()] == SPACE || s[i + tag_wire(t).len()] == SEMICOLON,
    ensures
        tag_at(s, i) == Scan::Done(t, i + tag_wire(t).len()),
        t.key.len() > 0,
{
    let k = t.key;
    let ek = i + k.len();
    lemma_value_read(s, i, t);
    match t.value {
        Some(v) => {
            lemma_at_split(s, i, k + seq![EQUALS], v);
            lemma_at_split(s, i, k, seq![EQUALS]);
            lemma_at_byte(s, ek, seq![EQUALS], 0);
        },
        None => {},
    }
    assert(at(s, i, k));
    assert(s[ek] == EQUALS || s[ek] == SPACE || s[ek] == SEMICOLON);
    if k.len() > 0 && all_in(k, Class::Name) {
        assert(all_in(k, Class::Vendor));
        lemma_run_at(s, i, k, Class::Vendor);
        lemma_run_at(s, i, k, Class::Name);
    } else {
        let j = choose|j: int|
            0 < j && j + 1 < k.len() && #[trigger] k[j] == SLASH && all_in(
                k.take(j),
                Class::Vendor,
            ) && all_in(k.skip(j + 1), Class::Name);
        assert(k =~= k.take(j) + (seq![SLASH] + k.skip(j + 1)));
        lemma_at_split(s, i, k.take(j), seq![SLASH] + k.skip(j + 1));
        lemma_at_split(s, i + j, seq![SLASH], k.skip(j + 1));
        lemma_at_byte(s, i + j, seq![SLASH], 0);
        lemma_run_at(s, i, k.take(j), Class::Vendor);
        lemma_run_at(s, i + j + 1, k.skip(j + 1), Class::Name);
    }
}

proof fn lemma_tag_list_front(t: TagV, ts: Seq<TagV>)
    requires
        ts.len() > 0,
    ensures
        tag_list_wire(seq![t] + ts) == tag_wire(t) + seq![SEMICOLON] + tag_list_wire(ts),
    decreases ts.len(),
{
    let all = seq![t] + ts;
    assert(all.last() == ts.last());
    if ts.len() == 1 {
        assert(all.drop_last() =~= seq![t]);
        assert(tag_list_wire(all.drop_last()) == tag_wire(t));
        assert(tag_list_wire(ts) == tag_wire(ts.last()));
    } else {
        assert(all.drop_last() =~= seq![t] + ts.drop_last());
        lemma_tag_list_front(t, ts.drop_last());
        let a = tag_wire(t);
        let b = tag_list_wire(ts.drop_last());
        let c = tag_wire(ts.last());
        assert(tag_list_wire(all) == a + seq![SEMICOLON] + b + seq![SEMICOLON] + c);
        assert(tag_list_wire(ts) == b + seq![SEMICOLON] + c);
        assert(a + seq![SEMICOLON] + b + seq![SEMICOLON] + c =~= a + seq![SEMICOLON] + (b
            + seq![SEMICOLON] + c));
    }
}

proof fn lemma_tags_read(s: Seq<u8>, i: int, ts: Seq<TagV>)
    requires
        ts.len() > 0,
        forall|k: int| 0 <= k < ts.len() ==> tag_ok(#[trigger] ts[k]),
        at(s, i, tag_list_wire(ts) + seq![SPACE]),
    ensures
        tags_from(s, i) == Scan::Done(ts, i + tag_list_wire(ts).len() + 1),
    decreases ts.len(),
{
    let t = ts[0];
    lemma_at_split(s, i, tag_list_wire(ts), seq![SPACE]);
    if ts.len() == 1 {
        lemma_at_byte(s, i + tag_list_wire(ts).len(), seq![SPACE], 0);
        assert(tag_list_wire(ts) == tag_wire(t));
        lemma_tag_read(s, i, t);
        assert(seq![t] =~= ts);
    } else {
        let rest = ts.drop_first();
        assert(ts =~= seq![t] + rest);
        lemma_tag_list_front(t, rest);
        let e = i + tag_wire(t).len();
        assert(tag_list_wire(ts) + seq![SPACE] =~= tag_wire(t) + (seq![SEMICOLON] + (
        tag_list_wire(rest) + seq![SPACE])));
        lemma_at_split(s, i, tag_wire(t), seq![SEMICOLON] + (tag_list_wire(rest) + seq![SPACE]));
        lemma_at_split(s, e, seq![SEMICOLON], tag_list_wire(rest) + seq![SPACE]);
        lemma_at_byte(s, e, seq![SEMICOLON], 0);
        lemma_tag_read(s, i, t);
        assert forall|k: int| 0 <= k < rest.len() implies tag_ok(#[trigger] rest[k]) by {
            assert(rest[k] == ts[k + 1]);
        }
        lemma_tags_read(s, e + 1, rest);
        assert(seq![t] + rest =~= ts);
    }
}

proof fn lemma_host_read(s: Seq<u8>, i: int, h: Seq<u8>)
    requires
        h.len() > 0,
        all_in(h, Class::Host),
        at(s, i, h + seq![SPACE]),
    ensures
        host_at(s, i) == Scan::Done(h, i + h.len() + 1),
{
    lemma_at_split(s, i, h, seq![SPACE]);
    lemma_at_byte(s, i + h.len(), seq![SPACE], 0);
    lemma_run_at(s, i, h, Class::Host);
}

proof fn lemma_prefix_read(s: Seq<u8>, i: int, p: PrefixV)
    requires
        prefix_valid(p),
        at(s, i, prefix_wire(p) + seq![SPACE]),
    ensures
        s[i] == COLON,
        prefix_at(s, i + 1) == Scan::Done(p, i + prefix_wire(p).len() + 1),
{
    let nick = p.nickname;
    let w = prefix_wire(p) + seq![SPACE];
    lemma_at_byte(s, i, w, 0);
    let n = i + 1 + nick.len();
    match (p.user, p.host) {
        (Some(u), Some(h)) => {
            let tail = seq![BANG] + u + seq![AT] + (h + seq![SPACE]);
            assert(w =~= seq![COLON] + nick + tail);
            lemma_at_split(s, i, seq![COLON] + nick, tail);
            lemma_at_split(s, i, seq![COLON], nick);
            lemma_at_split(s, n, seq![BANG] + u + seq![AT], h + seq![SPACE]);
            lemma_at_split(s, n, seq![BANG] + u, seq![AT]);
            lemma_at_split(s, n, seq![BANG], u);
            lemma_at_byte(s, n, seq![BANG], 0);
            lemma_at_byte(s, n + 1 + u.len(), seq![AT], 0);
            lemma_run_at(s, i + 1, nick, Class::Nick);
            lemma_run_at(s, n + 1, u, Class::User);
            lemma_host_read(s, n + 1 + u.len() + 1, h);
        },
        (None, Some(h)) => {
            let tail = seq![AT] + (h + seq![SPACE]);
            assert(w =~= seq![COLON] + nick + tail);
            lemma_at_split(s, i, seq![COLON] + nick, tail);
            lemma_at_split(s, i, seq![COLON], nick);
            lemma_at_split(s, n, seq![AT], h + seq![SPACE]);
            lemma_at_byte(s, n, seq![AT], 0);
            lemma_run_at(s, i + 1, nick, Class::Nick);
            lemma_host_read(s, n + 1, h);
        },
        _ => {
            assert(w =~= seq![COLON] + nick + seq![SPACE]);
            lemma_at_split(s, i, seq![COLON] + nick, seq![SPACE]);
            lemma_at_split(s, i, seq![COLON], nick);
            lemma_at_byte(s, n, seq![SPACE], 0);
            lemma_run_at(s, i + 1, nick, Class::Nick);
        },
    }
}

proof fn lemma_command_read(s: Seq<u8>, i: int, c: Seq<u8>)
    requires
        command_token_ok(c),
        at(s, i, c),
        i + c.len() < s.len(),
        s[i + c.len()] == SPACE || s[i + c.len()] == CR,
    ensures
        command_at(s, i) == Scan::Done(c, i + c.len()),
{
    lemma_at_byte(s, i, c, 0);
    if c.len() == 3 && all_in(c, Class::Digit) {
        lemma_run_at(s, i, c, Class::Digit);
    } else {
        lemma_run_at(s, i, c, Class::Word);
    }
}

proof fn lemma_args_front(a: Seq<u8>, args: Seq<Seq<u8>>)
    ensures
        args_wire(seq![a] + args) == seq![SPACE] + a + args_wire(args),
    decreases args.len(),
{
    let all = seq![a] + args;
    if args.len() == 0 {
        assert(all.drop_last() =~= Seq::<Seq<u8>>::empty());
        assert(args_wire(all.drop_last()) == Seq::<u8>::empty());
        assert(args_wire(args) == Seq::<u8>::empty());
        assert(all.last() == a);
        assert(args_wire(all) =~= seq![SPACE] + a + args_wire(args));
    } else {
        assert(all.drop_last() =~= seq![a] + args.drop_last());
        lemma_args_front(a, args.drop_last());
        assert(all.last() == args.last());
        let x = seq![SPACE] + a;
        let y = args_wire(args.drop_last());
        let z = seq![SPACE] + args.last();
        assert(args_wire(all) =~= x + y + z);
        assert(args_wire(args) =~= y + z);
        assert(x + y + z =~= x + (y + z));
    }
}

/// What follows the command token: the parameters, then CR LF.
pub open spec fn params_wire(args: Seq<Seq<u8>>, rest: Option<Seq<u8>>) -> Seq<u8> {
    args_wire(args) + rest_wire(rest) + crlf()
}

proof fn lemma_params_first(args: Seq<Seq<u8>>, rest: Option<Seq<u8>>)
    ensures
        params_wire(args, rest).len() >= 2,
        params_wire(args, rest)[0] == SPACE || params_wire(args, rest)[0] == CR,
{
    if args.len() > 0 {
        assert(args =~= seq![args[0]] + args.drop_first());
        lemma_args_front(args[0], args.drop_first());
    }
}

proof fn lemma_params_read(s: Seq<u8>, i: int, args: Seq<Seq<u8>>, rest: Option<Seq<u8>>)
    requires
        forall|k: int| 0 <= k < args.len() ==> arg_ok(#[trigger] args[k]),
        match rest {
            Some(x) => all_in(x, Class::Trail),
            None => true,
        },
        at(s, i, params_wire(args, rest)),
    ensures
        params_from(s, i) == Scan::Done((args, rest), i + params_wire(args, rest).len()),
    decreases args.len(),
{
    let w = params_wire(args, rest);
    if args.len() == 0 {
        assert(args =~= Seq::<Seq<u8>>::empty());
        assert(args_wire(args) == Seq::<u8>::empty());
        match rest {
            Some(x) => {
                assert(w =~= seq![SPACE, COLON] + x + crlf());
                lemma_at_split(s, i, seq![SPACE, COLON] + x, crlf());
                lemma_at_split(s, i, seq![SPACE, COLON], x);
                lemma_at_byte(s, i, seq![SPACE, COLON], 0);
                lemma_at_byte(s, i, seq![SPACE, COLON], 1);
                lemma_at_byte(s, i + 2 + x.len(), crlf(), 0);
                lemma_at_byte(s, i + 2 + x.len(), crlf(), 1);
                lemma_run_at(s, i + 2, x, Class::Trail);
            },
            None => {
                assert(w =~= crlf());
                lemma_at_byte(s, i, crlf(), 0);
                lemma_at_byte(s, i, crlf(), 1);
            },
        }
    } else {
        let a = args[0];
        let more = args.drop_first();
        assert(args =~= seq![a] + more);
        lemma_args_front(a, more);
        let tail = params_wire(more, rest);
        assert(w =~= seq![SPACE] + a + tail);
        lemma_at_split(s, i, seq![SPACE] + a, tail);
        lemma_at_split(s, i, seq![SPACE], a);
        lemma_at_byte(s, i, seq![SPACE], 0);
        assert(arg_ok(args[0]));
        lemma_at_byte(s, i + 1, a, 0);
        let m = i + 1 + a.len();
        lemma_params_first(more, rest);
        lemma_at_byte(s, m, tail, 0);
        lemma_run_at(s, i + 1, a, Class::Param);
        assert forall|k: int| 0 <= k < more.len() implies arg_ok(#[trigger] more[k]) by {
            assert(more[k] == args[k + 1]);
        }
        lemma_params_read(s, m, more, rest);
        assert(seq![a] + more =~= args);
    }
}

proof fn lemma_line_read(s: Seq<u8>, m: MessageV)
    requires
        message_ok(m),
        at(s, 0, message_wire(m)),
    ensures
        parse_line(s) == Scan::Done(m, message_wire(m).len() as int),
{
    let ts = m.tags;
    let raw = command_to_raw(m.command);
    let a = tags_section(ts);
    let b = prefix_section(m.prefix);
    let c = raw.command;
    let pw = params_wire(raw.args, raw.rest);
    assert(message_wire(m) =~= a + b + c + pw);
    lemma_at_split(s, 0, a + b + c, pw);
    lemma_at_split(s, 0, a + b, c);
    lemma_at_split(s, 0, a, b);
    let p = a.len() as int;
    let q = p + b.len();
    let e = q + c.len();
    lemma_params_first(raw.args, raw.rest);
    lemma_at_byte(s, e, pw, 0);
    lemma_command_read(s, q, c);
    lemma_params_read(s, e, raw.args, raw.rest);
    lemma_command_round_trip(m.command);
    lemma_at_byte(s, q, c, 0);
    assert(after_prefix(s, ts, m.prefix, q) == Scan::Done(m, message_wire(m).len() as int));
    match m.prefix {
        Some(pre) => {
            lemma_prefix_read(s, p, pre);
        },
        None => {},
    }
    assert(after_tags(s, ts, p) == Scan::Done(m, message_wire(m).len() as int));
    if ts.len() > 0 {
        let list = tag_list_wire(ts);
        assert(a =~= seq![AT] + (list + seq![SPACE]));
        lemma_at_split(s, 0, seq![AT], list + seq![SPACE]);
        lemma_at_byte(s, 0, seq![AT], 0);
        lemma_tags_read(s, 1, ts);
    } else {
        assert(ts =~= Seq::<TagV>::empty());
    }
}

/// A well-formed message, written as a line, reads back as the same message
/// and takes exactly the bytes of that line, whatever follows them.
pub proof fn lemma_round_trip(m: MessageV, rest: Seq<u8>)
    requires
        message_ok(m),
    ensures
        parse_line(message_wire(m) + rest) == Scan::Done(m, message_wire(m).len() as int),
{
    let w = message_wire(m);
    assert((w + rest).subrange(0, w.len() as int) =~= w);
    lemma_line_read(w + rest, m);
}

// ---------------------------------------------------------------------------
// A decided scan stays decided as bytes are appended
// ---------------------------------------------------------------------------
/// Whether a scan came to a result, `Done` or `Bad`, rather than running out
/// of input.
pub open spec fn decided<T>(r: Scan<T>) -> bool {
    !(r is More)
}

/// Whether a `Done` result ends between `lo` and `n`.
pub open spec fn done_within<T>(r: Scan<T>, lo: int, n: int) -> bool {
    match r {
        Scan::Done(_, e) => lo <= e <= n,
        _ => true,
    }
}

proof fn lemma_sub_ext(s: Seq<u8>, t: Seq<u8>)
    ensures
        forall|a: int, b: int|
            0 <= a <= b <= s.len() ==> #[trigger] (s + t).subrange(a, b) == s.subrange(a, b),
{
    assert forall|a: int, b: int| 0 <= a <= b <= s.len() implies #[trigger] (s + t).subrange(
        a,
        b,
    ) == s.subrange(a, b) by {
        assert((s + t).subrange(a, b) =~= s.subrange(a, b));
    }
}

proof fn lemma_run_ext(s: Seq<u8>, t: Seq<u8>, i: int, c: Class)
    requires
        0 <= i <= s.len(),
    ensures
        i <= run_end(s, i, c) <= s.len(),
        run_end(s, i, c) <= run_end(s + t, i, c),
        run_end(s, i, c) < s.len() ==> run_end(s + t, i, c) == run_end(s, i, c),
    decreases s.len() - i,
{
    lemma_run_bounds(s, i, c);
    lemma_run_bounds(s + t, i, c);
    if i < s.len() && in_class(c, s[i]) {
        lemma_run_ext(s, t, i + 1, c);
    }
}

proof fn lemma_value_ext(s: Seq<u8>, t: Seq<u8>, i: int, k: int)
    requires
        0 <= i <= k < s.len(),
    ensures
        decided(value_at(s, i, k)) ==> value_at(s + t, i, k) == value_at(s, i, k),
        done_within(value_at(s, i, k), i, s.len() as int),
{
    lemma_sub_ext(s, t);
    lemma_run_ext(s, t, k + 1, Class::Value);
    let v = run_end(s, k + 1, Class::Value);
    assert((s + t)[k] == s[k]);
    if v < s.len() {
        assert((s + t).subrange(i, k) == s.subrange(i, k));
        assert((s + t).subrange(k + 1, v) == s.subrange(k + 1, v));
    }
}

proof fn lemma_tag_ext(s: Seq<u8>, t: Seq<u8>, i: int)
    requires
        0 <= i <= s.len(),
    ensures
        decided(tag_at(s, i)) ==> tag_at(s + t, i) == tag_at(s, i),
        done_within(tag_at(s, i), i, s.len() as int),
{
    lemma_run_bounds(s, i, Class::Vendor);
    lemma_run_ext(s, t, i, Class::Vendor);
    lemma_name_within_vendor(s, i);
    lemma_run_ext(s, t, i, Class::Name);
    let j = run_end(s, i, Class::Vendor);
    if j < s.len() {
        lemma_run_bounds(s, j + 1, Class::Name);
        lemma_run_ext(s, t, j + 1, Class::Name);
        let k = run_end(s, j + 1, Class::Name);
        if k < s.len() {
            lemma_value_ext(s, t, i, k);
        }
        let n = run_end(s, i, Class::Name);
        if n < s.len() {
            lemma_value_ext(s, t, i, n);
        }
    }
}

proof fn lemma_tags_ext(s: Seq<u8>, t: Seq<u8>, i: int)
    requires
        0 <= i <= s.len(),
    ensures
        decided(tags_from(s, i)) ==> tags_from(s + t, i) == tags_from(s, i),
        done_within(tags_from(s, i), i, s.len() as int),
    decreases s.len() - i,
{
    lemma_tag_ext(s, t, i);
    match tag_at(s, i) {
        Scan::Done(_, e) => {
            if e < s.len() && s[e] == SEMICOLON && i < e {
                lemma_tags_ext(s, t, e + 1);
            }
        },
        _ => {},
    }
}

proof fn lemma_host_ext(s: Seq<u8>, t: Seq<u8>, i: int)
    requires
        0 <= i <= s.len(),
    ensures
        decided(host_at(s, i)) ==> host_at(s + t, i) == host_at(s, i),
        done_within(host_at(s, i), i, s.len() as int),
{
    lemma_sub_ext(s, t);
    lemma_run_ext(s, t, i, Class::Host);
}

proof fn lemma_prefix_ext(s: Seq<u8>, t: Seq<u8>, i: int)
    requires
        0 <= i <= s.len(),
    ensures
        decided(prefix_at(s, i)) ==> prefix_at(s + t, i) == prefix_at(s, i),
        done_within(prefix_at(s, i), i, s.len() as int),
{
    lemma_sub_ext(s, t);
    lemma_run_bounds(s, i, Class::Nick);
    lemma_run_ext(s, t, i, Class::Nick);
    let n = run_end(s, i, Class::Nick);
    if n < s.len() {
        lemma_host_ext(s, t, n + 1);
        lemma_run_bounds(s, n + 1, Class::User);
        lemma_run_ext(s, t, n + 1, Class::User);
        let u = run_end(s, n + 1, Class::User);
        if u < s.len() {
            lemma_host_ext(s, t, u + 1);
        }
    }
}

proof fn lemma_command_ext(s: Seq<u8>, t: Seq<u8>, i: int)
    requires
        0 <= i <= s.len(),
    ensures
        decided(command_at(s, i)) ==> command_at(s + t, i) == command_at(s, i),
        done_within(command_at(s, i), i, s.len() as int),
{
    lemma_sub_ext(s, t);
    lemma_run_ext(s, t, i, Class::Digit);
    lemma_run_ext(s, t, i, Class::Word);
    lemma_run_bounds(s, i, Class::Digit);
}

proof fn lemma_params_ext(s: Seq<u8>, t: Seq<u8>, i: int)
    requires
        0 <= i <= s.len(),
    ensures
        decided(params_from(s, i)) ==> params_from(s + t, i) == params_from(s, i),
        done_within(params_from(s, i), i, s.len() as int),
    decreases s.len() - i,
{
    lemma_sub_ext(s, t);
    if i < s.len() && s[i] == SPACE && i + 1 < s.len() {
        lemma_run_bounds(s, i + 2, Class::Trail);
        lemma_run_ext(s, t, i + 2, Class::Trail);
        lemma_run_bounds(s, i + 1, Class::Param);
        lemma_run_ext(s, t, i + 1, Class::Param);
        let m = run_end(s, i + 1, Class::Param);
        if i + 1 < m < s.len() {
            lemma_params_ext(s, t, m);
        }
    }
}

proof fn lemma_after_prefix_ext(
    s: Seq<u8>,
    t: Seq<u8>,
    ts: Seq<TagV>,
    pre: Option<PrefixV>,
    q: int,
)
    requires
        0 <= q <= s.len(),
    ensures
        decided(after_prefix(s, ts, pre, q)) ==> after_prefix(s + t, ts, pre, q) == after_prefix(
            s,
            ts,
            pre,
            q,
        ),
        done_within(after_prefix(s, ts, pre, q), q, s.len() as int),
{
    lemma_command_ext(s, t, q);
    match command_at(s, q) {
        Scan::Done(_, e) => {
            lemma_params_ext(s, t, e);
        },
        _ => {},
    }
}

proof fn lemma_after_tags_ext(s: Seq<u8>, t: Seq<u8>, ts: Seq<TagV>, p: int)
    requires
        0 <= p <= s.len(),
    ensures
        decided(after_tags(s, ts, p)) ==> after_tags(s + t, ts, p) == after_tags(s, ts, p),
        done_within(after_tags(s, ts, p), p, s.len() as int),
{
    if p < s.len() {
        lemma_prefix_ext(s, t, p + 1);
        lemma_after_prefix_ext(s, t, ts, None, p);
        match prefix_at(s, p + 1) {
            Scan::Done(pre, q) => {
                lemma_after_prefix_ext(s, t, ts, Some(pre), q);
            },
            _ => {},
        }
    }
}

/// Once the bytes so far decide the first line, as a message or as a byte
/// that no line can have, more bytes after them change nothing; a message
/// never takes more bytes than there are.
pub proof fn lemma_decided_line_stays(s: Seq<u8>, t: Seq<u8>)
    ensures
        decided(parse_line(s)) ==> parse_line(s + t) == parse_line(s),
        done_within(parse_line(s), 0, s.len() as int),
{
    if s.len() > 0 {
        lemma_tags_ext(s, t, 1);
        lemma_after_tags_ext(s, t, Seq::empty(), 0);
        match tags_from(s, 1) {
            Scan::Done(ts, p) => {
                lemma_after_tags_ext(s, t, ts, p);
            },
            _ => {},
        }
    }
}

// ---------------------------------------------------------------------------
// What is read was written
// ---------------------------------------------------------------------------
proof fn lemma_sub_concat(s: Seq<u8>, a: int, b: int, c: int)
    requires
        0 <= a <= b <= c <= s.len(),
    ensures
        s.subrange(a, c) == s.subrange(a, b) + s.subrange(b, c),
{
    assert(s.subrange(a, c) =~= s.subrange(a, b) + s.subrange(b, c));
}

proof fn lemma_sub_one(s: Seq<u8>, a: int)
    requires
        0 <= a < s.len(),
    ensures
        s.subrange(a, a + 1) == seq![s[a]],
{
    assert(s.subrange(a, a + 1) =~= seq![s[a]]);
}

proof fn lemma_sub_all_in(s: Seq<u8>, a: int, b: int, c: Class)
    requires
        0 <= a <= b <= s.len(),
        forall|k: int| a <= k < b ==> in_class(c, #[trigger] s[k]),
    ensures
        all_in(s.subrange(a, b), c),
{
    assert forall|k: int| 0 <= k < b - a implies in_class(c, #[trigger] s.subrange(a, b)[k]) by {
        assert(s.subrange(a, b)[k] == s[a + k]);
    }
}

proof fn lemma_value_sound(s: Seq<u8>, i: int, k: int)
    requires
        0 <= i < k < s.len(),
        value_at(s, i, k) is Done,
    ensures
        match value_at(s, i, k) {
            Scan::Done(t, e) => k <= e < s.len() && t.key == s.subrange(i, k) && s.subrange(i, e)
                == tag_wire(t) && match t.value {
                Some(v) => all_in(v, Class::Value),
                None => true,
            },
            _ => true,
        },
{
    if s[k] == EQUALS {
        let v = run_end(s, k + 1, Class::Value);
        lemma_run_bounds(s, k + 1, Class::Value);
        lemma_sub_all_in(s, k + 1, v, Class::Value);
        lemma_sub_concat(s, i, k, v);
        lemma_sub_concat(s, k, k + 1, v);
        lemma_sub_one(s, k);
        assert(s.subrange(i, v) =~= s.subrange(i, k) + seq![EQUALS] + s.subrange(k + 1, v));
    }
}

proof fn lemma_tag_sound(s: Seq<u8>, i: int)
    requires
        0 <= i <= s.len(),
        tag_at(s, i) is Done,
    ensures
        match tag_at(s, i) {
            Scan::Done(t, e) => i < e < s.len() && tag_ok(t) && s.subrange(i, e) == tag_wire(t),
            _ => true,
        },
{
    let j = run_end(s, i, Class::Vendor);
    lemma_run_bounds(s, i, Class::Vendor);
    lemma_name_within_vendor(s, i);
    lemma_run_bounds(s, i, Class::Name);
    if s[j] == SLASH {
        let k = run_end(s, j + 1, Class::Name);
        lemma_run_bounds(s, j + 1, Class::Name);
        lemma_value_sound(s, i, k);
        let key = s.subrange(i, k);
        assert(key.take(j - i) =~= s.subrange(i, j));
        assert(key.skip(j - i + 1) =~= s.subrange(j + 1, k));
        lemma_sub_all_in(s, i, j, Class::Vendor);
        lemma_sub_all_in(s, j + 1, k, Class::Name);
        assert(key[j - i] == SLASH);
    } else {
        let n = run_end(s, i, Class::Name);
        lemma_value_sound(s, i, n);
        lemma_sub_all_in(s, i, n, Class::Name);
    }
}

proof fn lemma_tags_sound(s: Seq<u8>, i: int)
    requires
        0 <= i <= s.len(),
        tags_from(s, i) is Done,
    ensures
        match tags_from(s, i) {
            Scan::Done(ts, f) => i < f <= s.len() && ts.len() > 0 && (forall|k: int|
                0 <= k < ts.len() ==> tag_ok(#[trigger] ts[k])) && s.subrange(i, f)
                == tag_list_wire(ts) + seq![SPACE],
            _ => true,
        },
    decreases s.len() - i,
{
    lemma_tag_sound(s, i);
    if let Scan::Done(t, e) = tag_at(s, i) {
        lemma_sub_concat(s, i, e, e + 1);
        lemma_sub_one(s, e);
        if s[e] == SPACE {
            assert(tag_list_wire(seq![t]) == tag_wire(t));
        } else {
            lemma_tags_sound(s, e + 1);
            if let Scan::Done(ts, f) = tags_from(s, e + 1) {
                lemma_tag_list_front(t, ts);
                lemma_sub_concat(s, i, e + 1, f);
                let all = seq![t] + ts;
                assert forall|k: int| 0 <= k < all.len() implies tag_ok(#[trigger] all[k]) by {
                    if k > 0 {
                        assert(all[k] == ts[k - 1]);
                    }
                }
                assert(s.subrange(i, f) =~= tag_wire(t) + seq![SEMICOLON] + tag_list_wire(ts)
                    + seq![SPACE]);
            }
        }
    }
}

proof fn lemma_host_sound(s: Seq<u8>, i: int)
    requires
        0 <= i <= s.len(),
        host_at(s, i) is Done,
    ensures
        match host_at(s, i) {
            Scan::Done(h, e) => i < e <= s.len() && h.len() > 0 && all_in(h, Class::Host)
                && s.subrange(i, e) == h + seq![SPACE],
            _ => true,
        },
{
    let h = run_end(s, i, Class::Host);
    lemma_run_bounds(s, i, Class::Host);
    lemma_sub_all_in(s, i, h, Class::Host);
    lemma_sub_concat(s, i, h, h + 1);
    lemma_sub_one(s, h);
}

proof fn lemma_prefix_sound(s: Seq<u8>, i: int)
    requires
        0 <= i <= s.len(),
        prefix_at(s, i) is Done,
    ensures
        match prefix_at(s, i) {
            Scan::Done(p, e) => i < e <= s.len() && prefix_valid(p) && seq![COLON] + s.subrange(
                i,
                e,
            ) == prefix_wire(p) + seq![SPACE],
            _ => true,
        },
{
    let n = run_end(s, i, Class::Nick);
    lemma_run_bounds(s, i, Class::Nick);
    lemma_sub_all_in(s, i, n, Class::Nick);
    let nick = s.subrange(i, n);
    lemma_sub_one(s, n);
    if s[n] == SPACE {
        lemma_sub_concat(s, i, n, n + 1);
        assert(seq![COLON] + s.subrange(i, n + 1) =~= seq![COLON] + nick + seq![SPACE]);
    } else if s[n] == AT {
        lemma_host_sound(s, n + 1);
        if let Scan::Done(h, e) = host_at(s, n + 1) {
            lemma_sub_concat(s, i, n, e);
            lemma_sub_concat(s, n, n + 1, e);
            assert(seq![COLON] + s.subrange(i, e) =~= seq![COLON] + nick + (seq![AT] + h)
                + seq![SPACE]);
        }
    } else {
        let u = run_end(s, n + 1, Class::User);
        lemma_run_bounds(s, n + 1, Class::User);
        lemma_sub_all_in(s, n + 1, u, Class::User);
        lemma_sub_one(s, u);
        lemma_host_sound(s, u + 1);
        if let Scan::Done(h, e) = host_at(s, u + 1) {
            let user = s.subrange(n + 1, u);
            lemma_sub_concat(s, i, n, e);
            lemma_sub_concat(s, n, n + 1, e);
            lemma_sub_concat(s, n + 1, u, e);
            lemma_sub_concat(s, u, u + 1, e);
            assert(seq![COLON] + s.subrange(i, e) =~= seq![COLON] + nick + (seq![BANG] + user
                + seq![AT] + h) + seq![SPACE]);
        }
    }
}

proof fn lemma_command_sound(s: Seq<u8>, i: int)
    requires
        0 <= i <= s.len(),
        command_at(s, i) is Done,
    ensures
        match command_at(s, i) {
            Scan::Done(c, e) => i < e < s.len() && command_token_ok(c) && s.subrange(i, e) == c,
            _ => true,
        },
{
    lemma_run_bounds(s, i, Class::Digit);
    lemma_run_bounds(s, i, Class::Word);
    lemma_sub_all_in(s, i, run_end(s, i, Class::Digit), Class::Digit);
    lemma_sub_all_in(s, i, run_end(s, i, Class::Word), Class::Word);
}

proof fn lemma_params_sound(s: Seq<u8>, i: int)
    requires
        0 <= i <= s.len(),
        params_from(s, i) is Done,
    ensures
        match params_from(s, i) {
            Scan::Done((args, rest), f) => i < f <= s.len() && (forall|k: int|
                0 <= k < args.len() ==> arg_ok(#[trigger] args[k])) && match rest {
                Some(x) => all_in(x, Class::Trail),
                None => true,
            } && s.subrange(i, f) == params_wire(args, rest),
            _ => true,
        },
    decreases s.len() - i,
{
    assert(args_wire(Seq::empty()) == Seq::<u8>::empty());
    if s[i] == CR {
        assert(s.subrange(i, i + 2) =~= params_wire(Seq::empty(), None));
    } else if s[i + 1] == COLON {
        let t = run_end(s, i + 2, Class::Trail);
        lemma_run_bounds(s, i + 2, Class::Trail);
        lemma_sub_all_in(s, i + 2, t, Class::Trail);
        lemma_sub_concat(s, i, i + 2, t + 2);
        lemma_sub_concat(s, i + 2, t, t + 2);
        assert(s.subrange(i, i + 2) =~= seq![SPACE, COLON]);
        assert(s.subrange(t, t + 2) =~= crlf());
        assert(s.subrange(i, t + 2) =~= params_wire(Seq::empty(), Some(s.subrange(i + 2, t))));
    } else {
        let m = run_end(s, i + 1, Class::Param);
        lemma_run_bounds(s, i + 1, Class::Param);
        lemma_sub_all_in(s, i + 1, m, Class::Param);
        lemma_params_sound(s, m);
        if let Scan::Done((args, rest), f) = params_from(s, m) {
            let a = s.subrange(i + 1, m);
            assert(a[0] == s[i + 1]);
            lemma_args_front(a, args);
            lemma_sub_concat(s, i, m, f);
            lemma_sub_concat(s, i, i + 1, m);
            lemma_sub_one(s, i);
            let all = seq![a] + args;
            assert forall|k: int| 0 <= k < all.len() implies arg_ok(#[trigger] all[k]) by {
                if k > 0 {
                    assert(all[k] == args[k - 1]);
                }
            }
            assert(s.subrange(i, f) =~= params_wire(all, rest));
        }
    }
}

/// The wire form of the command and the parameters that close a line.
pub open spec fn command_wire(m: MessageV) -> Seq<u8> {
    raw_wire(command_to_raw(m.command)) + crlf()
}

pub open spec fn prefix_field_ok(p: Option<PrefixV>) -> bool {
    match p {
        Some(p) => prefix_valid(p),
        None => true,
    }
}

proof fn lemma_after_prefix_sound(s: Seq<u8>, ts: Seq<TagV>, pre: Option<PrefixV>, q: int)
    requires
        0 <= q <= s.len(),
        after_prefix(s, ts, pre, q) is Done,
    ensures
        match after_prefix(s, ts, pre, q) {
            Scan::Done(m, f) => q < f <= s.len() && m.tags == ts && m.prefix == pre && raw_ok(
                command_to_raw(m.command),
            ) && canonical(m.command) && s.subrange(q, f) == command_wire(m),
            _ => true,
        },
{
    lemma_command_sound(s, q);
    if let Scan::Done(c, e) = command_at(s, q) {
        lemma_params_sound(s, e);
        if let Scan::Done((args, rest), f) = params_from(s, e) {
            let raw = RawV { command: c, args, rest };
            lemma_raw_round_trip(raw);
            lemma_sub_concat(s, q, e, f);
            assert(raw_wire(raw) + crlf() =~= c + params_wire(args, rest));
        }
    }
}

proof fn lemma_after_tags_sound(s: Seq<u8>, ts: Seq<TagV>, p: int)
    requires
        0 <= p <= s.len(),
        after_tags(s, ts, p) is Done,
    ensures
        match after_tags(s, ts, p) {
            Scan::Done(m, f) => p < f <= s.len() && m.tags == ts && prefix_field_ok(m.prefix)
                && raw_ok(command_to_raw(m.command)) && canonical(m.command) && s.subrange(p, f)
                == prefix_section(m.prefix) + command_wire(m),
            _ => true,
        },
{
    if s[p] == COLON {
        lemma_prefix_sound(s, p + 1);
        if let Scan::Done(pre, q) = prefix_at(s, p + 1) {
            lemma_after_prefix_sound(s, ts, Some(pre), q);
            if let Scan::Done(m, f) = after_prefix(s, ts, Some(pre), q) {
                lemma_sub_concat(s, p, p + 1, q);
                lemma_sub_concat(s, p, q, f);
                lemma_sub_one(s, p);
            }
        }
    } else {
        lemma_after_prefix_sound(s, ts, None, p);
    }
}

/// A line that reads as a message is that message's wire form, and the
/// message is well-formed.
pub proof fn lemma_read_was_written(s: Seq<u8>)
    requires
        parse_line(s) is Done,
    ensures
        match parse_line(s) {
            Scan::Done(m, n) => 0 < n <= s.len() && message_ok(m) && s.take(n) == message_wire(m),
            _ => true,
        },
{
    if s[0] == AT {
        lemma_tags_sound(s, 1);
        if let Scan::Done(ts, p) = tags_from(s, 1) {
            lemma_after_tags_sound(s, ts, p);
            if let Scan::Done(m, f) = after_tags(s, ts, p) {
                lemma_sub_concat(s, 0, 1, p);
                lemma_sub_concat(s, 0, p, f);
                lemma_sub_one(s, 0);
                assert(s.take(f) =~= s.subrange(0, f));
                assert(s.subrange(0, p) == tags_section(ts));
            }
        }
    } else {
        lemma_after_tags_sound(s, Seq::empty(), 0);
        if let Scan::Done(m, f) = after_tags(s, Seq::empty(), 0) {
            assert(s.take(f) =~= s.subrange(0, f));
            assert(tags_section(m.tags) =~= Seq::<u8>::empty());
        }
    }
}

// ---------------------------------------------------------------------------
// A line that needs more bytes can still be completed
// ---------------------------------------------------------------------------
/// A run of class `c` that reaches the end of `s` goes on into `t` for the
/// first `k` bytes of `t` and stops there.
proof fn lemma_run_extend(s: Seq<u8>, t: Seq<u8>, i: int, c: Class, k: int)
    requires
        0 <= i <= s.len(),
        run_end(s, i, c) >= s.len(),
        0 <= k <= t.len(),
        forall|j: int| 0 <= j < k ==> in_class(c, #[trigger] t[j]),
        k == t.len() || !in_class(c, t[k]),
    ensures
        run_end(s + t, i, c) == s.len() + k,
{
    lemma_run_bounds(s, i, c);
    let u = s + t;
    assert forall|j: int| i <= j < s.len() + k implies in_class(c, #[trigger] u[j]) by {
        if j < s.len() {
            assert(u[j] == s[j]);
        } else {
            assert(u[j] == t[j - s.len()]);
        }
    }
    if k < t.len() {
        assert(u[s.len() + k] == t[k]);
    }
    lemma_run_exact(u, i, s.len() + k, c);
}

/// The short line end `A` CR LF closes any line whose command is still to
/// come.
proof fn lemma_tail_line(u: Seq<u8>, ts: Seq<TagV>, pre: Option<PrefixV>, q: int)
    requires
        at(u, q, seq![65u8, CR, LF]),
        u.len() == q + 3,
    ensures
        after_prefix(u, ts, pre, q) is Done,
        u[q] == 65,
{
    let w = seq![65u8, CR, LF];
    lemma_at_byte(u, q, w, 0);
    lemma_at_byte(u, q, w, 1);
    lemma_at_byte(u, q, w, 2);
    lemma_run_exact(u, q, q + 1, Class::Word);
}

proof fn lemma_at_end(s: Seq<u8>, t: Seq<u8>)
    ensures
        at(s + t, s.len() as int, t),
{
    assert((s + t).subrange(s.len() as int, (s.len() + t.len()) as int) =~= t);
}

proof fn lemma_params_complete(s: Seq<u8>, i: int) -> (t: Seq<u8>)
    requires
        0 <= i <= s.len(),
        params_from(s, i) is More,
    ensures
        params_from(s + t, i) is Done,
    decreases s.len() - i,
{
    if i >= s.len() {
        let t = seq![CR, LF];
        assert((s + t)[i] == CR && (s + t)[i + 1] == LF);
        t
    } else if s[i] == CR {
        let t = seq![LF];
        assert((s + t)[i] == CR && (s + t)[i + 1] == LF);
        t
    } else if i + 1 >= s.len() {
        let t = seq![COLON, CR, LF];
        let u = s + t;
        assert(u[i] == SPACE && u[i + 1] == COLON && u[i + 2] == CR && u[i + 3] == LF);
        lemma_run_exact(u, i + 2, i + 2, Class::Trail);
        t
    } else if s[i + 1] == COLON {
        let tr = run_end(s, i + 2, Class::Trail);
        lemma_run_bounds(s, i + 2, Class::Trail);
        if tr >= s.len() {
            let t = seq![CR, LF];
            lemma_run_extend(s, t, i + 2, Class::Trail, 0);
            assert((s + t)[s.len() as int] == CR && (s + t)[s.len() as int + 1] == LF);
            t
        } else {
            let t = seq![LF];
            lemma_run_ext(s, t, i + 2, Class::Trail);
            assert((s + t)[tr + 1] == LF);
            t
        }
    } else {
        let m = run_end(s, i + 1, Class::Param);
        lemma_run_bounds(s, i + 1, Class::Param);
        if m >= s.len() {
            let t = seq![CR, LF];
            lemma_run_extend(s, t, i + 1, Class::Param, 0);
            let u = s + t;
            assert(u[s.len() as int] == CR && u[s.len() as int + 1] == LF);
            assert(params_from(u, s.len() as int) is Done);
            t
        } else {
            let t = lemma_params_complete(s, m);
            lemma_run_ext(s, t, i + 1, Class::Param);
            t
        }
    }
}

proof fn lemma_after_prefix_complete(s: Seq<u8>, ts: Seq<TagV>, pre: Option<PrefixV>, q: int) -> (t:
    Seq<u8>)
    requires
        0 <= q <= s.len(),
        after_prefix(s, ts, pre, q) is More,
    ensures
        after_prefix(s + t, ts, pre, q) is Done,
{
    lemma_command_ext(s, Seq::empty(), q);
    match command_at(s, q) {
        Scan::Done(_, e) => {
            let t = lemma_params_complete(s, e);
            lemma_command_ext(s, t, q);
            t
        },
        _ => {
            if q >= s.len() {
                let t = seq![65u8, CR, LF];
                lemma_at_end(s, t);
                lemma_tail_line(s + t, ts, pre, q);
                t
            } else if is_digit(s[q]) {
                let d = run_end(s, q, Class::Digit);
                lemma_run_bounds(s, q, Class::Digit);
                let k = 3 - (d - q);
                let t = Seq::new(k as nat, |j: int| 48u8) + seq![CR, LF];
                assert forall|j: int| 0 <= j < k implies in_class(Class::Digit, #[trigger] t[j]) by {
                }
                assert(t[k] == CR);
                lemma_run_extend(s, t, q, Class::Digit, k);
                let u = s + t;
                assert(u[q + 3] == CR && u[q + 4] == LF);
                assert(params_from(u, q + 3) is Done);
                t
            } else {
                let t = seq![CR, LF];
                lemma_run_extend(s, t, q, Class::Word, 0);
                let u = s + t;
                assert(u[q] == s[q]);
                assert(u[s.len() as int] == CR && u[s.len() as int + 1] == LF);
                assert(params_from(u, s.len() as int) is Done);
                t
            }
        },
    }
}

proof fn lemma_prefix_complete(s: Seq<u8>, i: int) -> (t: Seq<u8>)
    requires
        0 <= i <= s.len(),
        prefix_at(s, i) is More,
    ensures
        match prefix_at(s + t, i) {
            Scan::Done(_, e) => e == (s + t).len(),
            _ => false,
        },
{
    let n = run_end(s, i, Class::Nick);
    lemma_run_bounds(s, i, Class::Nick);
    if n >= s.len() {
        let t = seq![65u8, SPACE];
        lemma_run_extend(s, t, i, Class::Nick, 1);
        t
    } else if s[n] == AT {
        let t = seq![65u8, SPACE];
        lemma_run_ext(s, t, i, Class::Nick);
        lemma_run_extend(s, t, n + 1, Class::Host, 1);
        t
    } else {
        let un = run_end(s, n + 1, Class::User);
        lemma_run_bounds(s, n + 1, Class::User);
        lemma_run_ext(s, seq![65u8, SPACE], i, Class::Nick);
        lemma_run_ext(s, seq![65u8, AT, 65u8, SPACE], i, Class::Nick);
        if un >= s.len() {
            let t = seq![65u8, AT, 65u8, SPACE];
            lemma_run_extend(s, t, n + 1, Class::User, 1);
            let u = s + t;
            assert(u[s.len() as int + 1] == AT);
            assert(u.subrange(s.len() as int + 2, u.len() as int) =~= t.subrange(2, 4));
            lemma_run_exact(u, s.len() as int + 2, s.len() as int + 3, Class::Host);
            t
        } else {
            let t = seq![65u8, SPACE];
            lemma_run_ext(s, t, n + 1, Class::User);
            lemma_run_extend(s, t, un + 1, Class::Host, 1);
            t
        }
    }
}

proof fn lemma_value_complete(s: Seq<u8>, i: int, k: int)
    requires
        0 <= i < k < s.len(),
        value_at(s, i, k) is More,
    ensures
        match value_at(s + seq![SPACE], i, k) {
            Scan::Done(_, e) => e == s.len(),
            _ => false,
        },
        (s + seq![SPACE])[s.len() as int] == SPACE,
{
    lemma_run_extend(s, seq![SPACE], k + 1, Class::Value, 0);
}

proof fn lemma_tags_complete(s: Seq<u8>, i: int) -> (t: Seq<u8>)
    requires
        0 <= i <= s.len(),
        tags_from(s, i) is More,
    ensures
        match tags_from(s + t, i) {
            Scan::Done(_, e) => e == (s + t).len(),
            _ => false,
        },
    decreases s.len() - i,
{
    lemma_run_bounds(s, i, Class::Vendor);
    lemma_name_within_vendor(s, i);
    if tag_at(s, i) is Done {
        lemma_tag_sound(s, i);
        let e = tag_at(s, i)->Done_1;
        let t = lemma_tags_complete(s, e + 1);
        lemma_tag_ext(s, t, i);
        t
    } else {
        let j = run_end(s, i, Class::Vendor);
        if j >= s.len() {
            if j == i {
                let t = seq![65u8, SPACE];
                lemma_run_extend(s, t, i, Class::Vendor, 1);
                lemma_run_extend(s, t, i, Class::Name, 1);
                t
            } else {
                let t = seq![SLASH, 65u8, SPACE];
                lemma_run_extend(s, t, i, Class::Vendor, 0);
                let u = s + t;
                assert(u[s.len() as int] == SLASH);
                assert(u.subrange(s.len() as int + 1, u.len() as int) =~= t.subrange(1, 3));
                lemma_run_exact(u, s.len() as int + 1, s.len() as int + 2, Class::Name);
                t
            }
        } else if s[j] == SLASH {
            let k = run_end(s, j + 1, Class::Name);
            lemma_run_bounds(s, j + 1, Class::Name);
            if k >= s.len() {
                let t = seq![65u8, SPACE];
                lemma_run_ext(s, t, i, Class::Vendor);
                lemma_run_extend(s, t, j + 1, Class::Name, 1);
                t
            } else {
                let t = seq![SPACE];
                lemma_run_ext(s, t, i, Class::Vendor);
                lemma_run_ext(s, t, j + 1, Class::Name);
                lemma_value_complete(s, i, k);
                t
            }
        } else {
            let t = seq![SPACE];
            lemma_run_ext(s, t, i, Class::Vendor);
            lemma_run_ext(s, t, i, Class::Name);
            lemma_value_complete(s, i, j);
            t
        }
    }
}

proof fn lemma_after_tags_complete(s: Seq<u8>, ts: Seq<TagV>, p: int) -> (t: Seq<u8>)
    requires
        0 <= p <= s.len(),
        after_tags(s, ts, p) is More,
    ensures
        after_tags(s + t, ts, p) is Done,
{
    if p >= s.len() {
        let t = seq![65u8, CR, LF];
        lemma_at_end(s, t);
        lemma_tail_line(s + t, ts, None, p);
        t
    } else if s[p] == COLON {
        lemma_prefix_ext(s, Seq::empty(), p + 1);
        if prefix_at(s, p + 1) is More {
            let t1 = lemma_prefix_complete(s, p + 1);
            let u1 = s + t1;
            let pre = prefix_at(u1, p + 1)->Done_0;
            let t2 = seq![65u8, CR, LF];
            lemma_prefix_ext(u1, t2, p + 1);
            lemma_at_end(u1, t2);
            lemma_tail_line(u1 + t2, ts, Some(pre), u1.len() as int);
            assert(s + (t1 + t2) =~= u1 + t2);
            t1 + t2
        } else {
            let pre = prefix_at(s, p + 1)->Done_0;
            let q = prefix_at(s, p + 1)->Done_1;
            let t = lemma_after_prefix_complete(s, ts, Some(pre), q);
            lemma_prefix_ext(s, t, p + 1);
            t
        }
    } else {
        lemma_after_prefix_complete(s, ts, None, p)
    }
}

/// Where the bytes so far leave the first line undecided, some further bytes
/// complete it: a decode step that waits never waits on a line that can
/// no longer be read.
pub proof fn lemma_more_can_complete(s: Seq<u8>)
    requires
        parse_line(s) is More,
    ensures
        exists|t: Seq<u8>| #[trigger] parse_line(s + t) is Done,
{
    let t = if s.len() == 0 {
        let t = seq![65u8, CR, LF];
        lemma_at_end(s, t);
        lemma_tail_line(s + t, Seq::empty(), None, 0);
        t
    } else if s[0] == AT {
        lemma_tags_ext(s, Seq::empty(), 1);
        if tags_from(s, 1) is More {
            let t1 = lemma_tags_complete(s, 1);
            let u1 = s + t1;
            let ts = tags_from(u1, 1)->Done_0;
            let t2 = lemma_after_tags_complete(u1, ts, u1.len() as int);
            lemma_tags_ext(u1, t2, 1);
            assert(s + (t1 + t2) =~= u1 + t2);
            t1 + t2
        } else {
            let ts = tags_from(s, 1)->Done_0;
            let p = tags_from(s, 1)->Done_1;
            let t = lemma_after_tags_complete(s, ts, p);
            lemma_tags_ext(s, t, 1);
            t
        }
    } else {
        lemma_after_tags_complete(s, Seq::empty(), 0)
    };
    assert((s + t)[0] == if s.len() == 0 { 65u8 } else { s[0] });
    assert(parse_line(s + t) is Done);
}

// ---------------------------------------------------------------------------
// The framer
// ---------------------------------------------------------------------------
/// A decode step on a given buffer has one outcome: one event, or none, and
/// one buffer after it.
pub proof fn lemma_decode_step_unique(
    s: Seq<u8>,
    e1: Option<EventV>,
    a1: Seq<u8>,
    e2: Option<EventV>,
    a2: Seq<u8>,
)
    requires
        decode_step(s, e1, a1),
        decode_step(s, e2, a2),
    ensures
        e1 == e2,
        a1 == a2,
{
    if let (Some(EventV::Invalid(l1)), Some(EventV::Invalid(l2))) = (e1, e2) {
        if l1.len() < l2.len() {
            assert(l2.drop_last()[l1.len() - 1] == s[l1.len() - 1]);
            assert(l1[l1.len() - 1] == s[l1.len() - 1]);
        } else if l2.len() < l1.len() {
            assert(l1.drop_last()[l2.len() - 1] == s[l2.len() - 1]);
            assert(l2[l2.len() - 1] == s[l2.len() - 1]);
        }
    }
}

/// A well-formed line that arrives in two pieces gives the events that it
/// gives whole: while only the first piece is in the buffer a decode step
/// hands out nothing and leaves the buffer as it was, and once the second
/// piece is appended the step hands out the message and leaves the buffer
/// empty.
pub proof fn lemma_split_line(m: MessageV, k: int)
    requires
        message_ok(m),
        0 <= k < message_wire(m).len(),
    ensures
        decode_step(message_wire(m).take(k), None, message_wire(m).take(k)),
        message_wire(m).take(k) + message_wire(m).skip(k) == message_wire(m),
        decode_step(message_wire(m), Some(EventV::Valid(m)), Seq::empty()),
{
    let w = message_wire(m);
    let p = w.take(k);
    assert(p + w.skip(k) =~= w);
    assert(w + Seq::<u8>::empty() =~= w);
    lemma_round_trip(m, Seq::empty());
    lemma_decided_line_stays(p, w.skip(k));
    assert(w.skip(w.len() as int) =~= Seq::<u8>::empty());
}

/// A line that cannot be read, ended by its only LF and followed by a
/// well-formed line: the first decode step hands out exactly the bad line's
/// bytes and leaves the well-formed line; the next hands out its message and
/// leaves the buffer empty.
pub proof fn lemma_resync(bad: Seq<u8>, m: MessageV)
    requires
        bad.len() > 0,
        bad.last() == LF,
        no_lf(bad.drop_last()),
        parse_line(bad) is Bad,
        message_ok(m),
    ensures
        decode_step(bad + message_wire(m), Some(EventV::Invalid(bad)), message_wire(m)),
        decode_step(message_wire(m), Some(EventV::Valid(m)), Seq::empty()),
{
    let w = message_wire(m);
    let s = bad + w;
    lemma_decided_line_stays(bad, w);
    assert(s[bad.len() - 1] == LF);
    assert(s.take(bad.len() as int) =~= bad);
    assert(first_line(s, bad));
    assert(s.skip(bad.len() as int) =~= w);
    assert(w + Seq::<u8>::empty() =~= w);
    lemma_round_trip(m, Seq::empty());
    assert(w.skip(w.len() as int) =~= Seq::<u8>::empty());
}

/// A line reads as a message exactly when the bytes begin with the wire
/// form of a well-formed message; that message is the one read, and its
/// line is what the read takes.
pub proof fn lemma_line_read_iff_written(s: Seq<u8>)
    ensures
        match parse_line(s) {
            Scan::Done(m, n) => 0 < n <= s.len() && message_ok(m) && s == message_wire(m) + s.skip(
                n,
            ),
            _ => true,
        },
        (exists|m: MessageV, rest: Seq<u8>| message_ok(m) && s == message_wire(m) + rest)
            ==> parse_line(s) is Done,
{
    if parse_line(s) is Done {
        lemma_read_was_written(s);
        if let Scan::Done(m, n) = parse_line(s) {
            assert(s =~= s.take(n) + s.skip(n));
        }
    }
    if exists|m: MessageV, rest: Seq<u8>| message_ok(m) && s == message_wire(m) + rest {
        let (m, rest) = choose|m: MessageV, rest: Seq<u8>|
            message_ok(m) && s == message_wire(m) + rest;
        lemma_round_trip(m, rest);
    }
}

} // verus!
