//! The line grammar, as a model over byte sequences and as a scanner over a
//! byte slice that borrows every field from it.
use std::borrow::Cow;
use vstd::prelude::*;

use crate::command::{raw_to_command, Command};
use crate::data::{
    args_view, opt_bytes, tags_view, Message, MessageV, Prefix, PrefixV, RawCommandAndArgs, RawV,
    Tag, TagV, AT, BANG, COLON, CR, EQUALS, LF, SEMICOLON, SLASH, SPACE,
};

verus! {

/// Where a scan of one part of a line stands: the part was read and ends at
/// a position; the input ended before the part could be decided; or the
/// byte at a position can never continue the line.
pub ghost enum Scan<T> {
    Done(T, int),
    More,
    Bad(int),
}

/// The byte sets that the parts of a line are made of.
pub enum Class {
    /// Vendor part of a tag key: letters, digits, `-`, `.`.
    Vendor,
    /// Name part of a tag key: letters, digits, `-`.
    Name,
    /// A tag value: anything but NUL, CR, LF, `;` and space.
    Value,
    /// A nickname: anything but `!`, `@` and space.
    Nick,
    /// A user: anything but `@` and space.
    User,
    /// A host: anything but space.
    Host,
    /// A command word: letters, `-`, `_`.
    Word,
    /// A decimal digit.
    Digit,
    /// A middle parameter: anything but space, CR and LF.
    Param,
    /// The trailing parameter: anything but CR and LF.
    Trail,
}

pub open spec fn is_digit(b: u8) -> bool {
    48 <= b <= 57
}

pub open spec fn is_alpha(b: u8) -> bool {
    (65 <= b <= 90) || (97 <= b <= 122)
}

pub open spec fn is_line_end(b: u8) -> bool {
    b == CR || b == LF
}

pub open spec fn in_class(c: Class, b: u8) -> bool {
    match c {
        Class::Vendor => is_alpha(b) || is_digit(b) || b == 45 || b == 46,
        Class::Name => is_alpha(b) || is_digit(b) || b == 45,
        Class::Value => b != 0 && !is_line_end(b) && b != SEMICOLON && b != SPACE,
        Class::Nick => b != BANG && b != AT && b != SPACE,
        Class::User => b != AT && b != SPACE,
        Class::Host => b != SPACE,
        Class::Word => is_alpha(b) || b == 45 || b == 95,
        Class::Digit => is_digit(b),
        Class::Param => b != SPACE && !is_line_end(b),
        Class::Trail => !is_line_end(b),
    }
}

/// The end of the longest run of bytes of class `c` that starts at `i`.
pub open spec fn run_end(s: Seq<u8>, i: int, c: Class) -> int
    decreases s.len() - i,
{
    if 0 <= i < s.len() && in_class(c, s[i]) {
        run_end(s, i + 1, c)
    } else {
        i
    }
}

/// The rest of a tag after its key `s[i..k]`: `=value` or nothing.
pub open spec fn value_at(s: Seq<u8>, i: int, k: int) -> Scan<TagV> {
    if s[k] == EQUALS {
        let v = run_end(s, k + 1, Class::Value);
        if v >= s.len() {
            Scan::More
        } else {
            Scan::Done(TagV { key: s.subrange(i, k), value: Some(s.subrange(k + 1, v)) }, v)
        }
    } else {
        Scan::Done(TagV { key: s.subrange(i, k), value: None }, k)
    }
}

/// One tag at `i`: a key `[vendor/]name`, then an optional `=value`.
pub open spec fn tag_at(s: Seq<u8>, i: int) -> Scan<TagV> {
    let j = run_end(s, i, Class::Vendor);
    if j >= s.len() {
        Scan::More
    } else if s[j] == SLASH {
        let k = run_end(s, j + 1, Class::Name);
        if j == i {
            Scan::Bad(j)
        } else if k >= s.len() {
            Scan::More
        } else if k == j + 1 {
            Scan::Bad(k)
        } else {
            value_at(s, i, k)
        }
    } else {
        let n = run_end(s, i, Class::Name);
        if n == i {
            Scan::Bad(i)
        } else if n < j {
            Scan::Bad(n)
        } else {
            value_at(s, i, n)
        }
    }
}

/// The tags at `i`, separated by `;` and ended by a space; the position
/// reached is past that space.
pub open spec fn tags_from(s: Seq<u8>, i: int) -> Scan<Seq<TagV>>
    decreases s.len() - i,
{
    match tag_at(s, i) {
        Scan::Done(t, e) => {
            if e >= s.len() {
                Scan::More
            } else if s[e] == SPACE {
                Scan::Done(seq![t], e + 1)
            } else if s[e] == SEMICOLON && i < e {
                match tags_from(s, e + 1) {
                    Scan::Done(ts, f) => Scan::Done(seq![t] + ts, f),
                    Scan::More => Scan::More,
                    Scan::Bad(x) => Scan::Bad(x),
                }
            } else {
                Scan::Bad(e)
            }
        },
        Scan::More => Scan::More,
        Scan::Bad(x) => Scan::Bad(x),
    }
}

/// A host at `i`, ended by a space; the position reached is past it.
pub open spec fn host_at(s: Seq<u8>, i: int) -> Scan<Seq<u8>> {
    let h = run_end(s, i, Class::Host);
    if h >= s.len() {
        Scan::More
    } else if h == i {
        Scan::Bad(h)
    } else if s[h] != SPACE {
        Scan::Bad(h)
    } else {
        Scan::Done(s.subrange(i, h), h + 1)
    }
}

/// The prefix after its `:`: a nickname, then `!user@host`, `@host` or
/// nothing, then a space; the position reached is past that space.
pub open spec fn prefix_at(s: Seq<u8>, i: int) -> Scan<PrefixV> {
    let n = run_end(s, i, Class::Nick);
    let nickname = s.subrange(i, n);
    if n >= s.len() {
        Scan::More
    } else if n == i {
        Scan::Bad(i)
    } else if s[n] == SPACE {
        Scan::Done(PrefixV { nickname, user: None, host: None }, n + 1)
    } else if s[n] == AT {
        match host_at(s, n + 1) {
            Scan::Done(h, e) => Scan::Done(PrefixV { nickname, user: None, host: Some(h) }, e),
            Scan::More => Scan::More,
            Scan::Bad(x) => Scan::Bad(x),
        }
    } else if s[n] == BANG {
        let u = run_end(s, n + 1, Class::User);
        if u >= s.len() {
            Scan::More
        } else if u == n + 1 || s[u] != AT {
            Scan::Bad(u)
        } else {
            match host_at(s, u + 1) {
                Scan::Done(h, e) => Scan::Done(
                    PrefixV { nickname, user: Some(s.subrange(n + 1, u)), host: Some(h) },
                    e,
                ),
                Scan::More => Scan::More,
                Scan::Bad(x) => Scan::Bad(x),
            }
        }
    } else {
        Scan::Bad(n)
    }
}

/// The command token at `i`: a word, or exactly three digits.
pub open spec fn command_at(s: Seq<u8>, i: int) -> Scan<Seq<u8>> {
    if i >= s.len() {
        Scan::More
    } else if is_digit(s[i]) {
        let d = run_end(s, i, Class::Digit);
        if d > i + 3 {
            Scan::Bad(i + 3)
        } else if d >= s.len() {
            Scan::More
        } else if d < i + 3 {
            Scan::Bad(d)
        } else {
            Scan::Done(s.subrange(i, d), d)
        }
    } else if in_class(Class::Word, s[i]) {
        let w = run_end(s, i, Class::Word);
        if w >= s.len() {
            Scan::More
        } else {
            Scan::Done(s.subrange(i, w), w)
        }
    } else {
        Scan::Bad(i)
    }
}

/// The parameters after the command token and the line terminator: the
/// middle parameters, each after one space; the trailing one after ` :`;
/// then CR LF. The position reached is past the terminator.
pub open spec fn params_from(s: Seq<u8>, i: int) -> Scan<(Seq<Seq<u8>>, Option<Seq<u8>>)>
    decreases s.len() - i,
{
    if i < 0 || i >= s.len() {
        Scan::More
    } else if s[i] == CR {
        if i + 1 >= s.len() {
            Scan::More
        } else if s[i + 1] == LF {
            Scan::Done((Seq::empty(), None), i + 2)
        } else {
            Scan::Bad(i + 1)
        }
    } else if s[i] == SPACE {
        if i + 1 >= s.len() {
            Scan::More
        } else if s[i + 1] == COLON {
            let t = run_end(s, i + 2, Class::Trail);
            if t >= s.len() {
                Scan::More
            } else if s[t] != CR {
                Scan::Bad(t)
            } else if t + 1 >= s.len() {
                Scan::More
            } else if s[t + 1] != LF {
                Scan::Bad(t + 1)
            } else {
                Scan::Done((Seq::empty(), Some(s.subrange(i + 2, t))), t + 2)
            }
        } else {
            let m = run_end(s, i + 1, Class::Param);
            if m <= i + 1 {
                Scan::Bad(i + 1)
            } else if m >= s.len() {
                Scan::More
            } else {
                match params_from(s, m) {
                    Scan::Done((args, rest), e) => Scan::Done(
                        (seq![s.subrange(i + 1, m)] + args, rest),
                        e,
                    ),
                    Scan::More => Scan::More,
                    Scan::Bad(x) => Scan::Bad(x),
                }
            }
        }
    } else {
        Scan::Bad(i)
    }
}

pub open spec fn after_prefix(s: Seq<u8>, ts: Seq<TagV>, pre: Option<PrefixV>, q: int) -> Scan<
    MessageV,
> {
    match command_at(s, q) {
        Scan::Done(c, e) => match params_from(s, e) {
            Scan::Done((args, rest), f) => Scan::Done(
                MessageV {
                    tags: ts,
                    prefix: pre,
                    command: raw_to_command(RawV { command: c, args, rest }),
                },
                f,
            ),
            Scan::More => Scan::More,
            Scan::Bad(x) => Scan::Bad(x),
        },
        Scan::More => Scan::More,
        Scan::Bad(x) => Scan::Bad(x),
    }
}

pub open spec fn after_tags(s: Seq<u8>, ts: Seq<TagV>, p: int) -> Scan<MessageV> {
    if p >= s.len() {
        Scan::More
    } else if s[p] == COLON {
        match prefix_at(s, p + 1) {
            Scan::Done(pre, q) => after_prefix(s, ts, Some(pre), q),
            Scan::More => Scan::More,
            Scan::Bad(x) => Scan::Bad(x),
        }
    } else {
        after_prefix(s, ts, None, p)
    }
}

/// The first line of `s`: the message it holds and the number of bytes it
/// takes, CR LF included; `More` where `s` ends before the line can be
/// decided; `Bad` with the first byte that no line can have there.
pub open spec fn parse_line(s: Seq<u8>) -> Scan<MessageV> {
    if s.len() == 0 {
        Scan::More
    } else if s[0] == AT {
        match tags_from(s, 1) {
            Scan::Done(ts, p) => after_tags(s, ts, p),
            Scan::More => Scan::More,
            Scan::Bad(x) => Scan::Bad(x),
        }
    } else {
        after_tags(s, Seq::empty(), 0)
    }
}

/// Whether an exec outcome stands for a scan: `Ok` for `Done`, `Err(None)`
/// for `More`, `Err(Some(x))` for `Bad(x)`.
pub open spec fn agrees<T, V>(
    r: Result<(T, usize), Option<usize>>,
    sc: Scan<V>,
    f: spec_fn(T) -> V,
) -> bool {
    match r {
        Ok((t, e)) => sc == Scan::Done(f(t), e as int),
        Err(None) => sc is More,
        Err(Some(x)) => sc == Scan::<V>::Bad(x as int),
    }
}

pub open spec fn prepend<T>(acc: Seq<T>, r: Scan<Seq<T>>) -> Scan<Seq<T>> {
    match r {
        Scan::Done(ts, f) => Scan::Done(acc + ts, f),
        Scan::More => Scan::More,
        Scan::Bad(x) => Scan::Bad(x),
    }
}

pub open spec fn prepend_args(
    acc: Seq<Seq<u8>>,
    r: Scan<(Seq<Seq<u8>>, Option<Seq<u8>>)>,
) -> Scan<(Seq<Seq<u8>>, Option<Seq<u8>>)> {
    match r {
        Scan::Done((a, rest), f) => Scan::Done((acc + a, rest), f),
        Scan::More => Scan::More,
        Scan::Bad(x) => Scan::Bad(x),
    }
}

pub proof fn lemma_run_bounds(s: Seq<u8>, i: int, c: Class)
    requires
        0 <= i <= s.len(),
    ensures
        i <= run_end(s, i, c) <= s.len(),
        (i < s.len() && in_class(c, s[i])) ==> i < run_end(s, i, c),
        forall|k: int| i <= k < run_end(s, i, c) ==> in_class(c, #[trigger] s[k]),
        run_end(s, i, c) < s.len() ==> !in_class(c, s[run_end(s, i, c)]),
    decreases s.len() - i,
{
    if i < s.len() && in_class(c, s[i]) {
        lemma_run_bounds(s, i + 1, c);
    }
}

pub proof fn lemma_name_within_vendor(s: Seq<u8>, i: int)
    requires
        0 <= i <= s.len(),
    ensures
        run_end(s, i, Class::Name) <= run_end(s, i, Class::Vendor),
    decreases s.len() - i,
{
    lemma_run_bounds(s, i, Class::Vendor);
    if i < s.len() && in_class(Class::Name, s[i]) {
        lemma_name_within_vendor(s, i + 1);
    }
}

fn digit(b: u8) -> (r: bool)
    ensures
        r == is_digit(b),
{
    48 <= b && b <= 57
}

fn alpha(b: u8) -> (r: bool)
    ensures
        r == is_alpha(b),
{
    (65 <= b && b <= 90) || (97 <= b && b <= 122)
}

fn line_end(b: u8) -> (r: bool)
    ensures
        r == is_line_end(b),
{
    b == CR || b == LF
}

fn class_has(c: &Class, b: u8) -> (r: bool)
    ensures
        r == in_class(*c, b),
{
    match c {
        Class::Vendor => alpha(b) || digit(b) || b == 45 || b == 46,
        Class::Name => alpha(b) || digit(b) || b == 45,
        Class::Value => b != 0 && !line_end(b) && b != SEMICOLON && b != SPACE,
        Class::Nick => b != BANG && b != AT && b != SPACE,
        Class::User => b != AT && b != SPACE,
        Class::Host => b != SPACE,
        Class::Word => alpha(b) || b == 45 || b == 95,
        Class::Digit => digit(b),
        Class::Param => b != SPACE && !line_end(b),
        Class::Trail => !line_end(b),
    }
}

/// The end of the longest run of bytes of class `c` from `i`.
fn run(s: &[u8], i: usize, c: Class) -> (j: usize)
    requires
        i <= s@.len(),
    ensures
        j == run_end(s@, i as int, c),
        i <= j <= s@.len(),
        (i < s@.len() && in_class(c, s@[i as int])) ==> i < j,
{
    proof {
        lemma_run_bounds(s@, i as int, c);
    }
    let mut j = i;
    while j < s.len() && class_has(&c, s[j])
        invariant
            i <= j <= s@.len(),
            run_end(s@, i as int, c) == run_end(s@, j as int, c),
        decreases s@.len() - j,
    {
        j = j + 1;
    }
    j
}

fn borrow<'a>(s: &'a [u8], i: usize, j: usize) -> (r: Cow<'a, [u8]>)
    requires
        i <= j <= s@.len(),
    ensures
        r@ == s@.subrange(i as int, j as int),
{
    Cow::Borrowed(vstd::slice::slice_subrange(s, i, j))
}

fn scan_value<'a>(s: &'a [u8], i: usize, k: usize) -> (r: Result<(Tag<'a>, usize), Option<usize>>)
    requires
        i < k < s@.len(),
    ensures
        agrees(r, value_at(s@, i as int, k as int), |t: Tag<'a>| t@),
        r matches Ok((_, e)) ==> i < e < s@.len(),
{
    if s[k] == EQUALS {
        let v = run(s, k + 1, Class::Value);
        if v >= s.len() {
            Err(None)
        } else {
            Ok((Tag { key: borrow(s, i, k), value: Some(borrow(s, k + 1, v)) }, v))
        }
    } else {
        Ok((Tag { key: borrow(s, i, k), value: None }, k))
    }
}

/// One tag at `i`, and the position after it.
pub fn tag<'a>(s: &'a [u8], i: usize) -> (r: Result<(Tag<'a>, usize), Option<usize>>)
    requires
        i <= s@.len(),
    ensures
        agrees(r, tag_at(s@, i as int), |t: Tag<'a>| t@),
        r matches Ok((_, e)) ==> i < e < s@.len(),
{
    let j = run(s, i, Class::Vendor);
    if j >= s.len() {
        Err(None)
    } else if s[j] == SLASH {
        let k = run(s, j + 1, Class::Name);
        if j == i {
            Err(Some(j))
        } else if k >= s.len() {
            Err(None)
        } else if k == j + 1 {
            Err(Some(k))
        } else {
            scan_value(s, i, k)
        }
    } else {
        let n = run(s, i, Class::Name);
        proof {
            lemma_name_within_vendor(s@, i as int);
        }
        if n == i {
            Err(Some(i))
        } else if n < j {
            Err(Some(n))
        } else {
            scan_value(s, i, n)
        }
    }
}

/// The tags at `i`, and the position after the space that ends them.
pub fn tags<'a>(s: &'a [u8], i: usize) -> (r: Result<(Vec<Tag<'a>>, usize), Option<usize>>)
    requires
        i <= s@.len(),
    ensures
        agrees(r, tags_from(s@, i as int), |v: Vec<Tag<'a>>| tags_view(v@)),
        r matches Ok((_, e)) ==> i < e <= s@.len(),
{
    let mut acc: Vec<Tag<'a>> = Vec::new();
    let mut p = i;
    loop
        invariant
            i <= p <= s@.len(),
            tags_from(s@, i as int) == prepend(tags_view(acc@), tags_from(s@, p as int)),
            acc@.len() > 0 ==> i < p,
        decreases s@.len() - p,
    {
        let ghost old_acc = tags_view(acc@);
        match tag(s, p) {
            Ok((t, e)) => {
                let ghost tv = t@;
                if s[e] == SPACE {
                    acc.push(t);
                    proof {
                        assert(tags_view(acc@) =~= old_acc + seq![tv]);
                    }
                    return Ok((acc, e + 1));
                } else if s[e] == SEMICOLON && p < e {
                    acc.push(t);
                    proof {
                        assert(tags_view(acc@) =~= old_acc.push(tv));
                        match tags_from(s@, e + 1) {
                            Scan::Done(ts, f) => {
                                assert(old_acc + (seq![tv] + ts) =~= old_acc.push(tv) + ts);
                            },
                            _ => {},
                        }
                    }
                    p = e + 1;
                } else {
                    return Err(Some(e));
                }
            },
            Err(x) => {
                return Err(x);
            },
        }
    }
}

fn scan_host(s: &[u8], i: usize) -> (r: Result<(Cow<'_, [u8]>, usize), Option<usize>>)
    requires
        i <= s@.len(),
    ensures
        agrees(r, host_at(s@, i as int), |h: Cow<'_, [u8]>| h@),
        r matches Ok((_, e)) ==> i < e <= s@.len(),
{
    let h = run(s, i, Class::Host);
    if h >= s.len() {
        Err(None)
    } else if h == i {
        Err(Some(h))
    } else if s[h] != SPACE {
        Err(Some(h))
    } else {
        Ok((borrow(s, i, h), h + 1))
    }
}

/// The prefix after its `:` at `i`, and the position after the space that
/// ends it.
pub fn prefix<'a>(s: &'a [u8], i: usize) -> (r: Result<(Prefix<'a>, usize), Option<usize>>)
    requires
        i <= s@.len(),
    ensures
        agrees(r, prefix_at(s@, i as int), |p: Prefix<'a>| p@),
        r matches Ok((_, e)) ==> i < e <= s@.len(),
{
    let n = run(s, i, Class::Nick);
    if n >= s.len() {
        Err(None)
    } else if n == i {
        Err(Some(i))
    } else if s[n] == SPACE {
        Ok((Prefix { nickname: borrow(s, i, n), user: None, host: None }, n + 1))
    } else if s[n] == AT {
        match scan_host(s, n + 1) {
            Ok((h, e)) => Ok((Prefix { nickname: borrow(s, i, n), user: None, host: Some(h) }, e)),
            Err(x) => Err(x),
        }
    } else if s[n] == BANG {
        let u = run(s, n + 1, Class::User);
        if u >= s.len() {
            Err(None)
        } else if u == n + 1 || s[u] != AT {
            Err(Some(u))
        } else {
            match scan_host(s, u + 1) {
                Ok((h, e)) => Ok(
                    (
                        Prefix {
                            nickname: borrow(s, i, n),
                            user: Some(borrow(s, n + 1, u)),
                            host: Some(h),
                        },
                        e,
                    ),
                ),
                Err(x) => Err(x),
            }
        }
    } else {
        Err(Some(n))
    }
}

fn scan_command(s: &[u8], i: usize) -> (r: Result<(Cow<'_, [u8]>, usize), Option<usize>>)
    requires
        i <= s@.len(),
    ensures
        agrees(r, command_at(s@, i as int), |c: Cow<'_, [u8]>| c@),
        r matches Ok((_, e)) ==> i < e <= s@.len(),
{
    if i >= s.len() {
        Err(None)
    } else if digit(s[i]) {
        let d = run(s, i, Class::Digit);
        if d - i > 3 {
            Err(Some(i + 3))
        } else if d >= s.len() {
            Err(None)
        } else if d - i < 3 {
            Err(Some(d))
        } else {
            Ok((borrow(s, i, d), d))
        }
    } else if class_has(&Class::Word, s[i]) {
        let w = run(s, i, Class::Word);
        if w >= s.len() {
            Err(None)
        } else {
            Ok((borrow(s, i, w), w))
        }
    } else {
        Err(Some(i))
    }
}

fn scan_params<'a>(s: &'a [u8], i: usize) -> (r: Result<
    ((Vec<Cow<'a, [u8]>>, Option<Cow<'a, [u8]>>), usize),
    Option<usize>,
>)
    requires
        i <= s@.len(),
    ensures
        agrees(
            r,
            params_from(s@, i as int),
            |p: (Vec<Cow<'a, [u8]>>, Option<Cow<'a, [u8]>>)| (args_view(p.0@), opt_bytes(p.1)),
        ),
        r matches Ok((_, e)) ==> i < e <= s@.len(),
{
    let mut acc: Vec<Cow<'a, [u8]>> = Vec::new();
    let mut p = i;
    loop
        invariant
            i <= p <= s@.len(),
            params_from(s@, i as int) == prepend_args(args_view(acc@), params_from(s@, p as int)),
            acc@.len() > 0 ==> i < p,
        decreases s@.len() - p,
    {
        let ghost old_acc = args_view(acc@);
        if p >= s.len() {
            return Err(None);
        } else if s[p] == CR {
            if p + 1 >= s.len() {
                return Err(None);
            } else if s[p + 1] == LF {
                proof {
                    assert(old_acc + Seq::empty() =~= old_acc);
                }
                return Ok(((acc, None), p + 2));
            } else {
                return Err(Some(p + 1));
            }
        } else if s[p] == SPACE {
            if p + 1 >= s.len() {
                return Err(None);
            } else if s[p + 1] == COLON {
                let t = run(s, p + 2, Class::Trail);
                if t >= s.len() {
                    return Err(None);
                } else if s[t] != CR {
                    return Err(Some(t));
                } else if t + 1 >= s.len() {
                    return Err(None);
                } else if s[t + 1] != LF {
                    return Err(Some(t + 1));
                } else {
                    proof {
                        assert(old_acc + Seq::empty() =~= old_acc);
                    }
                    return Ok(((acc, Some(borrow(s, p + 2, t))), t + 2));
                }
            } else {
                let m = run(s, p + 1, Class::Param);
                if m <= p + 1 {
                    return Err(Some(p + 1));
                } else if m >= s.len() {
                    return Err(None);
                } else {
                    let arg = borrow(s, p + 1, m);
                    let ghost av = arg@;
                    acc.push(arg);
                    proof {
                        assert(args_view(acc@) =~= old_acc.push(av));
                        match params_from(s@, m as int) {
                            Scan::Done((a, rest), f) => {
                                assert(old_acc + (seq![av] + a) =~= old_acc.push(av) + a);
                            },
                            _ => {},
                        }
                    }
                    p = m;
                }
            }
        } else {
            return Err(Some(p));
        }
    }
}

/// Reads the first line of `s`, borrowing every field from it.
pub fn parse_message<'a>(s: &'a [u8]) -> (r: Result<(Message<'a>, usize), Option<usize>>)
    ensures
        agrees(r, parse_line(s@), |m: Message<'a>| m@),
        r matches Ok((_, n)) ==> n <= s@.len(),
{
    let (tags, p) = if s.len() == 0 {
        return Err(None);
    } else if s[0] == AT {
        match tags(s, 1) {
            Ok((ts, p)) => (ts, p),
            Err(x) => {
                return Err(x);
            },
        }
    } else {
        let ts: Vec<Tag<'a>> = Vec::new();
        proof {
            assert(tags_view(ts@) =~= Seq::<TagV>::empty());
        }
        (ts, 0)
    };
    let (prefix, q) = if p >= s.len() {
        return Err(None);
    } else if s[p] == COLON {
        match prefix(s, p + 1) {
            Ok((pre, q)) => (Some(pre), q),
            Err(x) => {
                return Err(x);
            },
        }
    } else {
        (None, p)
    };
    let (command, e) = match scan_command(s, q) {
        Ok(c) => c,
        Err(x) => {
            return Err(x);
        },
    };
    let ((args, rest), f) = match scan_params(s, e) {
        Ok(pr) => pr,
        Err(x) => {
            return Err(x);
        },
    };
    let raw = RawCommandAndArgs { command, args, rest };
    let command = Command::from(raw);
    Ok((Message { tags, prefix, command }, f))
}

} // verus!
