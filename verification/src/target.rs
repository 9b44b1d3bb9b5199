//! How an object is named: the link, the station and the object in a URI,
//! `ethercat://<link>/0x1001/0x2000/0`; a target is the same, or a bare
//! `0x<station>/0x<index>/<sub>`, or nothing for the configured object.

use vstd::prelude::*;

use crate::text::{
    are_digits, decimal, digit_char, digit_of, get_number, hex, hex_digits, number_in, put_decimal,
    put_hex, value_of,
};

verus! {

/// How many characters come before the first slash.
pub open spec fn until_slash(text: Seq<char>) -> nat
    decreases text.len(),
{
    if text.len() == 0 || text[0] == '/' {
        0
    } else {
        1 + until_slash(text.skip(1))
    }
}

/// What comes before the first slash.
pub open spec fn before_slash(text: Seq<char>) -> Seq<char> {
    text.take(until_slash(text) as int)
}

/// What comes after the first slash, where there is one.
pub open spec fn after_slash(text: Seq<char>) -> Option<Seq<char>> {
    if until_slash(text) < text.len() {
        Some(text.skip(until_slash(text) + 1int))
    } else {
        None
    }
}

/// The sixteen bits a part names in hexadecimal, after `0x`.
pub open spec fn hex_part(part: Seq<char>) -> Option<int> {
    if part.len() >= 2 && part[0] == '0' && part[1] == 'x' {
        number_in(part.skip(2), 16, 0xffff)
    } else {
        None
    }
}

/// The station, the index and the subindex the first three parts of a path
/// name. What follows them names nothing.
pub open spec fn object_in(path: Seq<char>) -> Option<(u16, u16, u8)> {
    match after_slash(path) {
        None => None,
        Some(rest) => match after_slash(rest) {
            None => None,
            Some(end) => match (
                hex_part(before_slash(path)),
                hex_part(before_slash(rest)),
                number_in(before_slash(end), 10, 0xff),
            ) {
                (Some(station), Some(index), Some(subindex)) => Some(
                    (station as u16, index as u16, subindex as u8),
                ),
                _ => None,
            },
        },
    }
}

/// The path of a target: what follows the scheme and the link, or the target
/// itself where it has none.
pub open spec fn path_in(target: Seq<char>) -> Seq<char> {
    if "ethercat://"@.is_prefix_of(target) && after_slash(target.skip(11)) is Some {
        after_slash(target.skip(11)).unwrap()
    } else {
        target
    }
}

/// The station and object a target names: `configured` where its path is empty.
#[verifier::opaque]
pub open spec fn resolved(target: Seq<char>, configured: (u16, u16, u8)) -> Option<
    (u16, u16, u8),
> {
    if path_in(target).len() == 0 {
        Some(configured)
    } else {
        object_in(path_in(target))
    }
}

/// The bare target of an object.
pub open spec fn bare(station: u16, index: u16, subindex: u8) -> Seq<char> {
    hex(station as nat, 4) + "/"@ + hex(index as nat, 4) + "/"@ + decimal(subindex as nat)
}

/// The origin URI of an object.
pub open spec fn origin_of(link: Seq<char>, station: u16, index: u16, subindex: u8) -> Seq<char> {
    "ethercat://"@ + link + "/"@ + bare(station, index, subindex)
}

/// `ethercat://<link>/0x<station>/0x<index>/<sub>`.
pub fn origin(link: &str, station: u16, index: u16, subindex: u8) -> (r: String)
    ensures
        r@ == origin_of(link@, station, index, subindex),
{
    let mut r = String::new();
    r.append("ethercat://");
    r.append(link);
    r.append("/");
    put_hex(&mut r, station as u32, 4);
    r.append("/");
    put_hex(&mut r, index as u32, 4);
    r.append("/");
    put_decimal(&mut r, subindex as u64);
    assert(r@ =~= origin_of(link@, station, index, subindex));
    r
}

/// The first slash from `from` on, or the end.
fn slash_from(text: &[char], from: usize) -> (r: usize)
    requires
        from <= text@.len(),
    ensures
        from <= r <= text@.len(),
        r - from == until_slash(text@.skip(from as int)),
{
    let mut i: usize = from;
    while i < text.len() && text[i] != '/'
        invariant
            from <= i <= text@.len(),
            i - from + until_slash(text@.skip(i as int)) == until_slash(text@.skip(from as int)),
        ensures
            from <= i <= text@.len(),
            i - from + until_slash(text@.skip(i as int)) == until_slash(text@.skip(from as int)),
            i == text@.len() || text@[i as int] == '/',
        decreases text@.len() - i,
    {
        assert(text@.skip(i as int).skip(1) =~= text@.skip(i + 1));
        assert(text@.skip(i as int)[0] == text@[i as int]);
        i = i + 1;
    }
    assert(i < text@.len() ==> text@.skip(i as int)[0] == text@[i as int]);
    i
}

/// The sixteen bits the part from `from` to `to` names.
fn get_hex_part(text: &[char], from: usize, to: usize) -> (r: Option<u16>)
    requires
        from <= to <= text@.len(),
    ensures
        match r {
            Some(n) => hex_part(text@.subrange(from as int, to as int)) == Some(n as int),
            None => hex_part(text@.subrange(from as int, to as int)) is None,
        },
{
    let ghost part = text@.subrange(from as int, to as int);
    if to - from >= 2 && text[from] == '0' && text[from + 1] == 'x' {
        assert(part.skip(2) =~= text@.subrange(from + 2, to as int));
        match get_number(text, from + 2, to, 16, 0xffff) {
            Some(n) => Some(n as u16),
            None => None,
        }
    } else {
        None
    }
}

/// The object the path from `from` on names.
fn get_object(text: &[char], from: usize) -> (r: Option<(u16, u16, u8)>)
    requires
        from <= text@.len(),
    ensures
        r == object_in(text@.skip(from as int)),
{
    let ghost path = text@.skip(from as int);
    let a = slash_from(text, from);
    if a == text.len() {
        return None;
    }
    let ghost rest = text@.skip(a + 1);
    assert(after_slash(path).unwrap() =~= rest);
    assert(before_slash(path) =~= text@.subrange(from as int, a as int));
    let b = slash_from(text, a + 1);
    if b == text.len() {
        return None;
    }
    let ghost end = text@.skip(b + 1);
    assert(after_slash(rest).unwrap() =~= end);
    assert(before_slash(rest) =~= text@.subrange(a + 1, b as int));
    let c = slash_from(text, b + 1);
    assert(before_slash(end) =~= text@.subrange(b + 1, c as int));
    match (
        get_hex_part(text, from, a),
        get_hex_part(text, a + 1, b),
        get_number(text, b + 1, c, 10, 0xff),
    ) {
        (Some(station), Some(index), Some(subindex)) => Some((station, index, subindex as u8)),
        _ => None,
    }
}

/// Where a target's path starts.
fn path_from(text: &[char]) -> (r: usize)
    ensures
        r <= text@.len(),
        text@.skip(r as int) == path_in(text@),
{
    proof {
        reveal_strlit("ethercat://");
        assert(text@.skip(0) =~= text@);
    }
    if text.len() < 11 {
        return 0;
    }
    let scheme = text[0] == 'e' && text[1] == 't' && text[2] == 'h' && text[3] == 'e' && text[4]
        == 'r' && text[5] == 'c' && text[6] == 'a' && text[7] == 't' && text[8] == ':' && text[9]
        == '/' && text[10] == '/';
    assert(scheme ==> "ethercat://"@ =~= text@.subrange(0, 11));
    assert(scheme == "ethercat://"@.is_prefix_of(text@));
    if !scheme {
        return 0;
    }
    let a = slash_from(text, 11);
    if a == text.len() {
        return 0;
    }
    assert(text@.skip(11).skip(a - 11 + 1) =~= text@.skip(a + 1));
    a + 1
}

/// The station and object a target names.
pub fn resolve(text: &[char], configured: (u16, u16, u8)) -> (r: Option<(u16, u16, u8)>)
    ensures
        r == resolved(text@, configured),
{
    proof {
        reveal(resolved);
    }
    let from = path_from(text);
    if from == text.len() {
        Some(configured)
    } else {
        get_object(text, from)
    }
}

/// The hexadecimal digits of a number are read back as that number.
proof fn lemma_hex(n: nat, width: nat)
    ensures
        hex_digits(n, width).len() == width,
        forall|i: int|
            0 <= i < width ==> digit_of(#[trigger] hex_digits(n, width)[i], 16) is Some,
        width == 4 && n < 0x1_0000 ==> value_of(hex_digits(n, width), 16) == n,
        width == 3 && n < 0x1000 ==> value_of(hex_digits(n, width), 16) == n,
        width == 2 && n < 0x100 ==> value_of(hex_digits(n, width), 16) == n,
        width == 1 && n < 0x10 ==> value_of(hex_digits(n, width), 16) == n,
    decreases width,
{
    if width > 0 {
        let w = (width - 1) as nat;
        lemma_hex(n / 16, w);
        let all = hex_digits(n, width);
        assert(all.drop_last() =~= hex_digits(n / 16, w));
        assert(digit_of(digit_char((n % 16) as int), 16) == Some((n % 16) as int));
        assert forall|i: int| 0 <= i < width implies digit_of(#[trigger] all[i], 16) is Some by {
            if i < w {
                assert(all[i] == hex_digits(n / 16, w)[i]);
            }
        }
        assert(value_of(all, 16) == 16 * value_of(hex_digits(n / 16, w), 16) + n % 16);
    }
}

/// A number in decimal is read back as that number.
proof fn lemma_decimal(n: nat)
    ensures
        are_digits(decimal(n), 10),
        value_of(decimal(n), 10) == n,
    decreases n,
{
    let all = decimal(n);
    assert(digit_of(digit_char((n % 10) as int), 10) == Some((n % 10) as int));
    if n < 10 {
        assert(all.drop_last() =~= seq![]);
        assert(value_of(all.drop_last(), 10) == 0);
    } else {
        lemma_decimal(n / 10);
        assert(all.drop_last() =~= decimal(n / 10));
        assert forall|i: int|
            0 <= i < all.len() implies digit_of(#[trigger] all[i], 10) is Some by {
            if i < all.len() - 1 {
                assert(all[i] == decimal(n / 10)[i]);
            }
        }
    }
}

/// The first slash after text without one is where it was put.
proof fn lemma_slash(text: Seq<char>, rest: Seq<char>)
    requires
        forall|i: int| 0 <= i < text.len() ==> #[trigger] text[i] != '/',
    ensures
        until_slash(text) == text.len(),
        before_slash(text) == text,
        after_slash(text) is None,
        until_slash(text + seq!['/'] + rest) == text.len(),
        before_slash(text + seq!['/'] + rest) == text,
        after_slash(text + seq!['/'] + rest) == Some(rest),
    decreases text.len(),
{
    let all = text + seq!['/'] + rest;
    if text.len() > 0 {
        let tail = text.skip(1);
        assert forall|i: int| 0 <= i < tail.len() implies #[trigger] tail[i] != '/' by {
            assert(tail[i] == text[i + 1]);
        }
        lemma_slash(tail, rest);
        assert(all.skip(1) =~= tail + seq!['/'] + rest);
    }
    assert(before_slash(all) =~= text);
    assert(before_slash(text) =~= text);
    assert(all.skip(text.len() + 1int) =~= rest);
}

/// Text that is digits has no slash in it and no sign before it.
proof fn lemma_digits_are_plain(text: Seq<char>, radix: int)
    requires
        are_digits(text, radix),
    ensures
        text[0] != '+',
        forall|i: int| 0 <= i < text.len() ==> #[trigger] text[i] != '/',
{
    assert(digit_of(text[0], radix) is Some);
    assert forall|i: int| 0 <= i < text.len() implies #[trigger] text[i] != '/' by {
        assert(digit_of(text[i], radix) is Some);
    }
}

/// A sixteen-bit number in hexadecimal is a part that names it.
proof fn lemma_hex_part(n: u16)
    ensures
        hex_part(hex(n as nat, 4)) == Some(n as int),
        forall|i: int| 0 <= i < hex(n as nat, 4).len() ==> #[trigger] hex(n as nat, 4)[i] != '/',
{
    reveal_strlit("0x");
    let digits = hex_digits(n as nat, 4);
    let part = hex(n as nat, 4);
    lemma_hex(n as nat, 4);
    lemma_digits_are_plain(digits, 16);
    assert(part.skip(2) =~= digits);
    assert forall|i: int| 0 <= i < part.len() implies #[trigger] part[i] != '/' by {
        if i >= 2 {
            assert(part[i] == digits[i - 2]);
        }
    }
}

/// True of text without a slash in it.
spec fn is_plain(text: Seq<char>) -> bool {
    forall|i: int| 0 <= i < text.len() ==> #[trigger] text[i] != '/'
}

/// Three parts between slashes are the three parts of a path.
proof fn lemma_parts(a: Seq<char>, b: Seq<char>, c: Seq<char>)
    requires
        is_plain(a),
        is_plain(b),
        is_plain(c),
        hex_part(a) is Some,
        hex_part(b) is Some,
        number_in(c, 10, 0xff) is Some,
    ensures
        object_in(a + seq!['/'] + (b + seq!['/'] + c)) == Some(
            (
                hex_part(a).unwrap() as u16,
                hex_part(b).unwrap() as u16,
                number_in(c, 10, 0xff).unwrap() as u8,
            ),
        ),
{
    lemma_slash(a, b + seq!['/'] + c);
    lemma_slash(b, c);
    lemma_slash(c, seq![]);
}

/// The bare target of an object names it.
pub proof fn law_bare_target_names_its_object(
    station: u16,
    index: u16,
    subindex: u8,
    configured: (u16, u16, u8),
)
    ensures
        object_in(bare(station, index, subindex)) == Some((station, index, subindex)),
        resolved(bare(station, index, subindex), configured) == Some((station, index, subindex)),
{
    reveal(resolved);
    let a = hex(station as nat, 4);
    let b = hex(index as nat, 4);
    let c = decimal(subindex as nat);
    let path = bare(station, index, subindex);
    lemma_hex_part(station);
    lemma_hex_part(index);
    lemma_decimal(subindex as nat);
    lemma_digits_are_plain(c, 10);
    assert(path =~= a + seq!['/'] + (b + seq!['/'] + c)) by {
        reveal_strlit("/");
        assert("/"@ =~= seq!['/']);
    }
    lemma_parts(a, b, c);
    assert(path[0] == '0') by {
        reveal_strlit("0x");
    }
    assert(path_in(path) == path) by {
        reveal_strlit("ethercat://");
        if "ethercat://"@.is_prefix_of(path) {
            assert("ethercat://"@[0] == path[0]);
        }
    }
}

/// The origin URI of an object, on a link whose name has no slash in it, is a
/// target that names that object.
pub proof fn law_origin_names_its_object(
    link: Seq<char>,
    station: u16,
    index: u16,
    subindex: u8,
    configured: (u16, u16, u8),
)
    requires
        !link.contains('/'),
    ensures
        resolved(origin_of(link, station, index, subindex), configured) == Some(
            (station, index, subindex),
        ),
{
    reveal(resolved);
    reveal_strlit("/");
    reveal_strlit("0x");
    reveal_strlit("ethercat://");
    let path = bare(station, index, subindex);
    let target = origin_of(link, station, index, subindex);
    law_bare_target_names_its_object(station, index, subindex, configured);
    assert forall|i: int| 0 <= i < link.len() implies #[trigger] link[i] != '/' by {
        assert(link.contains(link[i]));
    }
    lemma_slash(link, path);
    assert("/"@ =~= seq!['/']);
    assert(target.skip(11) =~= link + seq!['/'] + path);
    assert("ethercat://"@ =~= target.subrange(0, 11));
    assert("ethercat://"@.is_prefix_of(target));
    assert(path.len() > 0);
}

/// Nothing names the configured object.
pub proof fn law_empty_target_is_the_configured_object(configured: (u16, u16, u8))
    ensures
        resolved(seq![], configured) == Some(configured),
{
    reveal(resolved);
    reveal_strlit("ethercat://");
}

} // verus!
