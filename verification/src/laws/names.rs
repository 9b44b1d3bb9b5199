//! Numbers as text, the names of objects, and what is said of a refusal.

use vstd::prelude::*;

use crate::error::{debug_quoted, no_object};
use crate::target::{
    after_slash, before_slash, hex_part, object_in, origin, path_in, resolve, resolved, until_slash,
};
use crate::text::{
    are_digits, chars_of, decimal, digit_char, digit_of, get_number, hex, hex_digits, number_in,
    put_decimal, put_hex, value_of,
};
use crate::Error;

verus! {

/// What a digit is worth: `a` to `f` are ten to fifteen, in either case.
pub open spec fn worth(c: char) -> Option<int> {
    match c {
        '0' => Some(0),
        '1' => Some(1),
        '2' => Some(2),
        '3' => Some(3),
        '4' => Some(4),
        '5' => Some(5),
        '6' => Some(6),
        '7' => Some(7),
        '8' => Some(8),
        '9' => Some(9),
        'a' | 'A' => Some(10),
        'b' | 'B' => Some(11),
        'c' | 'C' => Some(12),
        'd' | 'D' => Some(13),
        'e' | 'E' => Some(14),
        'f' | 'F' => Some(15),
        _ => None,
    }
}

/// How a digit is written: `a` to `f` in lower case.
pub open spec fn written(d: int) -> char {
    seq![
        '0',
        '1',
        '2',
        '3',
        '4',
        '5',
        '6',
        '7',
        '8',
        '9',
        'a',
        'b',
        'c',
        'd',
        'e',
        'f',
    ][d]
}

/// What a character is worth as a digit.
proof fn lemma_worth(c: char)
    ensures
        digit_of(c, 16) == worth(c),
        digit_of(c, 10) == if worth(c) is Some && worth(c).unwrap() < 10 {
            worth(c)
        } else {
            None
        },
{
}

/// How digits are written.
proof fn lemma_written(d: int)
    requires
        0 <= d < 16,
    ensures
        digit_char(d) == written(d),
        worth(written(d)) == Some(d),
{
}

/// Text is the characters it is made of.
pub proof fn law_text_is_its_characters(text: &str, r: Vec<char>)
    requires
        call_ensures(chars_of, (text,), r),
    ensures
        r@.len() == text@.len(),
        forall|i: int| 0 <= i < text@.len() ==> #[trigger] r@[i] == text@[i],
{
}

/// A number below ten is written as its digit, any other as its tenth and then its
/// last digit.
pub proof fn law_a_number_is_written_in_decimal(
    out: &mut String,
    n: u64,
    front: &mut String,
    tenth: u64,
)
    requires
        call_ensures(put_decimal, (out, n), ()),
        call_ensures(put_decimal, (front, tenth), ()),
        old(out)@ == old(front)@,
        tenth == n / 10,
    ensures
        n < 10 ==> final(out)@ == old(out)@.push(written(n as int)),
        n >= 10 ==> final(out)@ == final(front)@.push(written((n % 10) as int)),
{
    lemma_written((n % 10) as int);
    if n < 10 {
        assert(final(out)@ =~= old(out)@.push(written(n as int)));
    } else {
        assert(final(out)@ =~= final(front)@.push(written((n % 10) as int)));
    }
}

/// A number is written in hexadecimal in as many digits as are asked for, after
/// `0x`: as its sixteenth in one digit less, and then its last digit.
pub proof fn law_a_number_is_written_in_hexadecimal(
    out: &mut String,
    n: u32,
    width: u32,
    front: &mut String,
    sixteenth: u32,
    less: u32,
)
    requires
        call_ensures(put_hex, (out, n, width), ()),
        call_ensures(put_hex, (front, sixteenth, less), ()),
        old(out)@ == old(front)@,
        sixteenth == n / 16,
        width > 0 ==> less == width - 1,
    ensures
        width == 0 ==> final(out)@ == old(out)@.push('0').push('x'),
        width > 0 ==> final(out)@ == final(front)@.push(written((n % 16) as int)),
{
    lemma_written((n % 16) as int);
    reveal_strlit("0x");
    if width == 0 {
        assert(hex_digits(n as nat, 0) =~= seq![]);
        assert(final(out)@ =~= old(out)@.push('0').push('x'));
    } else {
        assert(final(out)@ =~= final(front)@.push(written((n % 16) as int)));
    }
}

/// A digit below the radix is a number where it is not over the greatest one asked
/// for; no text, and no other character, is one.
pub proof fn law_a_digit_is_a_number(
    text: &[char],
    from: usize,
    to: usize,
    radix: u32,
    max: u32,
    r: Option<u32>,
)
    requires
        from <= to <= text@.len(),
        to <= from + 1,
        radix == 10 || radix == 16,
        max <= 0xffff,
        call_ensures(get_number, (text, from, to, radix, max), r),
    ensures
        from == to ==> r is None,
        from < to ==> match worth(text@[from as int]) {
            None => r is None,
            Some(d) => if d < radix && d <= max {
                r is Some && r.unwrap() == d
            } else {
                r is None
            },
        },
{
    let part = text@.subrange(from as int, to as int);
    if from < to {
        let c = text@[from as int];
        lemma_worth(c);
        assert(part.len() == 1 && part[0] == c);
        assert(part.drop_last() =~= seq![]);
        assert(value_of(part.drop_last(), radix as int) == 0);
        if c == '+' {
            assert(part.skip(1).len() == 0);
        } else if digit_of(c, radix as int) is None {
            assert(!are_digits(part, radix as int)) by {
                assert(digit_of(part[0], radix as int) is None);
            }
        } else {
            assert(are_digits(part, radix as int));
        }
    }
}

/// A number and a digit behind it are the number times the radix and what the digit
/// is worth, where that is not over the greatest one asked for; a number and
/// anything else behind it are none, and neither is what begins with no number.
pub proof fn law_a_number_goes_on_with_a_digit(
    text: &[char],
    from: usize,
    to: usize,
    longer: usize,
    radix: u32,
    max: u32,
    r: Option<u32>,
    s: Option<u32>,
)
    requires
        from < to < text@.len(),
        longer == to + 1,
        radix == 10 || radix == 16,
        max <= 0xffff,
        to - from > 1 || text@[from as int] != '+',
        call_ensures(get_number, (text, from, to, radix, max), r),
        call_ensures(get_number, (text, from, longer, radix, max), s),
    ensures
        r is None ==> s is None,
        r matches Some(n) ==> match worth(text@[to as int]) {
            None => s is None,
            Some(d) => if d < radix && radix * n + d <= max {
                s is Some && s.unwrap() == radix * n + d
            } else {
                s is None
            },
        },
{
    let a = text@.subrange(from as int, to as int);
    let b = text@.subrange(from as int, longer as int);
    let c = text@[to as int];
    let x = if a[0] == '+' {
        a.skip(1)
    } else {
        a
    };
    let y = if b[0] == '+' {
        b.skip(1)
    } else {
        b
    };
    lemma_worth(c);
    assert(b[0] == a[0]);
    assert(y =~= x.push(c));
    assert(y.drop_last() =~= x);
    assert(y.last() == c);
    assert(x.len() > 0);
    assert forall|i: int| 0 <= i < x.len() implies #[trigger] y[i] == x[i] by {}
    if are_digits(y, radix as int) {
        assert forall|i: int| 0 <= i < x.len() implies digit_of(#[trigger] x[i], radix as int)
            is Some by {
            assert(y[i] == x[i]);
        }
        assert(digit_of(y[x.len() as int], radix as int) is Some);
        lemma_not_negative(x, radix as int);
        assert(value_of(y, radix as int) == radix * value_of(x, radix as int) + digit_of(
            c,
            radix as int,
        ).unwrap());
        assert(value_of(y, radix as int) >= value_of(x, radix as int)) by (nonlinear_arith)
            requires
                value_of(y, radix as int) >= radix * value_of(x, radix as int),
                value_of(x, radix as int) >= 0,
                radix == 10 || radix == 16,
        ;
    }
    if are_digits(x, radix as int) && digit_of(c, radix as int) is Some {
        assert forall|i: int| 0 <= i < y.len() implies digit_of(#[trigger] y[i], radix as int)
            is Some by {
            if i < x.len() {
                assert(y[i] == x[i]);
                assert(digit_of(x[i], radix as int) is Some);
            }
        }
    }
}

/// Digits make no number below zero.
proof fn lemma_not_negative(text: Seq<char>, radix: int)
    requires
        radix == 10 || radix == 16,
        forall|i: int| 0 <= i < text.len() ==> digit_of(#[trigger] text[i], radix) is Some,
    ensures
        value_of(text, radix) >= 0,
    decreases text.len(),
{
    if text.len() > 0 {
        let front = text.drop_last();
        assert forall|i: int| 0 <= i < front.len() implies digit_of(#[trigger] front[i], radix)
            is Some by {
            assert(front[i] == text[i]);
        }
        lemma_not_negative(front, radix);
        assert(digit_of(text[text.len() - 1], radix) is Some);
    }
}

/// One plus sign before a number says nothing.
pub proof fn law_a_sign_says_nothing(
    text: &[char],
    from: usize,
    behind: usize,
    to: usize,
    radix: u32,
    max: u32,
    r: Option<u32>,
    s: Option<u32>,
)
    requires
        from + 1 == behind <= to <= text@.len(),
        text@[from as int] == '+',
        behind < to ==> text@[behind as int] != '+',
        radix == 10 || radix == 16,
        max <= 0xffff,
        call_ensures(get_number, (text, from, to, radix, max), r),
        call_ensures(get_number, (text, behind, to, radix, max), s),
    ensures
        r == s,
{
    let a = text@.subrange(from as int, to as int);
    let b = text@.subrange(behind as int, to as int);
    assert(a.skip(1) =~= b);
}

/// True of text without a slash in it.
pub open spec fn is_one_part(text: Seq<char>) -> bool {
    forall|i: int| 0 <= i < text.len() ==> #[trigger] text[i] != '/'
}

/// True of text that is nothing, or goes on with a slash.
pub open spec fn goes_on(text: Seq<char>) -> bool {
    text.len() == 0 || text[0] == '/'
}

/// The first slash, behind text without one.
proof fn lemma_until(text: Seq<char>, rest: Seq<char>)
    requires
        is_one_part(text),
        goes_on(rest),
    ensures
        until_slash(text + rest) == text.len(),
    decreases text.len(),
{
    let all = text + rest;
    if text.len() == 0 {
        assert(all =~= rest);
    } else {
        let tail = text.skip(1);
        assert forall|i: int| 0 <= i < tail.len() implies #[trigger] tail[i] != '/' by {
            assert(tail[i] == text[i + 1]);
        }
        lemma_until(tail, rest);
        assert(all.skip(1) =~= tail + rest);
        assert(all[0] == text[0]);
    }
}

/// Text without a slash, and one behind it.
proof fn lemma_part(text: Seq<char>, rest: Seq<char>)
    requires
        is_one_part(text),
    ensures
        before_slash(text + seq!['/'] + rest) == text,
        after_slash(text + seq!['/'] + rest) == Some(rest),
        after_slash(text) is None,
        before_slash(text) == text,
{
    let all = text + seq!['/'] + rest;
    let behind = seq!['/'] + rest;
    assert(behind[0] == '/');
    lemma_until(text, behind);
    assert(text + behind =~= all);
    assert(all.take(text.len() as int) =~= text);
    assert(all.skip(text.len() + 1int) =~= rest);
    lemma_until(text, seq![]);
    assert(text + seq![] =~= text);
    assert(text.take(text.len() as int) =~= text);
}

/// Text before what goes on.
proof fn lemma_last_part(text: Seq<char>, rest: Seq<char>)
    requires
        is_one_part(text),
        goes_on(rest),
    ensures
        before_slash(text + rest) == text,
{
    lemma_until(text, rest);
    assert((text + rest).take(text.len() as int) =~= text);
}

/// The path of three parts.
proof fn lemma_path(a: Seq<char>, b: Seq<char>, c: Seq<char>, rest: Seq<char>)
    requires
        is_one_part(a),
        is_one_part(b),
        is_one_part(c),
        goes_on(rest),
    ensures
        ({
            let path = a + seq!['/'] + (b + seq!['/'] + (c + rest));
            object_in(path) == match (hex_part(a), hex_part(b), number_in(c, 10, 0xff)) {
                (Some(station), Some(index), Some(subindex)) => Some(
                    (station as u16, index as u16, subindex as u8),
                ),
                _ => None,
            }
        }),
{
    lemma_part(a, b + seq!['/'] + (c + rest));
    lemma_part(b, c + rest);
    lemma_last_part(c, rest);
}

/// A target that does not begin with the scheme is its own path.
proof fn lemma_no_scheme(target: Seq<char>)
    requires
        target.len() == 0 || target[0] != 'e',
    ensures
        path_in(target) == target,
{
    reveal_strlit("ethercat://");
    if "ethercat://"@.is_prefix_of(target) {
        assert("ethercat://"@[0] == target[0]);
    }
}

/// Four digits, in either case, and what they are worth.
pub open spec fn four_worth(a: char, b: char, c: char, d: char) -> Option<int> {
    match (worth(a), worth(b), worth(c), worth(d)) {
        (Some(p), Some(q), Some(s), Some(t)) => Some(0x1000 * p + 0x100 * q + 0x10 * s + t),
        _ => None,
    }
}

/// Four digits after `0x` are a part that names what they are worth.
proof fn lemma_four(a: char, b: char, c: char, d: char)
    requires
        four_worth(a, b, c, d) is Some,
    ensures
        hex_part(seq!['0', 'x', a, b, c, d]) == four_worth(a, b, c, d),
        is_one_part(seq!['0', 'x', a, b, c, d]),
        0 <= four_worth(a, b, c, d).unwrap() <= 0xffff,
{
    lemma_worth(a);
    lemma_worth(b);
    lemma_worth(c);
    lemma_worth(d);
    let part = seq!['0', 'x', a, b, c, d];
    let four = seq![a, b, c, d];
    assert(part.skip(2) =~= four);
    assert(four.drop_last() =~= seq![a, b, c]);
    assert(seq![a, b, c].drop_last() =~= seq![a, b]);
    assert(seq![a, b].drop_last() =~= seq![a]);
    assert(seq![a].drop_last() =~= seq![]);
    assert(value_of(seq![], 16) == 0);
    assert(value_of(seq![a], 16) == worth(a).unwrap());
    assert(value_of(seq![a, b], 16) == 16 * worth(a).unwrap() + worth(b).unwrap());
    assert(value_of(seq![a, b, c], 16) == 16 * value_of(seq![a, b], 16) + worth(c).unwrap());
    assert(value_of(four, 16) == 16 * value_of(seq![a, b, c], 16) + worth(d).unwrap());
    assert(are_digits(four, 16));
    assert(four[0] == a);
}

/// Up to three digits, and what they are worth.
pub open spec fn few_worth(digits: Seq<char>) -> Option<int> {
    if digits.len() == 1 {
        worth(digits[0])
    } else if digits.len() == 2 {
        match (worth(digits[0]), worth(digits[1])) {
            (Some(p), Some(q)) => Some(10 * p + q),
            _ => None,
        }
    } else {
        match (worth(digits[0]), worth(digits[1]), worth(digits[2])) {
            (Some(p), Some(q), Some(s)) => Some(100 * p + 10 * q + s),
            _ => None,
        }
    }
}

/// True of up to three decimal digits.
pub open spec fn are_few_digits(digits: Seq<char>) -> bool {
    &&& 1 <= digits.len() <= 3
    &&& forall|i: int| 0 <= i < digits.len() ==> '0' <= #[trigger] digits[i] <= '9'
}

/// Up to three digits are a number that is what they are worth.
proof fn lemma_few(digits: Seq<char>)
    requires
        are_few_digits(digits),
    ensures
        few_worth(digits) is Some,
        few_worth(digits).unwrap() <= 0xff ==> number_in(digits, 10, 0xff) == few_worth(digits),
        few_worth(digits).unwrap() > 0xff ==> number_in(digits, 10, 0xff) is None,
        is_one_part(digits),
{
    let a = digits[0];
    lemma_worth(a);
    assert(value_of(seq![], 10) == 0);
    assert(seq![a].drop_last() =~= seq![]);
    assert(value_of(seq![a], 10) == worth(a).unwrap());
    assert forall|i: int| 0 <= i < digits.len() implies digit_of(#[trigger] digits[i], 10)
        is Some by {
        assert('0' <= digits[i] <= '9');
    }
    if digits.len() == 1 {
        assert(digits =~= seq![a]);
    } else {
        let b = digits[1];
        lemma_worth(b);
        assert(seq![a, b].drop_last() =~= seq![a]);
        assert(value_of(seq![a, b], 10) == 10 * worth(a).unwrap() + worth(b).unwrap());
        if digits.len() == 2 {
            assert(digits =~= seq![a, b]);
        } else {
            let c = digits[2];
            lemma_worth(c);
            assert(digits =~= seq![a, b, c]);
            assert(digits.drop_last() =~= seq![a, b]);
        }
    }
}

/// A target names its station and its index in four hexadecimal digits each, any of
/// them in upper or in lower case, after `0x`, and its subindex in decimal; what
/// follows behind another slash names nothing. A subindex over 255 names nothing.
pub proof fn law_a_target_names_its_object_in_either_case(
    text: &[char],
    configured: (u16, u16, u8),
    r: Option<(u16, u16, u8)>,
    s: Seq<char>,
    i: Seq<char>,
    digits: Seq<char>,
    rest: Seq<char>,
)
    requires
        call_ensures(resolve, (text, configured), r),
        s.len() == 4,
        i.len() == 4,
        four_worth(s[0], s[1], s[2], s[3]) is Some,
        four_worth(i[0], i[1], i[2], i[3]) is Some,
        are_few_digits(digits),
        goes_on(rest),
        text@ == seq!['0', 'x'] + s + seq!['/', '0', 'x'] + i + seq!['/'] + digits + rest,
    ensures
        ({
            let station = four_worth(s[0], s[1], s[2], s[3]).unwrap();
            let index = four_worth(i[0], i[1], i[2], i[3]).unwrap();
            let subindex = few_worth(digits).unwrap();
            &&& subindex <= 255 ==> r is Some && r.unwrap().0 == station && r.unwrap().1 == index
                && r.unwrap().2 == subindex
            &&& subindex > 255 ==> r is None
        }),
{
    let a = seq!['0', 'x', s[0], s[1], s[2], s[3]];
    let b = seq!['0', 'x', i[0], i[1], i[2], i[3]];
    let path = a + seq!['/'] + (b + seq!['/'] + (digits + rest));
    lemma_spelled(s, i, digits, rest);
    lemma_four(s[0], s[1], s[2], s[3]);
    lemma_four(i[0], i[1], i[2], i[3]);
    lemma_few(digits);
    lemma_path(a, b, digits, rest);
    assert(resolved(path, configured) == object_in(path)) by {
        reveal(resolved);
        assert(path[0] == '0');
        lemma_no_scheme(path);
    }
}

/// A target spelled out is its parts between slashes.
proof fn lemma_spelled(s: Seq<char>, i: Seq<char>, digits: Seq<char>, rest: Seq<char>)
    requires
        s.len() == 4,
        i.len() == 4,
    ensures
        seq!['0', 'x'] + s + seq!['/', '0', 'x'] + i + seq!['/'] + digits + rest == seq![
            '0',
            'x',
            s[0],
            s[1],
            s[2],
            s[3],
        ] + seq!['/'] + (seq!['0', 'x', i[0], i[1], i[2], i[3]] + seq!['/'] + (digits + rest)),
{
    let a = seq!['0', 'x', s[0], s[1], s[2], s[3]];
    let b = seq!['0', 'x', i[0], i[1], i[2], i[3]];
    let slash = seq!['/'];
    let one = seq!['0', 'x'] + s;
    assert(one =~= a);
    let two = a + seq!['/', '0', 'x'] + i;
    assert(two =~= a + slash + b);
    let three = a + slash + b + slash + digits + rest;
    assert(three =~= a + slash + (b + slash + (digits + rest)));
}

/// A target of three parts names an object where each of the first two is `0x` and
/// a hexadecimal number of sixteen bits, and the third a decimal one of eight; else
/// it names none.
pub proof fn law_a_target_is_its_three_parts(
    text: &[char],
    configured: (u16, u16, u8),
    r: Option<(u16, u16, u8)>,
    a: usize,
    b: usize,
    c: usize,
    hex: u32,
    dec: u32,
    most: u32,
    byte: u32,
    station_at: usize,
    index_at: usize,
    sub_at: usize,
    station: Option<u32>,
    index: Option<u32>,
    subindex: Option<u32>,
)
    requires
        call_ensures(resolve, (text, configured), r),
        text@.len() > 0,
        text@[0] != 'e',
        a < b < c <= text@.len(),
        text@[a as int] == '/',
        text@[b as int] == '/',
        forall|i: int| 0 <= i < c && i != a && i != b ==> #[trigger] text@[i] != '/',
        c < text@.len() ==> text@[c as int] == '/',
        hex == 16 && dec == 10 && most == 0xffff && byte == 0xff,
        station_at == 2 && index_at == a + 3 && sub_at == b + 1,
        station_at <= a ==> call_ensures(
            get_number,
            (text, station_at, a, hex, most),
            station,
        ),
        index_at <= b ==> call_ensures(get_number, (text, index_at, b, hex, most), index),
        call_ensures(get_number, (text, sub_at, c, dec, byte), subindex),
    ensures
        ({
            let named = {
                &&& a >= 2 && text@[0] == '0' && text@[1] == 'x' && station is Some
                &&& b >= a + 3 && text@[a + 1] == '0' && text@[a + 2] == 'x' && index is Some
                &&& subindex is Some
            };
            &&& r is Some <==> named
            &&& named ==> r.unwrap().0 == station.unwrap() && r.unwrap().1 == index.unwrap()
                && r.unwrap().2 == subindex.unwrap()
        }),
{
    let x = text@.subrange(0, a as int);
    let y = text@.subrange(a + 1, b as int);
    let z = text@.subrange(b + 1, c as int);
    let rest = text@.skip(c as int);
    lemma_hex_number(text, 0, a, station_at, hex, most, station);
    lemma_hex_number(text, (a + 1) as usize, b, index_at, hex, most, index);
    assert(resolved(text@, configured) == object_in(text@)) by {
        reveal(resolved);
        lemma_no_scheme(text@);
    }
    assert(text@ =~= x + seq!['/'] + (y + seq!['/'] + (z + rest)));
    assert(is_one_part(x) && is_one_part(y) && is_one_part(z));
    lemma_path(x, y, z, rest);
}

/// A part of a target in hexadecimal, and the number behind its `0x`.
proof fn lemma_hex_number(
    text: &[char],
    from: usize,
    to: usize,
    at: usize,
    radix: u32,
    max: u32,
    r: Option<u32>,
)
    requires
        from <= to <= text@.len(),
        at == from + 2,
        radix == 16,
        max == 0xffff,
        at <= to ==> call_ensures(get_number, (text, at, to, radix, max), r),
    ensures
        ({
            let part = text@.subrange(from as int, to as int);
            if at <= to && text@[from as int] == '0' && text@[from + 1] == 'x' && r is Some {
                hex_part(part) == Some(r.unwrap() as int)
            } else {
                hex_part(part) is None
            }
        }),
{
    let part = text@.subrange(from as int, to as int);
    if at <= to {
        assert(part.skip(2) =~= text@.subrange(at as int, to as int));
    }
}

/// A target with fewer than three parts names no object, unless it is empty.
pub proof fn law_fewer_parts_name_nothing(
    text: &[char],
    configured: (u16, u16, u8),
    r: Option<(u16, u16, u8)>,
    k: int,
)
    requires
        call_ensures(resolve, (text, configured), r),
        text@.len() > 0,
        text@[0] != 'e',
        forall|i: int| 0 <= i < text@.len() && i != k ==> #[trigger] text@[i] != '/',
    ensures
        r is None,
{
    reveal(resolved);
    lemma_no_scheme(text@);
    if 0 <= k < text@.len() && text@[k] == '/' {
        let x = text@.subrange(0, k);
        let y = text@.skip(k + 1);
        lemma_part(x, y);
        assert(text@ =~= x + seq!['/'] + y);
        lemma_part(y, seq![]);
    } else {
        assert(is_one_part(text@));
        lemma_part(text@, seq![]);
    }
}

/// No target, and a target that ends behind the link, name the configured object.
pub proof fn law_no_path_names_what_is_configured(
    text: &[char],
    configured: (u16, u16, u8),
    r: Option<(u16, u16, u8)>,
    link: Seq<char>,
)
    requires
        call_ensures(resolve, (text, configured), r),
        is_one_part(link),
        text@.len() == 0 || text@ == seq![
            'e',
            't',
            'h',
            'e',
            'r',
            'c',
            'a',
            't',
            ':',
            '/',
            '/',
        ] + link + seq!['/'],
    ensures
        r == Some(configured),
{
    reveal(resolved);
    if text@.len() == 0 {
        lemma_no_scheme(text@);
    } else {
        let none: Seq<char> = seq![];
        lemma_scheme(text@, link, none);
        assert(text@ =~= text@ + none);
    }
}

/// What follows the scheme and the link is the path.
proof fn lemma_scheme(target: Seq<char>, link: Seq<char>, path: Seq<char>)
    requires
        is_one_part(link),
        target =~= seq!['e', 't', 'h', 'e', 'r', 'c', 'a', 't', ':', '/', '/'] + link + seq!['/']
            + path,
    ensures
        path_in(target) == path,
{
    reveal_strlit("ethercat://");
    lemma_part(link, path);
    assert(target.skip(11) =~= link + seq!['/'] + path);
    assert("ethercat://"@ =~= target.subrange(0, 11));
    assert("ethercat://"@.is_prefix_of(target));
}

/// What follows the scheme and the name of a link names what it names alone.
pub proof fn law_a_link_names_nothing(
    text: &[char],
    path: &[char],
    configured: (u16, u16, u8),
    r: Option<(u16, u16, u8)>,
    s: Option<(u16, u16, u8)>,
    link: Seq<char>,
)
    requires
        call_ensures(resolve, (text, configured), r),
        call_ensures(resolve, (path, configured), s),
        is_one_part(link),
        path@.len() > 0,
        path@[0] != 'e',
        text@ == seq!['e', 't', 'h', 'e', 'r', 'c', 'a', 't', ':', '/', '/'] + link + seq!['/']
            + path@,
    ensures
        r == s,
{
    reveal(resolved);
    lemma_scheme(text@, link, path@);
    lemma_no_scheme(path@);
}

/// `0x` and four digits in lower case.
pub open spec fn four_written(n: int) -> Seq<char> {
    seq![
        '0',
        'x',
        written(n / 0x1000 % 16),
        written(n / 0x100 % 16),
        written(n / 0x10 % 16),
        written(n % 16),
    ]
}

/// A number below a thousand in decimal.
pub open spec fn few_written(n: int) -> Seq<char> {
    if n < 10 {
        seq![written(n)]
    } else if n < 100 {
        seq![written(n / 10), written(n % 10)]
    } else {
        seq![written(n / 100), written(n / 10 % 10), written(n % 10)]
    }
}

/// Four digits, written.
pub(crate) proof fn lemma_four_written(n: u16)
    ensures
        hex(n as nat, 4) == four_written(n as int),
{
    reveal_strlit("0x");
    lemma_four_more(n as nat, 0);
    assert(hex_digits(n as nat / 0x1_0000, 0) =~= seq![]);
    assert(hex(n as nat, 4) =~= four_written(n as int));
}

/// Up to three digits, written.
pub(crate) proof fn lemma_few_written(n: u8)
    ensures
        decimal(n as nat) == few_written(n as int),
{
    let m = n as nat;
    lemma_written((m % 10) as int);
    lemma_written((m / 10 % 10) as int);
    lemma_written((m / 100) as int);
    assert(m / 10 / 10 == m / 100);
    if m >= 100 {
        assert(decimal(m / 100) =~= seq![written((m / 100) as int)]);
        assert(decimal(m / 10) =~= seq![
            written((m / 100) as int),
            written((m / 10 % 10) as int),
        ]);
    } else if m >= 10 {
        assert(decimal(m / 10) =~= seq![written((m / 10) as int)]);
    }
    assert(decimal(m) =~= few_written(n as int));
}

/// The origin of an object is the scheme, the link, the station, the index and the
/// subindex.
pub proof fn law_an_origin_is_written(
    link: &str,
    station: u16,
    index: u16,
    subindex: u8,
    r: String,
)
    requires
        call_ensures(origin, (link, station, index, subindex), r),
    ensures
        r@ == seq!['e', 't', 'h', 'e', 'r', 'c', 'a', 't', ':', '/', '/'] + link@ + seq!['/']
            + four_written(station as int) + seq!['/'] + four_written(index as int) + seq!['/']
            + few_written(subindex as int),
{
    reveal_strlit("ethercat://");
    reveal_strlit("/");
    lemma_four_written(station);
    lemma_four_written(index);
    lemma_few_written(subindex);
    assert("ethercat://"@ =~= seq!['e', 't', 'h', 'e', 'r', 'c', 'a', 't', ':', '/', '/']);
    assert("/"@ =~= seq!['/']);
    assert(r@ =~= seq!['e', 't', 'h', 'e', 'r', 'c', 'a', 't', ':', '/', '/'] + link@ + seq!['/']
        + four_written(station as int) + seq!['/'] + four_written(index as int) + seq!['/']
        + few_written(subindex as int));
}

/// What is said of a refusal names what was refused: a station and a state in four
/// hexadecimal digits, small numbers in decimal.
pub proof fn law_a_refusal_names_what_was_refused(e: &Error, r: String)
    requires
        call_ensures(Error::message, (e,), r),
    ensures
        *e matches Error::NotOnRing(station) ==> r@ == "station "@ + four_written(station as int)
            + " is not on the ring"@,
        *e matches Error::NotOperational(station, status) ==> r@ == "station "@ + four_written(
            station as int,
        ) + " is in AL state "@ + four_written(status as int),
        *e matches Error::NoSuchCommand(code) ==> r@ == "no EtherCAT command has code "@
            + few_written(code as int),
        *e matches Error::NotSdo(service) ==> r@ == "CoE service "@ + few_written(service as int)
            + " is not an SDO"@,
        *e matches Error::NoSuchSpecifier(specifier) ==> r@ == "no SDO has command specifier "@
            + few_written(specifier as int),
{
    match *e {
        Error::NotOnRing(station) => lemma_four_written(station),
        Error::NotOperational(station, status) => {
            lemma_four_written(station);
            lemma_four_written(status);
        },
        Error::NoSuchCommand(code) => lemma_few_written(code),
        Error::NotSdo(service) => lemma_few_written(service),
        Error::NoSuchSpecifier(specifier) => lemma_few_written(specifier),
        _ => {},
    }
}

/// What is said of a refusal that names nothing.
pub proof fn law_a_refusal_is_said(e: &Error, r: String)
    requires
        call_ensures(Error::message, (e,), r),
    ensures
        *e is NoDatagram ==> r@ == "a frame with no datagram"@,
        *e is ShortHeader ==> r@ == "shorter than an EtherCAT header"@,
        *e is NotTypeOne ==> r@ == "an EtherCAT header that is not type 1"@,
        *e is LengthPastEnd ==> r@ == "an EtherCAT length past the end of the frame"@,
        *e is ShortDatagram ==> r@ == "a datagram shorter than its header"@,
        *e is DatagramPastEnd ==> r@ == "a datagram length past the end"@,
        *e is NoWorkingCounter ==> r@ == "a datagram without its working counter"@,
        *e is TrailingBytes ==> r@ == "bytes after the last datagram"@,
        *e is ShortMailbox ==> r@ == "a mailbox shorter than its headers"@,
        *e is MailboxPastEnd ==> r@ == "a mailbox length past the end"@,
        *e is NotCoe ==> r@ == "a mailbox protocol that is not CoE"@,
        *e is ShortSdo ==> r@ == "shorter than an SDO"@,
        *e is NoSize ==> r@ == "an SDO that neither carries its data nor says its size"@,
        *e is OutOfTurn ==> r@ == "the slave answered out of turn"@,
        *e is NoAnswer ==> r@ == "the ring did not answer before the deadline"@,
        *e is NoMailboxAnswer ==> r@ == "the mailbox answer did not come before the deadline"@,
{
}

/// What is said of a length that was refused begins with that length, in decimal,
/// and says what the most is.
pub proof fn law_a_refusal_says_the_length(e: &Error, r: String, out: &mut String, n: usize)
    requires
        call_ensures(Error::message, (e,), r),
        old(out)@.len() == 0,
        call_ensures(put_decimal, (out, n as u64), ()),
    ensures
        *e == Error::DataTooLong(n) ==> r@ == final(out)@ + " bytes is over the "@ + seq![
            '1',
            '4',
            '8',
            '6',
        ] + " one datagram carries"@,
        *e == Error::FrameTooLong(n) ==> r@ == final(out)@ + " bytes of datagrams is over the "@
            + seq!['1', '4', '9', '8'] + " one frame carries"@,
        *e == Error::NotExpedited(n) ==> r@ == final(out)@ + " bytes do not go expedited"@,
        *e == Error::ObjectTooLong(n) ==> r@ == final(out)@
            + " bytes is over what an SDO's size says"@,
{
    assert(old(out)@ + decimal(n as nat) =~= decimal(n as nat));
    assert(decimal(1486) =~= seq!['1', '4', '8', '6']) by {
        assert(decimal(1) =~= seq!['1']);
        assert(decimal(14) =~= seq!['1', '4']);
        assert(decimal(148) =~= seq!['1', '4', '8']);
    }
    assert(decimal(1498) =~= seq!['1', '4', '9', '8']) by {
        assert(decimal(1) =~= seq!['1']);
        assert(decimal(14) =~= seq!['1', '4']);
        assert(decimal(149) =~= seq!['1', '4', '9']);
    }
}

/// What is said of an abort is its code, in eight hexadecimal digits after `0x`.
pub proof fn law_an_abort_says_its_code(code: u32, e: &Error, r: String)
    requires
        *e == Error::Aborted(code),
        call_ensures(Error::message, (e,), r),
    ensures
        r@.len() == "the slave aborted with "@.len() + 10,
        r@.take("the slave aborted with "@.len() as int) == "the slave aborted with "@,
        ({
            let at = "the slave aborted with "@.len() as int;
            &&& r@[at] == '0' && r@[at + 1] == 'x'
            &&& r@.skip(at + 2) == seq![
                written((code / 0x1000_0000) as int),
                written((code / 0x100_0000 % 16) as int),
                written((code / 0x10_0000 % 16) as int),
                written((code / 0x1_0000 % 16) as int),
                written((code / 0x1000 % 16) as int),
                written((code / 0x100 % 16) as int),
                written((code / 0x10 % 16) as int),
                written((code % 16) as int),
            ]
        }),
{
    reveal_strlit("0x");
    let m = code as nat;
    let h = m / 0x1_0000;
    let at = "the slave aborted with "@.len() as int;
    lemma_four_more(m, 4);
    lemma_four_more(h, 0);
    assert(hex_digits(h / 0x1_0000, 0) =~= seq![]);
    assert(h / 0x1000 % 16 == code / 0x1000_0000);
    assert(h / 0x100 % 16 == code / 0x100_0000 % 16);
    assert(h / 0x10 % 16 == code / 0x10_0000 % 16);
    assert(r@ =~= "the slave aborted with "@ + hex(m, 8));
    assert(r@.take(at) =~= "the slave aborted with "@);
    assert(r@.skip(at) =~= hex(m, 8));
    assert(hex(m, 8).skip(2) =~= hex_digits(m, 8));
    assert(r@.skip(at + 2) =~= r@.skip(at).skip(2));
}

/// Four more digits, written behind the others.
proof fn lemma_four_more(m: nat, width: nat)
    ensures
        hex_digits(m, width + 4) == hex_digits(m / 0x1_0000, width) + seq![
            written((m / 0x1000 % 16) as int),
            written((m / 0x100 % 16) as int),
            written((m / 0x10 % 16) as int),
            written((m % 16) as int),
        ],
{
    let a = m / 16;
    let b = a / 16;
    let c = b / 16;
    lemma_written((m % 16) as int);
    lemma_written((a % 16) as int);
    lemma_written((b % 16) as int);
    lemma_written((c % 16) as int);
    assert(b == m / 0x100 && c == m / 0x1000 && c / 16 == m / 0x1_0000);
    let front = hex_digits(c / 16, width);
    assert(hex_digits(c, width + 1) == front.push(written((c % 16) as int)));
    assert(hex_digits(b, width + 2) == hex_digits(c, width + 1).push(written((b % 16) as int)));
    assert(hex_digits(a, width + 3) == hex_digits(b, width + 2).push(written((a % 16) as int)));
    assert(hex_digits(m, width + 4) == hex_digits(a, width + 3).push(written((m % 16) as int)));
    assert(hex_digits(m, width + 4) =~= front + seq![
        written((c % 16) as int),
        written((b % 16) as int),
        written((a % 16) as int),
        written((m % 16) as int),
    ]);
}

/// A target that names no object is quoted before what it should have been.
pub proof fn law_a_bad_target_is_quoted(
    target: String,
    e: &Error,
    r: String,
    quoted: &str,
    s: String,
)
    requires
        *e == Error::BadTarget(target),
        call_ensures(Error::message, (e,), r),
        quoted@ == debug_quoted(target@),
        call_ensures(no_object, (quoted,), s),
    ensures
        r@ == s@,
        s@ == quoted@ + " is not 0x<station>/0x<index>/<sub>"@,
{
}

} // verus!
