//! Numbers as text, and text as numbers.

use vstd::prelude::*;

verus! {

/// The character of a digit, `a` to `f` from ten on.
pub open spec fn digit_char(d: int) -> char {
    if d < 10 {
        ('0' as int + d) as char
    } else {
        ('a' as int + d - 10) as char
    }
}

/// `n` in decimal, without leading zeros.
pub open spec fn decimal(n: nat) -> Seq<char>
    decreases n,
{
    if n < 10 {
        seq![digit_char(n as int)]
    } else {
        decimal(n / 10).push(digit_char((n % 10) as int))
    }
}

/// The `width` lowest hexadecimal digits of `n`.
pub open spec fn hex_digits(n: nat, width: nat) -> Seq<char>
    decreases width,
{
    if width == 0 {
        seq![]
    } else {
        hex_digits(n / 16, (width - 1) as nat).push(digit_char((n % 16) as int))
    }
}

/// `n` in hexadecimal, after `0x`, in `width` digits.
pub open spec fn hex(n: nat, width: nat) -> Seq<char> {
    "0x"@ + hex_digits(n, width)
}

/// The digit a character is in `radix`, which is ten or sixteen.
pub open spec fn digit_of(c: char, radix: int) -> Option<int> {
    if '0' <= c <= '9' {
        Some(c as int - '0' as int)
    } else if radix == 16 && 'a' <= c <= 'f' {
        Some(c as int - 'a' as int + 10)
    } else if radix == 16 && 'A' <= c <= 'F' {
        Some(c as int - 'A' as int + 10)
    } else {
        None
    }
}

/// True where every character is a digit, and there is one.
pub open spec fn are_digits(text: Seq<char>, radix: int) -> bool {
    &&& text.len() > 0
    &&& forall|i: int| 0 <= i < text.len() ==> digit_of(#[trigger] text[i], radix) is Some
}

/// The number digits make.
pub open spec fn value_of(text: Seq<char>, radix: int) -> int
    decreases text.len(),
{
    if text.len() == 0 {
        0
    } else {
        radix * value_of(text.drop_last(), radix) + digit_of(text.last(), radix).unwrap()
    }
}

/// The number `text` is in `radix`, where it is one of at most `max`: digits,
/// after one plus sign or none.
pub open spec fn number_in(text: Seq<char>, radix: int, max: int) -> Option<int> {
    let digits = if text.len() > 0 && text[0] == '+' {
        text.skip(1)
    } else {
        text
    };
    if are_digits(digits, radix) && value_of(digits, radix) <= max {
        Some(value_of(digits, radix))
    } else {
        None
    }
}

/// The characters of `text`.
pub fn chars_of(text: &str) -> (r: Vec<char>)
    ensures
        r@ == text@,
{
    let n = text.unicode_len();
    let mut r: Vec<char> = Vec::new();
    for i in 0..n
        invariant
            n == text@.len(),
            r@ == text@.take(i as int),
    {
        r.push(text.get_char(i));
        assert(text@.take(i + 1) =~= text@.take(i as int).push(text@[i as int]));
    }
    assert(text@.take(n as int) =~= text@);
    r
}

/// One digit, as text.
fn digit(d: u32) -> (r: &'static str)
    requires
        d < 16,
    ensures
        r@ == seq![digit_char(d as int)],
{
    proof {
        reveal_strlit("0");
        reveal_strlit("1");
        reveal_strlit("2");
        reveal_strlit("3");
        reveal_strlit("4");
        reveal_strlit("5");
        reveal_strlit("6");
        reveal_strlit("7");
        reveal_strlit("8");
        reveal_strlit("9");
        reveal_strlit("a");
        reveal_strlit("b");
        reveal_strlit("c");
        reveal_strlit("d");
        reveal_strlit("e");
        reveal_strlit("f");
    }
    let r = match d {
        0 => "0",
        1 => "1",
        2 => "2",
        3 => "3",
        4 => "4",
        5 => "5",
        6 => "6",
        7 => "7",
        8 => "8",
        9 => "9",
        10 => "a",
        11 => "b",
        12 => "c",
        13 => "d",
        14 => "e",
        _ => "f",
    };
    assert(r@ =~= seq![digit_char(d as int)]);
    r
}

/// `n` in decimal, at the end of `out`.
pub fn put_decimal(out: &mut String, n: u64)
    ensures
        final(out)@ == old(out)@ + decimal(n as nat),
    decreases n,
{
    if n >= 10 {
        put_decimal(out, n / 10);
    }
    out.append(digit((n % 10) as u32));
    assert(out@ =~= old(out)@ + decimal(n as nat));
}

/// The `width` lowest hexadecimal digits of `n`, at the end of `out`.
fn put_hex_digits(out: &mut String, n: u32, width: u32)
    ensures
        final(out)@ == old(out)@ + hex_digits(n as nat, width as nat),
    decreases width,
{
    if width > 0 {
        put_hex_digits(out, n / 16, width - 1);
        out.append(digit(n % 16));
    }
    assert(out@ =~= old(out)@ + hex_digits(n as nat, width as nat));
}

/// `n` in hexadecimal, after `0x`, in `width` digits, at the end of `out`.
pub fn put_hex(out: &mut String, n: u32, width: u32)
    ensures
        final(out)@ == old(out)@ + hex(n as nat, width as nat),
{
    out.append("0x");
    put_hex_digits(out, n, width);
    assert(out@ =~= old(out)@ + hex(n as nat, width as nat));
}

/// The digit a character is in `radix`.
fn get_digit(c: char, radix: u32) -> (r: Option<u32>)
    requires
        radix == 10 || radix == 16,
    ensures
        match r {
            Some(d) => digit_of(c, radix as int) == Some(d as int) && d < radix,
            None => digit_of(c, radix as int) is None,
        },
{
    if '0' <= c && c <= '9' {
        Some(c as u32 - '0' as u32)
    } else if radix == 16 && 'a' <= c && c <= 'f' {
        Some(c as u32 - 'a' as u32 + 10)
    } else if radix == 16 && 'A' <= c && c <= 'F' {
        Some(c as u32 - 'A' as u32 + 10)
    } else {
        None
    }
}

/// Digits make no smaller a number with more digits after them.
proof fn lemma_value_grows(text: Seq<char>, radix: int, n: int)
    requires
        radix == 10 || radix == 16,
        0 <= n <= text.len(),
        are_digits(text, radix),
    ensures
        0 <= value_of(text.take(n), radix) <= value_of(text, radix),
    decreases text.len(),
{
    if n == text.len() {
        assert(text.take(n) =~= text);
        if n > 1 {
            lemma_value_grows(text.drop_last(), radix, n - 1);
        }
        assert(digit_of(text[n - 1], radix) is Some);
    } else if text.len() == 1 {
        assert(text.take(n) =~= seq![]);
        assert(digit_of(text[0], radix) is Some);
        assert(text.drop_last() =~= seq![]);
    } else {
        lemma_value_grows(text.drop_last(), radix, n);
        assert(text.drop_last().take(n) =~= text.take(n));
        assert(digit_of(text[text.len() - 1], radix) is Some);
    }
}

/// The number the characters from `from` to `to` are in `radix`.
pub fn get_number(text: &[char], from: usize, to: usize, radix: u32, max: u32) -> (r: Option<u32>)
    requires
        from <= to <= text@.len(),
        radix == 10 || radix == 16,
        max <= 0xffff,
    ensures
        match r {
            Some(n) => number_in(
                text@.subrange(from as int, to as int),
                radix as int,
                max as int,
            ) == Some(n as int) && n <= max,
            None => number_in(
                text@.subrange(from as int, to as int),
                radix as int,
                max as int,
            ) is None,
        },
{
    let ghost all = text@.subrange(from as int, to as int);
    let start = if from < to && text[from] == '+' { from + 1 } else { from };
    let ghost digits = text@.subrange(start as int, to as int);
    assert(digits =~= if all.len() > 0 && all[0] == '+' {
        all.skip(1)
    } else {
        all
    });
    if start == to {
        return None;
    }
    let mut value: u32 = 0;
    let mut i: usize = start;
    assert(digits.take(0) =~= seq![]);
    while i < to
        invariant
            start <= i <= to <= text@.len(),
            radix == 10 || radix == 16,
            max <= 0xffff,
            all == text@.subrange(from as int, to as int),
            digits == text@.subrange(start as int, to as int),
            digits.len() > 0,
            number_in(all, radix as int, max as int) == if are_digits(digits, radix as int)
                && value_of(digits, radix as int) <= max {
                Some(value_of(digits, radix as int))
            } else {
                None
            },
            forall|j: int|
                0 <= j < i - start ==> digit_of(#[trigger] digits[j], radix as int) is Some,
            value == value_of(digits.take(i - start), radix as int) <= max,
        decreases to - i,
    {
        assert(digits[i - start] == text@[i as int]);
        match get_digit(text[i], radix) {
            None => {
                return None;
            },
            Some(d) => {
                proof {
                    let n = i - start;
                    assert(digits.take(n + 1).drop_last() =~= digits.take(n));
                    assert(digits.take(n + 1).last() == digits[n]);
                    if are_digits(digits, radix as int) {
                        lemma_value_grows(digits, radix as int, n + 1);
                    }
                }
                value = if radix == 16 { 16 * value + d } else { 10 * value + d };
                if value > max {
                    return None;
                }
            },
        }
        i = i + 1;
    }
    assert(digits.take(to - start) =~= digits);
    Some(value)
}

} // verus!
