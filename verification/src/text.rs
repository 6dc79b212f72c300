//! Spelling numbers and times the way ffmpeg and mpv read them.

use vstd::prelude::*;
use vstd::string::StringExecFns;

verus! {

/// `String::push` of the standard library: the character goes on the end.
pub assume_specification[ String::push ](s: &mut String, c: char)
    ensures
        final(s)@ == old(s)@.push(c),
;

/// The character of a decimal digit.
pub open spec fn digit(d: int) -> char {
    if d <= 0 {
        '0'
    } else if d == 1 {
        '1'
    } else if d == 2 {
        '2'
    } else if d == 3 {
        '3'
    } else if d == 4 {
        '4'
    } else if d == 5 {
        '5'
    } else if d == 6 {
        '6'
    } else if d == 7 {
        '7'
    } else if d == 8 {
        '8'
    } else {
        '9'
    }
}

/// A number in decimal, without leading zeros.
pub open spec fn digits(n: nat) -> Seq<char>
    decreases n,
{
    if n < 10 {
        seq![digit(n as int)]
    } else {
        digits(n / 10).push(digit((n % 10) as int))
    }
}

/// An integer in decimal.
pub open spec fn int_text(v: int) -> Seq<char> {
    if v < 0 {
        "-"@ + digits((-v) as nat)
    } else {
        digits(v as nat)
    }
}

/// Milliseconds as seconds with exactly three decimals: `-1500` is `-1.500`.
pub open spec fn seconds_text(ms: int) -> Seq<char> {
    let size = if ms < 0 { -ms } else { ms };
    let sign = if ms < 0 { "-"@ } else { Seq::<char>::empty() };
    sign + digits((size / 1000) as nat) + "."@ + seq![
        digit(size / 100 % 10),
        digit(size / 10 % 10),
        digit(size % 10),
    ]
}

pub fn digit_char(d: u64) -> (c: char)
    requires
        d < 10,
    ensures
        c == digit(d as int),
{
    if d == 0 {
        '0'
    } else if d == 1 {
        '1'
    } else if d == 2 {
        '2'
    } else if d == 3 {
        '3'
    } else if d == 4 {
        '4'
    } else if d == 5 {
        '5'
    } else if d == 6 {
        '6'
    } else if d == 7 {
        '7'
    } else if d == 8 {
        '8'
    } else {
        '9'
    }
}

/// Write a number at the end of `out`.
pub fn push_digits(out: &mut String, n: u64)
    ensures
        final(out)@ == old(out)@ + digits(n as nat),
    decreases n,
{
    if n >= 10 {
        push_digits(out, n / 10);
    }
    out.push(digit_char(n % 10));
    assert(out@ =~= old(out)@ + digits(n as nat));
}

/// The size of an integer, whatever its sign.
pub fn magnitude(v: i64) -> (n: u64)
    ensures
        n == if v < 0 { -v } else { v as int },
{
    if v < 0 {
        (-(v as i128)) as u64
    } else {
        v as u64
    }
}

/// Write an integer at the end of `out`.
pub fn push_int(out: &mut String, v: i64)
    ensures
        final(out)@ == old(out)@ + int_text(v as int),
{
    if v < 0 {
        out.append("-");
    }
    push_digits(out, magnitude(v));
    assert(out@ =~= old(out)@ + int_text(v as int));
}

/// Write milliseconds as seconds with three decimals at the end of `out`.
pub fn push_seconds(out: &mut String, ms: i64)
    ensures
        final(out)@ == old(out)@ + seconds_text(ms as int),
{
    let size: u64 = magnitude(ms);
    if ms < 0 {
        out.append("-");
    }
    push_digits(out, size / 1000);
    out.append(".");
    out.push(digit_char(size / 100 % 10));
    out.push(digit_char(size / 10 % 10));
    out.push(digit_char(size % 10));
    assert(out@ =~= old(out)@ + seconds_text(ms as int));
}

/// Thousandths without the zeros at their end: `250` is `25`.
pub open spec fn fraction_text(f: int) -> Seq<char> {
    if f % 100 == 0 {
        seq![digit(f / 100)]
    } else if f % 10 == 0 {
        seq![digit(f / 100), digit(f / 10 % 10)]
    } else {
        seq![digit(f / 100), digit(f / 10 % 10), digit(f % 10)]
    }
}

/// Milliseconds as seconds with at least one decimal, and no more than are
/// needed: `5000` is `5.0`, and `-1250` is `-1.25`.
pub open spec fn decimal_text(ms: int) -> Seq<char> {
    let size = if ms < 0 { -ms } else { ms };
    let sign = if ms < 0 { "-"@ } else { Seq::<char>::empty() };
    sign + digits((size / 1000) as nat) + "."@ + fraction_text(size % 1000)
}

/// Milliseconds as seconds with no more decimals than are needed: `5000` is
/// `5`, and `-1250` is `-1.25`.
pub open spec fn plain_text(ms: int) -> Seq<char> {
    if ms % 1000 == 0 {
        int_text(ms / 1000)
    } else {
        decimal_text(ms)
    }
}

/// Write milliseconds as seconds with at least one decimal at the end of `out`.
pub fn push_decimal(out: &mut String, ms: i64)
    ensures
        final(out)@ == old(out)@ + decimal_text(ms as int),
{
    let size: u64 = magnitude(ms);
    if ms < 0 {
        out.append("-");
    }
    push_digits(out, size / 1000);
    out.append(".");
    let f: u64 = size % 1000;
    out.push(digit_char(f / 100));
    if f % 100 != 0 {
        out.push(digit_char(f / 10 % 10));
        if f % 10 != 0 {
            out.push(digit_char(f % 10));
        }
    }
    assert(out@ =~= old(out)@ + decimal_text(ms as int));
}

/// Write milliseconds as seconds with as few decimals as possible at the end
/// of `out`.
pub fn push_plain(out: &mut String, ms: i64)
    ensures
        final(out)@ == old(out)@ + plain_text(ms as int),
{
    let size: u64 = magnitude(ms);
    if size % 1000 == 0 {
        if ms < 0 {
            out.append("-");
        }
        push_digits(out, size / 1000);
        assert(ms < 0 ==> ms / 1000 == -(size / 1000));
        assert(out@ =~= old(out)@ + plain_text(ms as int));
    } else {
        push_decimal(out, ms);
    }
}

} // verus!
