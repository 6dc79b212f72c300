//! What is spelled is what is read: numbers and times as texts.

use vstd::prelude::*;

use crate::cast;
use crate::numbers;
use crate::reading;
use crate::reading::Cut;
use crate::text;

verus! {

// ---------------------------------------------------------------------------
// What digits are worth
// ---------------------------------------------------------------------------

/// Whether a text is made of the ten digits alone.
pub open spec fn only_digits(s: Seq<char>) -> bool {
    forall|i: int| 0 <= i < s.len() ==> 0x30 <= (#[trigger] s[i]) as int <= 0x39
}

/// What a row of digits is worth: each ten times what stands behind it.
pub open spec fn worth(s: Seq<char>) -> int
    decreases s.len(),
{
    if s.len() == 0 {
        0
    } else {
        10 * worth(s.drop_last()) + (s.last() as int - 0x30)
    }
}

/// A power of ten.
pub open spec fn ten(k: int) -> int
    decreases k,
{
    if k <= 0 {
        1
    } else {
        10 * ten(k - 1)
    }
}

pub open spec fn size(v: int) -> int {
    if v < 0 {
        -v
    } else {
        v
    }
}

/// Whether a text is a number with so many digits behind its point: a minus
/// exactly where it is below zero, at least one digit before the point, and no
/// zero too many in front.
pub open spec fn spells(t: Seq<char>, places: int, v: int) -> bool {
    let from = if v < 0 {
        1int
    } else {
        0int
    };
    let point = t.len() - places - 1;
    &&& from < point
    &&& v < 0 ==> t[0] == '-'
    &&& t[point] == '.'
    &&& only_digits(t.subrange(from, point))
    &&& only_digits(t.skip(point + 1))
    &&& point - from > 1 ==> t[from] != '0'
    &&& worth(t.subrange(from, point) + t.skip(point + 1)) == size(v)
}

proof fn lemma_worth_push(s: Seq<char>, c: char)
    ensures
        worth(s.push(c)) == 10 * worth(s) + (c as int - 0x30),
        only_digits(s) && 0x30 <= c as int <= 0x39 ==> only_digits(s.push(c)),
{
    assert(s.push(c).drop_last() =~= s);
}

proof fn lemma_digit(d: int)
    requires
        0 <= d < 10,
    ensures
        text::digit(d) as int == 0x30 + d,
{
}

/// The digits of a number are worth that number, with no zero too many in
/// front.
pub proof fn law_digits_are_worth_the_number(n: nat)
    ensures
        text::digits(n).len() > 0,
        only_digits(text::digits(n)),
        worth(text::digits(n)) == n,
        text::digits(n).len() > 1 ==> text::digits(n)[0] != '0',
        n > 0 ==> text::digits(n)[0] != '0',
    decreases n,
{
    let d = text::digit((n % 10) as int);
    lemma_digit((n % 10) as int);
    if n < 10 {
        lemma_worth_push(Seq::empty(), d);
        assert(text::digits(n) =~= Seq::<char>::empty().push(d));
    } else {
        law_digits_are_worth_the_number(n / 10);
        lemma_worth_push(text::digits(n / 10), d);
    }
}

/// An integer is spelled by its digits, behind a minus exactly where it is
/// below zero.
pub proof fn law_integers_read_back(v: int)
    ensures
        v >= 0 ==> only_digits(text::int_text(v)) && worth(text::int_text(v)) == v,
        v < 0 ==> text::int_text(v)[0] == '-' && only_digits(text::int_text(v).skip(1)) && worth(
            text::int_text(v).skip(1),
        ) == -v,
        i64::MIN <= v <= i64::MAX ==> numbers::integer(text::int_text(v)) == Some(v),
{
    reveal_strlit("-");
    let n = size(v) as nat;
    let d = text::digits(n);
    law_digits_are_worth_the_number(n);
    if v < 0 {
        assert(text::int_text(v).skip(1) =~= d);
        law_integers_are_read(Some('-'), d);
        assert(text::int_text(v) =~= signed(Some('-'), d));
    } else {
        law_integers_are_read(None, d);
        assert(text::int_text(v) =~= signed(None, d));
    }
}

proof fn lemma_spells(sign: Seq<char>, n: nat, part: Seq<char>, v: int)
    requires
        v < 0 ==> sign =~= seq!['-'],
        v >= 0 ==> sign =~= Seq::<char>::empty(),
        only_digits(part),
        worth(text::digits(n) + part) == size(v),
    ensures
        spells(sign + text::digits(n) + "."@ + part, part.len() as int, v),
{
    reveal_strlit(".");
    law_digits_are_worth_the_number(n);
    let whole = text::digits(n);
    let t = sign + whole + "."@ + part;
    let from = sign.len() as int;
    let point = t.len() - part.len() - 1;
    assert(t.subrange(from, point) =~= whole);
    assert(t.skip(point + 1) =~= part);
    assert(t[from] == whole[0]);
}

/// The text of a time reads back as that time: its digits, taken as seconds
/// with three decimals, are exactly that many thousandths.
pub proof fn law_seconds_read_back(ms: int)
    ensures
        spells(text::seconds_text(ms), 3, ms),
        -numbers::LARGEST <= ms <= numbers::LARGEST ==> numbers::decimal(text::seconds_text(ms))
            == Some(ms),
{
    reveal_strlit("-");
    reveal_strlit(".");
    let n = size(ms);
    let whole = text::digits((n / 1000) as nat);
    let (a, b, c) = (
        text::digit(n / 100 % 10),
        text::digit(n / 10 % 10),
        text::digit(n % 10),
    );
    law_digits_are_worth_the_number((n / 1000) as nat);
    lemma_digit(n / 100 % 10);
    lemma_digit(n / 10 % 10);
    lemma_digit(n % 10);
    lemma_worth_push(whole, a);
    lemma_worth_push(whole.push(a), b);
    lemma_worth_push(whole.push(a).push(b), c);
    let part = seq![a, b, c];
    assert(whole + part =~= whole.push(a).push(b).push(c));
    let sign = if ms < 0 {
        "-"@
    } else {
        Seq::<char>::empty()
    };
    lemma_spells(sign, (n / 1000) as nat, part, ms);
    let mark = if ms < 0 {
        Some('-')
    } else {
        None
    };
    assert(text::seconds_text(ms) =~= signed(mark, whole + seq!['.'] + part + Seq::empty()));
    law_decimals_are_read_to_the_nearest(mark, whole, true, part, None, 0);
    assert(ten(0) == 1);
}

/// Times that differ have texts that differ.
pub proof fn law_times_have_their_own_texts(a: int, b: int)
    requires
        text::seconds_text(a) == text::seconds_text(b),
    ensures
        a == b,
{
    law_seconds_read_back(a);
    law_seconds_read_back(b);
    let t = text::seconds_text(a);
    let whole = t.subrange(0, t.len() - 4);
    assert(whole[0] == t[0]);
}

proof fn lemma_whole_and_part(n: int)
    requires
        0 <= n,
    ensures
        ({
            let whole = text::digits((n / 1000) as nat);
            let f = n % 1000;
            let (a, b, c) = (text::digit(f / 100), text::digit(f / 10 % 10), text::digit(f % 10));
            &&& only_digits(seq![a]) && only_digits(seq![a, b]) && only_digits(seq![a, b, c])
            &&& worth(whole + seq![a]) == n / 100
            &&& worth(whole + seq![a, b]) == n / 10
            &&& worth(whole + seq![a, b, c]) == n
        }),
{
    let whole = text::digits((n / 1000) as nat);
    let f = n % 1000;
    law_digits_are_worth_the_number((n / 1000) as nat);
    lemma_digit(f / 100);
    lemma_digit(f / 10 % 10);
    lemma_digit(f % 10);
    let (a, b, c) = (text::digit(f / 100), text::digit(f / 10 % 10), text::digit(f % 10));
    lemma_worth_push(whole, a);
    lemma_worth_push(whole.push(a), b);
    lemma_worth_push(whole.push(a).push(b), c);
    assert(whole + seq![a] =~= whole.push(a));
    assert(whole + seq![a, b] =~= whole.push(a).push(b));
    assert(whole + seq![a, b, c] =~= whole.push(a).push(b).push(c));
}

/// A time with only the decimals it needs reads back as that time: there is one
/// decimal at least and three at most, and behind the first no zero at the end.
pub proof fn law_short_decimals_read_back(ms: int)
    ensures
        ms % 100 == 0 ==> spells(text::decimal_text(ms), 1, ms / 100),
        ms % 100 != 0 && ms % 10 == 0 ==> spells(text::decimal_text(ms), 2, ms / 10),
        ms % 10 != 0 ==> spells(text::decimal_text(ms), 3, ms),
{
    let n = size(ms);
    let f = n % 1000;
    let (a, b, c) = (text::digit(f / 100), text::digit(f / 10 % 10), text::digit(f % 10));
    let sign = if ms < 0 {
        "-"@
    } else {
        Seq::<char>::empty()
    };
    assert("-"@ =~= seq!['-']) by {
        reveal_strlit("-");
    }
    lemma_whole_and_part(n);
    if ms % 100 == 0 {
        assert(f % 100 == 0 && n / 100 == size(ms / 100));
        lemma_spells(sign, (n / 1000) as nat, seq![a], ms / 100);
    } else if ms % 10 == 0 {
        assert(f % 100 != 0 && f % 10 == 0 && n / 10 == size(ms / 10));
        lemma_spells(sign, (n / 1000) as nat, seq![a, b], ms / 10);
    } else {
        assert(f % 10 != 0 && f % 100 != 0);
        lemma_spells(sign, (n / 1000) as nat, seq![a, b, c], ms);
    }
}

/// A time in plain is an integer where it is a whole number of seconds, and
/// else is spelled with the decimals it needs.
pub proof fn law_plain_times_read_back(ms: int)
    ensures
        ms % 1000 != 0 ==> text::plain_text(ms) == text::decimal_text(ms),
        ms % 1000 == 0 && ms >= 0 ==> only_digits(text::plain_text(ms)) && 1000 * worth(
            text::plain_text(ms),
        ) == ms,
        ms % 1000 == 0 && ms < 0 ==> text::plain_text(ms)[0] == '-' && only_digits(
            text::plain_text(ms).skip(1),
        ) && 1000 * worth(text::plain_text(ms).skip(1)) == -ms,
{
    law_integers_read_back(ms / 1000);
}

/// Hundredths of a second read back as they are, and those of a time are the
/// nearest there are.
pub proof fn law_hundredths_read_back(ms: int)
    requires
        ms >= 0,
    ensures
        ({
            let h = cast::hundredths(ms);
            &&& spells(cast::hundredths_text(h), 2, h)
            &&& -5 <= 10 * h - ms <= 5
            &&& (10 * h - ms == 5 || ms - 10 * h == 5) ==> h % 2 == 0
        }),
{
    reveal_strlit(".");
    let h = cast::hundredths(ms);
    let whole = text::digits((h / 100) as nat);
    law_digits_are_worth_the_number((h / 100) as nat);
    let (a, b) = (text::digit(h / 10 % 10), text::digit(h % 10));
    lemma_digit(h / 10 % 10);
    lemma_digit(h % 10);
    lemma_worth_push(whole, a);
    lemma_worth_push(whole.push(a), b);
    assert(whole + seq![a, b] =~= whole.push(a).push(b));
    lemma_spells(Seq::empty(), (h / 100) as nat, seq![a, b], h);
    assert(Seq::<char>::empty() + whole + "."@ + seq![a, b] =~= cast::hundredths_text(h));
}

// ---------------------------------------------------------------------------
// Reading numbers
// ---------------------------------------------------------------------------

/// A text behind a sign, or as it is.
pub open spec fn signed(sign: Option<char>, s: Seq<char>) -> Seq<char> {
    match sign {
        Some(c) => seq![c] + s,
        None => s,
    }
}

pub open spec fn is_sign(sign: Option<char>) -> bool {
    sign is Some ==> sign == Some('-') || sign == Some('+')
}

pub open spec fn with_sign(sign: Option<char>, v: int) -> int {
    if sign == Some('-') {
        -v
    } else {
        v
    }
}

proof fn lemma_number_is_worth(s: Seq<char>)
    ensures
        numbers::number(s) == worth(s),
        numbers::all_digits(s) == only_digits(s),
    decreases s.len(),
{
    if s.len() > 0 {
        lemma_number_is_worth(s.drop_last());
    }
    if numbers::all_digits(s) {
        assert forall|i: int| 0 <= i < s.len() implies 0x30 <= (#[trigger] s[i]) as int
            <= 0x39 by {
            assert(numbers::is_digit(s[i]));
        }
    }
    if only_digits(s) {
        assert forall|i: int| 0 <= i < s.len() implies numbers::is_digit(#[trigger] s[i]) by {
            assert(0x30 <= s[i] as int <= 0x39);
        }
    }
}

proof fn lemma_unsigned(sign: Option<char>, d: Seq<char>)
    requires
        is_sign(sign),
        d.len() > 0,
        d[0] != '-' && d[0] != '+',
    ensures
        numbers::unsigned(signed(sign, d)) == d,
        numbers::negative(signed(sign, d)) == (sign == Some('-')),
{
    assert(signed(sign, d).skip(1) =~= if sign is Some {
        d
    } else {
        d.skip(1)
    });
}

/// Digits behind a sign or without one are read as what they are worth, if a
/// machine integer can hold it. Anything else that starts like that is refused.
pub proof fn law_integers_are_read(sign: Option<char>, d: Seq<char>)
    requires
        is_sign(sign),
        d.len() > 0,
        d[0] != '-' && d[0] != '+',
    ensures
        only_digits(d) && i64::MIN <= with_sign(sign, worth(d)) <= i64::MAX ==> numbers::integer(
            signed(sign, d),
        ) == Some(with_sign(sign, worth(d))),
        !only_digits(d) ==> numbers::integer(signed(sign, d)) is None,
        with_sign(sign, worth(d)) < i64::MIN || with_sign(sign, worth(d)) > i64::MAX
            ==> numbers::integer(signed(sign, d)) is None,
{
    lemma_unsigned(sign, d);
    lemma_number_is_worth(d);
}

proof fn lemma_ten(k: int)
    ensures
        ten(k) >= 1,
    decreases k,
{
    if k > 0 {
        lemma_ten(k - 1);
    }
}

pub proof fn lemma_worth_bounds(d: Seq<char>)
    requires
        only_digits(d),
    ensures
        0 <= worth(d) < ten(d.len() as int),
    decreases d.len(),
{
    if d.len() > 0 {
        assert(only_digits(d.drop_last())) by {
            assert forall|i: int| 0 <= i < d.drop_last().len() implies 0x30 <= (
            #[trigger] d.drop_last()[i]) as int <= 0x39 by {
                assert(d.drop_last()[i] == d[i]);
            }
        }
        lemma_worth_bounds(d.drop_last());
        assert(0x30 <= d[d.len() - 1] as int <= 0x39);
    }
}

/// The leading digits are what is left of the row when the rest is cut off.
proof fn lemma_leading(d: Seq<char>, k: int)
    requires
        only_digits(d),
        0 <= k <= d.len(),
    ensures
        numbers::leading(d, k) == worth(d.take(k)),
    decreases k,
{
    if k > 0 {
        lemma_leading(d, k - 1);
        assert(d.take(k).drop_last() =~= d.take(k - 1));
    } else {
        assert(d.take(0) =~= Seq::empty());
    }
}

pub proof fn lemma_worth_split(a: Seq<char>, b: Seq<char>)
    ensures
        worth(a + b) == worth(a) * ten(b.len() as int) + worth(b),
    decreases b.len(),
{
    if b.len() == 0 {
        assert(a + b =~= a);
    } else {
        assert((a + b).drop_last() =~= a + b.drop_last());
        lemma_worth_split(a, b.drop_last());
        let (x, t) = (worth(a), ten(b.len() - 1));
        assert(10 * (x * t) == x * (10 * t)) by (nonlinear_arith);
    }
}

proof fn lemma_leading_past(d: Seq<char>, k: int)
    requires
        only_digits(d),
        k >= d.len(),
    ensures
        numbers::leading(d, k) == worth(d) * ten(k - d.len()),
    decreases k,
{
    if k == d.len() {
        lemma_leading(d, k);
        assert(d.take(k) =~= d);
    } else {
        lemma_leading_past(d, k - 1);
        let (x, t) = (worth(d), ten(k - 1 - d.len()));
        assert(10 * (x * t) == x * (10 * t)) by (nonlinear_arith);
    }
}

/// Rounding a row of digits after `k` of them.
proof fn lemma_rounded(d: Seq<char>, k: int)
    requires
        only_digits(d),
    ensures
        k >= d.len() ==> numbers::rounded(d, k) == worth(d) * ten(k - d.len()),
        k < d.len() ==> 2 * (numbers::rounded(d, k) * ten(d.len() - k)) <= 2 * worth(d) + ten(
            d.len() - k,
        ) < 2 * (numbers::rounded(d, k) * ten(d.len() - k)) + 2 * ten(d.len() - k),
{
    let n = d.len() as int;
    if k >= n {
        lemma_leading_past(d, k);
    } else if k >= 0 {
        let a = d.take(k);
        let b = d.skip(k);
        let rest = b.drop_first();
        let t = ten(n - k);
        assert forall|i: int| 0 <= i < rest.len() implies 0x30 <= (#[trigger] rest[i]) as int
            <= 0x39 by {
            assert(rest[i] == d[k + 1 + i]);
        }
        assert(d =~= a + b);
        assert(b =~= seq![d[k]] + rest);
        lemma_worth_split(a, b);
        lemma_worth_split(seq![d[k]], rest);
        lemma_worth_push(Seq::empty(), d[k]);
        assert(seq![d[k]] =~= Seq::<char>::empty().push(d[k]));
        lemma_worth_bounds(rest);
        lemma_leading(d, k);
        let u = ten(n - k - 1);
        assert(t == 10 * u);
        let x = d[k] as int - 0x30;
        let w = worth(rest);
        let l = worth(a);
        assert(worth(d) == l * t + (x * u + w));
        assert((l + 1) * t == l * t + t) by (nonlinear_arith);
        if x >= 5 {
            assert(x * u >= 5 * u) by (nonlinear_arith)
                requires
                    x >= 5,
                    u >= 0,
            ;
            assert(x * u <= 9 * u) by (nonlinear_arith)
                requires
                    x <= 9,
                    u >= 0,
            ;
        } else {
            assert(x * u <= 4 * u) by (nonlinear_arith)
                requires
                    x <= 4,
                    u >= 0,
            ;
            assert(0 <= x * u) by (nonlinear_arith)
                requires
                    x >= 0,
                    u >= 0,
            ;
        }
    } else {
        lemma_worth_bounds(d);
        lemma_ten_grows(n, n - k);
        assert(numbers::rounded(d, k) == 0);
    }
}

proof fn lemma_ten_grows(a: int, b: int)
    requires
        0 <= a < b,
    ensures
        10 * ten(a) <= ten(b),
    decreases b,
{
    lemma_ten(a);
    if a + 1 < b {
        lemma_ten_grows(a, b - 1);
    }
}

proof fn lemma_cut_at(a: Seq<char>, b: Seq<char>, cut: Cut)
    requires
        forall|i: int| 0 <= i < a.len() ==> !cut.cuts(#[trigger] a[i]),
        b.len() == 0 || cut.cuts(b[0]),
    ensures
        reading::first_cut(a + b, cut) == a.len(),
    decreases a.len(),
{
    if a.len() > 0 {
        assert((a + b).drop_first() =~= a.drop_first() + b);
        assert(!cut.cuts(a[0]));
        lemma_cut_at(a.drop_first(), b, cut);
    }
}

/// An exponent, part by part.
pub struct Exponent {
    pub mark: char,
    pub sign: Option<char>,
    pub digits: Seq<char>,
}

/// Whether an exponent, if there is one, is a mark, a sign or none, and digits.
pub open spec fn readable(e: Option<Exponent>) -> bool {
    e matches Some(x) ==> {
        &&& x.mark == 'e' || x.mark == 'E'
        &&& is_sign(x.sign)
        &&& only_digits(x.digits)
        &&& x.digits.len() > 0
    }
}

/// What an exponent is spelled like.
pub open spec fn exponent_text(e: Option<Exponent>) -> Seq<char> {
    match e {
        Some(x) => seq![x.mark] + signed(x.sign, x.digits),
        None => Seq::empty(),
    }
}

/// What an exponent is worth.
pub open spec fn exponent_worth(e: Option<Exponent>) -> int {
    match e {
        Some(x) => with_sign(x.sign, worth(x.digits)),
        None => 0,
    }
}

/// Whether `m` is the nearest whole number to `v` shifted by so many digits,
/// and of two as near the greater.
pub open spec fn nearest_shifted(m: int, v: int, by: int) -> bool {
    if by >= 0 {
        m == v * ten(by)
    } else {
        2 * (m * ten(-by)) <= 2 * v + ten(-by) < 2 * (m * ten(-by)) + 2 * ten(-by)
    }
}

pub open spec fn lesser(a: int, b: int) -> int {
    if a <= b {
        a
    } else {
        b
    }
}

/// The text of a number with digits before and behind a point and an exponent.
pub open spec fn decimal_spelled(
    sign: Option<char>,
    whole: Seq<char>,
    point: bool,
    part: Seq<char>,
    e: Option<Exponent>,
) -> Seq<char> {
    signed(
        sign,
        whole + (if point {
            seq!['.']
        } else {
            Seq::empty()
        }) + part + exponent_text(e),
    )
}

proof fn lemma_parts(
    whole: Seq<char>,
    point: bool,
    part: Seq<char>,
    e: Option<Exponent>,
)
    requires
        only_digits(whole),
        only_digits(part),
        whole.len() + part.len() > 0,
        !point ==> part.len() == 0,
        readable(e),
    ensures
        ({
            let dot = if point {
                seq!['.']
            } else {
                Seq::empty()
            };
            let body = whole + dot + part + exponent_text(e);
            let m = numbers::mantissa(body);
            &&& m == whole + dot + part
            &&& numbers::units(m) == whole
            &&& numbers::fraction(m) == part
            &&& numbers::has_exponent(body) == (e is Some)
            &&& e is Some ==> numbers::is_integer(numbers::exponent(body))
                && numbers::integer_value(numbers::exponent(body)) == exponent_worth(e)
        }),
{
    let dot = if point {
        seq!['.']
    } else {
        Seq::empty()
    };
    let m = whole + dot + part;
    let body = m + exponent_text(e);
    assert forall|i: int| 0 <= i < m.len() implies !Cut::Exponent.cuts(#[trigger] m[i]) by {
        if i < whole.len() {
            assert(m[i] == whole[i]);
        } else if i >= whole.len() + dot.len() {
            assert(m[i] == part[i - whole.len() - dot.len()]);
        }
    }
    lemma_cut_at(m, exponent_text(e), Cut::Exponent);
    assert(body.take(m.len() as int) =~= m);
    assert forall|i: int| 0 <= i < whole.len() implies !Cut::At('.').cuts(
        #[trigger] whole[i],
    ) by {
        assert(0x30 <= whole[i] as int <= 0x39);
    }
    assert(m =~= whole + (dot + part));
    lemma_cut_at(whole, dot + part, Cut::At('.'));
    assert(m.take(whole.len() as int) =~= whole);
    if point {
        assert(m.skip(whole.len() as int + 1) =~= part);
    } else {
        assert(part =~= Seq::empty());
    }
    match e {
        Some(x) => {
            let d = x.digits;
            assert(body.skip(m.len() as int + 1) =~= signed(x.sign, d));
            assert(0x30 <= d[0] as int <= 0x39);
            lemma_unsigned(x.sign, d);
            lemma_number_is_worth(d);
        },
        None => {},
    }
}

/// A number with digits before or behind a point or both, with an exponent or
/// without, is read as what it is worth in thousandths, to the nearest one,
/// and held to the largest machine integer either way.
pub proof fn law_decimals_are_read_to_the_nearest(
    sign: Option<char>,
    whole: Seq<char>,
    point: bool,
    part: Seq<char>,
    e: Option<Exponent>,
    exact: int,
)
    requires
        is_sign(sign),
        only_digits(whole),
        only_digits(part),
        whole.len() + part.len() > 0,
        !point ==> part.len() == 0,
        readable(e),
    ensures
        ({
            let t = decimal_spelled(sign, whole, point, part, e);
            let by = 3 - part.len() + exponent_worth(e);
            &&& numbers::decimal(t) is Some
            &&& exists|m: int| #[trigger]
                nearest_shifted(m, worth(whole + part), by) && numbers::decimal(t) == Some(
                    with_sign(sign, lesser(m, 0x7fff_ffff_ffff_ffff)),
                )
            &&& nearest_shifted(exact, worth(whole + part), by) ==> numbers::decimal(t) == Some(
                with_sign(sign, lesser(exact, 0x7fff_ffff_ffff_ffff)),
            )
        }),
{
    let t = decimal_spelled(sign, whole, point, part, e);
    let by = 3 - part.len() + exponent_worth(e);
    let d = whole + part;
    let k = whole.len() + exponent_worth(e) + 3;
    let m = numbers::rounded(d, k);
    lemma_scaled(sign, whole, point, part, e, 3, numbers::LARGEST as int);
    lemma_digits_joined(whole, part);
    lemma_rounded(d, k);
    assert(k - d.len() == by);
    assert(nearest_shifted(m, worth(d), by));
    if nearest_shifted(exact, worth(d), by) {
        lemma_one_nearest(exact, m, worth(d), by);
    }
}

proof fn lemma_digits_joined(a: Seq<char>, b: Seq<char>)
    requires
        only_digits(a),
        only_digits(b),
    ensures
        only_digits(a + b),
{
    assert forall|i: int| 0 <= i < (a + b).len() implies 0x30 <= (#[trigger] (a + b)[i]) as int
        <= 0x39 by {
        if i < a.len() {
            assert((a + b)[i] == a[i]);
        } else {
            assert((a + b)[i] == b[i - a.len()]);
        }
    }
}

proof fn lemma_one_nearest(a: int, b: int, v: int, by: int)
    requires
        nearest_shifted(a, v, by),
        nearest_shifted(b, v, by),
    ensures
        a == b,
{
    let t = ten(-by);
    if by < 0 {
        lemma_ten(-by);
        assert(a == b) by (nonlinear_arith)
            requires
                t >= 1,
                2 * (a * t) <= 2 * v + t < 2 * (a * t) + 2 * t,
                2 * (b * t) <= 2 * v + t < 2 * (b * t) + 2 * t,
        ;
    }
}

proof fn lemma_scaled(
    sign: Option<char>,
    whole: Seq<char>,
    point: bool,
    part: Seq<char>,
    e: Option<Exponent>,
    places: int,
    cap: int,
)
    requires
        is_sign(sign),
        only_digits(whole),
        only_digits(part),
        whole.len() + part.len() > 0,
        !point ==> part.len() == 0,
        readable(e),
    ensures
        numbers::is_decimal(decimal_spelled(sign, whole, point, part, e)),
        numbers::scaled(decimal_spelled(sign, whole, point, part, e), places, cap) == with_sign(
            sign,
            lesser(
                numbers::rounded(whole + part, whole.len() + exponent_worth(e) + places),
                cap,
            ),
        ),
{
    let dot = if point {
        seq!['.']
    } else {
        Seq::empty()
    };
    let body = whole + dot + part + exponent_text(e);
    lemma_parts(whole, point, part, e);
    assert(body[0] != '-' && body[0] != '+') by {
        if whole.len() > 0 {
            assert(body[0] == whole[0]);
        } else {
            assert(body[0] == '.');
        }
    }
    lemma_unsigned(sign, body);
    lemma_number_is_worth(whole);
    lemma_number_is_worth(part);
}

/// The same, counted in the finest unit that times are added up in.
pub proof fn law_fine_decimals_are_read_to_the_nearest(
    sign: Option<char>,
    whole: Seq<char>,
    point: bool,
    part: Seq<char>,
    e: Option<Exponent>,
    exact: int,
)
    requires
        is_sign(sign),
        only_digits(whole),
        only_digits(part),
        whole.len() + part.len() > 0,
        !point ==> part.len() == 0,
        readable(e),
        nearest_shifted(exact, worth(whole + part), 18 - part.len() + exponent_worth(e)),
    ensures
        numbers::fine_decimal(decimal_spelled(sign, whole, point, part, e)) == Some(
            with_sign(sign, lesser(exact, numbers::FINEST as int)),
        ),
{
    let d = whole + part;
    let k = whole.len() + exponent_worth(e) + 18;
    lemma_scaled(sign, whole, point, part, e, 18, numbers::FINEST as int);
    lemma_digits_joined(whole, part);
    lemma_rounded(d, k);
    lemma_one_nearest(exact, numbers::rounded(d, k), worth(d), k - d.len());
}

/// A text that holds anything but digits, a point, a sign and the mark of an
/// exponent is no number.
pub proof fn law_other_characters_are_no_number(s: Seq<char>, i: int)
    requires
        0 <= i < s.len(),
        !(0x30 <= s[i] as int <= 0x39),
        s[i] != '.' && s[i] != '-' && s[i] != '+' && s[i] != 'e' && s[i] != 'E',
    ensures
        numbers::decimal(s) is None,
        numbers::fine_decimal(s) is None,
        numbers::integer(s) is None,
{
    let body = numbers::unsigned(s);
    let j = i - (s.len() - body.len());
    assert(body[j] == s[i]);
    if numbers::is_integer(s) {
        assert(numbers::is_digit(body[j]));
    }
    if numbers::is_decimal(s) {
        let x = reading::first_cut(body, Cut::Exponent);
        crate::reading_laws::lemma_first_cut(body, Cut::Exponent);
        let m = numbers::mantissa(body);
        if j < x {
            let p = reading::first_cut(m, Cut::At('.'));
            crate::reading_laws::lemma_first_cut(m, Cut::At('.'));
            assert(m[j] == body[j]);
            if j < p {
                assert(numbers::units(m)[j] == m[j]);
                assert(numbers::is_digit(numbers::units(m)[j]));
            } else {
                assert(j != p);
                assert(numbers::fraction(m)[j - p - 1] == m[j]);
                assert(numbers::is_digit(numbers::fraction(m)[j - p - 1]));
            }
        } else {
            let ex = numbers::exponent(body);
            assert(j != x);
            assert(ex[j - x - 1] == body[j]);
            let ub = numbers::unsigned(ex);
            let k = j - x - 1 - (ex.len() - ub.len());
            assert(ub[k] == body[j]);
            assert(numbers::is_digit(ub[k]));
        }
    }
}

/// The parts of a number.
pub struct Parts {
    pub sign: Option<char>,
    pub whole: Seq<char>,
    pub point: bool,
    pub part: Seq<char>,
    pub e: Option<Exponent>,
}

proof fn lemma_signed(s: Seq<char>) -> (sign: Option<char>)
    ensures
        is_sign(sign),
        s == signed(sign, numbers::unsigned(s)),
{
    if numbers::signed(s) {
        assert(s =~= seq![s[0]] + s.skip(1));
        Some(s[0])
    } else {
        None
    }
}

/// Only digits behind a sign or without one are read as an integer.
pub proof fn law_integers_are_digits(s: Seq<char>) -> (sign: Option<char>)
    requires
        numbers::integer(s) is Some,
    ensures
        is_sign(sign),
        s.len() > (if sign is Some {
            1int
        } else {
            0
        }),
        sign is Some ==> s[0] == sign->0,
        only_digits(s.skip(
            if sign is Some {
                1
            } else {
                0
            },
        )),
{
    lemma_number_is_worth(numbers::unsigned(s));
    let sign = lemma_signed(s);
    assert(s.skip(0) =~= s);
    if sign is None && numbers::signed(s) {
        assert(s[0] == numbers::unsigned(s)[0]);
        assert(s.len() == numbers::unsigned(s).len());
    }
    if sign is Some {
        assert(s.skip(1) =~= numbers::unsigned(s));
    }
    sign
}

proof fn lemma_exponent(body: Seq<char>) -> (e: Option<Exponent>)
    requires
        numbers::has_exponent(body) ==> numbers::is_integer(numbers::exponent(body)),
    ensures
        readable(e),
        body == numbers::mantissa(body) + exponent_text(e),
{
    let m = numbers::mantissa(body);
    let x = reading::first_cut(body, Cut::Exponent);
    crate::reading_laws::lemma_first_cut(body, Cut::Exponent);
    if numbers::has_exponent(body) {
        let ex = numbers::exponent(body);
        let d = numbers::unsigned(ex);
        let sign = lemma_signed(ex);
        lemma_number_is_worth(d);
        assert(body =~= m + (seq![body[x]] + ex));
        Some(Exponent { mark: body[x], sign, digits: d })
    } else {
        assert(body =~= m + exponent_text(None));
        None
    }
}

/// Only what has the form of a number is read as one: digits before or behind a
/// point or both, behind a sign or without one, with an exponent or without.
pub proof fn law_numbers_have_their_form(s: Seq<char>) -> (n: Parts)
    requires
        numbers::decimal(s) is Some || numbers::fine_decimal(s) is Some,
    ensures
        is_sign(n.sign),
        only_digits(n.whole),
        only_digits(n.part),
        n.whole.len() + n.part.len() > 0,
        !n.point ==> n.part.len() == 0,
        readable(n.e),
        s == decimal_spelled(n.sign, n.whole, n.point, n.part, n.e),
{
    let sign = lemma_signed(s);
    let body = numbers::unsigned(s);
    let m = numbers::mantissa(body);
    let k = reading::first_cut(m, Cut::At('.'));
    crate::reading_laws::lemma_first_cut(m, Cut::At('.'));
    let whole = numbers::units(m);
    let part = numbers::fraction(m);
    let point = k < m.len();
    lemma_number_is_worth(whole);
    lemma_number_is_worth(part);
    let e = lemma_exponent(body);
    let dot = if point {
        seq!['.']
    } else {
        Seq::empty()
    };
    assert(m =~= whole + dot + part);
    assert(body =~= whole + dot + part + exponent_text(e));
    Parts { sign, whole, point, part, e }
}

} // verus!
