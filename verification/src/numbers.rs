//! Reading numbers.

use vstd::prelude::*;
use vstd::slice::slice_subrange;

use crate::reading;
use crate::reading::Cut;

verus! {

/// Numbers with a fraction are held to as many thousandths, either way, as a
/// machine integer can count.
pub const LARGEST: i64 = 0x7fff_ffff_ffff_ffff;

/// Eighteen decimals: what numbers are read to where they are still to be
/// multiplied.
pub const FINE_PLACES: i128 = 18;

/// As many of those as `LARGEST` thousandths are.
pub const FINEST: i128 = 9_223_372_036_854_775_807_000_000_000_000_000;

pub open spec fn is_digit(c: char) -> bool {
    '0' <= c <= '9'
}

pub open spec fn all_digits(s: Seq<char>) -> bool {
    forall|i: int| 0 <= i < s.len() ==> is_digit(#[trigger] s[i])
}

pub open spec fn digit_value(c: char) -> int {
    c as int - '0' as int
}

/// The number that decimal digits spell.
pub open spec fn number(s: Seq<char>) -> int
    decreases s.len(),
{
    if s.len() == 0 {
        0
    } else {
        10 * number(s.drop_last()) + digit_value(s.last())
    }
}

/// Whether a number starts with a sign.
pub open spec fn signed(s: Seq<char>) -> bool {
    s.len() > 0 && (s[0] == '-' || s[0] == '+')
}

pub open spec fn negative(s: Seq<char>) -> bool {
    s.len() > 0 && s[0] == '-'
}

/// A number without its sign.
pub open spec fn unsigned(s: Seq<char>) -> Seq<char> {
    if signed(s) {
        s.skip(1)
    } else {
        s
    }
}

/// Digits with a sign or without.
pub open spec fn is_integer(s: Seq<char>) -> bool {
    unsigned(s).len() > 0 && all_digits(unsigned(s))
}

/// The integer that a text spells, if it spells one.
pub open spec fn integer_value(s: Seq<char>) -> int {
    if negative(s) {
        -number(unsigned(s))
    } else {
        number(unsigned(s))
    }
}

/// The machine integer that a text spells, if it spells one.
pub open spec fn integer(s: Seq<char>) -> Option<int> {
    if is_integer(s) && i64::MIN <= integer_value(s) <= i64::MAX {
        Some(integer_value(s))
    } else {
        None
    }
}

pub open spec fn capped(v: int, cap: int) -> int {
    if v <= cap {
        v
    } else {
        cap
    }
}

proof fn lemma_number_grows(s: Seq<char>)
    requires
        all_digits(s),
    ensures
        number(s) >= 0,
        s.len() > 0 ==> number(s) >= 10 * number(s.drop_last()) >= number(s.drop_last()),
    decreases s.len(),
{
    if s.len() > 0 {
        assert(is_digit(s[s.len() - 1]));
        assert(all_digits(s.drop_last())) by {
            assert forall|i: int| 0 <= i < s.drop_last().len() implies is_digit(
                #[trigger] s.drop_last()[i],
            ) by {
                assert(s.drop_last()[i] == s[i]);
            }
        }
        lemma_number_grows(s.drop_last());
    }
}

fn without_sign(s: &[char]) -> (r: (bool, &[char]))
    ensures
        r.0 == negative(s@),
        r.1@ == unsigned(s@),
{
    let n: usize = s.len();
    if n > 0 && (s[0] == '-' || s[0] == '+') {
        assert(s@.subrange(1, n as int) =~= s@.skip(1));
        (s[0] == '-', slice_subrange(s, 1, n))
    } else {
        (false, s)
    }
}

/// The number that digits spell, or the cap if that is less; nothing, if
/// something else than a digit is among them.
fn read_digits(s: &[char], cap: i128) -> (r: Option<i128>)
    requires
        0 <= cap <= 0x100_0000_0000_0000_0000_0000_0000_0000,
    ensures
        r is Some <==> all_digits(s@),
        r matches Some(v) ==> v == capped(number(s@), cap as int) && v >= 0,
{
    let n: usize = s.len();
    let mut v: i128 = 0;
    let mut i: usize = 0;
    assert(s@.take(0) =~= Seq::empty());
    while i < n
        invariant
            i <= n,
            n == s@.len(),
            0 <= v <= cap <= 0x100_0000_0000_0000_0000_0000_0000_0000,
            all_digits(s@.take(i as int)),
            v == capped(number(s@.take(i as int)), cap as int),
        decreases n - i,
    {
        let c: char = s[i];
        if !('0' <= c && c <= '9') {
            assert(!is_digit(s@[i as int]));
            return None;
        }
        let ghost here = s@.take(i + 1);
        proof {
            assert(here.drop_last() =~= s@.take(i as int));
            assert(here.last() == c);
            assert forall|j: int| 0 <= j < here.len() implies is_digit(#[trigger] here[j]) by {
                if j < i {
                    assert(s@.take(i as int)[j] == here[j]);
                }
            }
            lemma_number_grows(here);
            lemma_number_grows(s@.take(i as int));
        }
        let d: i128 = c as u32 as i128 - 48;
        let next: i128 = 10 * v + d;
        v = if next <= cap {
            next
        } else {
            cap
        };
        i += 1;
    }
    assert(s@.take(n as int) =~= s@);
    Some(v)
}

/// Read an integer.
pub fn read_integer(s: &[char]) -> (r: Option<i64>)
    ensures
        r is Some <==> integer(s@) is Some,
        r matches Some(v) ==> integer(s@) == Some(v as int),
{
    let (minus, body): (bool, &[char]) = without_sign(s);
    if body.len() == 0 {
        return None;
    }
    match read_digits(body, 0x8000_0000_0000_0001) {
        None => None,
        Some(size) => {
            let v: i128 = if minus {
                -size
            } else {
                size
            };
            if -0x8000_0000_0000_0000 <= v && v <= 0x7fff_ffff_ffff_ffff {
                Some(v as i64)
            } else {
                None
            }
        },
    }
}

// ---------------------------------------------------------------------------
// Numbers with a fraction
// ---------------------------------------------------------------------------

/// A digit of a row of digits that goes on with zeros for ever.
pub open spec fn digit_at(d: Seq<char>, k: int) -> int {
    if 0 <= k < d.len() {
        digit_value(d[k])
    } else {
        0
    }
}

/// The number that the first `k` digits of such a row spell.
pub open spec fn leading(d: Seq<char>, k: int) -> int
    decreases k,
{
    if k <= 0 {
        0
    } else {
        10 * leading(d, k - 1) + digit_at(d, k - 1)
    }
}

/// The number that the first `k` digits spell, rounded by the next digit.
pub open spec fn rounded(d: Seq<char>, k: int) -> int {
    if digit_at(d, k) >= 5 {
        leading(d, k) + 1
    } else {
        leading(d, k)
    }
}

/// What stands before the exponent.
pub open spec fn mantissa(s: Seq<char>) -> Seq<char> {
    s.take(reading::first_cut(s, Cut::Exponent))
}

/// The digits before the point.
pub open spec fn units(m: Seq<char>) -> Seq<char> {
    m.take(reading::first_cut(m, Cut::At('.')))
}

/// The digits behind the point.
pub open spec fn fraction(m: Seq<char>) -> Seq<char> {
    if reading::first_cut(m, Cut::At('.')) < m.len() {
        m.skip(reading::first_cut(m, Cut::At('.')) + 1)
    } else {
        Seq::empty()
    }
}

pub open spec fn has_exponent(s: Seq<char>) -> bool {
    reading::first_cut(s, Cut::Exponent) < s.len()
}

pub open spec fn exponent(s: Seq<char>) -> Seq<char> {
    s.skip(reading::first_cut(s, Cut::Exponent) + 1)
}

/// Whether a text spells a number: a sign or none, digits with a point before,
/// behind or among them or without one, and an exponent or none.
pub open spec fn is_decimal(s: Seq<char>) -> bool {
    let body = unsigned(s);
    let m = mantissa(body);
    &&& all_digits(units(m))
    &&& all_digits(fraction(m))
    &&& units(m).len() + fraction(m).len() > 0
    &&& has_exponent(body) ==> is_integer(exponent(body))
}

/// The number that a text spells, counted in units of so many decimals, to the
/// nearest unit, and held to the cap either way.
pub open spec fn scaled(s: Seq<char>, places: int, cap: int) -> int {
    let body = unsigned(s);
    let m = mantissa(body);
    let shift = if has_exponent(body) {
        integer_value(exponent(body))
    } else {
        0
    };
    let size = capped(rounded(units(m) + fraction(m), units(m).len() + shift + places), cap);
    if negative(s) {
        -size
    } else {
        size
    }
}

/// The number that a text spells, in thousandths, if it spells one.
pub open spec fn decimal(s: Seq<char>) -> Option<int> {
    if is_decimal(s) {
        Some(scaled(s, 3, LARGEST as int))
    } else {
        None
    }
}

/// The number that a text spells, to eighteen decimals, if it spells one.
pub open spec fn fine_decimal(s: Seq<char>) -> Option<int> {
    if is_decimal(s) {
        Some(scaled(s, FINE_PLACES as int, FINEST as int))
    } else {
        None
    }
}

proof fn lemma_leading_grows(d: Seq<char>, j: int, k: int)
    requires
        all_digits(d),
        j <= k,
    ensures
        0 <= leading(d, j) <= leading(d, k),
    decreases k - j, k,
{
    if k > 0 {
        assert(digit_at(d, k - 1) >= 0) by {
            if k - 1 < d.len() {
                assert(is_digit(d[k - 1]));
            }
        }
        if j < k {
            lemma_leading_grows(d, j, k - 1);
        } else {
            lemma_leading_grows(d, k - 1, k - 1);
        }
    }
}

/// Past the last digit the number stays nothing, or grows without end.
proof fn lemma_leading_past(d: Seq<char>, k: int)
    requires
        all_digits(d),
        k >= d.len(),
    ensures
        leading(d, d.len() as int) == 0 ==> leading(d, k) == 0,
        leading(d, d.len() as int) > 0 ==> leading(d, k) > k - d.len(),
    decreases k,
{
    lemma_leading_grows(d, d.len() as int, k);
    if k > d.len() {
        lemma_leading_past(d, k - 1);
    }
}

/// The leading digits as a number, or the cap if that is less.
fn read_leading(d: &[char], k: i128, cap: i128) -> (v: i128)
    requires
        all_digits(d@),
        0 < cap <= FINEST,
    ensures
        v == capped(leading(d@, k as int), cap as int),
        0 <= v <= cap,
{
    let n: usize = d.len();
    let mut v: i128 = 0;
    let mut i: usize = 0;
    while i < n && (i as i128) < k
        invariant
            i <= n,
            n == d@.len(),
            all_digits(d@),
            0 <= v <= cap <= FINEST,
            i == 0 || i <= k,
            v == capped(leading(d@, i as int), cap as int),
        decreases n - i,
    {
        assert(is_digit(d@[i as int]));
        proof {
            lemma_leading_grows(d@, i as int, i as int);
        }
        let next: i128 = 10 * v + (d[i] as u32 as i128 - 48);
        v = if next <= cap {
            next
        } else {
            cap
        };
        i += 1;
    }
    if i as i128 >= k {
        return v;
    }
    proof {
        lemma_leading_past(d@, k as int);
    }
    if v == 0 {
        return 0;
    }
    let mut j: i128 = i as i128;
    while j < k && v < cap
        invariant
            n == d@.len(),
            n <= j <= k,
            all_digits(d@),
            0 < v <= cap <= FINEST,
            v == capped(leading(d@, j as int), cap as int),
        decreases cap - v,
    {
        let next: i128 = 10 * v;
        v = if next <= cap {
            next
        } else {
            cap
        };
        j += 1;
    }
    proof {
        lemma_leading_grows(d@, j as int, k as int);
    }
    v
}

fn read_rounded(d: &[char], k: i128, cap: i128) -> (v: i128)
    requires
        all_digits(d@),
        0 < cap <= FINEST,
    ensures
        v == capped(rounded(d@, k as int), cap as int),
        0 <= v <= cap,
{
    let v: i128 = read_leading(d, k, cap);
    let n: usize = d.len();
    if 0 <= k && k < n as i128 {
        let at: usize = k as usize;
        assert(is_digit(d@[at as int]));
        if d[at] as u32 >= 53 && v < cap {
            return v + 1;
        }
    }
    v
}

/// An exponent far out of range rounds to what the nearest in range does.
proof fn lemma_far_exponent(d: Seq<char>, k: int, near: int, cap: int)
    requires
        all_digits(d),
        d.len() <= 0xffff_ffff_ffff_ffff,
        0 < cap <= FINEST,
        k == near || (k < near && near < 0) || (k > near && near
            >= 0x100_0000_0000_0000_0000_0000_0000_0000),
    ensures
        capped(rounded(d, k), cap) == capped(rounded(d, near), cap),
{
    if k > near {
        lemma_leading_past(d, k);
        lemma_leading_past(d, near);
        lemma_leading_grows(d, d.len() as int, d.len() as int);
    }
}

/// Read a number with a fraction, in units of so many decimals.
fn read_scaled(s: &[char], places: i128, cap: i128) -> (r: Option<i128>)
    requires
        0 <= places <= FINE_PLACES,
        0 < cap <= FINEST,
    ensures
        r is Some <==> is_decimal(s@),
        r matches Some(v) ==> v == scaled(s@, places as int, cap as int) && -cap <= v <= cap,
{
    let (minus, body): (bool, &[char]) = without_sign(s);
    let n: usize = body.len();
    let e: usize = reading::find_cut(body, Cut::Exponent);
    let m: &[char] = slice_subrange(body, 0, e);
    assert(m@ =~= mantissa(body@));
    let p: usize = reading::find_cut(m, Cut::At('.'));
    let mut all: Vec<char> = Vec::new();
    let mut i: usize = 0;
    while i < e
        invariant
            i <= e,
            e == m@.len(),
            p <= e,
            all@ == if i <= p {
                m@.take(i as int)
            } else {
                m@.take(p as int) + m@.subrange(p + 1, i as int)
            },
        decreases e - i,
    {
        let ghost before = all@;
        if i != p {
            all.push(m[i]);
        }
        proof {
            if i < p {
                assert(before.push(m@[i as int]) =~= m@.take(i + 1));
            } else if i == p {
                assert(before =~= m@.take(p as int) + m@.subrange(p + 1, i + 1));
            } else {
                assert(before.push(m@[i as int]) =~= m@.take(p as int) + m@.subrange(
                    p + 1,
                    i + 1,
                ));
            }
        }
        i += 1;
    }
    assert(all@ =~= units(m@) + fraction(m@));
    proof {
        let u = units(m@);
        let f = fraction(m@);
        if all_digits(all@) {
            assert forall|j: int| 0 <= j < u.len() implies is_digit(#[trigger] u[j]) by {
                assert(all@[j] == u[j]);
            }
            assert forall|j: int| 0 <= j < f.len() implies is_digit(#[trigger] f[j]) by {
                assert(all@[u.len() + j] == f[j]);
            }
        }
        if all_digits(u) && all_digits(f) {
            assert forall|j: int| 0 <= j < all@.len() implies is_digit(#[trigger] all@[j]) by {
                if j < u.len() {
                    assert(all@[j] == u[j]);
                } else {
                    assert(all@[j] == f[j - u.len()]);
                }
            }
        }
    }
    if all.len() == 0 || read_digits(all.as_slice(), 0).is_none() {
        return None;
    }
    let mut shift: i128 = 0;
    let ghost exact: int = 0;
    if e < n {
        let x: &[char] = slice_subrange(body, e + 1, n);
        assert(x@ =~= exponent(body@));
        let (down, power): (bool, &[char]) = without_sign(x);
        if power.len() == 0 {
            return None;
        }
        match read_digits(power, 0x100_0000_0000_0000_0000_0000_0000_0000) {
            None => {
                return None;
            },
            Some(size) => {
                shift = if down {
                    -size
                } else {
                    size
                };
                proof {
                    exact = integer_value(exponent(body@));
                }
            },
        }
    }
    let units_len: usize = p;
    let k: i128 = units_len as i128 + shift + places;
    proof {
        lemma_far_exponent(all@, units_len + exact + places, k as int, cap as int);
    }
    let size: i128 = read_rounded(all.as_slice(), k, cap);
    Some(
        if minus {
            -size
        } else {
            size
        },
    )
}

/// Read a number with a fraction, in thousandths.
pub fn read_decimal(s: &[char]) -> (r: Option<i64>)
    ensures
        r is Some <==> decimal(s@) is Some,
        r matches Some(v) ==> decimal(s@) == Some(v as int) && -LARGEST <= v <= LARGEST,
{
    match read_scaled(s, 3, LARGEST as i128) {
        Some(v) => Some(v as i64),
        None => None,
    }
}

/// Read a number with a fraction, to eighteen decimals.
pub fn read_fine_decimal(s: &[char]) -> (r: Option<i128>)
    ensures
        r is Some <==> fine_decimal(s@) is Some,
        r matches Some(v) ==> fine_decimal(s@) == Some(v as int) && -FINEST <= v <= FINEST,
{
    read_scaled(s, FINE_PLACES, FINEST)
}

} // verus!
