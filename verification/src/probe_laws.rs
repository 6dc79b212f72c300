//! What a movie's report gives, line by line and word by word.

use vstd::prelude::*;

use crate::numbers;
use crate::probe;
use crate::reading;
use crate::reading::Cut;
use crate::reading_laws;
use crate::reading_laws::put_together;
use crate::text_laws;
use crate::text_laws::{only_digits, worth};

verus! {

// ---------------------------------------------------------------------------
// The first that gives anything
// ---------------------------------------------------------------------------

/// The first answer is the first: where item `k` gives one and none before it
/// does, it is that of item `k`, whatever comes behind it.
pub proof fn law_the_first_answer_counts<A>(n: nat, f: spec_fn(int) -> Option<A>, k: int)
    requires
        0 <= k < n,
        f(k) is Some,
        forall|j: int| 0 <= j < k ==> (#[trigger] f(j)) is None,
    ensures
        probe::first_some(n, f) == f(k),
    decreases n,
{
    if k < n - 1 {
        law_the_first_answer_counts((n - 1) as nat, f, k);
    } else {
        law_no_answer_is_none((n - 1) as nat, f);
    }
}

/// Where no item gives an answer there is none.
pub proof fn law_no_answer_is_none<A>(n: nat, f: spec_fn(int) -> Option<A>)
    requires
        forall|j: int| 0 <= j < n ==> (#[trigger] f(j)) is None,
    ensures
        probe::first_some(n, f) is None,
    decreases n,
{
    if n > 0 {
        law_no_answer_is_none((n - 1) as nat, f);
        assert(f(n - 1) is None);
    }
}

/// Whether a text is made of parts with one character between each two, which
/// none of them holds.
pub open spec fn made_of(s: Seq<char>, parts: Seq<Seq<char>>, c: char) -> bool {
    &&& parts.len() > 0
    &&& s == put_together(parts, Seq::new((parts.len() - 1) as nat, |i: int| c))
    &&& forall|i: int, j: int|
        0 <= i < parts.len() && 0 <= j < parts[i].len() ==> #[trigger] parts[i][j] != c
}

proof fn lemma_made_of(s: Seq<char>, parts: Seq<Seq<char>>, c: char)
    requires
        made_of(s, parts, c),
    ensures
        reading::pieces(s, Cut::At(c)) == parts,
{
    let between = Seq::new((parts.len() - 1) as nat, |i: int| c);
    reading_laws::law_pieces_are_what_was_put_together(parts, between, c);
}

/// The duration of a report is what the first of its lines to give one gives.
pub proof fn law_the_duration_is_of_the_first_line(
    text: Seq<char>,
    lines: Seq<Seq<char>>,
    k: int,
)
    requires
        made_of(text, lines, '\n'),
        0 <= k <= lines.len(),
        forall|j: int| 0 <= j < k ==> probe::line_duration(#[trigger] lines[j]) is None,
        k < lines.len() ==> probe::line_duration(lines[k]) is Some,
    ensures
        k < lines.len() ==> probe::report_duration(text) == probe::line_duration(lines[k]),
        k == lines.len() ==> probe::report_duration(text) is None,
{
    lemma_made_of(text, lines, '\n');
    let f = |i: int| probe::line_duration(lines[i]);
    if k < lines.len() {
        assert(f(k) is Some);
        law_the_first_answer_counts(lines.len(), f, k);
    } else {
        law_no_answer_is_none(lines.len(), f);
    }
}

/// The dimensions of a report are what the first of its lines to give any
/// gives.
pub proof fn law_the_dimensions_are_of_the_first_line(
    text: Seq<char>,
    lines: Seq<Seq<char>>,
    k: int,
)
    requires
        made_of(text, lines, '\n'),
        0 <= k <= lines.len(),
        forall|j: int| 0 <= j < k ==> probe::line_dims(#[trigger] lines[j]) is None,
        k < lines.len() ==> probe::line_dims(lines[k]) is Some,
    ensures
        k < lines.len() ==> probe::report_dims(text) == probe::line_dims(lines[k]),
        k == lines.len() ==> probe::report_dims(text) is None,
{
    lemma_made_of(text, lines, '\n');
    let f = |i: int| probe::line_dims(lines[i]);
    if k < lines.len() {
        assert(f(k) is Some);
        law_the_first_answer_counts(lines.len(), f, k);
    } else {
        law_no_answer_is_none(lines.len(), f);
    }
}

/// The frame rate of a report is what the first of its lines to give one
/// gives.
pub proof fn law_the_frame_rate_is_of_the_first_line(
    text: Seq<char>,
    lines: Seq<Seq<char>>,
    k: int,
)
    requires
        made_of(text, lines, '\n'),
        0 <= k <= lines.len(),
        forall|j: int| 0 <= j < k ==> probe::line_fps(#[trigger] lines[j]) is None,
        k < lines.len() ==> probe::line_fps(lines[k]) is Some,
    ensures
        k < lines.len() ==> probe::report_fps(text) == probe::line_fps(lines[k]),
        k == lines.len() ==> probe::report_fps(text) is None,
{
    lemma_made_of(text, lines, '\n');
    let f = |i: int| probe::line_fps(lines[i]);
    if k < lines.len() {
        assert(f(k) is Some);
        law_the_first_answer_counts(lines.len(), f, k);
    } else {
        law_no_answer_is_none(lines.len(), f);
    }
}

/// A line about a video stream gives the dimensions of the first of its fields
/// to give any.
pub proof fn law_the_dimensions_are_of_the_first_field(
    line: Seq<char>,
    fields: Seq<Seq<char>>,
    k: int,
)
    requires
        probe::about_video(line),
        made_of(reading::trimmed(line), fields, ','),
        0 <= k <= fields.len(),
        forall|j: int| 0 <= j < k ==> probe::field_dims(#[trigger] fields[j]) is None,
        k < fields.len() ==> probe::field_dims(fields[k]) is Some,
    ensures
        k < fields.len() ==> probe::line_dims(line) == probe::field_dims(fields[k]),
        k == fields.len() ==> probe::line_dims(line) is None,
{
    lemma_made_of(reading::trimmed(line), fields, ',');
    let f = |i: int| probe::field_dims(fields[i]);
    if k < fields.len() {
        assert(f(k) is Some);
        law_the_first_answer_counts(fields.len(), f, k);
    } else {
        law_no_answer_is_none(fields.len(), f);
    }
}

/// A line about a video stream gives the frame rate of the first of its fields
/// to give one.
pub proof fn law_the_frame_rate_is_of_the_first_field(
    line: Seq<char>,
    fields: Seq<Seq<char>>,
    k: int,
)
    requires
        probe::about_video(line),
        made_of(reading::trimmed(line), fields, ','),
        0 <= k <= fields.len(),
        forall|j: int| 0 <= j < k ==> probe::field_fps(#[trigger] fields[j]) is None,
        k < fields.len() ==> probe::field_fps(fields[k]) is Some,
    ensures
        k < fields.len() ==> probe::line_fps(line) == probe::field_fps(fields[k]),
        k == fields.len() ==> probe::line_fps(line) is None,
{
    lemma_made_of(reading::trimmed(line), fields, ',');
    let f = |i: int| probe::field_fps(fields[i]);
    if k < fields.len() {
        assert(f(k) is Some);
        law_the_first_answer_counts(fields.len(), f, k);
    } else {
        law_no_answer_is_none(fields.len(), f);
    }
}

/// A field gives the dimensions of the first of its words to give any.
pub proof fn law_the_dimensions_are_of_the_first_word(
    words: Seq<Seq<char>>,
    between: Seq<char>,
    k: int,
)
    requires
        words.len() == between.len() + 1,
        forall|i: int| 0 <= i < between.len() ==> reading::white(#[trigger] between[i]),
        forall|i: int, j: int|
            0 <= i < words.len() && 0 <= j < words[i].len() ==> !reading::white(
                #[trigger] words[i][j],
            ),
        0 <= k <= words.len(),
        forall|j: int| 0 <= j < k ==> probe::dims(#[trigger] words[j]) is None,
        k < words.len() ==> probe::dims(words[k]) is Some,
    ensures
        k < words.len() ==> probe::field_dims(put_together(words, between)) == probe::dims(
            words[k],
        ),
        k == words.len() ==> probe::field_dims(put_together(words, between)) is None,
{
    reading_laws::law_words_are_what_was_put_together(words, between);
    let f = |i: int| probe::dims(words[i]);
    if k < words.len() {
        assert(f(k) is Some);
        law_the_first_answer_counts(words.len(), f, k);
    } else {
        law_no_answer_is_none(words.len(), f);
    }
}

/// Lines that are not about a video stream give neither dimensions nor a frame
/// rate.
pub proof fn law_other_streams_give_no_picture(line: Seq<char>)
    requires
        forall|i: int| !reading::holds_at(reading::trimmed(line), ": Video:"@, i),
    ensures
        probe::line_dims(line) is None,
        probe::line_fps(line) is None,
{
}

// ---------------------------------------------------------------------------
// What a word gives
// ---------------------------------------------------------------------------

/// What stands behind the last digit of a text is cut off.
pub proof fn law_texts_are_cut_behind_the_last_digit(h: Seq<char>, tail: Seq<char>)
    requires
        h.len() > 0 ==> 0x30 <= h.last() as int <= 0x39,
        forall|i: int| 0 <= i < tail.len() ==> !(0x30 <= (#[trigger] tail[i]) as int <= 0x39),
    ensures
        probe::to_last_digit(h + tail) == h,
    decreases tail.len(),
{
    let s = h + tail;
    if tail.len() == 0 {
        assert(s =~= h);
        if h.len() > 0 {
            assert(numbers::is_digit(s.last()));
        }
    } else {
        assert(s.last() == tail[tail.len() - 1]);
        assert(!numbers::is_digit(s.last()));
        assert(s.drop_last() =~= h + tail.drop_last());
        law_texts_are_cut_behind_the_last_digit(h, tail.drop_last());
    }
}

/// A word gives dimensions exactly when an integer stands before its first `x`
/// and another behind it, up to the last digit there, both sixteen at least.
pub proof fn law_a_word_gives_what_stands_around_its_cross(w: Seq<char>, rest: Seq<char>)
    requires
        forall|i: int| 0 <= i < w.len() ==> #[trigger] w[i] != 'x',
    ensures
        ({
            let word = w + seq!['x'] + rest;
            let a = numbers::integer(w);
            let b = numbers::integer(probe::to_last_digit(rest));
            &&& a is Some && b is Some && a->0 >= 16 && b->0 >= 16 ==> probe::dims(word) == Some(
                (a->0, b->0),
            )
            &&& a is None || b is None || a->0 < 16 || b->0 < 16 ==> probe::dims(word) is None
        }),
{
    let s = w + seq!['x'] + rest;
    let x = reading::first_cut(s, Cut::At('x'));
    reading_laws::law_the_first_cut_is_the_first(s, 'x');
    assert(s[w.len() as int] == 'x');
    assert(x == w.len()) by {
        if x < w.len() {
            assert(s[x] == w[x]);
        }
    }
    assert(s.take(x) =~= w);
    assert(s.skip(x + 1) =~= rest);
}

/// A word of digits, an `x`, digits and anything that is not a digit gives the
/// two numbers, unless one of them is under sixteen or too large to count.
pub proof fn law_a_word_gives_its_two_numbers(w: Seq<char>, h: Seq<char>, tail: Seq<char>)
    requires
        w.len() > 0,
        h.len() > 0,
        only_digits(w),
        only_digits(h),
        forall|i: int| 0 <= i < tail.len() ==> !(0x30 <= (#[trigger] tail[i]) as int <= 0x39),
    ensures
        16 <= worth(w) <= i64::MAX && 16 <= worth(h) <= i64::MAX ==> probe::dims(
            w + seq!['x'] + h + tail,
        ) == Some((worth(w), worth(h))),
        worth(w) < 16 || worth(h) < 16 ==> probe::dims(w + seq!['x'] + h + tail) is None,
        worth(w) > i64::MAX || worth(h) > i64::MAX ==> probe::dims(
            w + seq!['x'] + h + tail,
        ) is None,
{
    let s = w + seq!['x'] + h + tail;
    let x = reading::first_cut(s, Cut::At('x'));
    reading_laws::law_the_first_cut_is_the_first(s, 'x');
    assert(s[w.len() as int] == 'x');
    assert(x == w.len()) by {
        if x < w.len() {
            assert(s[x] == w[x]);
        }
    }
    assert(s.take(x) =~= w);
    assert(s.skip(x + 1) =~= h + tail);
    assert(0x30 <= h[h.len() - 1] as int <= 0x39);
    law_texts_are_cut_behind_the_last_digit(h, tail);
    assert(0x30 <= w[0] as int <= 0x39);
    assert(0x30 <= h[0] as int <= 0x39);
    text_laws::law_integers_are_read(None, w);
    text_laws::law_integers_are_read(None, h);
}

/// A word without an `x` gives no dimensions.
pub proof fn law_a_word_without_a_cross_gives_none(s: Seq<char>)
    requires
        forall|i: int| 0 <= i < s.len() ==> #[trigger] s[i] != 'x',
    ensures
        probe::dims(s) is None,
{
    reading_laws::law_the_first_cut_is_the_first(s, 'x');
}

/// A field that ends in `fps` gives the number before it, whatever white space
/// stands around.
pub proof fn law_a_field_gives_its_frame_rate(
    before: Seq<char>,
    number: Seq<char>,
    between: Seq<char>,
    behind: Seq<char>,
)
    requires
        forall|i: int| 0 <= i < before.len() ==> reading::white(#[trigger] before[i]),
        forall|i: int| 0 <= i < between.len() ==> reading::white(#[trigger] between[i]),
        forall|i: int| 0 <= i < behind.len() ==> reading::white(#[trigger] behind[i]),
        number.len() > 0,
        !reading::white(number[0]),
        !reading::white(number.last()),
    ensures
        probe::field_fps(before + number + between + " fps"@ + behind) == numbers::decimal(number),
{
    reveal_strlit(" fps");
    let core = number + between + " fps"@;
    let all = before + number + between + " fps"@ + behind;
    assert(core[0] == number[0]);
    assert(core.last() == 's');
    assert(all =~= before + core + behind);
    reading_laws::law_trimming_takes_the_ends_off(before, core, behind);
    let at = core.len() - 4;
    assert(core.subrange(at, at + 4) =~= " fps"@);
    assert(core.take(at) =~= Seq::empty() + number + between);
    reading_laws::law_trimming_takes_the_ends_off(Seq::empty(), number, between);
}

/// A field that does not end in `fps` gives none.
pub proof fn law_a_field_without_a_rate_gives_none(field: Seq<char>)
    requires
        forall|head: Seq<char>| reading::trimmed(field) != #[trigger] (head + " fps"@),
    ensures
        probe::field_fps(field) is None,
{
    let t = reading::trimmed(field);
    let at = t.len() - " fps"@.len();
    if reading::holds_at(t, " fps"@, at) {
        reading_laws::law_what_a_text_holds_stands_in_it(t, " fps"@, at);
        assert(t =~= t.take(at) + " fps"@);
    }
}

// ---------------------------------------------------------------------------
// Durations
// ---------------------------------------------------------------------------

/// Rounding to the nearest: never more than half a unit off, away from zero
/// where it is just that, and as far below zero as above.
pub proof fn law_rounding_is_to_the_nearest(v: int, unit: int)
    requires
        unit > 0,
    ensures
        -unit <= 2 * (unit * probe::nearest(v, unit) - v) <= unit,
        v >= 0 && 2 * (unit * probe::nearest(v, unit) - v) == -unit ==> false,
        probe::nearest(-v, unit) == -probe::nearest(v, unit),
{
    let a = if v >= 0 {
        v
    } else {
        -v
    };
    let q = (a + unit / 2) / unit;
    let r = (a + unit / 2) % unit;
    assert(a + unit / 2 == unit * q + r && 0 <= r < unit) by {
        vstd::arithmetic::div_mod::lemma_fundamental_div_mod(a + unit / 2, unit);
    }
    assert(unit * (-q) == -(unit * q)) by (nonlinear_arith);
    if v == 0 {
        vstd::arithmetic::div_mod::lemma_basic_div(unit / 2, unit);
    }
}

/// The parts of a time count by the hour, the minute and the second, and the
/// sum is rounded once, to the nearest thousandth. What stands behind a third
/// colon does not count, and without three numbers there is no time.
pub proof fn law_times_are_added_up_before_rounding(v: Seq<char>, parts: Seq<Seq<char>>)
    requires
        made_of(v, parts, ':'),
    ensures
        parts.len() < 3 ==> probe::hms(v) is None,
        parts.len() >= 3 ==> {
            let x = numbers::fine_decimal(reading::trimmed(parts[0]));
            let y = numbers::fine_decimal(parts[1]);
            let z = numbers::fine_decimal(parts[2]);
            &&& x is None || y is None || z is None ==> probe::hms(v) is None
            &&& x is Some && y is Some && z is Some ==> (probe::hms(v) matches Some(ms) && {
                let off = 2 * (1_000_000_000_000_000 * ms - (3600 * x->0 + 60 * y->0 + z->0));
                ||| -1_000_000_000_000_000 <= off <= 1_000_000_000_000_000
                ||| ms == i64::MAX && off < 0
                ||| ms == -i64::MAX && off > 0
            })
        },
{
    lemma_made_of(v, parts, ':');
    if parts.len() >= 3 {
        let x = numbers::fine_decimal(reading::trimmed(parts[0]));
        let y = numbers::fine_decimal(parts[1]);
        let z = numbers::fine_decimal(parts[2]);
        if x is Some && y is Some && z is Some {
            law_rounding_is_to_the_nearest(
                3600 * x->0 + 60 * y->0 + z->0,
                1_000_000_000_000_000,
            );
        }
    }
}

proof fn lemma_three_parts(h: Seq<char>, m: Seq<char>, s: Seq<char>)
    requires
        forall|i: int| 0 <= i < h.len() ==> #[trigger] h[i] != ':',
        forall|i: int| 0 <= i < m.len() ==> #[trigger] m[i] != ':',
        forall|i: int| 0 <= i < s.len() ==> #[trigger] s[i] != ':',
    ensures
        made_of(h + seq![':'] + m + seq![':'] + s, seq![h, m, s], ':'),
{
    let v = h + seq![':'] + m + seq![':'] + s;
    let parts = seq![h, m, s];
    let between = Seq::new(2, |i: int| ':');
    let two = seq![h, m];
    assert(parts.drop_last() =~= two);
    assert(two.drop_last() =~= seq![h]);
    assert(between.drop_last() =~= seq![':']);
    assert(put_together(seq![h], seq![':'].drop_last()) == h);
    assert(put_together(two, seq![':']) =~= h + seq![':'] + m);
    assert(put_together(parts, between) =~= v);
    assert forall|i: int, j: int|
        0 <= i < parts.len() && 0 <= j < parts[i].len() implies #[trigger] parts[i][j] != ':' by {
        assert(parts[i] == h || parts[i] == m || parts[i] == s);
    }
}

/// Hours, minutes and seconds with up to three decimals, all of a size that can
/// be counted, are exactly that many thousandths.
pub proof fn law_a_duration_is_what_it_says(
    h: Seq<char>,
    m: Seq<char>,
    s: Seq<char>,
    part: Seq<char>,
    thousandths: int,
)
    requires
        only_digits(h) && h.len() > 0 && worth(h) < 1_000_000_000,
        only_digits(m) && m.len() > 0 && worth(m) < 1_000_000_000,
        only_digits(s) && s.len() > 0 && worth(s) < 1_000_000_000,
        only_digits(part) && part.len() <= 3,
        thousandths == worth(s + part) * text_laws::ten(3 - part.len()),
    ensures
        probe::hms(h + seq![':'] + m + seq![':'] + (s + seq!['.'] + part)) == Some(
            3_600_000 * worth(h) + 60_000 * worth(m) + thousandths,
        ),
{
    let sec = s + seq!['.'] + part;
    lemma_fine_whole(h);
    lemma_fine_whole(m);
    lemma_fine_seconds(s, part, thousandths);
    lemma_small(s, part);
    lemma_no_colon(h);
    lemma_no_colon(m);
    lemma_no_colon(s);
    lemma_no_colon(part);
    assert forall|i: int| 0 <= i < sec.len() implies #[trigger] sec[i] != ':' by {
        if i < s.len() {
            assert(sec[i] == s[i]);
        } else if i > s.len() {
            assert(sec[i] == part[i - s.len() - 1]);
        }
    }
    assert(0x30 <= h[0] as int <= 0x39);
    assert(0x30 <= h[h.len() - 1] as int <= 0x39);
    reading_laws::law_trimming_takes_the_ends_off(Seq::empty(), h, Seq::empty());
    assert(Seq::<char>::empty() + h + Seq::<char>::empty() =~= h);
    text_laws::lemma_worth_bounds(h);
    text_laws::lemma_worth_bounds(m);
    lemma_three_parts(h, m, sec);
    law_times_are_added_up_before_rounding(
        h + seq![':'] + m + seq![':'] + sec,
        seq![h, m, sec],
    );
}

proof fn lemma_no_colon(d: Seq<char>)
    requires
        only_digits(d),
    ensures
        forall|i: int| 0 <= i < d.len() ==> #[trigger] d[i] != ':',
{
    assert forall|i: int| 0 <= i < d.len() implies #[trigger] d[i] != ':' by {
        assert(0x30 <= d[i] as int <= 0x39);
    }
}

proof fn lemma_fine_whole(d: Seq<char>)
    requires
        only_digits(d) && d.len() > 0 && worth(d) < 1_000_000_000,
    ensures
        numbers::fine_decimal(d) == Some(worth(d) * 1_000_000_000_000_000_000),
{
    let none: Option<text_laws::Exponent> = None;
    let v = worth(d) * 1_000_000_000_000_000_000;
    lemma_ten_eighteen();
    assert(d + Seq::<char>::empty() =~= d);
    assert(text_laws::decimal_spelled(None, d, false, Seq::empty(), none) =~= d);
    assert(text_laws::nearest_shifted(v, worth(d), 18));
    text_laws::law_fine_decimals_are_read_to_the_nearest(None, d, false, Seq::empty(), none, v);
}

proof fn lemma_fine_seconds(s: Seq<char>, part: Seq<char>, thousandths: int)
    requires
        only_digits(s) && s.len() > 0 && worth(s) < 1_000_000_000,
        only_digits(part) && part.len() <= 3,
        thousandths == worth(s + part) * text_laws::ten(3 - part.len()),
    ensures
        numbers::fine_decimal(s + seq!['.'] + part) == Some(thousandths * 1_000_000_000_000_000),
{
    let none: Option<text_laws::Exponent> = None;
    let w = worth(s + part);
    let p = part.len() as int;
    let t = text_laws::ten(3 - p);
    let fine: int = 1_000_000_000_000_000;
    let v = thousandths * fine;
    lemma_ten_shift(p);
    lemma_small(s, part);
    assert(w * (t * fine) == (w * t) * fine) by (nonlinear_arith);
    assert(text_laws::decimal_spelled(None, s, true, part, none) =~= s + seq!['.'] + part);
    assert(text_laws::nearest_shifted(v, w, 18 - p));
    text_laws::law_fine_decimals_are_read_to_the_nearest(None, s, true, part, none, v);
}

proof fn lemma_ten_eighteen()
    ensures
        text_laws::ten(18) == 1_000_000_000_000_000_000,
        text_laws::ten(17) == 100_000_000_000_000_000,
        text_laws::ten(16) == 10_000_000_000_000_000,
        text_laws::ten(15) == 1_000_000_000_000_000,
        text_laws::ten(3) == 1000,
        text_laws::ten(2) == 100,
        text_laws::ten(1) == 10,
        text_laws::ten(0) == 1,
{
    reveal_with_fuel(text_laws::ten, 19);
}

proof fn lemma_ten_shift(p: int)
    requires
        0 <= p <= 3,
    ensures
        text_laws::ten(18 - p) == text_laws::ten(3 - p) * 1_000_000_000_000_000,
{
    lemma_ten_eighteen();
    if p == 0 {
    } else if p == 1 {
    } else if p == 2 {
    } else {
        assert(p == 3);
    }
}

proof fn lemma_small(s: Seq<char>, part: Seq<char>)
    requires
        only_digits(s),
        only_digits(part),
        worth(s) < 1_000_000_000,
        part.len() <= 3,
    ensures
        0 <= worth(s + part) * text_laws::ten(3 - part.len()) < 1_000_000_000_000,
{
    let p = part.len() as int;
    text_laws::lemma_worth_split(s, part);
    text_laws::lemma_worth_bounds(s);
    text_laws::lemma_worth_bounds(part);
    lemma_ten_eighteen();
    if p == 0 {
    } else if p == 1 {
    } else if p == 2 {
    } else {
        assert(p == 3);
    }
}

/// The line that starts with `Duration:` gives the time up to the first comma
/// behind it, and other lines give none.
pub proof fn law_the_duration_stands_behind_its_name(
    before: Seq<char>,
    pad: Seq<char>,
    time: Seq<char>,
    rest: Seq<char>,
)
    requires
        forall|i: int| 0 <= i < before.len() ==> reading::white(#[trigger] before[i]),
        forall|i: int| 0 <= i < pad.len() ==> reading::white(#[trigger] pad[i]),
        time.len() > 0,
        !reading::white(time[0]),
        !reading::white(time.last()),
        forall|i: int| 0 <= i < time.len() ==> #[trigger] time[i] != ',',
        rest.len() > 0 ==> rest[0] == ',' && !reading::white(rest.last()),
    ensures
        probe::line_duration(before + "Duration:"@ + pad + time + rest) == probe::hms(time),
{
    reveal_strlit("Duration:");
    let name = "Duration:"@;
    let line = before + name + pad + time + rest;
    let core = name + pad + time + rest;
    assert(line =~= before + core + Seq::empty());
    assert(core[0] == 'D');
    assert(core.last() == if rest.len() > 0 {
        rest.last()
    } else {
        time.last()
    });
    reading_laws::law_trimming_takes_the_ends_off(before, core, Seq::empty());
    assert(core.subrange(0, 9) =~= name);
    let tail = core.skip(9);
    assert(tail =~= (pad + time) + rest);
    let head = pad + time;
    assert forall|i: int| 0 <= i < head.len() implies !Cut::At(',').cuts(#[trigger] head[i]) by {
        if i < pad.len() {
            assert(reading::white(pad[i]));
        } else {
            assert(head[i] == time[i - pad.len()]);
        }
    }
    reading_laws::lemma_first_piece(head, rest, Cut::At(','));
    assert(head =~= pad + time + Seq::empty());
    reading_laws::law_trimming_takes_the_ends_off(pad, time, Seq::empty());
}

/// A line that starts otherwise gives no duration.
pub proof fn law_other_lines_give_no_duration(line: Seq<char>)
    requires
        forall|rest: Seq<char>| reading::trimmed(line) != #[trigger] ("Duration:"@ + rest),
    ensures
        probe::line_duration(line) is None,
{
    let t = reading::trimmed(line);
    let p = "Duration:"@;
    if reading::holds_at(t, p, 0) {
        reading_laws::law_what_a_text_holds_stands_in_it(t, p, 0);
        assert(t =~= p + t.skip(p.len() as int));
    }
}

} // verus!
