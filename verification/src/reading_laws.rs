//! Cutting texts up and putting them together again.

use vstd::prelude::*;

use crate::reading;
use crate::reading::Cut;

verus! {

/// A text put together from pieces, with one character between each two.
pub open spec fn put_together(list: Seq<Seq<char>>, between: Seq<char>) -> Seq<char>
    decreases list.len(),
{
    if list.len() == 0 {
        Seq::empty()
    } else if list.len() == 1 {
        list[0]
    } else {
        put_together(list.drop_last(), between.drop_last()).push(between.last()) + list.last()
    }
}

proof fn lemma_piece(a: Seq<char>, b: Seq<char>, cut: Cut)
    requires
        forall|i: int| 0 <= i < b.len() ==> !cut.cuts(#[trigger] b[i]),
    ensures
        reading::pieces(a, cut).len() > 0,
        reading::pieces(a + b, cut) == reading::pieces(a, cut).update(
            reading::pieces(a, cut).len() - 1,
            reading::pieces(a, cut).last() + b,
        ),
    decreases b.len(),
{
    lemma_some_piece(a, cut);
    let p = reading::pieces(a, cut);
    if b.len() == 0 {
        assert(a + b =~= a);
        assert(p.last() + b =~= p.last());
        assert(p.update(p.len() - 1, p.last()) =~= p);
    } else {
        let c = b.last();
        let rest = b.drop_last();
        assert(!cut.cuts(b[b.len() - 1]));
        assert forall|i: int| 0 <= i < rest.len() implies !cut.cuts(#[trigger] rest[i]) by {
            assert(rest[i] == b[i]);
        }
        lemma_piece(a, rest, cut);
        assert((a + b).drop_last() =~= a + rest);
        assert((a + b).last() == c);
        assert((p.last() + rest).push(c) =~= p.last() + b);
        assert(reading::pieces(a + b, cut) =~= p.update(p.len() - 1, p.last() + b));
    }
}

proof fn lemma_some_piece(s: Seq<char>, cut: Cut)
    ensures
        reading::pieces(s, cut).len() > 0,
    decreases s.len(),
{
    if s.len() > 0 {
        lemma_some_piece(s.drop_last(), cut);
    }
}

proof fn lemma_put_together(list: Seq<Seq<char>>, between: Seq<char>, cut: Cut)
    requires
        list.len() == between.len() + 1,
        forall|i: int| 0 <= i < between.len() ==> cut.cuts(#[trigger] between[i]),
        forall|i: int, j: int|
            0 <= i < list.len() && 0 <= j < list[i].len() ==> !cut.cuts(#[trigger] list[i][j]),
    ensures
        reading::pieces(put_together(list, between), cut) == list,
    decreases list.len(),
{
    let b = list.last();
    assert forall|i: int| 0 <= i < b.len() implies !cut.cuts(#[trigger] b[i]) by {
        assert(!cut.cuts(list[list.len() - 1][i]));
    }
    if list.len() == 1 {
        lemma_piece(Seq::empty(), b, cut);
        assert(Seq::<char>::empty() + b =~= b);
        assert(reading::pieces(b, cut) =~= list);
    } else {
        let rest = list.drop_last();
        let less = between.drop_last();
        assert forall|i: int| 0 <= i < less.len() implies cut.cuts(#[trigger] less[i]) by {
            assert(less[i] == between[i]);
        }
        assert forall|i: int, j: int|
            0 <= i < rest.len() && 0 <= j < rest[i].len() implies !cut.cuts(
            #[trigger] rest[i][j],
        ) by {
            assert(rest[i] == list[i]);
        }
        lemma_put_together(rest, less, cut);
        let a = put_together(rest, less);
        let c = between.last();
        assert(cut.cuts(between[between.len() - 1]));
        assert(a.push(c).drop_last() =~= a);
        assert(reading::pieces(a.push(c), cut) =~= rest.push(Seq::empty()));
        lemma_piece(a.push(c), b, cut);
        assert(Seq::<char>::empty() + b =~= b);
        assert(reading::pieces(put_together(list, between), cut) =~= list);
    }
}

/// The first piece ends at the first cut.
pub proof fn lemma_first_piece(a: Seq<char>, b: Seq<char>, cut: Cut)
    requires
        forall|i: int| 0 <= i < a.len() ==> !cut.cuts(#[trigger] a[i]),
        b.len() == 0 || cut.cuts(b[0]),
    ensures
        reading::pieces(a + b, cut).len() > 0,
        reading::pieces(a + b, cut)[0] == a,
        b.len() > 0 ==> reading::pieces(a + b, cut).len() > 1,
    decreases b.len(),
{
    if b.len() == 0 {
        lemma_piece(Seq::empty(), a, cut);
        assert(a + b =~= Seq::<char>::empty() + a);
        assert(Seq::<char>::empty() + a =~= a);
    } else {
        assert((a + b).drop_last() =~= a + b.drop_last());
        assert((a + b).last() == b.last());
        lemma_first_piece(a, b.drop_last(), cut);
    }
}

/// A text put together from pieces with a character between them that none of
/// them holds is cut up into those pieces again, empty ones among them.
pub proof fn law_pieces_are_what_was_put_together(list: Seq<Seq<char>>, between: Seq<char>, c: char)
    requires
        list.len() == between.len() + 1,
        forall|i: int| 0 <= i < between.len() ==> #[trigger] between[i] == c,
        forall|i: int, j: int|
            0 <= i < list.len() && 0 <= j < list[i].len() ==> #[trigger] list[i][j] != c,
    ensures
        reading::pieces(put_together(list, between), Cut::At(c)) == list,
{
    lemma_put_together(list, between, Cut::At(c));
}

/// The same of words between white space of any kind.
pub proof fn law_words_are_what_was_put_together(list: Seq<Seq<char>>, between: Seq<char>)
    requires
        list.len() == between.len() + 1,
        forall|i: int| 0 <= i < between.len() ==> reading::white(#[trigger] between[i]),
        forall|i: int, j: int|
            0 <= i < list.len() && 0 <= j < list[i].len() ==> !reading::white(
                #[trigger] list[i][j],
            ),
    ensures
        reading::pieces(put_together(list, between), Cut::White) == list,
{
    lemma_put_together(list, between, Cut::White);
}

/// Every text is what its pieces make when they are put together again, and no
/// piece holds the character it was cut at.
pub proof fn law_cutting_up_loses_nothing(s: Seq<char>, c: char)
    ensures
        ({
            let list = reading::pieces(s, Cut::At(c));
            &&& list.len() > 0
            &&& put_together(list, Seq::new((list.len() - 1) as nat, |i: int| c)) == s
            &&& forall|i: int, j: int|
                0 <= i < list.len() && 0 <= j < list[i].len() ==> #[trigger] list[i][j] != c
        }),
    decreases s.len(),
{
    let cut = Cut::At(c);
    let list = reading::pieces(s, cut);
    let between = Seq::new((list.len() - 1) as nat, |i: int| c);
    lemma_some_piece(s, cut);
    if s.len() == 0 {
        assert(put_together(list, between) =~= s);
    } else {
        let rest = s.drop_last();
        let before = reading::pieces(rest, cut);
        law_cutting_up_loses_nothing(rest, c);
        let less = Seq::new((before.len() - 1) as nat, |i: int| c);
        if s.last() == c {
            assert(list.drop_last() =~= before);
            assert(between.drop_last() =~= less);
            assert(put_together(list, between) =~= s);
        } else {
            assert(between =~= less);
            let last = before.last().push(s.last());
            assert(list.last() == last);
            if list.len() > 1 {
                assert(list.drop_last() =~= before.drop_last());
            }
            assert(put_together(list, between) =~= put_together(before, less).push(s.last()));
            assert(put_together(list, between) =~= s);
        }
        assert forall|i: int, j: int| 0 <= i < list.len() && 0 <= j < list[i].len() implies (
        #[trigger] list[i][j]) != c by {
            if i < list.len() - 1 || s.last() == c {
                if i < before.len() {
                    assert(list[i] == before[i]);
                    assert(before[i][j] != c);
                }
            } else if j < before.last().len() {
                assert(list[i][j] == before[before.len() - 1][j]);
            }
        }
    }
}

pub proof fn lemma_first_cut(s: Seq<char>, cut: Cut)
    ensures
        0 <= reading::first_cut(s, cut) <= s.len(),
        forall|i: int| 0 <= i < reading::first_cut(s, cut) ==> !cut.cuts(#[trigger] s[i]),
        reading::first_cut(s, cut) < s.len() ==> cut.cuts(s[reading::first_cut(s, cut)]),
    decreases s.len(),
{
    if s.len() > 0 && !cut.cuts(s[0]) {
        let rest = s.drop_first();
        let k = reading::first_cut(s, cut);
        lemma_first_cut(rest, cut);
        assert forall|i: int| 0 <= i < k implies !cut.cuts(#[trigger] s[i]) by {
            if i > 0 {
                assert(rest[i - 1] == s[i]);
            }
        }
    }
}

/// The first cut is the first place that holds the character, and the end of
/// the text where none does.
pub proof fn law_the_first_cut_is_the_first(s: Seq<char>, c: char)
    ensures
        ({
            let k = reading::first_cut(s, Cut::At(c));
            &&& 0 <= k <= s.len()
            &&& forall|i: int| 0 <= i < k ==> #[trigger] s[i] != c
            &&& k < s.len() ==> s[k] == c
        }),
{
    lemma_first_cut(s, Cut::At(c));
    let k = reading::first_cut(s, Cut::At(c));
    assert forall|i: int| 0 <= i < k implies #[trigger] s[i] != c by {
        assert(!Cut::At(c).cuts(s[i]));
    }
}

/// Of the characters that a keyboard has, white space is the blank, the tab and
/// what ends a line or a page.
pub proof fn law_white_space_is_what_shows_nothing(c: char)
    requires
        (c as int) < 0x80,
    ensures
        reading::white(c) <==> c == ' ' || c == '\t' || c == '\n' || c == '\r' || c as int == 0xb
            || c as int == 0xc,
{
    assert(' ' as int == 0x20 && '\t' as int == 0x9 && '\n' as int == 0xa && '\r' as int == 0xd);
    if c as int == 0x20 {
        assert(c == ' ');
    }
    if c as int == 0x9 {
        assert(c == '\t');
    }
    if c as int == 0xa {
        assert(c == '\n');
    }
    if c as int == 0xd {
        assert(c == '\r');
    }
}

/// Of the others, white space is the next line, the blank that does not break,
/// the blanks of typesetting, and the separators of lines and paragraphs.
pub proof fn law_white_space_of_other_scripts(c: char)
    requires
        c as int >= 0x80,
    ensures
        reading::white(c) <==> {
            ||| set![0x85int, 0xa0, 0x1680, 0x2028, 0x2029, 0x202f, 0x205f, 0x3000].contains(
                c as int,
            )
            ||| 0x2000 <= c as int <= 0x200a
        },
{
}

/// White space around a text is trimmed, all of it and nothing else.
pub proof fn law_trimming_takes_the_ends_off(a: Seq<char>, s: Seq<char>, b: Seq<char>)
    requires
        forall|i: int| 0 <= i < a.len() ==> reading::white(#[trigger] a[i]),
        forall|i: int| 0 <= i < b.len() ==> reading::white(#[trigger] b[i]),
        s.len() > 0 ==> !reading::white(s[0]) && !reading::white(s.last()),
    ensures
        reading::trimmed(a + s + b) == s,
    decreases a.len() + b.len(),
{
    if s.len() == 0 {
        assert(a + s + b =~= a + b);
        assert forall|i: int| 0 <= i < (a + b).len() implies reading::white(
            #[trigger] (a + b)[i],
        ) by {
            if i < a.len() {
                assert((a + b)[i] == a[i]);
            } else {
                assert((a + b)[i] == b[i - a.len()]);
            }
        }
        lemma_all_white(a + b);
        assert(s =~= Seq::empty());
    } else {
        lemma_trim_start(a, s + b);
        assert(a + s + b =~= a + (s + b));
        lemma_trim_end(s, b);
    }
}

proof fn lemma_all_white(a: Seq<char>)
    requires
        forall|i: int| 0 <= i < a.len() ==> reading::white(#[trigger] a[i]),
    ensures
        reading::trimmed(a) == Seq::<char>::empty(),
    decreases a.len(),
{
    if a.len() > 0 {
        assert(reading::white(a[0]));
        let rest = a.drop_first();
        assert forall|i: int| 0 <= i < rest.len() implies reading::white(#[trigger] rest[i]) by {
            assert(rest[i] == a[i + 1]);
        }
        lemma_all_white(rest);
    } else {
        assert(a =~= Seq::empty());
    }
}

proof fn lemma_trim_start(a: Seq<char>, s: Seq<char>)
    requires
        forall|i: int| 0 <= i < a.len() ==> reading::white(#[trigger] a[i]),
        s.len() > 0,
        !reading::white(s[0]),
    ensures
        reading::trim_start(a + s) == s,
    decreases a.len(),
{
    if a.len() == 0 {
        assert(a + s =~= s);
    } else {
        assert(reading::white(a[0]));
        assert((a + s).drop_first() =~= a.drop_first() + s);
        lemma_trim_start(a.drop_first(), s);
    }
}

proof fn lemma_trim_end(s: Seq<char>, b: Seq<char>)
    requires
        forall|i: int| 0 <= i < b.len() ==> reading::white(#[trigger] b[i]),
        s.len() > 0,
        !reading::white(s.last()),
    ensures
        reading::trim_end(s + b) == s,
    decreases b.len(),
{
    if b.len() == 0 {
        assert(s + b =~= s);
    } else {
        assert(reading::white(b[b.len() - 1]));
        assert((s + b).drop_last() =~= s + b.drop_last());
        lemma_trim_end(s, b.drop_last());
    }
}

/// A text holds another exactly where it can be written as something before
/// it, the other, and something behind it.
pub proof fn law_a_text_holds_what_stands_in_it(a: Seq<char>, p: Seq<char>, b: Seq<char>)
    ensures
        reading::holds_at(a + p + b, p, a.len() as int),
        reading::holds(a + p + b, p),
{
    let s = a + p + b;
    let i = a.len() as int;
    assert(s.subrange(i, i + p.len()) =~= p);
    assert(reading::holds_at(s, p, i));
}

/// Where a text holds another at a place, it is so written.
pub proof fn law_what_a_text_holds_stands_in_it(s: Seq<char>, p: Seq<char>, i: int)
    requires
        reading::holds_at(s, p, i),
    ensures
        0 <= i <= s.len() - p.len(),
        s == s.take(i) + p + s.skip(i + p.len()),
{
    let q = s.subrange(i, i + p.len());
    assert(s =~= s.take(i) + q + s.skip(i + p.len()));
}

} // verus!
