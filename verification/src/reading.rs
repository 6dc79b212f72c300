//! Cutting text up, and reading the numbers in it.

use vstd::prelude::*;
use vstd::slice::slice_subrange;

verus! {

// ---------------------------------------------------------------------------
// Cutting
// ---------------------------------------------------------------------------

/// White space, as Unicode has it.
pub open spec fn white(c: char) -> bool {
    let u = c as int;
    ||| 0x9 <= u <= 0xd
    ||| u == 0x20
    ||| u == 0x85
    ||| u == 0xa0
    ||| u == 0x1680
    ||| 0x2000 <= u <= 0x200a
    ||| u == 0x2028
    ||| u == 0x2029
    ||| u == 0x202f
    ||| u == 0x205f
    ||| u == 0x3000
}

pub fn is_white(c: char) -> (r: bool)
    ensures
        r == white(c),
{
    let u: u32 = c as u32;
    (0x9 <= u && u <= 0xd) || u == 0x20 || u == 0x85 || u == 0xa0 || u == 0x1680 || (0x2000 <= u
        && u <= 0x200a) || u == 0x2028 || u == 0x2029 || u == 0x202f || u == 0x205f || u == 0x3000
}

/// Where to cut text.
#[derive(Debug, Clone, Copy, PartialEq, Eq, Structural)]
pub enum Cut {
    /// At every such character.
    At(char),
    /// At every white space.
    White,
    /// At the mark of an exponent.
    Exponent,
}

impl Cut {
    pub open spec fn cuts(self, c: char) -> bool {
        match self {
            Cut::At(sep) => c == sep,
            Cut::White => white(c),
            Cut::Exponent => c == 'e' || c == 'E',
        }
    }

    pub fn is_cut(self, c: char) -> (r: bool)
        ensures
            r == self.cuts(c),
    {
        match self {
            Cut::At(sep) => c == sep,
            Cut::White => is_white(c),
            Cut::Exponent => c == 'e' || c == 'E',
        }
    }
}

/// The pieces of a text: one more than there are cuts.
pub open spec fn pieces(s: Seq<char>, cut: Cut) -> Seq<Seq<char>>
    decreases s.len(),
{
    if s.len() == 0 {
        seq![Seq::empty()]
    } else {
        let before = pieces(s.drop_last(), cut);
        if cut.cuts(s.last()) {
            before.push(Seq::empty())
        } else {
            before.update(before.len() - 1, before.last().push(s.last()))
        }
    }
}

/// Texts as mathematical values.
pub open spec fn views(list: Seq<Vec<char>>) -> Seq<Seq<char>> {
    Seq::new(list.len(), |i: int| list[i]@)
}

/// Cut a text into its pieces.
pub fn cut_up(s: &[char], cut: Cut) -> (out: Vec<Vec<char>>)
    ensures
        views(out@) == pieces(s@, cut),
{
    let n: usize = s.len();
    let mut out: Vec<Vec<char>> = Vec::new();
    let mut piece: Vec<char> = Vec::new();
    let mut i: usize = 0;
    assert(s@.take(0) =~= Seq::empty());
    assert(piece@ =~= Seq::empty());
    assert(views(out@).push(piece@) =~= pieces(s@.take(0), cut));
    while i < n
        invariant
            i <= n,
            n == s@.len(),
            views(out@).push(piece@) == pieces(s@.take(i as int), cut),
        decreases n - i,
    {
        let c: char = s[i];
        let ghost before = views(out@).push(piece@);
        let ghost done = views(out@);
        assert(s@.take(i + 1).drop_last() =~= s@.take(i as int));
        assert(s@.take(i + 1).last() == c);
        if cut.is_cut(c) {
            out.push(piece);
            assert(views(out@) =~= before);
            piece = Vec::new();
            assert(piece@ =~= Seq::empty());
        } else {
            piece.push(c);
            assert(done.push(piece@) =~= before.update(before.len() - 1, before.last().push(c)));
        }
        i += 1;
    }
    assert(s@.take(n as int) =~= s@);
    let ghost done = views(out@).push(piece@);
    out.push(piece);
    assert(views(out@) =~= done);
    out
}

/// Where the first cut is: at the end, if there is none.
pub open spec fn first_cut(s: Seq<char>, cut: Cut) -> int
    decreases s.len(),
{
    if s.len() == 0 || cut.cuts(s[0]) {
        0
    } else {
        1 + first_cut(s.drop_first(), cut)
    }
}

proof fn lemma_first_cut(s: Seq<char>, cut: Cut, k: int)
    requires
        0 <= k <= s.len(),
        forall|i: int| 0 <= i < k ==> !cut.cuts(#[trigger] s[i]),
        k == s.len() || cut.cuts(s[k]),
    ensures
        first_cut(s, cut) == k,
    decreases s.len(),
{
    if k > 0 {
        assert(!cut.cuts(s[0]));
        let rest = s.drop_first();
        assert forall|i: int| 0 <= i < k - 1 implies !cut.cuts(#[trigger] rest[i]) by {
            assert(rest[i] == s[i + 1]);
        }
        lemma_first_cut(rest, cut, k - 1);
    }
}

pub fn find_cut(s: &[char], cut: Cut) -> (k: usize)
    ensures
        k == first_cut(s@, cut),
        k <= s@.len(),
{
    let n: usize = s.len();
    let mut k: usize = 0;
    while k < n && !cut.is_cut(s[k])
        invariant
            k <= n,
            n == s@.len(),
            forall|i: int| 0 <= i < k ==> !cut.cuts(#[trigger] s@[i]),
        decreases n - k,
    {
        k += 1;
    }
    proof {
        lemma_first_cut(s@, cut, k as int);
    }
    k
}

/// A text without the white space in front of it.
pub open spec fn trim_start(s: Seq<char>) -> Seq<char>
    decreases s.len(),
{
    if s.len() > 0 && white(s[0]) {
        trim_start(s.drop_first())
    } else {
        s
    }
}

/// A text without the white space behind it.
pub open spec fn trim_end(s: Seq<char>) -> Seq<char>
    decreases s.len(),
{
    if s.len() > 0 && white(s.last()) {
        trim_end(s.drop_last())
    } else {
        s
    }
}

/// A text without the white space around it.
pub open spec fn trimmed(s: Seq<char>) -> Seq<char> {
    trim_end(trim_start(s))
}

/// Take the white space off both ends.
pub fn trim(s: &[char]) -> (out: &[char])
    ensures
        out@ == trimmed(s@),
{
    let n: usize = s.len();
    let mut i: usize = 0;
    assert(s@.skip(0) =~= s@);
    while i < n && is_white(s[i])
        invariant
            i <= n,
            n == s@.len(),
            trim_start(s@) == trim_start(s@.skip(i as int)),
        decreases n - i,
    {
        assert(s@.skip(i as int).drop_first() =~= s@.skip(i + 1));
        i += 1;
    }
    let mut j: usize = n;
    assert(s@.subrange(i as int, n as int) =~= s@.skip(i as int));
    while j > i && is_white(s[j - 1])
        invariant
            i <= j <= n,
            n == s@.len(),
            trimmed(s@) == trim_end(s@.subrange(i as int, j as int)),
        decreases j,
    {
        assert(s@.subrange(i as int, j as int).drop_last() =~= s@.subrange(i as int, j - 1));
        j -= 1;
    }
    slice_subrange(s, i, j)
}

/// The characters of a text.
pub fn chars_of(s: &str) -> (out: Vec<char>)
    ensures
        out@ == s@,
{
    broadcast use vstd::string::axiom_spec_iter;

    let mut out: Vec<char> = Vec::new();
    for c in it: s.chars()
        invariant
            out@.len() == it.index(),
            it.seq() == s@,
            forall|i: int| 0 <= i < out@.len() ==> out@[i] == it.seq()[i],
    {
        out.push(c);
    }
    assert(out@ =~= s@);
    out
}

/// Whether a text holds another at a place.
pub open spec fn holds_at(s: Seq<char>, p: Seq<char>, i: int) -> bool {
    0 <= i && i + p.len() <= s.len() && s.subrange(i, i + p.len()) == p
}

/// Whether a text holds another somewhere.
pub open spec fn holds(s: Seq<char>, p: Seq<char>) -> bool {
    exists|i: int| #[trigger] holds_at(s, p, i)
}

/// Whether `s` holds `p` at place `i`.
pub fn is_at(s: &[char], p: &str, i: usize) -> (r: bool)
    ensures
        r == holds_at(s@, p@, i as int),
{
    let needle: Vec<char> = chars_of(p);
    let n: usize = s.len();
    let m: usize = needle.len();
    if i > n || m > n - i {
        return false;
    }
    let mut k: usize = 0;
    while k < m
        invariant
            k <= m,
            m == needle@.len(),
            needle@ == p@,
            n == s@.len(),
            i + m <= n,
            forall|j: int| 0 <= j < k ==> s@[i + j] == #[trigger] needle@[j],
        decreases m - k,
    {
        if s[i + k] != needle[k] {
            assert(s@.subrange(i as int, i + m)[k as int] != p@[k as int]);
            return false;
        }
        k += 1;
    }
    assert(s@.subrange(i as int, i + m) =~= p@);
    true
}

/// Whether `s` holds `p` somewhere.
pub fn is_in(s: &[char], p: &str) -> (r: bool)
    ensures
        r == holds(s@, p@),
{
    let n: usize = s.len();
    let mut i: usize = 0;
    while i <= n
        invariant
            i <= n + 1,
            n == s@.len(),
            forall|j: int| 0 <= j < i ==> !(#[trigger] holds_at(s@, p@, j)),
        decreases n + 1 - i,
    {
        if is_at(s, p, i) {
            return true;
        }
        if i == n {
            return false;
        }
        i += 1;
    }
    false
}

} // verus!
