//! Command lines, word by word.

use vstd::prelude::*;

verus! {

/// A word of a command line. A movie's path is put in by whoever runs the
/// command, because a path need not be text.
#[derive(Debug, Clone)]
pub enum Arg {
    Text(String),
    Movie,
}

/// A word as a mathematical value.
pub enum Word {
    Text(Seq<char>),
    Movie,
}

impl View for Arg {
    type V = Word;

    open spec fn view(&self) -> Word {
        match self {
            Arg::Text(s) => Word::Text(s@),
            Arg::Movie => Word::Movie,
        }
    }
}

/// A command line as a mathematical value.
pub open spec fn words(list: Seq<Arg>) -> Seq<Word> {
    Seq::new(list.len(), |i: int| list[i]@)
}

/// Words that are all text.
pub open spec fn texts(list: Seq<&str>) -> Seq<Word> {
    Seq::new(list.len(), |i: int| Word::Text(list[i]@))
}

/// Put a text at the end of a command line.
pub fn push_text(list: &mut Vec<Arg>, s: &str)
    ensures
        words(final(list)@) == words(old(list)@).push(Word::Text(s@)),
{
    list.push(Arg::Text(s.to_owned()));
    assert(words(list@) =~= words(old(list)@).push(Word::Text(s@)));
}

/// Put the movie at the end of a command line.
pub fn push_movie(list: &mut Vec<Arg>)
    ensures
        words(final(list)@) == words(old(list)@).push(Word::Movie),
{
    list.push(Arg::Movie);
    assert(words(list@) =~= words(old(list)@).push(Word::Movie));
}

/// Put texts at the end of a command line.
pub fn push_texts(list: &mut Vec<Arg>, more: &[&str])
    ensures
        words(final(list)@) == words(old(list)@) + texts(more@),
{
    let n: usize = more.len();
    let mut i: usize = 0;
    assert(words(list@) =~= words(old(list)@) + texts(more@).take(0));
    while i < n
        invariant
            i <= n,
            n == more@.len(),
            words(list@) == words(old(list)@) + texts(more@).take(i as int),
        decreases n - i,
    {
        assert(texts(more@).take(i + 1) =~= texts(more@).take(i as int).push(
            Word::Text(more@[i as int]@),
        ));
        push_text(list, more[i]);
        assert(words(list@) =~= words(old(list)@) + texts(more@).take(i + 1));
        i += 1;
    }
    assert(texts(more@).take(n as int) =~= texts(more@));
}

} // verus!
