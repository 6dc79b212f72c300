//! What holds of everything mpv is told.

use vstd::prelude::*;

use crate::args;
use crate::args::Word;
use crate::json;
use crate::mpv;
use crate::mpv::{ItemView, MpvOptions};
use crate::text;

verus! {

/// A document in a command is on one line, as every one that is made is.
pub open spec fn document_on_one_line(item: ItemView) -> bool {
    item matches ItemView::Document(s) ==> json::one_line(s)
}

proof fn lemma_item_line(item: ItemView)
    requires
        document_on_one_line(item),
    ensures
        json::one_line(item.spelled()),
{
    reveal_strlit("true");
    reveal_strlit("false");
    match item {
        ItemView::Text(s) => {
            json::law_quoted_text_is_one_line(s);
        },
        ItemView::Number(n) => {
            json::lemma_int_line(n);
        },
        ItemView::Seconds(t) => {
            json::lemma_decimal_line(t);
        },
        ItemView::Flag(_) => {},
        ItemView::Document(_) => {},
    }
}

proof fn lemma_items_line(items: Seq<ItemView>)
    requires
        forall|i: int| 0 <= i < items.len() ==> document_on_one_line(#[trigger] items[i]),
    ensures
        json::one_line(mpv::items_text(items)),
    decreases items.len(),
{
    reveal_strlit(",");
    if items.len() == 1 {
        lemma_item_line(items[0]);
    } else if items.len() > 1 {
        assert forall|i: int| 0 <= i < items.drop_last().len() implies document_on_one_line(
            #[trigger] items.drop_last()[i],
        ) by {
            assert(items.drop_last()[i] == items[i]);
        }
        assert(document_on_one_line(items[items.len() - 1]));
        lemma_items_line(items.drop_last());
        lemma_item_line(items.last());
        json::lemma_joined_lines(mpv::items_text(items.drop_last()), ","@);
        json::lemma_joined_lines(
            mpv::items_text(items.drop_last()) + ","@,
            items.last().spelled(),
        );
    }
}

/// A command is one line, whatever texts are in it: mpv reads one object per
/// line, so no text can start another.
pub proof fn law_command_is_one_line(items: Seq<ItemView>)
    requires
        forall|i: int| 0 <= i < items.len() ==> document_on_one_line(#[trigger] items[i]),
    ensures
        json::one_line(mpv::command_text(items)),
{
    reveal_strlit("{\"command\":[");
    reveal_strlit("]}");
    lemma_items_line(items);
    json::lemma_joined_lines("{\"command\":["@, mpv::items_text(items));
    json::lemma_joined_lines("{\"command\":["@ + mpv::items_text(items), "]}"@);
}

/// mpv never decodes in hardware, where drivers may bypass the covering
/// filter.
pub proof fn law_hardware_decoding_is_off(opts: MpvOptions, pipe: Seq<char>)
    ensures
        mpv::mpv_words(opts, pipe).contains(Word::Text("--hwdec=no"@)),
{
    assert(args::texts(mpv::ALWAYS@)[0] == Word::Text("--hwdec=no"@));
    assert(mpv::mpv_words(opts, pipe)[3] == Word::Text("--hwdec=no"@));
}

/// A conf file with a filtergraph always reaches mpv.
pub proof fn law_filtergraph_reaches_mpv(opts: MpvOptions, pipe: Seq<char>, conf: String)
    requires
        opts.conf == Some(conf),
    ensures
        mpv::mpv_words(opts, pipe).contains(Word::Text("--include="@ + conf@)),
{
    assert(mpv::option_word("--include="@, opts.conf)[0] == Word::Text("--include="@ + conf@));
    assert(mpv::mpv_words(opts, pipe)[13] == Word::Text("--include="@ + conf@));
}

proof fn lemma_digits_differ(a: nat, b: nat)
    requires
        text::digits(a) == text::digits(b),
    ensures
        a == b,
    decreases a,
{
    let x = text::digits(a);
    let y = text::digits(b);
    assert(x.last() == text::digit((a % 10) as int));
    assert(y.last() == text::digit((b % 10) as int));
    assert(a % 10 == b % 10);
    if a >= 10 && b >= 10 {
        assert(x.drop_last() =~= text::digits(a / 10));
        assert(y.drop_last() =~= text::digits(b / 10));
        lemma_digits_differ(a / 10, b / 10);
    } else if a >= 10 {
        lemma_digits_some(a / 10);
        assert(x.len() > 1 && y.len() == 1);
    } else if b >= 10 {
        lemma_digits_some(b / 10);
        assert(y.len() > 1 && x.len() == 1);
    }
}

proof fn lemma_digits_some(n: nat)
    ensures
        text::digits(n).len() > 0,
    decreases n,
{
}

/// Two mpvs of one player never share a pipe.
pub proof fn law_pipe_names_differ(process: int, a: int, b: int)
    requires
        a >= 0,
        b >= 0,
        mpv::pipe_text(process, a) == mpv::pipe_text(process, b),
    ensures
        a == b,
{
    let head = "\\\\.\\pipe\\scrim-"@ + text::int_text(process) + "-"@;
    let x = mpv::pipe_text(process, a);
    let y = mpv::pipe_text(process, b);
    assert(x =~= head + text::digits(a as nat));
    assert(y =~= head + text::digits(b as nat));
    assert(text::digits(a as nat) =~= x.skip(head.len() as int));
    assert(text::digits(b as nat) =~= y.skip(head.len() as int));
    lemma_digits_differ(a as nat, b as nat);
}

} // verus!
