//! How often each filter occurs in the text of a graph.

use vstd::prelude::*;

use crate::graph;
use crate::graph::{CensorStyle, Expr};
use crate::text;
use crate::window::WindowView;

verus! {

/// Whether a text starts with a word.
pub open spec fn starts(s: Seq<char>, w: Seq<char>) -> bool {
    w.len() <= s.len() && s.take(w.len() as int) == w
}

/// How often a word occurs in a text.
pub open spec fn occurrences(s: Seq<char>, w: Seq<char>) -> int
    decreases s.len(),
{
    if s.len() == 0 {
        0
    } else {
        occurrences(s.drop_first(), w) + if starts(s, w) {
            1int
        } else {
            0
        }
    }
}

/// A character that stands between the names of filters and options, and in
/// none of them.
pub open spec fn sep(c: char) -> bool {
    ||| '0' <= c <= '9'
    ||| c == '-' || c == ':' || c == '\'' || c == ',' || c == '[' || c == ']' || c == ';'
    ||| c == '(' || c == ')' || c == '_' || c == '.' || c == '+' || c == '/'
}

/// A name has no such character in it.
pub open spec fn name(w: Seq<char>) -> bool {
    w.len() > 0 && forall|i: int| 0 <= i < w.len() ==> !sep(#[trigger] w[i])
}

/// Whether a text is without a character.
pub open spec fn lacks(s: Seq<char>, c: char) -> bool {
    forall|i: int| 0 <= i < s.len() ==> (#[trigger] s[i]) != c
}

// ---------------------------------------------------------------------------
// Counting
// ---------------------------------------------------------------------------

proof fn lemma_short(s: Seq<char>, w: Seq<char>)
    requires
        s.len() < w.len(),
    ensures
        occurrences(s, w) == 0,
    decreases s.len(),
{
    if s.len() > 0 {
        lemma_short(s.drop_first(), w);
    }
}

proof fn lemma_itself(w: Seq<char>)
    requires
        w.len() > 0,
    ensures
        occurrences(w, w) == 1,
{
    assert(w.take(w.len() as int) =~= w);
    lemma_short(w.drop_first(), w);
}

/// A word does not occur where one of its characters does not.
proof fn lemma_lacking(s: Seq<char>, w: Seq<char>, c: char)
    requires
        lacks(s, c),
        w.contains(c),
    ensures
        occurrences(s, w) == 0,
    decreases s.len(),
{
    if s.len() > 0 {
        let rest = s.drop_first();
        assert forall|i: int| 0 <= i < rest.len() implies (#[trigger] rest[i]) != c by {
            assert(rest[i] == s[i + 1]);
        }
        lemma_lacking(rest, w, c);
        if starts(s, w) {
            let i = choose|i: int| 0 <= i < w.len() && w[i] == c;
            assert(s.take(w.len() as int)[i] == s[i]);
        }
    }
}

/// Texts put together hold at least what each holds.
proof fn lemma_no_fewer(a: Seq<char>, b: Seq<char>, w: Seq<char>)
    requires
        w.len() > 0,
    ensures
        occurrences(a + b, w) >= occurrences(a, w) + occurrences(b, w),
    decreases a.len(),
{
    if a.len() == 0 {
        assert(a + b =~= b);
    } else {
        assert((a + b).drop_first() =~= a.drop_first() + b);
        lemma_no_fewer(a.drop_first(), b, w);
        if starts(a, w) {
            assert((a + b).take(w.len() as int) =~= a.take(w.len() as int));
        }
    }
}

/// Where texts meet at a character that is in no name, no name reaches across.
proof fn lemma_meeting(a: Seq<char>, b: Seq<char>, w: Seq<char>)
    requires
        name(w),
        a.len() == 0 || b.len() == 0 || sep(a.last()) || sep(b[0]) || !w.contains(b[0]),
    ensures
        occurrences(a + b, w) == occurrences(a, w) + occurrences(b, w),
    decreases a.len(),
{
    let all = a + b;
    if a.len() == 0 {
        assert(all =~= b);
    } else if b.len() == 0 {
        assert(all =~= a);
    } else {
        let rest = a.drop_first();
        assert(all.drop_first() =~= rest + b);
        if rest.len() > 0 {
            assert(rest.last() == a.last());
        }
        lemma_meeting(rest, b, w);
        if a.len() >= w.len() {
            assert(all.take(w.len() as int) =~= a.take(w.len() as int));
        } else if starts(all, w) {
            let n = a.len() as int;
            assert(all.take(w.len() as int)[n - 1] == a.last());
            assert(all.take(w.len() as int)[n] == b[0]);
            assert(w[n - 1] == a.last() && w[n] == b[0]);
        }
    }
}

/// A longer word occurs no more often than what it starts with.
proof fn lemma_longer_word(s: Seq<char>, w: Seq<char>, head: Seq<char>)
    requires
        head.len() <= w.len(),
        w.take(head.len() as int) == head,
    ensures
        occurrences(s, w) <= occurrences(s, head),
    decreases s.len(),
{
    if s.len() > 0 {
        lemma_longer_word(s.drop_first(), w, head);
        if starts(s, w) {
            assert(s.take(head.len() as int) =~= s.take(w.len() as int).take(head.len() as int));
        }
    }
}

// ---------------------------------------------------------------------------
// Numbers and expressions
// ---------------------------------------------------------------------------

/// A character of a number or of an expression.
pub open spec fn plain(c: char) -> bool {
    sep(c) || c == 'i' || c == 'f' || c == 'b' || c == 'e' || c == 't' || c == 'w' || c == 'n'
}

pub open spec fn all_plain(s: Seq<char>) -> bool {
    forall|i: int| 0 <= i < s.len() ==> plain(#[trigger] s[i])
}

proof fn lemma_plain_plus(a: Seq<char>, b: Seq<char>)
    requires
        all_plain(a),
        all_plain(b),
    ensures
        all_plain(a + b),
{
    let all = a + b;
    assert forall|i: int| 0 <= i < all.len() implies plain(#[trigger] all[i]) by {
        if i < a.len() {
            assert(all[i] == a[i]);
        } else {
            assert(all[i] == b[i - a.len()]);
        }
    }
}

proof fn lemma_digits_plain(n: nat)
    ensures
        all_plain(text::digits(n)),
        text::digits(n).len() > 0,
        forall|i: int|
            0 <= i < text::digits(n).len() ==> '0' <= (#[trigger] text::digits(n)[i]) <= '9',
    decreases n,
{
    if n >= 10 {
        lemma_digits_plain(n / 10);
        let before = text::digits(n / 10);
        let all = text::digits(n);
        assert forall|i: int| 0 <= i < all.len() implies '0' <= (#[trigger] all[i]) <= '9' by {
            if i < before.len() {
                assert(all[i] == before[i]);
            }
        }
    }
}

proof fn lemma_int_plain(v: int)
    ensures
        all_plain(text::int_text(v)),
        text::int_text(v).len() > 0,
        sep(text::int_text(v)[0]),
        sep(text::int_text(v).last()),
{
    reveal_strlit("-");
    if v < 0 {
        let d = text::digits((-v) as nat);
        lemma_digits_plain((-v) as nat);
        lemma_plain_plus("-"@, d);
        assert(text::int_text(v).last() == d[d.len() - 1]);
    } else {
        let d = text::digits(v as nat);
        lemma_digits_plain(v as nat);
        assert(d.last() == d[d.len() - 1]);
    }
}

proof fn lemma_seconds_plain(ms: int)
    ensures
        all_plain(text::seconds_text(ms)),
{
    reveal_strlit("-");
    reveal_strlit(".");
    let size = if ms < 0 {
        -ms
    } else {
        ms
    };
    let sign = if ms < 0 {
        "-"@
    } else {
        Seq::<char>::empty()
    };
    let whole = text::digits((size / 1000) as nat);
    let tail = seq![
        text::digit(size / 100 % 10),
        text::digit(size / 10 % 10),
        text::digit(size % 10),
    ];
    lemma_digits_plain((size / 1000) as nat);
    lemma_plain_plus(sign, whole);
    lemma_plain_plus(sign + whole, "."@);
    lemma_plain_plus(sign + whole + "."@, tail);
}

proof fn lemma_between_plain(s: int, e: int)
    ensures
        all_plain(graph::between_text(s, e)),
{
    assert("between(t,"@ =~= seq!['b', 'e', 't', 'w', 'e', 'e', 'n', '(', 't', ',']) by {
        reveal_strlit("between(t,");
    }
    reveal_strlit(",");
    reveal_strlit(")");
    lemma_seconds_plain(s);
    lemma_seconds_plain(e);
    let a = "between(t,"@ + text::seconds_text(s);
    lemma_plain_plus("between(t,"@, text::seconds_text(s));
    lemma_plain_plus(a, ","@);
    lemma_plain_plus(a + ","@, text::seconds_text(e));
    lemma_plain_plus(a + ","@ + text::seconds_text(e), ")"@);
}

proof fn lemma_expr_plain(e: Expr)
    ensures
        all_plain(e.spelled()),
    decreases e,
{
    match e {
        Expr::Value(v) => {
            lemma_int_plain(v);
        },
        Expr::During { start, end, value, other } => {
            assert("if("@ =~= seq!['i', 'f', '(']) by {
                reveal_strlit("if(");
            }
            reveal_strlit(",");
            reveal_strlit(")");
            lemma_between_plain(start, end);
            lemma_int_plain(value);
            lemma_expr_plain(*other);
            let a = "if("@ + graph::between_text(start, end);
            lemma_plain_plus("if("@, graph::between_text(start, end));
            lemma_plain_plus(a, ","@);
            lemma_plain_plus(a + ","@, text::int_text(value));
            lemma_plain_plus(a + ","@ + text::int_text(value), ","@);
            lemma_plain_plus(a + ","@ + text::int_text(value) + ","@, other.spelled());
            lemma_plain_plus(
                a + ","@ + text::int_text(value) + ","@ + other.spelled(),
                ")"@,
            );
        },
    }
}

proof fn lemma_gate_plain(list: Seq<(int, int)>)
    ensures
        all_plain(graph::gate_text(list)),
    decreases list.len(),
{
    reveal_strlit("+");
    if list.len() == 1 {
        lemma_between_plain(list[0].0, list[0].1);
    } else if list.len() > 1 {
        lemma_gate_plain(list.drop_last());
        lemma_between_plain(list.last().0, list.last().1);
        let a = graph::gate_text(list.drop_last());
        lemma_plain_plus(a, "+"@);
        lemma_plain_plus(a + "+"@, graph::between_text(list.last().0, list.last().1));
    }
}

/// A word with a character that is not plain does not occur in what is.
proof fn lemma_not_in_plain(s: Seq<char>, w: Seq<char>, c: char)
    requires
        all_plain(s),
        w.contains(c),
        !plain(c),
    ensures
        occurrences(s, w) == 0,
{
    assert forall|i: int| 0 <= i < s.len() implies (#[trigger] s[i]) != c by {
        assert(plain(s[i]));
    }
    lemma_lacking(s, w, c);
}

// ---------------------------------------------------------------------------
// The fixed parts of a graph
// ---------------------------------------------------------------------------

/// The names looked for: of the three filters of the moving box, and of those
/// that cover.
pub open spec fn known(w: Seq<char>) -> bool {
    w == "split="@ || w == "crop="@ || w == "overlay="@ || w == "drawbox"@ || w == "boxblur"@
}

/// A character of each of those names that is in no number or expression.
pub open spec fn rare(w: Seq<char>) -> char {
    if w == "split="@ {
        's'
    } else if w == "crop="@ {
        'c'
    } else if w == "overlay="@ {
        'v'
    } else if w == "drawbox"@ {
        'd'
    } else {
        'u'
    }
}

proof fn lemma_names(w: Seq<char>)
    requires
        known(w),
    ensures
        name(w),
        w.contains(rare(w)),
        !plain(rare(w)),
        "split="@ == seq!['s', 'p', 'l', 'i', 't', '='],
        "crop="@ == seq!['c', 'r', 'o', 'p', '='],
        "overlay="@ == seq!['o', 'v', 'e', 'r', 'l', 'a', 'y', '='],
        "drawbox"@ == seq!['d', 'r', 'a', 'w', 'b', 'o', 'x'],
        "boxblur"@ == seq!['b', 'o', 'x', 'b', 'l', 'u', 'r'],
        "split="@ != "crop="@ && "split="@ != "overlay="@ && "split="@ != "drawbox"@ && "split="@
            != "boxblur"@,
        "crop="@ != "overlay="@ && "crop="@ != "drawbox"@ && "crop="@ != "boxblur"@,
        "overlay="@ != "drawbox"@ && "overlay="@ != "boxblur"@,
        "drawbox"@ != "boxblur"@,
{
    assert("split="@ =~= seq!['s', 'p', 'l', 'i', 't', '=']) by {
        reveal_strlit("split=");
    }
    assert("crop="@ =~= seq!['c', 'r', 'o', 'p', '=']) by {
        reveal_strlit("crop=");
    }
    assert("overlay="@ =~= seq!['o', 'v', 'e', 'r', 'l', 'a', 'y', '=']) by {
        reveal_strlit("overlay=");
    }
    assert("drawbox"@ =~= seq!['d', 'r', 'a', 'w', 'b', 'o', 'x']) by {
        reveal_strlit("drawbox");
    }
    assert("boxblur"@ =~= seq!['b', 'o', 'x', 'b', 'l', 'u', 'r']) by {
        reveal_strlit("boxblur");
    }
    assert("split="@[0] == 's' && "crop="@[0] == 'c' && "overlay="@[0] == 'o');
    assert("drawbox"@[0] == 'd' && "boxblur"@[0] == 'b');
    assert("split="@[0] == 's');
    assert("crop="@[0] == 'c');
    assert("overlay="@[1] == 'v');
    assert("drawbox"@[0] == 'd');
    assert("boxblur"@[5] == 'u');
    if w == "split="@ {
        assert(w[0] == rare(w));
    } else if w == "crop="@ {
        assert(w[0] == rare(w));
    } else if w == "overlay="@ {
        assert(w[1] == rare(w));
    } else if w == "drawbox"@ {
        assert(w[0] == rare(w));
    } else {
        assert(w[5] == rare(w));
    }
}

/// One for what is so, none for what is not.
pub open spec fn count(b: bool) -> int {
    if b {
        1
    } else {
        0
    }
}

/// The short fixed parts: they hold none of the names, and nothing reaches
/// across where they start or end.
proof fn lemma_short_parts(w: Seq<char>)
    requires
        known(w),
    ensures
        occurrences(":h="@, w) == 0 && ":h="@.len() > 0 && sep(":h="@[0]),
        occurrences(":x='"@, w) == 0 && ":x='"@.len() > 0 && sep(":x='"@[0]) && sep(":x='"@.last()),
        occurrences("':y='"@, w) == 0 && "':y='"@.len() > 0 && sep("':y='"@[0]) && sep("':y='"@.last()),
        occurrences("',"@, w) == 0 && "',"@.len() > 0 && sep("',"@[0]) && sep("',"@.last()),
        occurrences("[b]"@, w) == 0 && "[b]"@.len() > 0 && sep("[b]"@[0]) && sep("[b]"@.last()),
        occurrences("'"@, w) == 0 && "'"@.len() > 0 && sep("'"@[0]) && sep("'"@.last()),
        occurrences("[o]"@, w) == 0 && "[o]"@.len() > 0 && sep("[o]"@[0]) && sep("[o]"@.last()),
        occurrences(";"@, w) == 0 && ";"@.len() > 0 && sep(";"@[0]) && sep(";"@.last()),
        occurrences(":enable='"@, w) == 0 && ":enable='"@.len() > 0 && sep(":enable='"@[0]) && sep(":enable='"@.last()),
{
    lemma_names(w);
    assert(":h="@ =~= seq![':', 'h', '=']) by {
        reveal_strlit(":h=");
    }
    lemma_lacking(":h="@, w, rare(w));
    assert(":x='"@ =~= seq![':', 'x', '=', '\'']) by {
        reveal_strlit(":x='");
    }
    lemma_lacking(":x='"@, w, rare(w));
    assert("':y='"@ =~= seq!['\'', ':', 'y', '=', '\'']) by {
        reveal_strlit("':y='");
    }
    lemma_lacking("':y='"@, w, rare(w));
    assert("',"@ =~= seq!['\'', ',']) by {
        reveal_strlit("',");
    }
    lemma_lacking("',"@, w, rare(w));
    assert("[b]"@ =~= seq!['[', 'b', ']']) by {
        reveal_strlit("[b]");
    }
    lemma_lacking("[b]"@, w, rare(w));
    assert("'"@ =~= seq!['\'']) by {
        reveal_strlit("'");
    }
    lemma_lacking("'"@, w, rare(w));
    assert("[o]"@ =~= seq!['[', 'o', ']']) by {
        reveal_strlit("[o]");
    }
    lemma_lacking("[o]"@, w, rare(w));
    assert(";"@ =~= seq![';']) by {
        reveal_strlit(";");
    }
    lemma_lacking(";"@, w, rare(w));
    assert(":enable='"@ =~= seq![':', 'e', 'n', 'a', 'b', 'l', 'e', '=', '\'']) by {
        reveal_strlit(":enable='");
    }
    lemma_lacking(":enable='"@, w, rare(w));
}

proof fn lemma_split_two(w: Seq<char>)
    requires
        known(w),
    ensures
        "split=2[m][t]"@.len() > 0,
        occurrences("split=2[m][t]"@, w) == count(w == "split="@),
        sep("split=2[m][t]"@.last()),
{
    let s = seq!['s', 'p', 'l', 'i', 't', '=', '2', '[', 'm', ']', '[', 't', ']'];
    lemma_names(w);
    assert("split=2[m][t]"@ =~= s) by {
        reveal_strlit("split=2[m][t]");
    }
    if w == "split="@ {
        let tail = seq!['2', '[', 'm', ']', '[', 't', ']'];
        assert(w[0] == 's');
        lemma_lacking(tail, w, 's');
        lemma_itself(w);
        lemma_meeting(w, tail, w);
        assert(s =~= w + tail);
    } else {
        lemma_lacking(s, w, rare(w));
    }
}

proof fn lemma_cut_box(w: Seq<char>)
    requires
        known(w),
    ensures
        "[t]crop=w="@.len() > 0,
        occurrences("[t]crop=w="@, w) == count(w == "crop="@),
        sep("[t]crop=w="@[0]),
{
    let s = seq!['[', 't', ']', 'c', 'r', 'o', 'p', '=', 'w', '='];
    lemma_names(w);
    assert("[t]crop=w="@ =~= s) by {
        reveal_strlit("[t]crop=w=");
    }
    if w == "crop="@ {
        let tail = seq!['w', '='];
        assert(w[0] == 'c');
        lemma_lacking(tail, w, 'c');
        lemma_itself(w);
        lemma_meeting(w, tail, w);
        let head = seq!['[', 't', ']'];
        assert(w[0] == 'c');
        lemma_lacking(head, w, 'c');
        lemma_meeting(head, w + tail, w);
        assert(s =~= head + (w + tail));
    } else {
        lemma_lacking(s, w, rare(w));
    }
}

proof fn lemma_lay_box(w: Seq<char>)
    requires
        known(w),
    ensures
        "[m][b]overlay=x='"@.len() > 0,
        occurrences("[m][b]overlay=x='"@, w) == count(w == "overlay="@),
        sep("[m][b]overlay=x='"@[0]),
        sep("[m][b]overlay=x='"@.last()),
{
    let s = seq!['[', 'm', ']', '[', 'b', ']', 'o', 'v', 'e', 'r', 'l', 'a', 'y', '=', 'x', '=', '\''];
    lemma_names(w);
    assert("[m][b]overlay=x='"@ =~= s) by {
        reveal_strlit("[m][b]overlay=x='");
    }
    if w == "overlay="@ {
        let tail = seq!['x', '=', '\''];
        assert(w[0] == 'o');
        lemma_lacking(tail, w, 'o');
        lemma_itself(w);
        lemma_meeting(w, tail, w);
        let head = seq!['[', 'm', ']', '[', 'b', ']'];
        assert(w[0] == 'o');
        lemma_lacking(head, w, 'o');
        lemma_meeting(head, w + tail, w);
        assert(s =~= head + (w + tail));
    } else {
        lemma_lacking(s, w, rare(w));
    }
}

proof fn lemma_switch(w: Seq<char>)
    requires
        known(w),
    ensures
        "':eval=frame:enable='"@.len() > 0,
        occurrences("':eval=frame:enable='"@, w) == 0,
        sep("':eval=frame:enable='"@[0]),
        sep("':eval=frame:enable='"@.last()),
{
    let s = seq!['\'', ':', 'e', 'v', 'a', 'l', '=', 'f', 'r', 'a', 'm', 'e', ':', 'e', 'n', 'a', 'b', 'l', 'e', '=', '\''];
    lemma_names(w);
    assert("':eval=frame:enable='"@ =~= s) by {
        reveal_strlit("':eval=frame:enable='");
    }
    if w == "overlay="@ {
        assert(w[0] == 'o');
        lemma_lacking(s, w, 'o');
    } else {
        lemma_lacking(s, w, rare(w));
    }
}

proof fn lemma_black(w: Seq<char>)
    requires
        known(w),
    ensures
        "drawbox=x=0:y=0:w=iw:h=ih:color=black:t=fill"@.len() > 0,
        occurrences("drawbox=x=0:y=0:w=iw:h=ih:color=black:t=fill"@, w) == count(w == "drawbox"@),
{
    let s = seq!['d', 'r', 'a', 'w', 'b', 'o', 'x', '=', 'x', '=', '0', ':', 'y', '=', '0', ':', 'w', '=', 'i', 'w', ':', 'h', '=', 'i', 'h', ':', 'c', 'o', 'l', 'o', 'r', '=', 'b', 'l', 'a', 'c', 'k', ':', 't', '=', 'f', 'i', 'l', 'l'];
    lemma_names(w);
    assert("drawbox=x=0:y=0:w=iw:h=ih:color=black:t=fill"@ =~= s) by {
        reveal_strlit("drawbox=x=0:y=0:w=iw:h=ih:color=black:t=fill");
    }
    if w == "drawbox"@ {
        let tail = seq!['=', 'x', '=', '0', ':', 'y', '=', '0', ':', 'w', '=', 'i', 'w', ':', 'h', '=', 'i', 'h', ':', 'c', 'o', 'l', 'o', 'r', '=', 'b', 'l', 'a', 'c', 'k', ':', 't', '=', 'f', 'i', 'l', 'l'];
        assert(w[0] == 'd');
        lemma_lacking(tail, w, 'd');
        lemma_itself(w);
        lemma_meeting(w, tail, w);
        assert(s =~= w + tail);
    } else if w == "crop="@ {
        assert(w[3] == 'p');
        lemma_lacking(s, w, 'p');
    } else {
        lemma_lacking(s, w, rare(w));
    }
}

proof fn lemma_white(w: Seq<char>)
    requires
        known(w),
    ensures
        "drawbox=x=0:y=0:w=iw:h=ih:color=white:t=fill"@.len() > 0,
        occurrences("drawbox=x=0:y=0:w=iw:h=ih:color=white:t=fill"@, w) == count(w == "drawbox"@),
{
    let s = seq!['d', 'r', 'a', 'w', 'b', 'o', 'x', '=', 'x', '=', '0', ':', 'y', '=', '0', ':', 'w', '=', 'i', 'w', ':', 'h', '=', 'i', 'h', ':', 'c', 'o', 'l', 'o', 'r', '=', 'w', 'h', 'i', 't', 'e', ':', 't', '=', 'f', 'i', 'l', 'l'];
    lemma_names(w);
    assert("drawbox=x=0:y=0:w=iw:h=ih:color=white:t=fill"@ =~= s) by {
        reveal_strlit("drawbox=x=0:y=0:w=iw:h=ih:color=white:t=fill");
    }
    if w == "drawbox"@ {
        let tail = seq!['=', 'x', '=', '0', ':', 'y', '=', '0', ':', 'w', '=', 'i', 'w', ':', 'h', '=', 'i', 'h', ':', 'c', 'o', 'l', 'o', 'r', '=', 'w', 'h', 'i', 't', 'e', ':', 't', '=', 'f', 'i', 'l', 'l'];
        assert(w[0] == 'd');
        lemma_lacking(tail, w, 'd');
        lemma_itself(w);
        lemma_meeting(w, tail, w);
        assert(s =~= w + tail);
    } else if w == "crop="@ {
        assert(w[3] == 'p');
        lemma_lacking(s, w, 'p');
    } else {
        lemma_lacking(s, w, rare(w));
    }
}

proof fn lemma_blur_one(w: Seq<char>)
    requires
        known(w),
    ensures
        "boxblur=luma_radius='min("@.len() > 0,
        occurrences("boxblur=luma_radius='min("@, w) == count(w == "boxblur"@),
        sep("boxblur=luma_radius='min("@.last()),
{
    let s = seq!['b', 'o', 'x', 'b', 'l', 'u', 'r', '=', 'l', 'u', 'm', 'a', '_', 'r', 'a', 'd', 'i', 'u', 's', '=', '\'', 'm', 'i', 'n', '('];
    lemma_names(w);
    assert("boxblur=luma_radius='min("@ =~= s) by {
        reveal_strlit("boxblur=luma_radius='min(");
    }
    if w == "boxblur"@ {
        let tail = seq!['=', 'l', 'u', 'm', 'a', '_', 'r', 'a', 'd', 'i', 'u', 's', '=', '\'', 'm', 'i', 'n', '('];
        assert(w[0] == 'b');
        lemma_lacking(tail, w, 'b');
        lemma_itself(w);
        lemma_meeting(w, tail, w);
        assert(s =~= w + tail);
    } else if w == "split="@ {
        assert(w[1] == 'p');
        lemma_lacking(s, w, 'p');
    } else if w == "drawbox"@ {
        assert(w[3] == 'w');
        lemma_lacking(s, w, 'w');
    } else {
        lemma_lacking(s, w, rare(w));
    }
}

proof fn lemma_blur_two(w: Seq<char>)
    requires
        known(w),
    ensures
        ",(min(w,h)-1)/2)':luma_power="@.len() > 0,
        occurrences(",(min(w,h)-1)/2)':luma_power="@, w) == 0,
        sep(",(min(w,h)-1)/2)':luma_power="@[0]),
{
    let s = seq![',', '(', 'm', 'i', 'n', '(', 'w', ',', 'h', ')', '-', '1', ')', '/', '2', ')', '\'', ':', 'l', 'u', 'm', 'a', '_', 'p', 'o', 'w', 'e', 'r', '='];
    lemma_names(w);
    assert(",(min(w,h)-1)/2)':luma_power="@ =~= s) by {
        reveal_strlit(",(min(w,h)-1)/2)':luma_power=");
    }
    if w == "boxblur"@ {
        assert(w[0] == 'b');
        lemma_lacking(s, w, 'b');
    } else {
        lemma_lacking(s, w, rare(w));
    }
}

proof fn lemma_blur_three(w: Seq<char>)
    requires
        known(w),
    ensures
        ":chroma_radius='min("@.len() > 0,
        occurrences(":chroma_radius='min("@, w) == 0,
        sep(":chroma_radius='min("@[0]),
        sep(":chroma_radius='min("@.last()),
{
    let s = seq![':', 'c', 'h', 'r', 'o', 'm', 'a', '_', 'r', 'a', 'd', 'i', 'u', 's', '=', '\'', 'm', 'i', 'n', '('];
    lemma_names(w);
    assert(":chroma_radius='min("@ =~= s) by {
        reveal_strlit(":chroma_radius='min(");
    }
    if w == "split="@ {
        assert(w[1] == 'p');
        lemma_lacking(s, w, 'p');
    } else if w == "crop="@ {
        assert(w[3] == 'p');
        lemma_lacking(s, w, 'p');
    } else if w == "drawbox"@ {
        assert(w[3] == 'w');
        lemma_lacking(s, w, 'w');
    } else if w == "boxblur"@ {
        assert(w[0] == 'b');
        lemma_lacking(s, w, 'b');
    } else {
        lemma_lacking(s, w, rare(w));
    }
}

proof fn lemma_blur_four(w: Seq<char>)
    requires
        known(w),
    ensures
        ",(min(cw,ch)-1)/2)':chroma_power="@.len() > 0,
        occurrences(",(min(cw,ch)-1)/2)':chroma_power="@, w) == 0,
        sep(",(min(cw,ch)-1)/2)':chroma_power="@[0]),
{
    let s = seq![',', '(', 'm', 'i', 'n', '(', 'c', 'w', ',', 'c', 'h', ')', '-', '1', ')', '/', '2', ')', '\'', ':', 'c', 'h', 'r', 'o', 'm', 'a', '_', 'p', 'o', 'w', 'e', 'r', '='];
    lemma_names(w);
    assert(",(min(cw,ch)-1)/2)':chroma_power="@ =~= s) by {
        reveal_strlit(",(min(cw,ch)-1)/2)':chroma_power=");
    }
    if w == "crop="@ {
        let head = seq![',', '(', 'm', 'i', 'n', '(', 'c', 'w', ',', 'c', 'h', ')', '-', '1', ')', '/', '2', ')', '\'', ':', 'c', 'h', 'r', 'o', 'm', 'a', '_'];
        let tail = seq!['p', 'o', 'w', 'e', 'r', '='];
        assert(w[3] == 'p' && w[0] == 'c');
        lemma_lacking(head, w, 'p');
        lemma_lacking(tail, w, 'c');
        lemma_meeting(head, tail, w);
        assert(s =~= head + tail);
    } else {
        lemma_lacking(s, w, rare(w));
    }
}

// ---------------------------------------------------------------------------
// Steps
// ---------------------------------------------------------------------------

/// The name of the filter that covers.
pub open spec fn cover_name(style: CensorStyle) -> Seq<char> {
    match style {
        CensorStyle::BlackBox | CensorStyle::WhiteBox => "drawbox"@,
        _ => "boxblur"@,
    }
}

proof fn lemma_blur(lr: int, lp: int, cr: int, cp: int, w: Seq<char>)
    requires
        known(w),
    ensures
        ({
            let f = graph::blur_text(lr, lp, cr, cp);
            &&& occurrences(f, w) == count(w == "boxblur"@)
            &&& f.len() > 0 && sep(f.last())
            &&& starts(f, "boxblur"@)
        }),
{
    let p1 = "boxblur=luma_radius='min("@;
    let p2 = ",(min(w,h)-1)/2)':luma_power="@;
    let p3 = ":chroma_radius='min("@;
    let p4 = ",(min(cw,ch)-1)/2)':chroma_power="@;
    let i1 = text::int_text(lr);
    let i2 = text::int_text(lp);
    let i3 = text::int_text(cr);
    let i4 = text::int_text(cp);
    lemma_names(w);
    lemma_blur_one(w);
    lemma_blur_two(w);
    lemma_blur_three(w);
    lemma_blur_four(w);
    lemma_int_plain(lr);
    lemma_int_plain(lp);
    lemma_int_plain(cr);
    lemma_int_plain(cp);
    lemma_not_in_plain(i1, w, rare(w));
    lemma_not_in_plain(i2, w, rare(w));
    lemma_not_in_plain(i3, w, rare(w));
    lemma_not_in_plain(i4, w, rare(w));
    let a1 = p1 + i1;
    let a2 = a1 + p2;
    let a3 = a2 + i2;
    let a4 = a3 + p3;
    let a5 = a4 + i3;
    let a6 = a5 + p4;
    let a7 = a6 + i4;
    lemma_meeting(p1, i1, w);
    lemma_meeting(a1, p2, w);
    lemma_meeting(a2, i2, w);
    lemma_meeting(a3, p3, w);
    lemma_meeting(a4, i3, w);
    lemma_meeting(a5, p4, w);
    lemma_meeting(a6, i4, w);
    assert(a7.last() == i4.last());
    let head = "boxblur"@;
    lemma_names(head);
    assert(p1.take(7) =~= head) by {
        reveal_strlit("boxblur=luma_radius='min(");
        reveal_strlit("boxblur");
    }
    assert(p1.len() >= 7) by {
        reveal_strlit("boxblur=luma_radius='min(");
    }
    assert(a7.take(7) =~= p1.take(7));
}

proof fn lemma_cover(style: CensorStyle, w: Seq<char>)
    requires
        known(w),
    ensures
        ({
            let f = style.filter_text();
            &&& occurrences(f, w) == count(w == cover_name(style))
            &&& f.len() > 0
            &&& starts(f, cover_name(style))
        }),
{
    lemma_names(w);
    match style {
        CensorStyle::BlackBox => {
            lemma_black(w);
            assert(style.filter_text().len() == 44) by {
                reveal_strlit("drawbox=x=0:y=0:w=iw:h=ih:color=black:t=fill");
            }
            assert(style.filter_text().take(7) =~= "drawbox"@) by {
                reveal_strlit("drawbox=x=0:y=0:w=iw:h=ih:color=black:t=fill");
                reveal_strlit("drawbox");
            }
        },
        CensorStyle::WhiteBox => {
            lemma_white(w);
            assert(style.filter_text().len() == 44) by {
                reveal_strlit("drawbox=x=0:y=0:w=iw:h=ih:color=white:t=fill");
            }
            assert(style.filter_text().take(7) =~= "drawbox"@) by {
                reveal_strlit("drawbox=x=0:y=0:w=iw:h=ih:color=white:t=fill");
                reveal_strlit("drawbox");
            }
        },
        CensorStyle::BlurLight => {
            lemma_blur(8, 1, 4, 1, w);
        },
        CensorStyle::BlurMedium => {
            lemma_blur(16, 2, 8, 2, w);
        },
        CensorStyle::BlurStrong => {
            lemma_blur(28, 2, 14, 2, w);
        },
    }
}

proof fn lemma_crop_step(
    bw: int,
    bh: int,
    xe: Seq<char>,
    ye: Seq<char>,
    style: CensorStyle,
    w: Seq<char>,
)
    requires
        known(w),
        all_plain(xe),
        all_plain(ye),
    ensures
        ({
            let f = style.filter_text();
            let s = graph::crop_with(bw, bh, xe, ye, f);
            &&& occurrences(s, w) == count(w == "crop="@) + count(w == cover_name(style))
            &&& occurrences(s, f) >= 1
            &&& s.len() > 0 && sep(s[0]) && sep(s.last())
        }),
{
    let f = style.filter_text();
    let iw = text::int_text(bw);
    let ih = text::int_text(bh);
    lemma_names(w);
    lemma_short_parts(w);
    lemma_cut_box(w);
    lemma_cover(style, w);
    lemma_int_plain(bw);
    lemma_int_plain(bh);
    lemma_not_in_plain(iw, w, rare(w));
    lemma_not_in_plain(ih, w, rare(w));
    lemma_not_in_plain(xe, w, rare(w));
    lemma_not_in_plain(ye, w, rare(w));
    let a1 = "[t]crop=w="@ + iw;
    let a2 = a1 + ":h="@;
    let a3 = a2 + ih;
    let a4 = a3 + ":x='"@;
    let a5 = a4 + xe;
    let a6 = a5 + "':y='"@;
    let a7 = a6 + ye;
    let a8 = a7 + "',"@;
    let a9 = a8 + f;
    let s = a9 + "[b]"@;
    lemma_meeting("[t]crop=w="@, iw, w);
    lemma_meeting(a1, ":h="@, w);
    lemma_meeting(a2, ih, w);
    lemma_meeting(a3, ":x='"@, w);
    assert(a4.last() == ":x='"@.last());
    lemma_meeting(a4, xe, w);
    lemma_meeting(a5, "':y='"@, w);
    assert(a6.last() == "':y='"@.last());
    lemma_meeting(a6, ye, w);
    lemma_meeting(a7, "',"@, w);
    assert(a8.last() == "',"@.last());
    lemma_meeting(a8, f, w);
    lemma_meeting(a9, "[b]"@, w);
    assert(s[0] == "[t]crop=w="@[0]);
    assert(s.last() == "[b]"@.last());
    lemma_itself(f);
    lemma_no_fewer(a8, f, f);
    lemma_no_fewer(a9, "[b]"@, f);
    lemma_not_negative(a8, f);
    lemma_not_negative("[b]"@, f);
}

proof fn lemma_not_negative(s: Seq<char>, w: Seq<char>)
    ensures
        occurrences(s, w) >= 0,
    decreases s.len(),
{
    if s.len() > 0 {
        lemma_not_negative(s.drop_first(), w);
    }
}

proof fn lemma_overlay_step(xe: Seq<char>, ye: Seq<char>, on: Seq<char>, w: Seq<char>)
    requires
        known(w),
        all_plain(xe),
        all_plain(ye),
        all_plain(on),
    ensures
        ({
            let s = graph::overlay_with(xe, ye, on);
            &&& occurrences(s, w) == count(w == "overlay="@)
            &&& s.len() > 0 && sep(s[0]) && sep(s.last())
        }),
{
    lemma_names(w);
    lemma_short_parts(w);
    lemma_lay_box(w);
    lemma_switch(w);
    lemma_not_in_plain(xe, w, rare(w));
    lemma_not_in_plain(ye, w, rare(w));
    lemma_not_in_plain(on, w, rare(w));
    let p = "[m][b]overlay=x='"@;
    let e = "':eval=frame:enable='"@;
    let a1 = p + xe;
    let a2 = a1 + "':y='"@;
    let a3 = a2 + ye;
    let a4 = a3 + e;
    let a5 = a4 + on;
    let s = a5 + "'"@;
    lemma_meeting(p, xe, w);
    lemma_meeting(a1, "':y='"@, w);
    assert(a2.last() == "':y='"@.last());
    lemma_meeting(a2, ye, w);
    lemma_meeting(a3, e, w);
    assert(a4.last() == e.last());
    lemma_meeting(a4, on, w);
    lemma_meeting(a5, "'"@, w);
    assert(s[0] == p[0]);
    assert(s.last() == "'"@.last());
}

proof fn lemma_full_step(full: Seq<(int, int)>, style: CensorStyle, w: Seq<char>)
    requires
        known(w),
    ensures
        ({
            let s = graph::full_text(full, style);
            &&& occurrences(s, w) == count(w == cover_name(style))
            &&& occurrences(s, style.filter_text()) >= 1
        }),
{
    let f = style.filter_text();
    let on = graph::gate_text(full);
    lemma_names(w);
    lemma_short_parts(w);
    lemma_cover(style, w);
    lemma_gate_plain(full);
    lemma_not_in_plain(on, w, rare(w));
    let a1 = f + ":enable='"@;
    let a2 = a1 + on;
    let s = a2 + "'"@;
    lemma_meeting(f, ":enable='"@, w);
    assert(a1.last() == ":enable='"@.last());
    lemma_meeting(a1, on, w);
    lemma_meeting(a2, "'"@, w);
    lemma_itself(f);
    lemma_no_fewer(f, ":enable='"@, f);
    lemma_no_fewer(a1, on, f);
    lemma_no_fewer(a2, "'"@, f);
    lemma_not_negative(":enable='"@, f);
    lemma_not_negative(on, f);
    lemma_not_negative("'"@, f);
}

/// One more step after those there are.
proof fn lemma_next_step(before: Seq<char>, step: Seq<char>, w: Seq<char>, f: Seq<char>)
    requires
        known(w),
        f.len() > 0,
    ensures
        ({
            let s = before + ";"@ + step;
            &&& occurrences(s, w) == occurrences(before, w) + occurrences(step, w)
            &&& occurrences(s, f) >= occurrences(before, f) + occurrences(step, f)
        }),
{
    let a = before + ";"@;
    lemma_names(w);
    lemma_short_parts(w);
    lemma_meeting(before, ";"@, w);
    assert(a.last() == ";"@.last());
    lemma_meeting(a, step, w);
    lemma_no_fewer(before, ";"@, f);
    lemma_not_negative(";"@, f);
    lemma_no_fewer(a, step, f);
}

proof fn lemma_labelled(three: Seq<char>, flood: Seq<char>, w: Seq<char>, f: Seq<char>)
    requires
        known(w),
        f.len() > 0,
    ensures
        occurrences(three + "[o]"@, w) == occurrences(three, w),
        occurrences("[o]"@ + flood, w) == occurrences(flood, w),
        occurrences("[o]"@ + flood, f) >= occurrences(flood, f),
{
    lemma_names(w);
    lemma_short_parts(w);
    lemma_meeting(three, "[o]"@, w);
    lemma_meeting("[o]"@, flood, w);
    lemma_no_fewer("[o]"@, flood, f);
    lemma_not_negative("[o]"@, f);
}

/// Three steps one after another.
proof fn lemma_three_steps(one: Seq<char>, two: Seq<char>, three: Seq<char>)
    ensures
        graph::joined(seq![one, two, three], ";"@) == one + ";"@ + two + ";"@ + three,
{
    let all = seq![one, two, three];
    assert(all.drop_last() =~= seq![one, two]);
    assert(all.drop_last().drop_last() =~= seq![one]);
    reveal_with_fuel(graph::joined, 4);
}

/// Four steps one after another.
proof fn lemma_four_steps(one: Seq<char>, two: Seq<char>, three: Seq<char>, four: Seq<char>)
    ensures
        graph::joined(seq![one, two, three, four], ";"@) == one + ";"@ + two + ";"@ + three + ";"@
            + four,
{
    let all = seq![one, two, three, four];
    assert(all.drop_last() =~= seq![one, two, three]);
    lemma_three_steps(one, two, three);
}

/// The steps of the moving box.
proof fn lemma_moving_steps(
    ws: Seq<WindowView>,
    fw: int,
    fh: int,
    style: CensorStyle,
    w: Seq<char>,
)
    requires
        known(w),
    ensures
        ({
            let two = graph::crop_text(ws, fw, fh, style);
            let three = graph::overlay_text(ws, fw, fh);
            &&& occurrences(two, w) == count(w == "crop="@) + count(w == cover_name(style))
            &&& occurrences(two, style.filter_text()) >= 1
            &&& occurrences(three, w) == count(w == "overlay="@)
        }),
{
    lemma_expr_plain(graph::x_expr(ws, fw, fh));
    lemma_expr_plain(graph::y_expr(ws, fw, fh));
    lemma_gate_plain(graph::spans_of(ws));
    let xe = graph::x_expr(ws, fw, fh).spelled();
    let ye = graph::y_expr(ws, fw, fh).spelled();
    let (bw, bh) = graph::box_size(ws, fw, fh);
    lemma_crop_step(bw, bh, xe, ye, style, w);
    lemma_overlay_step(xe, ye, graph::gate_text(graph::spans_of(ws)), w);
}

/// How often a name occurs in a graph: that of each of the three filters of the
/// moving box once if there is a window, and that of the filter that covers once
/// for the windows and once for the full-frame spans.
#[verifier::rlimit(60)]
#[verifier::spinoff_prover]
proof fn lemma_names_in_graph(
    full: Seq<(int, int)>,
    ws: Seq<WindowView>,
    fw: int,
    fh: int,
    style: CensorStyle,
    w: Seq<char>,
)
    requires
        known(w),
    ensures
        ({
            let s = graph::graph_text(full, ws, fw, fh, style);
            let boxed = count(ws.len() > 0);
            let flooded = count(full.len() > 0);
            let named = count(w == "split="@) + count(w == "crop="@) + count(w == "overlay="@);
            &&& occurrences(s, w) == boxed * named + (boxed + flooded) * count(
                w == cover_name(style),
            )
            &&& occurrences(s, style.filter_text()) >= boxed + flooded
        }),
{
    let f = style.filter_text();
    let one = "split=2[m][t]"@;
    let two = graph::crop_text(ws, fw, fh, style);
    let three = graph::overlay_text(ws, fw, fh);
    let flood = graph::full_text(full, style);
    lemma_split_two(w);
    lemma_cover(style, w);
    lemma_full_step(full, style, w);
    lemma_moving_steps(ws, fw, fh, style, w);
    lemma_not_negative(one, f);
    lemma_not_negative(three, f);
    if ws.len() == 0 && full.len() == 0 {
        assert(graph::graph_text(full, ws, fw, fh, style) =~= Seq::empty());
    } else if ws.len() > 0 && full.len() == 0 {
        lemma_three_steps(one, two, three);
        lemma_next_step(one, two, w, f);
        lemma_next_step(one + ";"@ + two, three, w, f);
    } else if ws.len() > 0 {
        let three_o = three + "[o]"@;
        let four = "[o]"@ + flood;
        lemma_not_negative(three_o, f);
        lemma_labelled(three, flood, w, f);
        lemma_four_steps(one, two, three_o, four);
        lemma_next_step(one, two, w, f);
        lemma_next_step(one + ";"@ + two, three_o, w, f);
        lemma_next_step(one + ";"@ + two + ";"@ + three_o, four, w, f);
    }
}

/// However much is covered, the graph holds the same filters: one split, one
/// crop and one overlay if there is a window and none if there is not, and the
/// filter that covers once for the windows and once for the full-frame spans.
pub proof fn law_filters_do_not_multiply(
    full: Seq<(int, int)>,
    ws: Seq<WindowView>,
    fw: int,
    fh: int,
    style: CensorStyle,
)
    ensures
        ({
            let s = graph::graph_text(full, ws, fw, fh, style);
            &&& occurrences(s, "split="@) == count(ws.len() > 0)
            &&& occurrences(s, "crop="@) == count(ws.len() > 0)
            &&& occurrences(s, "overlay="@) == count(ws.len() > 0)
            &&& occurrences(s, style.filter_text()) == count(ws.len() > 0) + count(full.len() > 0)
        }),
{
    let s = graph::graph_text(full, ws, fw, fh, style);
    let head = cover_name(style);
    lemma_names(head);
    lemma_names_in_graph(full, ws, fw, fh, style, "split="@);
    lemma_names_in_graph(full, ws, fw, fh, style, "crop="@);
    lemma_names_in_graph(full, ws, fw, fh, style, "overlay="@);
    lemma_names_in_graph(full, ws, fw, fh, style, head);
    lemma_cover(style, head);
    lemma_longer_word(s, style.filter_text(), head);
}

} // verus!
