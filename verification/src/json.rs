//! The little JSON that the player speaks.

use vstd::prelude::*;
use vstd::string::StringExecFns;

use crate::text;

verus! {

/// A hexadecimal digit, in lower case.
pub open spec fn hex_digit(d: int) -> char {
    if d < 10 {
        text::digit(d)
    } else if d == 10 {
        'a'
    } else if d == 11 {
        'b'
    } else if d == 12 {
        'c'
    } else if d == 13 {
        'd'
    } else if d == 14 {
        'e'
    } else {
        'f'
    }
}

/// A character as it stands between the quotes of a JSON string.
pub open spec fn escape(c: char) -> Seq<char> {
    let u = c as int;
    if c == '"' {
        seq!['\\', '"']
    } else if c == '\\' {
        seq!['\\', '\\']
    } else if u == 0x8 {
        seq!['\\', 'b']
    } else if u == 0x9 {
        seq!['\\', 't']
    } else if u == 0xa {
        seq!['\\', 'n']
    } else if u == 0xc {
        seq!['\\', 'f']
    } else if u == 0xd {
        seq!['\\', 'r']
    } else if u < 0x20 {
        seq!['\\', 'u', '0', '0', hex_digit(u / 16), hex_digit(u % 16)]
    } else {
        seq![c]
    }
}

/// A text as it stands between the quotes of a JSON string.
pub open spec fn escaped(s: Seq<char>) -> Seq<char>
    decreases s.len(),
{
    if s.len() == 0 {
        Seq::empty()
    } else {
        escaped(s.drop_last()) + escape(s.last())
    }
}

/// A JSON string.
pub open spec fn quoted(s: Seq<char>) -> Seq<char> {
    seq!['"'] + escaped(s) + seq!['"']
}

/// `Display` of a string `Value` of serde_json: the compact form, quoted, with
/// quotes, backslashes and control characters escaped and all else as it is.
#[verifier::external_body]
pub(crate) fn quote(s: &str) -> (out: String)
    ensures
        out@ == quoted(s@),
{
    serde_json::Value::from(s).to_string()
}

/// No control character, and so no end of line.
pub open spec fn one_line(s: Seq<char>) -> bool {
    forall|i: int| 0 <= i < s.len() ==> (#[trigger] s[i]) as int >= 0x20
}

pub(crate) proof fn lemma_joined_lines(a: Seq<char>, b: Seq<char>)
    requires
        one_line(a),
        one_line(b),
    ensures
        one_line(a + b),
{
    let all = a + b;
    assert forall|i: int| 0 <= i < all.len() implies (#[trigger] all[i]) as int >= 0x20 by {
        if i < a.len() {
            assert(all[i] == a[i]);
        } else {
            assert(all[i] == b[i - a.len()]);
        }
    }
}

proof fn lemma_digits_line(n: nat)
    ensures
        one_line(text::digits(n)),
    decreases n,
{
    if n >= 10 {
        lemma_digits_line(n / 10);
    }
}

pub(crate) proof fn lemma_int_line(v: int)
    ensures
        one_line(text::int_text(v)),
{
    reveal_strlit("-");
    if v < 0 {
        lemma_digits_line((-v) as nat);
        lemma_joined_lines("-"@, text::digits((-v) as nat));
    } else {
        lemma_digits_line(v as nat);
    }
}

pub(crate) proof fn lemma_decimal_line(ms: int)
    ensures
        one_line(text::decimal_text(ms)),
{
    reveal_strlit("-");
    reveal_strlit(".");
    let size = if ms < 0 {
        -ms
    } else {
        ms
    };
    let sign = if ms < 0 {
        "-"@
    } else {
        Seq::<char>::empty()
    };
    let whole = text::digits((size / 1000) as nat);
    lemma_digits_line((size / 1000) as nat);
    lemma_joined_lines(sign, whole);
    lemma_joined_lines(sign + whole, "."@);
    lemma_joined_lines(sign + whole + "."@, text::fraction_text(size % 1000));
}

// ---------------------------------------------------------------------------
// Documents
// ---------------------------------------------------------------------------

/// A JSON document of any shape, as it is spelled: on one line, without white
/// space between its parts.
#[derive(Debug)]
pub struct Json {
    spelling: String,
}

impl Clone for Json {
    fn clone(&self) -> (j: Json)
        ensures
            j@ == self@,
    {
        proof {
            use_type_invariant(self);
        }
        Json { spelling: self.spelling.clone() }
    }
}

impl View for Json {
    type V = Seq<char>;

    closed spec fn view(&self) -> Seq<char> {
        self.spelling@
    }
}

/// Documents as they are spelled.
pub open spec fn spellings(list: Seq<Json>) -> Seq<Seq<char>> {
    Seq::new(list.len(), |i: int| list[i]@)
}

/// Spellings with commas between them.
pub open spec fn listed(parts: Seq<Seq<char>>) -> Seq<char>
    decreases parts.len(),
{
    if parts.len() == 0 {
        Seq::empty()
    } else if parts.len() == 1 {
        parts[0]
    } else {
        listed(parts.drop_last()) + ","@ + parts.last()
    }
}

/// A field of an object.
#[derive(Debug, Clone)]
pub struct Field {
    pub key: String,
    pub value: Json,
}

/// Fields as they are spelled.
pub open spec fn field_spellings(list: Seq<Field>) -> Seq<Seq<char>> {
    Seq::new(list.len(), |i: int| quoted(list[i].key@) + ":"@ + list[i].value@)
}

impl Json {
    #[verifier::type_invariant]
    spec fn on_one_line(&self) -> bool {
        one_line(self.spelling@)
    }

    pub fn null() -> (j: Json)
        ensures
            j@ == "null"@,
    {
        proof {
            reveal_strlit("null");
        }
        Json { spelling: "null".to_owned() }
    }

    pub fn flag(b: bool) -> (j: Json)
        ensures
            j@ == if b {
                "true"@
            } else {
                "false"@
            },
    {
        proof {
            reveal_strlit("true");
            reveal_strlit("false");
        }
        Json {
            spelling: if b {
                "true".to_owned()
            } else {
                "false".to_owned()
            },
        }
    }

    pub fn text(s: &str) -> (j: Json)
        ensures
            j@ == quoted(s@),
    {
        proof {
            law_quoted_text_is_one_line(s@);
        }
        Json { spelling: quote(s) }
    }

    pub fn number(n: i64) -> (j: Json)
        ensures
            j@ == text::int_text(n as int),
    {
        proof {
            lemma_int_line(n as int);
        }
        let mut spelling: String = String::new();
        text::push_int(&mut spelling, n);
        assert(spelling@ =~= text::int_text(n as int));
        Json { spelling }
    }

    /// A time in milliseconds, spelled in seconds.
    pub fn seconds(ms: i64) -> (j: Json)
        ensures
            j@ == text::decimal_text(ms as int),
    {
        proof {
            lemma_decimal_line(ms as int);
        }
        let mut spelling: String = String::new();
        text::push_decimal(&mut spelling, ms);
        assert(spelling@ =~= text::decimal_text(ms as int));
        Json { spelling }
    }

    /// A list of documents.
    pub fn list(parts: &Vec<Json>) -> (j: Json)
        ensures
            j@ == "["@ + listed(spellings(parts@)) + "]"@,
    {
        proof {
            reveal_strlit("[");
            reveal_strlit("]");
            reveal_strlit(",");
        }
        let ghost all = spellings(parts@);
        let n: usize = parts.len();
        let mut inner: String = String::new();
        let mut i: usize = 0;
        assert(all.take(0) =~= Seq::empty());
        while i < n
            invariant
                i <= n,
                n == parts@.len(),
                all == spellings(parts@),
                one_line(","@),
                one_line(inner@),
                inner@ == listed(all.take(i as int)),
            decreases n - i,
        {
            let part: &Json = &parts[i];
            proof {
                use_type_invariant(part);
                assert(all.take(i + 1).drop_last() =~= all.take(i as int));
                assert(all.take(i + 1).last() == part@);
                lemma_joined_lines(inner@, ","@);
                lemma_joined_lines(inner@ + ","@, part@);
                lemma_joined_lines(inner@, part@);
            }
            if i > 0 {
                inner.append(",");
            }
            inner.append(part.spelling.as_str());
            assert(inner@ =~= listed(all.take(i + 1)));
            i += 1;
        }
        assert(all.take(n as int) =~= all);
        proof {
            lemma_joined_lines("["@, inner@);
            lemma_joined_lines("["@ + inner@, "]"@);
        }
        let mut spelling: String = "[".to_owned();
        spelling.append(inner.as_str());
        spelling.append("]");
        Json { spelling }
    }

    /// An object with these fields, in this order.
    pub fn object(fields: &Vec<Field>) -> (j: Json)
        ensures
            j@ == "{"@ + listed(field_spellings(fields@)) + "}"@,
    {
        proof {
            reveal_strlit("{");
            reveal_strlit("}");
            reveal_strlit(",");
            reveal_strlit(":");
        }
        let ghost all = field_spellings(fields@);
        let n: usize = fields.len();
        let mut inner: String = String::new();
        let mut i: usize = 0;
        assert(all.take(0) =~= Seq::empty());
        while i < n
            invariant
                i <= n,
                n == fields@.len(),
                all == field_spellings(fields@),
                one_line(","@),
                one_line(":"@),
                one_line(inner@),
                inner@ == listed(all.take(i as int)),
            decreases n - i,
        {
            let value: &Json = &fields[i].value;
            let mut field: String = quote(fields[i].key.as_str());
            proof {
                use_type_invariant(value);
                law_quoted_text_is_one_line(fields@[i as int].key@);
                lemma_joined_lines(field@, ":"@);
                lemma_joined_lines(field@ + ":"@, value@);
            }
            field.append(":");
            field.append(value.spelling.as_str());
            proof {
                assert(all.take(i + 1).drop_last() =~= all.take(i as int));
                assert(all.take(i + 1).last() == field@);
                lemma_joined_lines(inner@, ","@);
                lemma_joined_lines(inner@ + ","@, field@);
                lemma_joined_lines(inner@, field@);
            }
            if i > 0 {
                inner.append(",");
            }
            inner.append(field.as_str());
            assert(inner@ =~= listed(all.take(i + 1)));
            i += 1;
        }
        assert(all.take(n as int) =~= all);
        proof {
            lemma_joined_lines("{"@, inner@);
            lemma_joined_lines("{"@ + inner@, "}"@);
        }
        let mut spelling: String = "{".to_owned();
        spelling.append(inner.as_str());
        spelling.append("}");
        Json { spelling }
    }

    /// How the document is spelled, which is on one line.
    pub fn spelled(&self) -> (s: &str)
        ensures
            s@ == self@,
            one_line(s@),
    {
        proof {
            use_type_invariant(self);
        }
        self.spelling.as_str()
    }
}

/// A scalar of a JSON document. A number is kept as it is spelled.
#[derive(Debug, Clone)]
pub enum Datum {
    Text(String),
    Number(String),
    Flag(bool),
    /// Null, or something with parts.
    Other,
}

/// A scalar as a mathematical value.
pub enum DatumView {
    Text(Seq<char>),
    Number(Seq<char>),
    Flag(bool),
    Other,
}

impl View for Datum {
    type V = DatumView;

    open spec fn view(&self) -> DatumView {
        match self {
            Datum::Text(s) => DatumView::Text(s@),
            Datum::Number(s) => DatumView::Number(s@),
            Datum::Flag(b) => DatumView::Flag(*b),
            Datum::Other => DatumView::Other,
        }
    }
}

/// An optional scalar as a mathematical value.
pub open spec fn datum_view(d: Option<Datum>) -> Option<DatumView> {
    match d {
        Some(d) => Some(d@),
        None => None,
    }
}

/// What serde_json finds under a key of a document.
pub uninterp spec fn field_of(document: Seq<char>, key: Seq<char>) -> Option<DatumView>;

/// `from_str` of serde_json into a `Value`, and `get` on what it returns: the
/// scalar under a key, nothing where the text is no JSON document, is not an
/// object, or lacks the key. A number comes as `Display` spells it.
#[verifier::external_body]
pub(crate) fn field(document: &str, key: &str) -> (r: Option<Datum>)
    ensures
        datum_view(r) == field_of(document@, key@),
{
    let value: serde_json::Value = match serde_json::from_str(document) {
        Ok(value) => value,
        Err(_) => return None,
    };
    Some(match value.get(key)? {
        serde_json::Value::String(s) => Datum::Text(s.clone()),
        serde_json::Value::Number(n) => Datum::Number(n.to_string()),
        serde_json::Value::Bool(b) => Datum::Flag(*b),
        serde_json::Value::Null => Datum::Other,
        serde_json::Value::Array(_) => Datum::Other,
        serde_json::Value::Object(_) => Datum::Other,
    })
}

proof fn lemma_escaped_is_one_line(s: Seq<char>)
    ensures
        forall|i: int| 0 <= i < escaped(s).len() ==> (#[trigger] escaped(s)[i]) as int >= 0x20,
    decreases s.len(),
{
    if s.len() > 0 {
        lemma_escaped_is_one_line(s.drop_last());
        let before = escaped(s.drop_last());
        let tail = escape(s.last());
        assert forall|i: int| 0 <= i < tail.len() implies (#[trigger] tail[i]) as int >= 0x20 by {}
        assert forall|i: int| 0 <= i < escaped(s).len() implies (#[trigger] escaped(s)[i]) as int
            >= 0x20 by {
            if i < before.len() {
                assert(escaped(s)[i] == before[i]);
            } else {
                assert(escaped(s)[i] == tail[i - before.len()]);
            }
        }
    }
}

/// A JSON string holds no control character, and so no end of line.
pub proof fn law_quoted_text_is_one_line(s: Seq<char>)
    ensures
        one_line(quoted(s)),
{
    lemma_escaped_is_one_line(s);
    assert forall|i: int| 0 <= i < quoted(s).len() implies (#[trigger] quoted(s)[i]) as int
        >= 0x20 by {
        if 0 < i < quoted(s).len() - 1 {
            assert(quoted(s)[i] == escaped(s)[i - 1]);
        }
    }
}

} // verus!
