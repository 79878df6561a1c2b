//! Lines of the supervisor journal.

use vstd::prelude::*;
use vstd::string::*;
use crate::text::{copy_text, to_chars};

verus! {

/// Each character of a text replaced by the characters that stand for it.
pub open spec fn replaced(s: Seq<char>, put: spec_fn(char) -> Seq<char>) -> Seq<char>
    decreases s.len(),
{
    if s.len() == 0 {
        Seq::empty()
    } else {
        replaced(s.drop_last(), put) + put(s.last())
    }
}

pub proof fn lemma_replaced_step(s: Seq<char>, put: spec_fn(char) -> Seq<char>, i: int)
    requires
        0 <= i < s.len(),
    ensures
        replaced(s.take(i + 1), put) == replaced(s.take(i), put) + put(s[i]),
{
    assert(s.take(i + 1).drop_last() =~= s.take(i));
    assert(s.take(i + 1).last() == s[i]);
}

/// What holds of every replacement character holds of the whole.
pub proof fn lemma_replaced_all(
    s: Seq<char>,
    put: spec_fn(char) -> Seq<char>,
    good: spec_fn(char) -> bool,
)
    requires
        forall|c: char, i: int| 0 <= i < put(c).len() ==> good(#[trigger] put(c)[i]),
    ensures
        forall|i: int| 0 <= i < replaced(s, put).len() ==> good(#[trigger] replaced(s, put)[i]),
    decreases s.len(),
{
    if s.len() > 0 {
        lemma_replaced_all(s.drop_last(), put, good);
        let front = replaced(s.drop_last(), put);
        assert forall|i: int| 0 <= i < replaced(s, put).len() implies good(
            #[trigger] replaced(s, put)[i],
        ) by {
            if i < front.len() {
                assert(replaced(s, put)[i] == front[i]);
            } else {
                assert(replaced(s, put)[i] == put(s.last())[i - front.len()]);
            }
        }
    }
}

/// How a character of a value is written in a journal line.
pub open spec fn value_char(c: char) -> Seq<char> {
    if c == '\\' {
        seq!['\\', '\\']
    } else if c == '\n' {
        seq!['\\', 'n']
    } else if c == '\r' {
        seq!['\\', 'r']
    } else if c == '\t' {
        seq!['\\', 't']
    } else if c == ' ' {
        seq!['\\', 's']
    } else if c == '=' {
        seq!['\\', '=']
    } else {
        seq![c]
    }
}

pub open spec fn escaped_value(s: Seq<char>) -> Seq<char> {
    replaced(s, |c: char| value_char(c))
}

/// A value as it stands in a journal line.
pub fn escape_value(value: &str) -> (r: String)
    ensures
        r@ == escaped_value(value@),
{
    let chars: Vec<char> = to_chars(value);
    let mut out: String = String::new();
    let mut i: usize = 0;
    while i < chars.len()
        invariant
            chars@ == value@,
            i <= value@.len(),
            out@ == replaced(value@.take(i as int), |c: char| value_char(c)),
        decreases value@.len() - i,
    {
        let c: char = chars[i];
        let ghost before = out@;
        if c == '\\' {
            out.push('\\');
            out.push('\\');
        } else if c == '\n' {
            out.push('\\');
            out.push('n');
        } else if c == '\r' {
            out.push('\\');
            out.push('r');
        } else if c == '\t' {
            out.push('\\');
            out.push('t');
        } else if c == ' ' {
            out.push('\\');
            out.push('s');
        } else if c == '=' {
            out.push('\\');
            out.push('=');
        } else {
            out.push(c);
        }
        proof {
            lemma_replaced_step(value@, |c: char| value_char(c), i as int);
            assert(out@ =~= before + value_char(c));
        }
        i = i + 1;
    }
    assert(value@.take(value@.len() as int) =~= value@);
    out
}

/// A name and a value of a journal line.
pub struct Field {
    pub key: String,
    pub value: String,
}

pub open spec fn fields_view(fields: Seq<Field>) -> Seq<(Seq<char>, Seq<char>)> {
    Seq::new(fields.len(), |i: int| (fields[i].key@, fields[i].value@))
}

pub fn field(key: &str, value: &str) -> (r: Field)
    ensures
        r.key@ == key@,
        r.value@ == value@,
{
    Field { key: copy_text(key), value: copy_text(value) }
}

/// The fields of a line, each with a space in front.
pub open spec fn field_texts(fields: Seq<(Seq<char>, Seq<char>)>) -> Seq<char>
    decreases fields.len(),
{
    if fields.len() == 0 {
        Seq::empty()
    } else {
        field_texts(fields.drop_last()) + seq![' '] + fields.last().0 + seq!['='] + escaped_value(
            fields.last().1,
        )
    }
}

/// A journal line: the event, its fields, and a line end.
pub open spec fn line(event: Seq<char>, fields: Seq<(Seq<char>, Seq<char>)>) -> Seq<char> {
    "event="@ + escaped_value(event) + field_texts(fields) + seq!['\n']
}

/// The journal line of an event.
pub fn format_line(event: &str, fields: &Vec<Field>) -> (r: String)
    ensures
        r@ == line(event@, fields_view(fields@)),
{
    let mut out: String = copy_text("event=");
    out.append(escape_value(event).as_str());
    let ghost head = out@;
    let ghost views = fields_view(fields@);
    let mut i: usize = 0;
    assert(head + field_texts(views.take(0)) =~= head);
    while i < fields.len()
        invariant
            i <= fields@.len(),
            views == fields_view(fields@),
            out@ == head + field_texts(views.take(i as int)),
        decreases fields@.len() - i,
    {
        let ghost before = out@;
        out.push(' ');
        out.append(fields[i].key.as_str());
        out.push('=');
        out.append(escape_value(fields[i].value.as_str()).as_str());
        proof {
            let next = views.take(i + 1);
            assert(next.drop_last() =~= views.take(i as int));
            assert(next.last() == (fields@[i as int].key@, fields@[i as int].value@));
            assert(out@ =~= head + field_texts(next));
        }
        i = i + 1;
    }
    assert(views.take(views.len() as int) =~= views);
    out.push('\n');
    assert(out@ =~= line(event@, views));
    out
}

/// An escaped value holds no line end, no tab and no space: a line stays one line, and its fields
/// stay apart.
pub proof fn law_escaped_value(s: Seq<char>)
    ensures
        forall|i: int|
            0 <= i < escaped_value(s).len() ==> {
                let c = #[trigger] escaped_value(s)[i];
                c != '\n' && c != '\r' && c != '\t' && c != ' '
            },
{
    let put = |c: char| value_char(c);
    let good = |c: char| c != '\n' && c != '\r' && c != '\t' && c != ' ';
    assert forall|c: char, i: int| 0 <= i < put(c).len() implies good(#[trigger] put(c)[i]) by {
        assert(put(c) == value_char(c));
    }
    lemma_replaced_all(s, put, good);
    assert forall|i: int| 0 <= i < escaped_value(s).len() implies {
        let c = #[trigger] escaped_value(s)[i];
        c != '\n' && c != '\r' && c != '\t' && c != ' '
    } by {
        assert(good(replaced(s, put)[i]));
    }
}

/// The replaced text, taken from the front.
pub proof fn lemma_replaced_front(s: Seq<char>, put: spec_fn(char) -> Seq<char>)
    requires
        s.len() > 0,
    ensures
        replaced(s, put) == put(s[0]) + replaced(s.drop_first(), put),
    decreases s.len(),
{
    if s.len() == 1 {
        assert(s.drop_last() =~= Seq::<char>::empty());
        assert(s.drop_first() =~= Seq::<char>::empty());
        assert(replaced(s, put) =~= put(s[0]) + replaced(s.drop_first(), put));
    } else {
        lemma_replaced_front(s.drop_last(), put);
        assert(s.drop_last().drop_first() =~= s.drop_first().drop_last());
        assert(s.drop_first().last() == s.last());
        assert(replaced(s, put) =~= put(s[0]) + replaced(s.drop_first(), put));
    }
}

/// The value that an escaped value stands for.
pub open spec fn unescaped_value(s: Seq<char>) -> Seq<char>
    decreases s.len(),
{
    if s.len() == 0 {
        Seq::empty()
    } else if s[0] == '\\' && s.len() >= 2 {
        seq![
            if s[1] == 'n' {
                '\n'
            } else if s[1] == 'r' {
                '\r'
            } else if s[1] == 't' {
                '\t'
            } else if s[1] == 's' {
                ' '
            } else {
                s[1]
            },
        ] + unescaped_value(s.skip(2))
    } else {
        seq![s[0]] + unescaped_value(s.drop_first())
    }
}

/// An escaped value gives the value back.
pub proof fn law_escape_round_trip(s: Seq<char>)
    ensures
        unescaped_value(escaped_value(s)) == s,
    decreases s.len(),
{
    if s.len() > 0 {
        let put = |c: char| value_char(c);
        lemma_replaced_front(s, put);
        law_escape_round_trip(s.drop_first());
        let rest = escaped_value(s.drop_first());
        let whole = escaped_value(s);
        assert(whole == value_char(s[0]) + rest);
        if value_char(s[0]).len() == 2 {
            assert(whole.skip(2) =~= rest);
        } else {
            assert(whole.drop_first() =~= rest);
        }
        assert(unescaped_value(whole) =~= s);
    } else {
        assert(escaped_value(s) =~= Seq::<char>::empty());
        assert(unescaped_value(escaped_value(s)) =~= s);
    }
}

/// A path, or the word that stands for none.
pub open spec fn optional_path_text(path: Option<Seq<char>>) -> Seq<char> {
    match path {
        Some(p) => p,
        None => "none"@,
    }
}

/// A path as a field's value.
pub fn optional_path(path: &Option<String>) -> (r: String)
    ensures
        r@ == optional_path_text(crate::text::text_view(*path)),
{
    match path {
        Some(p) => copy_text(p.as_str()),
        None => copy_text("none"),
    }
}

} // verus!
