//! JSON text taken apart member by member.
//!
//! A record is read from the members of its text. Members that it does not know are passed over
//! without being read, and a member that it knows may be given once.

use vstd::prelude::*;
use vstd::slice::slice_subrange;
use crate::json::{json_parse, json_print, parse_json, skip_value, value_len, Json, JsonView};
use crate::spawner::append_bytes;

verus! {

// The parts of a text.

/// One member of the text of an object.
pub struct RawMember {
    pub name: String,
    pub name_text: Vec<u8>,
    pub value: Vec<u8>,
}

pub struct RawView {
    pub name: Seq<char>,
    pub name_text: Seq<u8>,
    pub value: Seq<u8>,
}

impl View for RawMember {
    type V = RawView;

    open spec fn view(&self) -> RawView {
        RawView { name: self.name@, name_text: self.name_text@, value: self.value@ }
    }
}

pub open spec fn raw_views(v: Seq<RawMember>) -> Seq<RawView> {
    Seq::new(v.len(), |i: int| v[i]@)
}

pub open spec fn bytes_views(v: Seq<Vec<u8>>) -> Seq<Seq<u8>> {
    Seq::new(v.len(), |i: int| v[i]@)
}

pub open spec fn is_json_space(b: u8) -> bool {
    b == 32 || b == 10 || b == 9 || b == 13
}

/// A text without the space at its start.
pub open spec fn unspaced(text: Seq<u8>) -> Seq<u8>
    decreases text.len(),
{
    if text.len() > 0 && is_json_space(text[0]) {
        unspaced(text.drop_first())
    } else {
        text
    }
}

/// What stands behind a mark, where the text starts with it.
pub open spec fn behind_mark(text: Seq<u8>, mark: u8) -> Option<Seq<u8>> {
    let t = unspaced(text);
    if t.len() > 0 && t[0] == mark {
        Some(t.drop_first())
    } else {
        None
    }
}

/// The value at the start of a text, and what stands behind it.
pub open spec fn first_value(text: Seq<u8>) -> Option<(Seq<u8>, Seq<u8>)> {
    let t = unspaced(text);
    match value_len(t) {
        Some(n) => if 0 < n <= t.len() {
            Some((t.take(n as int), t.skip(n as int)))
        } else {
            None
        },
        None => None,
    }
}

/// The name at the start of a text, as it is read and as it is written, and what stands behind it
/// and its colon.
pub open spec fn first_name(text: Seq<u8>) -> Option<(Seq<char>, Seq<u8>, Seq<u8>)> {
    if behind_mark(text, 34) is None {
        None
    } else {
        match first_value(text) {
            Some((name_text, rest)) => match (json_parse(name_text), behind_mark(rest, 58)) {
                (Some(JsonView::Text(name)), Some(behind)) => Some((name, name_text, behind)),
                _ => None,
            },
            None => None,
        }
    }
}

proof fn lemma_unspaced(text: Seq<u8>)
    ensures
        unspaced(text).len() <= text.len(),
    decreases text.len(),
{
    if text.len() > 0 && is_json_space(text[0]) {
        lemma_unspaced(text.drop_first());
    }
}

/// The members that a text starts with, up to the end of the object, which is the end of the text.
pub open spec fn more_members(text: Seq<u8>) -> Option<Seq<RawView>>
    decreases text.len(),
    via more_members_end
{
    match first_name(text) {
        None => None,
        Some((name, name_text, behind)) => match first_value(behind) {
            None => None,
            Some((value, rest)) => {
                let member = RawView { name, name_text, value };
                match (behind_mark(rest, 44), behind_mark(rest, 125)) {
                    (Some(next), _) => match more_members(next) {
                        Some(others) => Some(seq![member] + others),
                        None => None,
                    },
                    (None, Some(end)) => if unspaced(end).len() == 0 {
                        Some(seq![member])
                    } else {
                        None
                    },
                    _ => None,
                }
            },
        },
    }
}

#[via_fn]
proof fn more_members_end(text: Seq<u8>) {
    lemma_name_shortens(text);
    match first_name(text) {
        None => {},
        Some((name, name_text, behind)) => {
            lemma_value_shortens(behind);
            match first_value(behind) {
                None => {},
                Some((value, rest)) => {
                    lemma_unspaced(rest);
                },
            }
        },
    }
}

proof fn lemma_value_shortens(text: Seq<u8>)
    ensures
        first_value(text) matches Some((value, rest)) ==> rest.len() < text.len(),
{
    lemma_unspaced(text);
}

proof fn lemma_name_shortens(text: Seq<u8>)
    ensures
        first_name(text) matches Some((name, name_text, behind)) ==> behind.len() < text.len(),
{
    lemma_value_shortens(text);
    match first_value(text) {
        Some((name_text, rest)) => {
            lemma_unspaced(rest);
        },
        None => {},
    }
}

/// The members of the text of an object.
pub open spec fn members_of(text: Seq<u8>) -> Option<Seq<RawView>> {
    match behind_mark(text, 123) {
        None => None,
        Some(inside) => match behind_mark(inside, 125) {
            Some(end) => if unspaced(end).len() == 0 {
                Some(Seq::empty())
            } else {
                None
            },
            None => more_members(inside),
        },
    }
}

/// The values that a text starts with, up to the end of the list, which is the end of the text.
pub open spec fn more_elements(text: Seq<u8>) -> Option<Seq<Seq<u8>>>
    decreases text.len(),
    via more_elements_end
{
    match first_value(text) {
        None => None,
        Some((value, rest)) => match (behind_mark(rest, 44), behind_mark(rest, 93)) {
            (Some(next), _) => match more_elements(next) {
                Some(others) => Some(seq![value] + others),
                None => None,
            },
            (None, Some(end)) => if unspaced(end).len() == 0 {
                Some(seq![value])
            } else {
                None
            },
            _ => None,
        },
    }
}

#[via_fn]
proof fn more_elements_end(text: Seq<u8>) {
    lemma_value_shortens(text);
    match first_value(text) {
        None => {},
        Some((value, rest)) => {
            lemma_unspaced(rest);
        },
    }
}

/// The values in the text of a list.
pub open spec fn elements_of(text: Seq<u8>) -> Option<Seq<Seq<u8>>> {
    match behind_mark(text, 91) {
        None => None,
        Some(inside) => match behind_mark(inside, 93) {
            Some(end) => if unspaced(end).len() == 0 {
                Some(Seq::empty())
            } else {
                None
            },
            None => more_elements(inside),
        },
    }
}

/// The text of a member.
pub open spec fn member_text(m: RawView) -> Seq<u8> {
    m.name_text + seq![58u8] + m.value
}

pub open spec fn members_text(ms: Seq<RawView>) -> Seq<u8>
    decreases ms.len(),
{
    if ms.len() == 0 {
        Seq::empty()
    } else if ms.len() == 1 {
        member_text(ms[0])
    } else {
        members_text(ms.drop_last()) + seq![44u8] + member_text(ms.last())
    }
}

/// The text of an object.
pub open spec fn object_text(ms: Seq<RawView>) -> Seq<u8> {
    seq![123u8] + members_text(ms) + seq![125u8]
}

/// Whether members are those of an object, each with its text, and each once.
pub open spec fn members_are(ms: Seq<RawView>, content: Map<Seq<char>, JsonView>) -> bool {
    &&& forall|i: int|
        0 <= i < ms.len() ==> content.contains_key((#[trigger] ms[i]).name) && ms[i].value
            == json_print(content[ms[i].name])
    &&& forall|i: int, j: int|
        0 <= i < j < ms.len() ==> (#[trigger] ms[i]).name != (#[trigger] ms[j]).name
}

/// Whether the text of a value can be taken apart as it was put together: an object is its members
/// between braces, parted by commas, and so are its members in turn; what is neither an object nor a
/// list has no members.
pub open spec fn put_together(content: JsonView, text: Seq<u8>) -> bool
    decreases content,
{
    match content {
        JsonView::Object(m) => {
            &&& members_of(text) matches Some(ms) && members_are(ms, m) && object_text(ms) == text
            &&& forall|k: Seq<char>| #[trigger]
                m.contains_key(k) ==> put_together(m[k], json_print(m[k]))
        },
        JsonView::Array(_) => members_of(text) is None,
        _ => members_of(text) is None && elements_of(text) is None,
    }
}

fn skip_space(text: &[u8], from: usize) -> (r: usize)
    requires
        from <= text@.len(),
    ensures
        from <= r <= text@.len(),
        text@.skip(r as int) == unspaced(text@.skip(from as int)),
{
    let mut i: usize = from;
    while i < text.len() && (text[i] == 32 || text[i] == 10 || text[i] == 9 || text[i] == 13)
        invariant
            from <= i <= text@.len(),
            unspaced(text@.skip(i as int)) == unspaced(text@.skip(from as int)),
        decreases text@.len() - i,
    {
        assert(text@.skip(i as int).drop_first() =~= text@.skip(i + 1));
        i = i + 1;
    }
    i
}

fn mark_at(text: &[u8], from: usize, mark: u8) -> (r: Option<usize>)
    requires
        from <= text@.len(),
    ensures
        match r {
            Some(n) => from < n <= text@.len() && behind_mark(text@.skip(from as int), mark)
                == Some(text@.skip(n as int)),
            None => behind_mark(text@.skip(from as int), mark) is None,
        },
{
    let at: usize = skip_space(text, from);
    if at < text.len() && text[at] == mark {
        assert(text@.skip(at as int).drop_first() =~= text@.skip(at + 1));
        Some(at + 1)
    } else {
        None
    }
}

/// Where the value at a place starts and ends.
fn value_at(text: &[u8], from: usize) -> (r: Option<(usize, usize)>)
    requires
        from <= text@.len(),
    ensures
        match r {
            Some((a, b)) => from <= a < b <= text@.len() && first_value(text@.skip(from as int))
                == Some((text@.subrange(a as int, b as int), text@.skip(b as int))),
            None => first_value(text@.skip(from as int)) is None,
        },
{
    let at: usize = skip_space(text, from);
    let rest: &[u8] = slice_subrange(text, at, text.len());
    assert(rest@ =~= text@.skip(at as int));
    match skip_value(rest) {
        Some(n) => {
            if n == 0 {
                return None;
            }
            assert(rest@.take(n as int) =~= text@.subrange(at as int, at + n));
            assert(rest@.skip(n as int) =~= text@.skip(at + n));
            Some((at, at + n))
        },
        None => None,
    }
}

fn bytes_between(text: &[u8], a: usize, b: usize) -> (r: Vec<u8>)
    requires
        a <= b <= text@.len(),
    ensures
        r@ == text@.subrange(a as int, b as int),
{
    let mut out: Vec<u8> = Vec::new();
    append_bytes(&mut out, slice_subrange(text, a, b));
    assert(out@ =~= text@.subrange(a as int, b as int));
    out
}

/// The name at a place, with its text, and where what stands behind its colon starts.
fn name_at(text: &[u8], from: usize) -> (r: Option<(String, Vec<u8>, usize)>)
    requires
        from <= text@.len(),
    ensures
        match r {
            Some((name, name_text, n)) => from < n <= text@.len() && first_name(
                text@.skip(from as int),
            ) == Some((name@, name_text@, text@.skip(n as int))),
            None => first_name(text@.skip(from as int)) is None,
        },
{
    if mark_at(text, from, 34).is_none() {
        return None;
    }
    let (a, b): (usize, usize) = match value_at(text, from) {
        Some(place) => place,
        None => return None,
    };
    let name_text: Vec<u8> = bytes_between(text, a, b);
    match (parse_json(name_text.as_slice()), mark_at(text, b, 58)) {
        (Some(Json::Text(name)), Some(n)) => Some((name, name_text, n)),
        _ => None,
    }
}

/// The members of the text of an object.
pub fn split_members(text: &[u8]) -> (r: Option<Vec<RawMember>>)
    ensures
        match r {
            Some(ms) => members_of(text@) == Some(raw_views(ms@)),
            None => members_of(text@) is None,
        },
{
    assert(text@.skip(0) =~= text@);
    let mut at: usize = match mark_at(text, 0, 123) {
        Some(n) => n,
        None => return None,
    };
    let mut out: Vec<RawMember> = Vec::new();
    assert(raw_views(out@) =~= Seq::<RawView>::empty());
    match mark_at(text, at, 125) {
        Some(end) => {
            return if skip_space(text, end) == text.len() {
                Some(out)
            } else {
                None
            };
        },
        None => {},
    }
    let ghost whole = more_members(text@.skip(at as int));
    assert forall|others: Seq<RawView>| Seq::<RawView>::empty() + others == others by {
        assert(Seq::<RawView>::empty() + others =~= others);
    }
    loop
        invariant
            at <= text@.len(),
            whole == members_of(text@),
            whole == match more_members(text@.skip(at as int)) {
                Some(others) => Some(raw_views(out@) + others),
                None => None,
            },
        decreases text@.len() - at,
    {
        let (name, name_text, behind): (String, Vec<u8>, usize) = match name_at(text, at) {
            Some(found) => found,
            None => return None,
        };
        let (a, b): (usize, usize) = match value_at(text, behind) {
            Some(place) => place,
            None => return None,
        };
        let ghost had = raw_views(out@);
        let member: RawMember = RawMember { name, name_text, value: bytes_between(text, a, b) };
        let ghost v = member@;
        out.push(member);
        assert(raw_views(out@) =~= had.push(v));
        match mark_at(text, b, 44) {
            Some(next) => {
                proof {
                    match more_members(text@.skip(next as int)) {
                        Some(others) => {
                            assert(had + (seq![v] + others) =~= raw_views(out@) + others);
                        },
                        None => {},
                    }
                }
                at = next;
            },
            None => {
                return match mark_at(text, b, 125) {
                    Some(end) => if skip_space(text, end) == text.len() {
                        assert(had + seq![v] =~= raw_views(out@));
                        Some(out)
                    } else {
                        None
                    },
                    None => None,
                };
            },
        }
    }
}

/// The values in the text of a list.
pub fn split_elements(text: &[u8]) -> (r: Option<Vec<Vec<u8>>>)
    ensures
        match r {
            Some(items) => elements_of(text@) == Some(bytes_views(items@)),
            None => elements_of(text@) is None,
        },
{
    assert(text@.skip(0) =~= text@);
    let mut at: usize = match mark_at(text, 0, 91) {
        Some(n) => n,
        None => return None,
    };
    let mut out: Vec<Vec<u8>> = Vec::new();
    assert(bytes_views(out@) =~= Seq::<Seq<u8>>::empty());
    match mark_at(text, at, 93) {
        Some(end) => {
            return if skip_space(text, end) == text.len() {
                Some(out)
            } else {
                None
            };
        },
        None => {},
    }
    let ghost whole = more_elements(text@.skip(at as int));
    assert forall|others: Seq<Seq<u8>>| Seq::<Seq<u8>>::empty() + others == others by {
        assert(Seq::<Seq<u8>>::empty() + others =~= others);
    }
    loop
        invariant
            at <= text@.len(),
            whole == elements_of(text@),
            whole == match more_elements(text@.skip(at as int)) {
                Some(others) => Some(bytes_views(out@) + others),
                None => None,
            },
        decreases text@.len() - at,
    {
        let (a, b): (usize, usize) = match value_at(text, at) {
            Some(place) => place,
            None => return None,
        };
        let ghost had = bytes_views(out@);
        let value: Vec<u8> = bytes_between(text, a, b);
        let ghost v = value@;
        out.push(value);
        assert(bytes_views(out@) =~= had.push(v));
        match mark_at(text, b, 44) {
            Some(next) => {
                proof {
                    match more_elements(text@.skip(next as int)) {
                        Some(others) => {
                            assert(had + (seq![v] + others) =~= bytes_views(out@) + others);
                        },
                        None => {},
                    }
                }
                at = next;
            },
            None => {
                return match mark_at(text, b, 93) {
                    Some(end) => if skip_space(text, end) == text.len() {
                        assert(had + seq![v] =~= bytes_views(out@));
                        Some(out)
                    } else {
                        None
                    },
                    None => None,
                };
            },
        }
    }
}

} // verus!
