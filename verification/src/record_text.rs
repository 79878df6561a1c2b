//! The part of a text that a record is read from.
//!
//! A record is an object or a list of its fields. Members that it does not know are left out; a
//! member that it knows is refused where it is given twice.

use vstd::prelude::*;
use crate::delivery_types::{
    dead_fields, dead_names, delivery_fields, delivery_names, source_fields, source_names,
};
use crate::json::{json_print, JsonView};
use crate::json_text::{
    bytes_views, elements_of, member_text, members_are, members_of, members_text, object_text,
    put_together, raw_views, split_elements, split_members, RawMember, RawView,
};
use crate::runtime_key::strs_view;
use crate::spawner::append_bytes;
use crate::text::same_text;

verus! {

/// What a text is read as.
#[derive(Clone, Copy, Debug, PartialEq, Eq, Structural)]
pub enum Shape {
    /// Any value.
    Any,
    /// The name of a kind, alone or as the one member of an object.
    Kind,
    Source,
    Delivery,
    Dead,
    /// A queue and a payload.
    Entry,
    /// A list of queues and payloads.
    Entries,
}

pub open spec fn entry_fields() -> Seq<Seq<char>> {
    seq!["queue"@, "payload"@]
}

/// The fields of a record.
pub open spec fn fields_of(shape: Shape) -> Seq<Seq<char>> {
    match shape {
        Shape::Source => source_fields(),
        Shape::Delivery => delivery_fields(),
        Shape::Dead => dead_fields(),
        Shape::Entry => entry_fields(),
        _ => Seq::empty(),
    }
}

/// What the field of a record is read as.
pub open spec fn shape_of(shape: Shape, name: Seq<char>) -> Shape {
    match shape {
        Shape::Source => if name == "kind"@ {
            Shape::Kind
        } else {
            Shape::Any
        },
        Shape::Delivery => if name == "source"@ {
            Shape::Source
        } else {
            Shape::Any
        },
        Shape::Dead => if name == "source"@ {
            Shape::Source
        } else if name == "record"@ {
            Shape::Delivery
        } else {
            Shape::Any
        },
        _ => Shape::Any,
    }
}

/// What a value of a list is read as.
pub open spec fn shape_at(shape: Shape, i: int) -> Shape {
    if shape == Shape::Entries {
        Shape::Entry
    } else if 0 <= i < fields_of(shape).len() {
        shape_of(shape, fields_of(shape)[i])
    } else {
        Shape::Any
    }
}

/// How deep records stand in each other.
pub open spec fn rank(shape: Shape) -> nat {
    match shape {
        Shape::Any => 0,
        Shape::Kind => 1,
        Shape::Source => 2,
        Shape::Delivery => 3,
        Shape::Dead => 4,
        Shape::Entry => 2,
        Shape::Entries => 3,
    }
}

pub open spec fn has_name(ms: Seq<RawView>, name: Seq<char>) -> bool {
    exists|i: int| 0 <= i < ms.len() && (#[trigger] ms[i]).name == name
}

pub open spec fn values_text(values: Seq<Seq<u8>>) -> Seq<u8>
    decreases values.len(),
{
    if values.len() == 0 {
        Seq::empty()
    } else if values.len() == 1 {
        values[0]
    } else {
        values_text(values.drop_last()) + seq![44u8] + values.last()
    }
}

/// The text of a list.
pub open spec fn list_text(values: Seq<Seq<u8>>) -> Seq<u8> {
    seq![91u8] + values_text(values) + seq![93u8]
}

/// The part of a text that is read; nothing where a member is given twice.
pub open spec fn read_part(text: Seq<u8>, shape: Shape) -> Option<Seq<u8>>
    decreases rank(shape), 1nat, 0nat,
{
    match shape {
        Shape::Any => Some(text),
        Shape::Kind => match members_of(text) {
            Some(ms) => if ms.len() == 1 {
                Some(text)
            } else {
                None
            },
            None => Some(text),
        },
        _ => match (members_of(text), elements_of(text)) {
            (Some(ms), _) => match known_members(ms, shape) {
                Some(known) => Some(object_text(known)),
                None => None,
            },
            (None, Some(items)) => match read_items(items, shape) {
                Some(read) => Some(list_text(read)),
                None => None,
            },
            _ => Some(text),
        },
    }
}

/// The members that a record knows, each with the part of it that is read.
pub open spec fn known_members(ms: Seq<RawView>, shape: Shape) -> Option<Seq<RawView>>
    decreases rank(shape), 0nat, ms.len(),
{
    if ms.len() == 0 {
        Some(Seq::empty())
    } else {
        let m = ms.last();
        match known_members(ms.drop_last(), shape) {
            None => None,
            Some(front) => if !fields_of(shape).contains(m.name) {
                Some(front)
            } else if has_name(front, m.name) {
                None
            } else {
                match read_part(m.value, shape_of(shape, m.name)) {
                    Some(value) => Some(front.push(RawView { value, ..m })),
                    None => None,
                }
            },
        }
    }
}

/// The values of a list, each with the part of it that is read.
pub open spec fn read_items(items: Seq<Seq<u8>>, shape: Shape) -> Option<Seq<Seq<u8>>>
    decreases rank(shape), 0nat, items.len(),
{
    if items.len() == 0 {
        Some(Seq::empty())
    } else if shape == Shape::Any {
        Some(items)
    } else {
        match (
            read_items(items.drop_last(), shape),
            read_part(items.last(), shape_at(shape, items.len() - 1)),
        ) {
            (Some(front), Some(value)) => Some(front.push(value)),
            _ => None,
        }
    }
}

proof fn lemma_ranks(shape: Shape, name: Seq<char>, i: int)
    ensures
        rank(shape) > 1 ==> rank(shape_of(shape, name)) < rank(shape) && rank(shape_at(shape, i))
            < rank(shape),
{
}

fn names_of(shape: Shape) -> (r: Vec<&'static str>)
    ensures
        strs_view(r@) == fields_of(shape),
{
    match shape {
        Shape::Source => source_names(),
        Shape::Delivery => delivery_names(),
        Shape::Dead => dead_names(),
        Shape::Entry => {
            let names: Vec<&'static str> = vec!["queue", "payload"];
            assert(strs_view(names@) =~= entry_fields());
            names
        },
        _ => {
            let names: Vec<&'static str> = Vec::new();
            assert(strs_view(names@) =~= Seq::<Seq<char>>::empty());
            names
        },
    }
}

fn field_shape(shape: Shape, name: &str) -> (r: Shape)
    ensures
        r == shape_of(shape, name@),
{
    match shape {
        Shape::Source => if same_text(name, "kind") {
            Shape::Kind
        } else {
            Shape::Any
        },
        Shape::Delivery => if same_text(name, "source") {
            Shape::Source
        } else {
            Shape::Any
        },
        Shape::Dead => if same_text(name, "source") {
            Shape::Source
        } else if same_text(name, "record") {
            Shape::Delivery
        } else {
            Shape::Any
        },
        _ => Shape::Any,
    }
}

fn holds_name(names: &Vec<&'static str>, name: &str) -> (r: bool)
    ensures
        r == strs_view(names@).contains(name@),
{
    let ghost views = strs_view(names@);
    let mut i: usize = 0;
    while i < names.len()
        invariant
            views == strs_view(names@),
            i <= names@.len(),
            forall|j: int| 0 <= j < i ==> #[trigger] views[j] != name@,
        decreases names@.len() - i,
    {
        assert(views[i as int] == names@[i as int]@);
        if same_text(names[i], name) {
            return true;
        }
        i = i + 1;
    }
    false
}

fn among(ms: &Vec<RawMember>, name: &str) -> (r: bool)
    ensures
        r == has_name(raw_views(ms@), name@),
{
    let ghost views = raw_views(ms@);
    let mut i: usize = 0;
    while i < ms.len()
        invariant
            views == raw_views(ms@),
            i <= ms@.len(),
            forall|j: int| 0 <= j < i ==> (#[trigger] views[j]).name != name@,
        decreases ms@.len() - i,
    {
        assert(views[i as int] == ms@[i as int]@);
        if same_text(ms[i].name.as_str(), name) {
            return true;
        }
        i = i + 1;
    }
    false
}

fn write_object(ms: &Vec<RawMember>) -> (r: Vec<u8>)
    ensures
        r@ == object_text(raw_views(ms@)),
{
    let ghost views = raw_views(ms@);
    let mut out: Vec<u8> = Vec::new();
    out.push(123);
    let mut i: usize = 0;
    assert(out@ =~= seq![123u8] + members_text(views.take(0)));
    while i < ms.len()
        invariant
            views == raw_views(ms@),
            i <= ms@.len(),
            out@ == seq![123u8] + members_text(views.take(i as int)),
        decreases ms@.len() - i,
    {
        let ghost had = out@;
        proof {
            assert(views.take(i + 1).drop_last() =~= views.take(i as int));
            assert(views.take(i + 1).last() == ms@[i as int]@);
        }
        if i > 0 {
            out.push(44);
        }
        append_bytes(&mut out, ms[i].name_text.as_slice());
        out.push(58);
        append_bytes(&mut out, ms[i].value.as_slice());
        proof {
            let m = views[i as int];
            if i > 0 {
                assert(out@ =~= had + seq![44u8] + member_text(m));
            } else {
                assert(out@ =~= had + member_text(m));
                assert(members_text(views.take(0)) =~= Seq::<u8>::empty());
            }
            assert(out@ =~= seq![123u8] + members_text(views.take(i + 1)));
        }
        i = i + 1;
    }
    assert(views.take(views.len() as int) =~= views);
    out.push(125);
    assert(out@ =~= object_text(views));
    out
}

fn write_list(values: &Vec<Vec<u8>>) -> (r: Vec<u8>)
    ensures
        r@ == list_text(bytes_views(values@)),
{
    let ghost views = bytes_views(values@);
    let mut out: Vec<u8> = Vec::new();
    out.push(91);
    let mut i: usize = 0;
    assert(out@ =~= seq![91u8] + values_text(views.take(0)));
    while i < values.len()
        invariant
            views == bytes_views(values@),
            i <= values@.len(),
            out@ == seq![91u8] + values_text(views.take(i as int)),
        decreases values@.len() - i,
    {
        let ghost had = out@;
        proof {
            assert(views.take(i + 1).drop_last() =~= views.take(i as int));
            assert(views.take(i + 1).last() == values@[i as int]@);
        }
        if i > 0 {
            out.push(44);
        }
        append_bytes(&mut out, values[i].as_slice());
        proof {
            let v = views[i as int];
            if i > 0 {
                assert(out@ =~= had + seq![44u8] + v);
            } else {
                assert(out@ =~= had + v);
                assert(values_text(views.take(0)) =~= Seq::<u8>::empty());
            }
            assert(out@ =~= seq![91u8] + values_text(views.take(i + 1)));
        }
        i = i + 1;
    }
    assert(views.take(views.len() as int) =~= views);
    out.push(93);
    assert(out@ =~= list_text(views));
    out
}

fn copy_bytes(bytes: &[u8]) -> (r: Vec<u8>)
    ensures
        r@ == bytes@,
{
    let mut out: Vec<u8> = Vec::new();
    append_bytes(&mut out, bytes);
    assert(out@ =~= bytes@);
    out
}

/// A part that is not there stays away.
proof fn lemma_known_none(ms: Seq<RawView>, shape: Shape, n: int)
    requires
        0 <= n <= ms.len(),
        known_members(ms.take(n), shape) is None,
    ensures
        known_members(ms, shape) is None,
    decreases ms.len() - n,
{
    if n == ms.len() {
        assert(ms.take(n) =~= ms);
    } else {
        assert(ms.take(n + 1).drop_last() =~= ms.take(n));
        lemma_known_none(ms, shape, n + 1);
    }
}

proof fn lemma_items_none(items: Seq<Seq<u8>>, shape: Shape, n: int)
    requires
        0 <= n <= items.len(),
        read_items(items.take(n), shape) is None,
    ensures
        read_items(items, shape) is None,
    decreases items.len() - n,
{
    if n == items.len() {
        assert(items.take(n) =~= items);
    } else {
        assert(items.take(n + 1).drop_last() =~= items.take(n));
        lemma_items_none(items, shape, n + 1);
    }
}

fn read_members(ms: &Vec<RawMember>, shape: Shape) -> (r: Option<Vec<RawMember>>)
    requires
        rank(shape) > 1,
    ensures
        match r {
            Some(known) => known_members(raw_views(ms@), shape) == Some(raw_views(known@)),
            None => known_members(raw_views(ms@), shape) is None,
        },
    decreases rank(shape), 0nat,
{
    let names: Vec<&'static str> = names_of(shape);
    let ghost views = raw_views(ms@);
    let mut out: Vec<RawMember> = Vec::new();
    let mut i: usize = 0;
    assert(raw_views(out@) =~= Seq::<RawView>::empty());
    while i < ms.len()
        invariant
            rank(shape) > 1,
            views == raw_views(ms@),
            strs_view(names@) == fields_of(shape),
            i <= ms@.len(),
            known_members(views.take(i as int), shape) == Some(raw_views(out@)),
        decreases ms@.len() - i,
    {
        let ghost had = raw_views(out@);
        let ghost m = views[i as int];
        proof {
            assert(views.take(i + 1).drop_last() =~= views.take(i as int));
            assert(views.take(i + 1).last() == ms@[i as int]@);
            lemma_ranks(shape, m.name, 0);
        }
        let name: &str = ms[i].name.as_str();
        if holds_name(&names, name) {
            if among(&out, name) {
                proof {
                    lemma_known_none(views, shape, i + 1);
                }
                return None;
            }
            let value: Vec<u8> = match readable_part(ms[i].value.as_slice(), field_shape(shape, name)) {
                Some(value) => value,
                None => {
                    proof {
                        lemma_known_none(views, shape, i + 1);
                    }
                    return None;
                },
            };
            let kept: RawMember = RawMember {
                name: crate::text::copy_text(name),
                name_text: copy_bytes(ms[i].name_text.as_slice()),
                value,
            };
            let ghost v = kept@;
            out.push(kept);
            assert(raw_views(out@) =~= had.push(v));
        }
        i = i + 1;
    }
    assert(views.take(views.len() as int) =~= views);
    Some(out)
}

fn read_values(items: &Vec<Vec<u8>>, shape: Shape) -> (r: Option<Vec<Vec<u8>>>)
    requires
        rank(shape) > 1,
    ensures
        match r {
            Some(read) => read_items(bytes_views(items@), shape) == Some(bytes_views(read@)),
            None => read_items(bytes_views(items@), shape) is None,
        },
    decreases rank(shape), 0nat,
{
    let names: Vec<&'static str> = names_of(shape);
    let ghost views = bytes_views(items@);
    let mut out: Vec<Vec<u8>> = Vec::new();
    let mut i: usize = 0;
    assert(bytes_views(out@) =~= Seq::<Seq<u8>>::empty());
    while i < items.len()
        invariant
            rank(shape) > 1,
            views == bytes_views(items@),
            strs_view(names@) == fields_of(shape),
            i <= items@.len(),
            read_items(views.take(i as int), shape) == Some(bytes_views(out@)),
        decreases items@.len() - i,
    {
        let ghost had = bytes_views(out@);
        proof {
            assert(views.take(i + 1).drop_last() =~= views.take(i as int));
            assert(views.take(i + 1).last() == items@[i as int]@);
            lemma_ranks(shape, Seq::empty(), i as int);
        }
        let of: Shape = match shape {
            Shape::Entries => Shape::Entry,
            _ => if i < names.len() {
                assert(strs_view(names@)[i as int] == names@[i as int]@);
                field_shape(shape, names[i])
            } else {
                Shape::Any
            },
        };
        assert(of == shape_at(shape, i as int));
        match readable_part(items[i].as_slice(), of) {
            Some(value) => {
                let ghost v = value@;
                out.push(value);
                assert(bytes_views(out@) =~= had.push(v));
            },
            None => {
                proof {
                    lemma_items_none(views, shape, i + 1);
                }
                return None;
            },
        }
        i = i + 1;
    }
    assert(views.take(views.len() as int) =~= views);
    Some(out)
}

/// The part of a text that is read; nothing where a member is given twice.
pub fn readable_part(text: &[u8], shape: Shape) -> (r: Option<Vec<u8>>)
    ensures
        match r {
            Some(part) => read_part(text@, shape) == Some(part@),
            None => read_part(text@, shape) is None,
        },
    decreases rank(shape), 1nat,
{
    match shape {
        Shape::Any => return Some(copy_bytes(text)),
        Shape::Kind => {
            return match split_members(text) {
                Some(ms) => if ms.len() == 1 {
                    Some(copy_bytes(text))
                } else {
                    None
                },
                None => Some(copy_bytes(text)),
            };
        },
        _ => {},
    }
    match split_members(text) {
        Some(ms) => match read_members(&ms, shape) {
            Some(known) => Some(write_object(&known)),
            None => None,
        },
        None => match split_elements(text) {
            Some(items) => match read_values(&items, shape) {
                Some(read) => Some(write_list(&read)),
                None => None,
            },
            None => Some(copy_bytes(text)),
        },
    }
}

/// Whether a value has no member that is not read.
pub open spec fn fits(content: JsonView, shape: Shape) -> bool
    decreases rank(shape), 2nat,
{
    match shape {
        Shape::Any => true,
        Shape::Kind => !(content is Object),
        _ => match content {
            JsonView::Object(m) => members_fit(m, shape),
            JsonView::Array(_) => false,
            _ => true,
        },
    }
}

pub open spec fn members_fit(m: Map<Seq<char>, JsonView>, shape: Shape) -> bool
    decreases rank(shape), 1nat,
{
    forall|k: Seq<char>| #[trigger] m.contains_key(k) ==> member_fits(m, shape, k)
}

pub open spec fn member_fits(m: Map<Seq<char>, JsonView>, shape: Shape, k: Seq<char>) -> bool
    decreases rank(shape), 0nat,
{
    fields_of(shape).contains(k) && fits(m[k], shape_of(shape, k))
}

/// The text of a value without members that are not read is read as a whole.
pub proof fn lemma_read_as_a_whole(content: JsonView, shape: Shape)
    requires
        put_together(content, json_print(content)),
        fits(content, shape),
    ensures
        read_part(json_print(content), shape) == Some(json_print(content)),
    decreases rank(shape),
{
    match content {
        JsonView::Object(m) => {
            if shape != Shape::Any {
                let ms = members_of(json_print(content))->0;
                lemma_known_as_a_whole(ms, m, shape, ms.len() as int);
                assert(ms.take(ms.len() as int) =~= ms);
            }
        },
        _ => {},
    }
}

proof fn lemma_fits(m: Map<Seq<char>, JsonView>, shape: Shape, k: Seq<char>)
    requires
        rank(shape) > 1,
        fits(JsonView::Object(m), shape),
        m.contains_key(k),
    ensures
        fields_of(shape).contains(k),
        fits(m[k], shape_of(shape, k)),
{
    match shape {
        Shape::Source => {},
        Shape::Delivery => {},
        Shape::Dead => {},
        Shape::Entry => {},
        Shape::Entries => {},
        _ => {},
    }
}

proof fn lemma_known_as_a_whole(
    ms: Seq<RawView>,
    m: Map<Seq<char>, JsonView>,
    shape: Shape,
    n: int,
)
    requires
        rank(shape) > 1,
        members_are(ms, m),
        fits(JsonView::Object(m), shape),
        forall|k: Seq<char>| #[trigger]
            m.contains_key(k) ==> put_together(m[k], json_print(m[k])),
        0 <= n <= ms.len(),
    ensures
        known_members(ms.take(n), shape) == Some(ms.take(n)),
    decreases rank(shape), n,
{
    if n == 0 {
        assert(ms.take(0) =~= Seq::<RawView>::empty());
    } else {
        lemma_known_as_a_whole(ms, m, shape, n - 1);
        let front = ms.take(n - 1);
        let last = ms[n - 1];
        assert(ms.take(n).drop_last() =~= front);
        assert(ms.take(n).last() == last);
        assert(m.contains_key(last.name));
        lemma_ranks(shape, last.name, 0);
        lemma_fits(m, shape, last.name);
        lemma_read_as_a_whole(m[last.name], shape_of(shape, last.name));
        assert(!has_name(front, last.name)) by {
            if has_name(front, last.name) {
                let i = choose|i: int|
                    0 <= i < front.len() && (#[trigger] front[i]).name == last.name;
                assert(ms[i].name == last.name);
            }
        }
        assert(front.push(RawView { value: last.value, ..last }) =~= ms.take(n));
    }
}

} // verus!
