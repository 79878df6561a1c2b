//! JSON values.

use vstd::prelude::*;
use crate::json_text::put_together;
use crate::text::{copy_text, same_text};
use serde_json::Value;

verus! {

/// A JSON value. A number with a fraction or an exponent is held as the numeral that stands for
/// it.
#[derive(Debug)]
pub enum Json {
    Null,
    Bool(bool),
    Unsigned(u64),
    Negative(i64),
    Fraction(String),
    Text(String),
    Array(Vec<Json>),
    Object(Vec<Member>),
}

/// One member of a JSON object.
#[derive(Debug)]
pub struct Member {
    pub key: String,
    pub value: Json,
}

/// What a JSON value denotes. An object is a map: where a key is written twice, the last value
/// stands.
pub enum JsonView {
    Null,
    Bool(bool),
    Unsigned(nat),
    Negative(int),
    Fraction(Seq<char>),
    Text(Seq<char>),
    Array(Seq<JsonView>),
    Object(Map<Seq<char>, JsonView>),
}

pub open spec fn json_view(j: Json) -> JsonView
    decreases j,
{
    match j {
        Json::Null => JsonView::Null,
        Json::Bool(b) => JsonView::Bool(b),
        Json::Unsigned(n) => JsonView::Unsigned(n as nat),
        Json::Negative(n) => JsonView::Negative(n as int),
        Json::Fraction(s) => JsonView::Fraction(s@),
        Json::Text(s) => JsonView::Text(s@),
        Json::Array(items) => JsonView::Array(items_view(items@)),
        Json::Object(members) => JsonView::Object(members_view(members@)),
    }
}

pub open spec fn items_view(items: Seq<Json>) -> Seq<JsonView>
    decreases items,
{
    if items.len() == 0 {
        Seq::empty()
    } else {
        items_view(items.drop_last()).push(json_view(items.last()))
    }
}

pub open spec fn members_view(members: Seq<Member>) -> Map<Seq<char>, JsonView>
    decreases members,
{
    if members.len() == 0 {
        Map::empty()
    } else {
        members_view(members.drop_last()).insert(
            members.last().key@,
            json_view(members.last().value),
        )
    }
}

impl View for Json {
    type V = JsonView;

    open spec fn view(&self) -> JsonView {
        json_view(*self)
    }
}

/// The value of an optional JSON value.
pub open spec fn optional_json_view(j: Option<Json>) -> Option<JsonView> {
    match j {
        Some(v) => Some(v@),
        None => None,
    }
}

impl JsonView {
    /// The value under a key of an object.
    pub open spec fn get(self, key: Seq<char>) -> Option<JsonView> {
        match self {
            JsonView::Object(members) => if members.contains_key(key) {
                Some(members[key])
            } else {
                None
            },
            _ => None,
        }
    }

    pub open spec fn as_text(self) -> Option<Seq<char>> {
        match self {
            JsonView::Text(s) => Some(s),
            _ => None,
        }
    }

    pub open spec fn as_unsigned(self) -> Option<nat> {
        match self {
            JsonView::Unsigned(n) => Some(n),
            _ => None,
        }
    }

    pub open spec fn as_bool(self) -> Option<bool> {
        match self {
            JsonView::Bool(b) => Some(b),
            _ => None,
        }
    }

    /// The text under a key of an object.
    pub open spec fn text_at(self, key: Seq<char>) -> Option<Seq<char>> {
        match self.get(key) {
            Some(v) => v.as_text(),
            None => None,
        }
    }
}

pub proof fn lemma_items_view(items: Seq<Json>)
    ensures
        items_view(items).len() == items.len(),
        forall|i: int|
            0 <= i < items.len() ==> #[trigger] items_view(items)[i] == json_view(items[i]),
    decreases items.len(),
{
    if items.len() > 0 {
        lemma_items_view(items.drop_last());
        assert forall|i: int| 0 <= i < items.len() implies #[trigger] items_view(items)[i]
            == json_view(items[i]) by {
            if i < items.len() - 1 {
                assert(items_view(items)[i] == items_view(items.drop_last())[i]);
                assert(items.drop_last()[i] == items[i]);
            }
        }
    }
}

/// A key is in the map exactly where a member has it, with the value of the last such member.
proof fn lemma_member_at(members: Seq<Member>, key: Seq<char>, at: int)
    requires
        0 <= at < members.len(),
        members[at].key@ == key,
        forall|i: int| at < i < members.len() ==> #[trigger] members[i].key@ != key,
    ensures
        members_view(members).contains_key(key),
        members_view(members)[key] == json_view(members[at].value),
    decreases members.len(),
{
    if at < members.len() - 1 {
        let rest = members.drop_last();
        assert forall|i: int| at < i < rest.len() implies #[trigger] rest[i].key@ != key by {
            assert(members[i].key@ != key);
        }
        lemma_member_at(rest, key, at);
        assert(members.last().key@ != key) by {
            assert(members[members.len() - 1].key@ != key);
        }
    }
}

proof fn lemma_no_member(members: Seq<Member>, key: Seq<char>)
    requires
        forall|i: int| 0 <= i < members.len() ==> #[trigger] members[i].key@ != key,
    ensures
        !members_view(members).contains_key(key),
    decreases members.len(),
{
    if members.len() > 0 {
        let rest = members.drop_last();
        assert forall|i: int| 0 <= i < rest.len() implies #[trigger] rest[i].key@ != key by {
            assert(members[i].key@ != key);
        }
        lemma_no_member(rest, key);
        assert(members[members.len() - 1].key@ != key);
    }
}

/// The value under a key of a list of members.
fn find_member<'a>(members: &'a Vec<Member>, key: &str) -> (r: Option<&'a Json>)
    ensures
        match r {
            Some(v) => members_view(members@).contains_key(key@) && members_view(members@)[key@]
                == v@,
            None => !members_view(members@).contains_key(key@),
        },
        r matches Some(v) ==> exists|i: int| 0 <= i < members@.len() && members@[i].value == *v,
{
    let mut i: usize = members.len();
    while i > 0
        invariant
            i <= members@.len(),
            forall|j: int| i <= j < members@.len() ==> #[trigger] members@[j].key@ != key@,
        decreases i,
    {
        i = i - 1;
        if same_text(members[i].key.as_str(), key) {
            proof {
                lemma_member_at(members@, key@, i as int);
            }
            return Some(&members[i].value);
        }
    }
    proof {
        lemma_no_member(members@, key@);
    }
    None
}

impl Json {
    /// The value under a key, where this is an object that has the key.
    pub fn get(&self, key: &str) -> (r: Option<&Json>)
        ensures
            (match r {
                Some(v) => Some(v@),
                None => None,
            }) == self@.get(key@),
    {
        match self {
            Json::Object(members) => find_member(members, key),
            _ => None,
        }
    }

    pub fn as_text(&self) -> (r: Option<&String>)
        ensures
            (match r {
                Some(s) => Some(s@),
                None => None,
            }) == self@.as_text(),
    {
        match self {
            Json::Text(s) => Some(s),
            _ => None,
        }
    }

    pub fn as_unsigned(&self) -> (r: Option<u64>)
        ensures
            (match r {
                Some(n) => Some(n as nat),
                None => None,
            }) == self@.as_unsigned(),
    {
        match self {
            Json::Unsigned(n) => Some(*n),
            _ => None,
        }
    }

    pub fn as_bool(&self) -> (r: Option<bool>)
        ensures
            r == self@.as_bool(),
    {
        match self {
            Json::Bool(b) => Some(*b),
            _ => None,
        }
    }

    /// The text under a key of an object.
    pub fn text_at(&self, key: &str) -> (r: Option<String>)
        ensures
            crate::text::text_view(r) == self@.text_at(key@),
    {
        match self.get(key) {
            Some(v) => match v.as_text() {
                Some(s) => Some(copy_text(s.as_str())),
                None => None,
            },
            None => None,
        }
    }

    pub fn text(s: &str) -> (r: Json)
        ensures
            r@ == JsonView::Text(s@),
    {
        Json::Text(copy_text(s))
    }

    /// A text, or null where there is none.
    pub fn optional_text(s: &Option<String>) -> (r: Json)
        ensures
            r@ == optional_text_json(crate::text::text_view(*s)),
    {
        match s {
            Some(t) => Json::text(t.as_str()),
            None => Json::Null,
        }
    }

    /// A number, or null where there is none.
    pub fn optional_unsigned(n: Option<u64>) -> (r: Json)
        ensures
            r@ == optional_unsigned_json(n),
    {
        match n {
            Some(v) => Json::Unsigned(v),
            None => Json::Null,
        }
    }

    /// An array of texts.
    pub fn texts(v: &Vec<String>) -> (r: Json)
        ensures
            r@ == texts_json(crate::text::texts_view(v@)),
    {
        let mut items: Vec<Json> = Vec::new();
        let mut i: usize = 0;
        while i < v.len()
            invariant
                i <= v@.len(),
                items@.len() == i,
                forall|j: int|
                    0 <= j < i ==> json_view(#[trigger] items@[j]) == JsonView::Text(v@[j]@),
            decreases v@.len() - i,
        {
            items.push(Json::text(v[i].as_str()));
            i = i + 1;
        }
        proof {
            lemma_items_view(items@);
            assert(items_view(items@) =~= texts_json(
                crate::text::texts_view(v@),
            )->Array_0);
        }
        Json::Array(items)
    }

    /// A copy of the value.
    pub fn copy(&self) -> (r: Json)
        ensures
            r@ == self@,
        decreases self,
    {
        match self {
            Json::Null => Json::Null,
            Json::Bool(b) => Json::Bool(*b),
            Json::Unsigned(n) => Json::Unsigned(*n),
            Json::Negative(n) => Json::Negative(*n),
            Json::Fraction(s) => Json::Fraction(copy_text(s.as_str())),
            Json::Text(s) => Json::Text(copy_text(s.as_str())),
            Json::Array(items) => {
                let mut out: Vec<Json> = Vec::new();
                let mut i: usize = 0;
                while i < items.len()
                    invariant
                        i <= items@.len(),
                        *self == Json::Array(*items),
                        items_view(out@) == items_view(items@.take(i as int)),
                    decreases items@.len() - i,
                {
                    proof {
                        assert(decreases_to!(*self => self->Array_0));
                        assert(decreases_to!(items => items@));
                        assert(decreases_to!(items@ => items@[i as int]));
                    }
                    let copied: Json = items[i].copy();
                    proof {
                        assert(items@.take(i + 1).drop_last() =~= items@.take(i as int));
                        assert(out@.push(copied).drop_last() =~= out@);
                    }
                    out.push(copied);
                    i = i + 1;
                }
                assert(items@.take(items@.len() as int) =~= items@);
                Json::Array(out)
            },
            Json::Object(members) => {
                let mut out: Vec<Member> = Vec::new();
                let mut i: usize = 0;
                while i < members.len()
                    invariant
                        i <= members@.len(),
                        *self == Json::Object(*members),
                        members_view(out@) == members_view(members@.take(i as int)),
                    decreases members@.len() - i,
                {
                    proof {
                        assert(decreases_to!(*self => self->Object_0));
                        assert(decreases_to!(members => members@));
                        assert(decreases_to!(members@ => members@[i as int]));
                        assert(decreases_to!(members@[i as int] => members@[i as int].value));
                    }
                    let copied: Member = Member {
                        key: copy_text(members[i].key.as_str()),
                        value: members[i].value.copy(),
                    };
                    proof {
                        assert(members@.take(i + 1).drop_last() =~= members@.take(i as int));
                        assert(out@.push(copied).drop_last() =~= out@);
                    }
                    out.push(copied);
                    i = i + 1;
                }
                assert(members@.take(members@.len() as int) =~= members@);
                Json::Object(out)
            },
        }
    }
}

pub open spec fn optional_text_json(s: Option<Seq<char>>) -> JsonView {
    match s {
        Some(t) => JsonView::Text(t),
        None => JsonView::Null,
    }
}

pub open spec fn optional_unsigned_json(n: Option<u64>) -> JsonView {
    match n {
        Some(v) => JsonView::Unsigned(v as nat),
        None => JsonView::Null,
    }
}

pub open spec fn texts_json(v: Seq<Seq<char>>) -> JsonView {
    JsonView::Array(Seq::new(v.len(), |i: int| JsonView::Text(v[i])))
}

pub fn copy_optional_json(j: &Option<Json>) -> (r: Option<Json>)
    ensures
        optional_json_view(r) == optional_json_view(*j),
{
    match j {
        Some(v) => Some(v.copy()),
        None => None,
    }
}

/// Whether two values denote the same.
pub fn same_json(a: &Json, b: &Json) -> (r: bool)
    ensures
        r == (a@ == b@),
    decreases a,
{
    match (a, b) {
        (Json::Null, Json::Null) => true,
        (Json::Bool(x), Json::Bool(y)) => *x == *y,
        (Json::Unsigned(x), Json::Unsigned(y)) => *x == *y,
        (Json::Negative(x), Json::Negative(y)) => *x == *y,
        (Json::Fraction(x), Json::Fraction(y)) => same_text(x.as_str(), y.as_str()),
        (Json::Text(x), Json::Text(y)) => same_text(x.as_str(), y.as_str()),
        (Json::Array(x), Json::Array(y)) => {
            proof {
                lemma_items_view(x@);
                lemma_items_view(y@);
            }
            if x.len() != y.len() {
                assert(items_view(x@).len() != items_view(y@).len());
                return false;
            }
            let mut i: usize = 0;
            while i < x.len()
                invariant
                    i <= x@.len(),
                    x@.len() == y@.len(),
                    *a == Json::Array(*x),
                    *b == Json::Array(*y),
                    a@ == JsonView::Array(items_view(x@)),
                    b@ == JsonView::Array(items_view(y@)),
                    items_view(x@).len() == x@.len(),
                    items_view(y@).len() == y@.len(),
                    forall|j: int|
                        0 <= j < x@.len() ==> #[trigger] items_view(x@)[j] == json_view(x@[j]),
                    forall|j: int|
                        0 <= j < y@.len() ==> #[trigger] items_view(y@)[j] == json_view(y@[j]),
                    forall|j: int|
                        0 <= j < i ==> #[trigger] items_view(x@)[j] == items_view(y@)[j],
                decreases x@.len() - i,
            {
                proof {
                    assert(decreases_to!(*a => a->Array_0));
                    assert(decreases_to!(x => x@));
                    assert(decreases_to!(x@ => x@[i as int]));
                    assert(items_view(x@)[i as int] == json_view(x@[i as int]));
                    assert(items_view(y@)[i as int] == json_view(y@[i as int]));
                }
                if !same_json(&x[i], &y[i]) {
                    return false;
                }
                i = i + 1;
            }
            assert(items_view(x@) =~= items_view(y@));
            true
        },
        (Json::Object(x), Json::Object(y)) => {
            let mut i: usize = 0;
            while i < x.len()
                invariant
                    i <= x@.len(),
                    *a == Json::Object(*x),
                    *b == Json::Object(*y),
                    a@ == JsonView::Object(members_view(x@)),
                    b@ == JsonView::Object(members_view(y@)),
                    forall|j: int|
                        0 <= j < i ==> members_view(y@).contains_key(#[trigger] x@[j].key@)
                            && members_view(x@)[x@[j].key@] == members_view(y@)[x@[j].key@],
                decreases x@.len() - i,
            {
                let left: Option<&Json> = find_member(x, x[i].key.as_str());
                let right: Option<&Json> = find_member(y, x[i].key.as_str());
                proof {
                    lemma_member_present(x@, i as int);
                }
                match (left, right) {
                    (Some(l), Some(r)) => {
                        proof {
                            let at = choose|k: int| 0 <= k < x@.len() && x@[k].value == *l;
                            assert(decreases_to!(*a => a->Object_0));
                            assert(decreases_to!(x => x@));
                            assert(decreases_to!(x@ => x@[at]));
                            assert(decreases_to!(x@[at] => x@[at].value));
                        }
                        if !same_json(l, r) {
                            return false;
                        }
                    },
                    _ => {
                        return false;
                    },
                }
                i = i + 1;
            }
            let mut k: usize = 0;
            while k < y.len()
                invariant
                    k <= y@.len(),
                    a@ == JsonView::Object(members_view(x@)),
                    b@ == JsonView::Object(members_view(y@)),
                    forall|j: int|
                        0 <= j < k ==> members_view(x@).contains_key(#[trigger] y@[j].key@),
                decreases y@.len() - k,
            {
                proof {
                    lemma_member_present(y@, k as int);
                }
                if find_member(x, y[k].key.as_str()).is_none() {
                    return false;
                }
                k = k + 1;
            }
            proof {
                assert forall|key: Seq<char>| #[trigger]
                    members_view(x@).contains_key(key) == members_view(y@).contains_key(key) by {
                    lemma_key_has_member(x@, key);
                    lemma_key_has_member(y@, key);
                }
                assert forall|key: Seq<char>| #[trigger]
                    members_view(x@).contains_key(key) implies members_view(x@)[key]
                    == members_view(y@)[key] by {
                    lemma_key_has_member(x@, key);
                }
                assert(members_view(x@) =~= members_view(y@));
            }
            true
        },
        _ => false,
    }
}

/// The key of every member is in the map.
pub proof fn lemma_member_present(members: Seq<Member>, at: int)
    requires
        0 <= at < members.len(),
    ensures
        members_view(members).contains_key(members[at].key@),
    decreases members.len(),
{
    if at < members.len() - 1 {
        lemma_member_present(members.drop_last(), at);
        assert(members.drop_last()[at] == members[at]);
    }
}

/// Every key of the map is the key of a member.
proof fn lemma_key_has_member(members: Seq<Member>, key: Seq<char>)
    ensures
        members_view(members).contains_key(key) ==> exists|i: int|
            0 <= i < members.len() && #[trigger] members[i].key@ == key,
{
    if forall|i: int| 0 <= i < members.len() ==> #[trigger] members[i].key@ != key {
        lemma_no_member(members, key);
    }
}

/// Whether two optional values are both absent or denote the same.
pub fn same_optional_json(a: &Option<Json>, b: &Option<Json>) -> (r: bool)
    ensures
        r == (optional_json_view(*a) == optional_json_view(*b)),
{
    match (a, b) {
        (None, None) => true,
        (Some(x), Some(y)) => same_json(x, y),
        _ => false,
    }
}

// Reading and writing JSON text.

#[verifier::external_type_specification]
#[verifier::external_body]
pub struct ExValue(serde_json::Value);

#[verifier::external_type_specification]
#[verifier::external_body]
pub struct ExJsonError(serde_json::Error);

/// What a `serde_json::Value` holds.
pub uninterp spec fn value_content(v: serde_json::Value) -> JsonView;

/// What the `serde_json::Value` that is made from a value holds.
pub uninterp spec fn made_value(j: JsonView) -> JsonView;

/// The value that `serde_json::from_slice` reads from a text, where the text is JSON.
pub uninterp spec fn json_parse(bytes: Seq<u8>) -> Option<JsonView>;

/// The text that `serde_json::to_vec` writes for what a `serde_json::Value` holds.
pub uninterp spec fn json_print(content: JsonView) -> Seq<u8>;

/// How many bytes of a text `serde_json` reads as one value that is ignored: the space in front of
/// it and the value. Nothing where no value stands there.
pub uninterp spec fn value_len(text: Seq<u8>) -> Option<nat>;

/// Calls `next` of the `serde_json::StreamDeserializer` of a text, into a `serde::de::IgnoredAny`,
/// and gives back its `byte_offset`. The text alone decides; no more bytes are read than there are.
#[verifier::external_body]
pub(crate) fn skip_value(text: &[u8]) -> (r: Option<usize>)
    ensures
        match r {
            Some(n) => value_len(text@) == Some(n as nat) && n <= text@.len(),
            None => value_len(text@) is None,
        },
{
    let mut stream = serde_json::Deserializer::from_slice(text).into_iter::<serde::de::IgnoredAny>();
    match stream.next() {
        Some(Ok(_)) => Some(stream.byte_offset()),
        _ => None,
    }
}

/// No fractions, and no number that is held as negative and is not.
pub open spec fn plain(j: JsonView) -> bool
    decreases j,
{
    match j {
        JsonView::Fraction(_) => false,
        JsonView::Unsigned(n) => n <= u64::MAX,
        JsonView::Negative(n) => i64::MIN <= n < 0,
        JsonView::Array(items) => forall|i: int|
            0 <= i < items.len() ==> plain(#[trigger] items[i]),
        JsonView::Object(members) => members.dom().finite() && forall|k: Seq<char>| #[trigger]
            members.contains_key(k) ==> plain(members[k]),
        _ => true,
    }
}

/// Whether two values are the same but for numbers with a fraction, and for how a number is held that
/// is not negative.
pub open spec fn alike(a: JsonView, b: JsonView) -> bool
    decreases a,
{
    match (a, b) {
        (JsonView::Fraction(_), _) => true,
        (JsonView::Negative(n), _) => b == a || (n >= 0 && b == JsonView::Unsigned(n as nat)),
        (JsonView::Array(x), JsonView::Array(y)) => x.len() == y.len() && forall|i: int|
            0 <= i < x.len() ==> alike(#[trigger] x[i], y[i]),
        (JsonView::Object(x), JsonView::Object(y)) => x.dom() == y.dom() && forall|k: Seq<char>|
         #[trigger]
            x.contains_key(k) ==> alike(x[k], y[k]),
        _ => a == b,
    }
}

/// At most `depth` arrays and objects stand inside each other.
pub open spec fn nested_within(j: JsonView, depth: nat) -> bool
    decreases j,
{
    match j {
        JsonView::Array(items) => depth > 0 && forall|i: int|
            0 <= i < items.len() ==> nested_within(#[trigger] items[i], (depth - 1) as nat),
        JsonView::Object(members) => depth > 0 && members.dom().finite() && forall|k: Seq<char>|
         #[trigger]
            members.contains_key(k) ==> nested_within(members[k], (depth - 1) as nat),
        _ => true,
    }
}

/// A value that comes back as it was when its text is read.
pub open spec fn readable(j: JsonView) -> bool {
    plain(j) && nested_within(j, 127)
}

/// The text of a value.
pub open spec fn json_bytes(j: JsonView) -> Seq<u8> {
    json_print(made_value(j))
}

/// Takes what a `serde_json::Value` holds apart, variant by variant. A number is taken by
/// `Number::as_u64`, else by `Number::as_i64`, else by its numeral.
#[verifier::external_body]
fn read_value(v: &serde_json::Value) -> (r: Json)
    ensures
        r@ == value_content(*v),
{
    match v {
        Value::Null => Json::Null,
        Value::Bool(b) => Json::Bool(*b),
        Value::Number(n) => match (n.as_u64(), n.as_i64()) {
            (Some(u), _) => Json::Unsigned(u),
            (None, Some(i)) => Json::Negative(i),
            _ => Json::Fraction(n.to_string()),
        },
        Value::String(s) => Json::Text(s.clone()),
        Value::Array(items) => Json::Array(items.iter().map(read_value).collect()),
        Value::Object(map) => Json::Object(
            map.iter().map(|(k, x)| Member { key: k.clone(), value: read_value(x) }).collect(),
        ),
    }
}

/// Puts a `serde_json::Value` together, variant by variant; the numeral of a fraction is read by
/// `serde_json::from_str`. What is plain is held as it is, and what is not is held alike.
#[verifier::external_body]
fn make_value(j: &Json) -> (r: serde_json::Value)
    ensures
        value_content(r) == made_value(j@),
        plain(j@) ==> value_content(r) == j@,
        alike(j@, value_content(r)),
{
    match j {
        Json::Null => Value::Null,
        Json::Bool(b) => Value::Bool(*b),
        Json::Unsigned(n) => Value::from(*n),
        Json::Negative(n) => Value::from(*n),
        Json::Fraction(s) => serde_json::from_str(s).unwrap_or_default(),
        Json::Text(s) => Value::from(s.as_str()),
        Json::Array(items) => Value::Array(items.iter().map(make_value).collect()),
        Json::Object(members) => Value::Object(
            members.iter().map(|m| (m.key.clone(), make_value(&m.value))).collect(),
        ),
    }
}

/// `serde_json::from_slice` into a `serde_json::Value`: the text alone decides what is read and
/// whether it is JSON.
#[verifier::external_body]
fn parse_value(bytes: &[u8]) -> (r: Result<serde_json::Value, serde_json::Error>)
    ensures
        match r {
            Ok(v) => json_parse(bytes@) == Some(value_content(v)),
            Err(_) => json_parse(bytes@) is None,
        },
{
    serde_json::from_slice(bytes)
}

/// `serde_json::to_vec` of a `serde_json::Value`, which has a text always: its parts, put together
/// with nothing between them but the marks. What is plain, and no deeper than the reader goes, is
/// read back from that text; whatever is read back is alike.
#[verifier::external_body]
fn print_value(v: &serde_json::Value) -> (r: Vec<u8>)
    ensures
        r@ == json_print(value_content(*v)),
        readable(value_content(*v)) ==> json_parse(r@) == Some(value_content(*v)),
        json_parse(r@) matches Some(w) ==> alike(value_content(*v), w),
        put_together(value_content(*v), r@),
{
    serde_json::to_vec(v).expect("every JSON value has a text")
}

/// Reads JSON text.
pub fn parse_json(bytes: &[u8]) -> (r: Option<Json>)
    ensures
        optional_json_view(r) == json_parse(bytes@),
{
    match parse_value(bytes) {
        Ok(v) => Some(read_value(&v)),
        Err(_) => None,
    }
}

/// Writes JSON text.
pub fn print_json(j: &Json) -> (r: Vec<u8>)
    ensures
        r@ == json_bytes(j@),
        readable(j@) ==> made_value(j@) == j@ && json_parse(r@) == Some(j@),
        alike(j@, made_value(j@)),
        json_parse(r@) matches Some(w) ==> alike(made_value(j@), w),
        put_together(made_value(j@), r@),
{
    print_value(&make_value(j))
}

} // verus!
