//! The line in which a child process says what it raises.
//!
//! The last line that starts with `RAISED: ` holds, in base64, a JSON list of queues and payloads.
//! Where there is no such line, or where it cannot be read, nothing is raised.

use vstd::prelude::*;
use vstd::string::*;
use crate::cutting::{
    split, split_once, split_text, split_text_once, starts_with, trim_start_at, trim_text, trimmed,
    whitespace,
};
use crate::event::{event_views, Event, EventView};
use crate::json::{lemma_items_view, Json, JsonView};
use crate::record_codec::{parse_part, parsed_part};
use crate::record_text::Shape;
use crate::text::{copy_text, same_text, text_of, text_view, texts_view, to_chars};
use base64::Engine;

verus! {

/// The bytes that `Engine::decode` of the URL-safe engine with padding reads from a text, where the
/// text is base64.
pub uninterp spec fn base64_decode(text: Seq<char>) -> Option<Seq<u8>>;

/// `base64::Engine::decode` of `general_purpose::URL_SAFE`: the text alone decides what is read and
/// whether it is base64.
#[verifier::external_body]
fn decode_base64(text: &str) -> (r: Option<Vec<u8>>)
    ensures
        (match r {
            Some(bytes) => Some(bytes@),
            None => None,
        }) == base64_decode(text@),
{
    base64::engine::general_purpose::URL_SAFE.decode(text).ok()
}

/// A text without the whitespace at its start.
pub open spec fn start_trimmed(s: Seq<char>) -> Seq<char> {
    s.skip(trim_start_at(s) as int)
}

/// Whether a line says what is raised.
pub open spec fn is_raised_line(line: Seq<char>) -> bool {
    "RAISED: "@.is_prefix_of(start_trimmed(line))
}

/// A text without the word at its start, however often it stands there.
pub open spec fn without_fronts(s: Seq<char>, front: Seq<char>) -> Seq<char>
    decreases s.len(),
{
    if front.len() > 0 && front.is_prefix_of(s) {
        without_fronts(s.skip(front.len() as int), front)
    } else {
        s
    }
}

/// What stands in the line behind the word.
pub open spec fn raised_code(line: Seq<char>) -> Seq<char> {
    trimmed(without_fronts(start_trimmed(line), "RAISED: "@))
}

/// The queue and the payload of an entry: an object with a queue and perhaps a payload, or a list
/// of the two. Other members of the object were left out when its text was read.
pub open spec fn raised_entry(j: JsonView) -> Option<(Seq<char>, JsonView)> {
    match j {
        JsonView::Object(_) => match j.text_at("queue"@) {
            Some(queue) => Some(
                (
                    queue,
                    match j.get("payload"@) {
                        Some(payload) => payload,
                        None => JsonView::Null,
                    },
                ),
            ),
            None => None,
        },
        JsonView::Array(items) => if 1 <= items.len() <= 2 {
            match items[0].as_text() {
                Some(queue) => Some(
                    (
                        queue,
                        if items.len() == 2 {
                            items[1]
                        } else {
                            JsonView::Null
                        },
                    ),
                ),
                None => None,
            }
        } else {
            None
        },
        _ => None,
    }
}

/// The events of entries, where every entry can be read.
pub open spec fn raised_entries(items: Seq<JsonView>, now_ms: u64) -> Option<Seq<EventView>>
    decreases items.len(),
{
    if items.len() == 0 {
        Some(Seq::empty())
    } else {
        match (raised_entries(items.drop_last(), now_ms), raised_entry(items.last())) {
            (Some(front), Some((queue, payload))) => Some(
                front.push(EventView { queue, payload, ts: now_ms }),
            ),
            _ => None,
        }
    }
}

/// The events that a decoded line raises.
pub open spec fn raised_by(j: Option<JsonView>, now_ms: u64) -> Seq<EventView> {
    match j {
        Some(JsonView::Array(items)) => match raised_entries(items, now_ms) {
            Some(events) => events,
            None => Seq::empty(),
        },
        _ => Seq::empty(),
    }
}

/// The events that an encoded list raises.
pub open spec fn raised_by_code(code: Seq<char>, now_ms: u64) -> Seq<EventView> {
    match base64_decode(code) {
        Some(bytes) => raised_by(parsed_part(bytes, Shape::Entries), now_ms),
        None => Seq::empty(),
    }
}

/// The events that a line raises.
pub open spec fn raised_on_line(line: Seq<char>, now_ms: u64) -> Seq<EventView> {
    if is_raised_line(line) {
        raised_by_code(raised_code(line), now_ms)
    } else {
        Seq::empty()
    }
}

/// The last line that says what is raised.
pub open spec fn last_raised_line(lines: Seq<Seq<char>>) -> Option<Seq<char>>
    decreases lines.len(),
{
    if lines.len() == 0 {
        None
    } else if is_raised_line(lines.last()) {
        Some(lines.last())
    } else {
        last_raised_line(lines.drop_last())
    }
}

/// The events that an output raises.
pub open spec fn raised_in(stdout: Seq<char>, now_ms: u64) -> Seq<EventView> {
    match last_raised_line(split(stdout, '\n')) {
        Some(line) => raised_on_line(line, now_ms),
        None => Seq::empty(),
    }
}

fn trim_start(s: &str) -> (r: String)
    ensures
        r@ == start_trimmed(s@),
{
    let chars: Vec<char> = to_chars(s);
    let len: usize = chars.len();
    let mut from: usize = 0;
    assert(s@.skip(0) =~= s@);
    while from < len && whitespace(chars[from])
        invariant
            chars@ == s@,
            len == s@.len(),
            from <= len,
            trim_start_at(s@) == from + trim_start_at(s@.skip(from as int)),
        decreases len - from,
    {
        assert(s@.skip(from as int).drop_first() =~= s@.skip(from + 1));
        from = from + 1;
    }
    let out: String = text_of(&chars, from, len);
    assert(out@ =~= start_trimmed(s@));
    out
}

fn strip_fronts(s: &str) -> (r: String)
    ensures
        r@ == without_fronts(s@, "RAISED: "@),
    decreases s@.len(),
{
    proof {
        reveal_strlit("RAISED: ");
        assert("RAISED: "@.len() == 8);
    }
    if starts_with(s, "RAISED: ") {
        let chars: Vec<char> = to_chars(s);
        let rest: String = text_of(&chars, 8, chars.len());
        assert(rest@ =~= s@.skip(8));
        strip_fronts(rest.as_str())
    } else {
        copy_text(s)
    }
}

/// The events of a decoded line.
pub fn raised_events(j: &Option<Json>, now_ms: u64) -> (r: Vec<Event>)
    ensures
        event_views(r@) == raised_by(crate::json::optional_json_view(*j), now_ms),
{
    let mut out: Vec<Event> = Vec::new();
    assert(event_views(out@) =~= Seq::<EventView>::empty());
    let items: &Vec<Json> = match j {
        Some(Json::Array(items)) => items,
        _ => return out,
    };
    let ghost views = crate::json::items_view(items@);
    proof {
        lemma_items_view(items@);
    }
    let mut i: usize = 0;
    while i < items.len()
        invariant
            views == crate::json::items_view(items@),
            views.len() == items@.len(),
            forall|k: int|
                0 <= k < items@.len() ==> #[trigger] views[k] == crate::json::json_view(items@[k]),
            i <= items@.len(),
            raised_entries(views.take(i as int), now_ms) == Some(event_views(out@)),
            crate::json::optional_json_view(*j) == Some(JsonView::Array(views)),
        decreases items@.len() - i,
    {
        let ghost had = event_views(out@);
        proof {
            assert(views.take(i + 1).drop_last() =~= views.take(i as int));
            assert(views.take(i + 1).last() == views[i as int]);
        }
        match read_entry(&items[i]) {
            Some((queue, payload)) => {
                let event: Event = Event { queue, payload, ts: now_ms };
                let ghost v = event@;
                out.push(event);
                assert(event_views(out@) =~= had.push(v));
            },
            None => {
                proof {
                    lemma_entry_missing(views, now_ms, i + 1);
                }
                return Vec::new();
            },
        }
        i = i + 1;
    }
    assert(views.take(views.len() as int) =~= views);
    out
}

proof fn lemma_entry_missing(items: Seq<JsonView>, now_ms: u64, n: int)
    requires
        0 <= n <= items.len(),
        raised_entries(items.take(n), now_ms) is None,
    ensures
        raised_entries(items, now_ms) is None,
    decreases items.len() - n,
{
    if n == items.len() {
        assert(items.take(n) =~= items);
    } else {
        assert(items.take(n + 1).drop_last() =~= items.take(n));
        lemma_entry_missing(items, now_ms, n + 1);
    }
}

fn read_entry(j: &Json) -> (r: Option<(String, Json)>)
    ensures
        (match r {
            Some(e) => Some((e.0@, e.1@)),
            None => None,
        }) == raised_entry(j@),
{
    match j {
        Json::Object(_) => match j.text_at("queue") {
            Some(queue) => match j.get("payload") {
                Some(payload) => Some((queue, payload.copy())),
                None => Some((queue, Json::Null)),
            },
            None => None,
        },
        Json::Array(items) => {
            proof {
                lemma_items_view(items@);
            }
            if items.len() == 0 || items.len() > 2 {
                return None;
            }
            match items[0].as_text() {
                Some(queue) => {
                    let name: String = copy_text(queue.as_str());
                    if items.len() == 2 {
                        Some((name, items[1].copy()))
                    } else {
                        Some((name, Json::Null))
                    }
                },
                None => None,
            }
        },
        _ => None,
    }
}

fn decode_events(code: &str, now_ms: u64) -> (r: Vec<Event>)
    ensures
        event_views(r@) == raised_by_code(code@, now_ms),
{
    match decode_base64(code) {
        Some(bytes) => {
            let j: Option<Json> = parse_part(bytes.as_slice(), Shape::Entries);
            raised_events(&j, now_ms)
        },
        None => no_events(),
    }
}

fn no_events() -> (r: Vec<Event>)
    ensures
        event_views(r@) == Seq::<EventView>::empty(),
{
    let out: Vec<Event> = Vec::new();
    assert(event_views(out@) =~= Seq::<EventView>::empty());
    out
}

/// The events that a line raises at a time.
pub fn parse_raised_line(line: &str, now_ms: u64) -> (r: Vec<Event>)
    ensures
        event_views(r@) == raised_on_line(line@, now_ms),
{
    let start: String = trim_start(line);
    if !starts_with(start.as_str(), "RAISED: ") {
        return no_events();
    }
    let rest: String = strip_fronts(start.as_str());
    let code: String = trim_text(rest.as_str());
    decode_events(code.as_str(), now_ms)
}

/// The events that an output raises at a time: those of its last line that says what is raised.
pub fn parse_raised(stdout: &str, now_ms: u64) -> (r: Vec<Event>)
    ensures
        event_views(r@) == raised_in(stdout@, now_ms),
{
    let lines: Vec<String> = split_text(stdout, '\n');
    let ghost views = texts_view(lines@);
    let mut i: usize = lines.len();
    assert(views.take(views.len() as int) =~= views);
    while i > 0
        invariant
            views == texts_view(lines@),
            views == split(stdout@, '\n'),
            i <= lines@.len(),
            last_raised_line(views) == last_raised_line(views.take(i as int)),
        decreases i,
    {
        proof {
            assert(views.take(i as int).last() == lines@[i - 1]@);
            assert(views.take(i as int).drop_last() =~= views.take(i - 1));
        }
        let start: String = trim_start(lines[i - 1].as_str());
        if starts_with(start.as_str(), "RAISED: ") {
            return parse_raised_line(lines[i - 1].as_str(), now_ms);
        }
        i = i - 1;
    }
    no_events()
}

// Lines that carry a token.

/// The encoded list of a line that carries the token.
pub open spec fn authentic_code(line: Seq<char>, token: Seq<char>) -> Option<Seq<char>> {
    let start = start_trimmed(line);
    if "RAISED-AUTH: "@.is_prefix_of(start) {
        match split_once(start.skip(13), ' ') {
            Some((carried, code)) => if carried == token {
                Some(trimmed(code))
            } else {
                None
            },
            None => None,
        }
    } else {
        None
    }
}

/// The events that a line raises, where it carries the token.
pub open spec fn authentic_on_line(line: Seq<char>, token: Seq<char>, now_ms: u64) -> Seq<EventView> {
    match authentic_code(line, token) {
        Some(code) => raised_by_code(code, now_ms),
        None => Seq::empty(),
    }
}

/// The encoded list of the last line that carries the token.
pub open spec fn last_authentic(lines: Seq<Seq<char>>, token: Seq<char>) -> Option<Seq<char>>
    decreases lines.len(),
{
    if lines.len() == 0 {
        None
    } else if authentic_code(lines.last(), token) is Some {
        authentic_code(lines.last(), token)
    } else {
        last_authentic(lines.drop_last(), token)
    }
}

fn find_authentic_code(line: &str, token: &str) -> (r: Option<String>)
    ensures
        text_view(r) == authentic_code(line@, token@),
{
    let start: String = trim_start(line);
    proof {
        reveal_strlit("RAISED-AUTH: ");
        assert("RAISED-AUTH: "@.len() == 13);
    }
    if !starts_with(start.as_str(), "RAISED-AUTH: ") {
        return None;
    }
    let chars: Vec<char> = to_chars(start.as_str());
    let rest: String = text_of(&chars, 13, chars.len());
    assert(rest@ =~= start@.skip(13));
    match split_text_once(rest.as_str(), ' ') {
        Some((carried, code)) => if same_text(carried.as_str(), token) {
            Some(trim_text(code.as_str()))
        } else {
            None
        },
        None => None,
    }
}

/// The events that a line raises at a time, where it carries the token.
pub fn parse_authenticated_raised_line(line: &str, token: &str, now_ms: u64) -> (r: Vec<Event>)
    ensures
        event_views(r@) == authentic_on_line(line@, token@, now_ms),
{
    match find_authentic_code(line, token) {
        Some(code) => decode_events(code.as_str(), now_ms),
        None => no_events(),
    }
}

/// The events that an output raises at a time: those of its last line that carries the token.
pub fn parse_authenticated_raised(stdout: &str, token: &str, now_ms: u64) -> (r: Vec<Event>)
    ensures
        event_views(r@) == match last_authentic(split(stdout@, '\n'), token@) {
            Some(code) => raised_by_code(code, now_ms),
            None => Seq::empty(),
        },
{
    let lines: Vec<String> = split_text(stdout, '\n');
    let ghost views = texts_view(lines@);
    let mut i: usize = lines.len();
    assert(views.take(views.len() as int) =~= views);
    while i > 0
        invariant
            views == texts_view(lines@),
            views == split(stdout@, '\n'),
            i <= lines@.len(),
            last_authentic(views, token@) == last_authentic(views.take(i as int), token@),
        decreases i,
    {
        proof {
            assert(views.take(i as int).last() == lines@[i - 1]@);
            assert(views.take(i as int).drop_last() =~= views.take(i - 1));
        }
        match find_authentic_code(lines[i - 1].as_str(), token) {
            Some(code) => return decode_events(code.as_str(), now_ms),
            None => {},
        }
        i = i - 1;
    }
    no_events()
}

/// A line without the token raises nothing: neither a plain line nor one with another token does.
pub proof fn law_only_the_token_raises(
    line: Seq<char>,
    token: Seq<char>,
    other: Seq<char>,
    now_ms: u64,
)
    ensures
        is_raised_line(line) ==> authentic_on_line(line, token, now_ms) == Seq::<
            EventView,
        >::empty(),
        other != token && authentic_code(line, other) is Some ==> authentic_on_line(
            line,
            token,
            now_ms,
        ) == Seq::<EventView>::empty(),
{
    reveal_strlit("RAISED: ");
    reveal_strlit("RAISED-AUTH: ");
    let start = start_trimmed(line);
    if is_raised_line(line) && "RAISED-AUTH: "@.is_prefix_of(start) {
        assert("RAISED: "@[6] == ':');
        assert("RAISED-AUTH: "@[6] == '-');
        assert(start.take("RAISED: "@.len() as int)[6] == start[6]);
        assert(start.take("RAISED-AUTH: "@.len() as int)[6] == start[6]);
    }
}

// Which line counts.

/// What stands before the last line that says what is raised, and lines behind it that do not,
/// change nothing.
pub proof fn law_last_line_wins(before: Seq<Seq<char>>, line: Seq<char>, after: Seq<Seq<char>>)
    requires
        is_raised_line(line),
        forall|i: int| 0 <= i < after.len() ==> !is_raised_line(#[trigger] after[i]),
    ensures
        last_raised_line(before.push(line) + after) == Some(line),
    decreases after.len(),
{
    let all = before.push(line) + after;
    if after.len() == 0 {
        assert(all =~= before.push(line));
        assert(all.last() == line);
    } else {
        assert(all.last() == after.last());
        assert(!is_raised_line(after[after.len() - 1]));
        assert(all.drop_last() =~= before.push(line) + after.drop_last());
        law_last_line_wins(before, line, after.drop_last());
    }
}

} // verus!
