//! Laws of publishing: who gets an event, and as which delivery.

use vstd::prelude::*;
use vstd::string::*;
use crate::config::DepartmentDecl;
use crate::cutting::{law_split_join, split};
use crate::delivery_index::{encoded_part, law_encoded_part_injective, lemma_encoded_part};
use crate::delivery_router::{
    dedup_front, dept_subscriptions, fact_source, given_key, kind_of_word, named_source,
    raised_source_front, record_of, reliable_depts, reliable_names, single_reliable,
    source_kind_word, source_parts, subscription_views, subscriptions_of, PublishEnvelope, Route,
    SubscriptionView,
};
use crate::delivery_types::{source_view, SourceKind, SourceView};
use crate::event::EventView;
use crate::json::{optional_json_view, JsonView};
use crate::numeral::{decimal, is_digit, lemma_decimal};
use crate::runtime_key::{
    all_part_segments, all_segments, chunks, key_of, key_segments, law_escaped_segments,
    law_mixed_keys_differ, mixed_key_of, part_segments, PartView, SEGMENT_LIMIT,
};
use crate::text::texts_view;

verus! {

// What an event says of itself.

/// Whether a payload gives no key.
pub open spec fn gives_no_key(payload: JsonView) -> bool {
    payload matches JsonView::Object(m) && !m.contains_key("dedup_key"@)
}

/// Whether a payload gives a key.
pub open spec fn gives_key(payload: JsonView, key: Seq<char>) -> bool {
    payload matches JsonView::Object(m) && m.contains_key("dedup_key"@) && m["dedup_key"@]
        == JsonView::Text(key)
}

/// Whether a payload names a source by a word for its kind and a reference.
pub open spec fn names(payload: JsonView, word: Seq<char>, reference: Seq<char>) -> bool {
    payload matches JsonView::Object(m) && m.contains_key("source_ref"@) && (m["source_ref"@]
        matches JsonView::Object(n) && n.contains_key("kind"@) && n["kind"@] == JsonView::Text(word)
        && n.contains_key("reference"@) && n["reference"@] == JsonView::Text(reference))
}

/// Whether a word stands for a kind of source.
pub open spec fn is_known_word(word: Seq<char>) -> bool {
    word == "file"@ || word == "file_watch"@ || word == "cron"@ || word == "git"@ || word
        == "external"@
}

proof fn lemma_words_differ()
    ensures
        "file"@.len() == 4 && "file"@[0] == 'f',
        "file_watch"@.len() == 10,
        "cron"@.len() == 4 && "cron"@[0] == 'c',
        "git"@.len() == 3,
        "external"@.len() == 8,
{
    reveal_strlit("file");
    reveal_strlit("file_watch");
    reveal_strlit("cron");
    reveal_strlit("git");
    reveal_strlit("external");
}

/// The words for a kind of source that an event may use: two for a file, and one for each other.
pub proof fn law_the_words_for_kinds(word: Seq<char>)
    ensures
        kind_of_word(word) is Some <==> is_known_word(word),
        kind_of_word("file"@) == Some(SourceKind::File),
        kind_of_word("file_watch"@) == Some(SourceKind::File),
        kind_of_word("cron"@) == Some(SourceKind::Cron),
        kind_of_word("git"@) == Some(SourceKind::Git),
        kind_of_word("external"@) == Some(SourceKind::External),
        forall|kind: SourceKind| kind_of_word(#[trigger] source_kind_word(kind)) == Some(kind),
{
    lemma_words_differ();
    assert forall|kind: SourceKind| kind_of_word(#[trigger] source_kind_word(kind)) == Some(
        kind,
    ) by {
        match kind {
            SourceKind::File => {},
            SourceKind::Cron => {},
            SourceKind::Git => {},
            SourceKind::External => {},
        }
    }
}

/// What a payload says of its source: the kind that the word stands for, and the reference. An empty
/// reference and a word that is not known name no source, and so does a payload without one.
pub proof fn law_what_a_payload_names(payload: JsonView, word: Seq<char>, reference: Seq<char>)
    ensures
        names(payload, word, reference) && is_known_word(word) && reference.len() > 0 ==> (
        named_source(payload) matches Some(s) && s.reference == reference && kind_of_word(word)
            == Some(s.kind)),
        names(payload, word, reference) && (!is_known_word(word) || reference.len() == 0)
            ==> named_source(payload) is None,
        (payload matches JsonView::Object(m) && !m.contains_key("source_ref"@)) ==> named_source(
            payload,
        ) is None,
        !(payload is Object) ==> named_source(payload) is None,
{
    law_the_words_for_kinds(word);
}

/// What a payload says of its key: a text that is not empty.
pub proof fn law_what_key_a_payload_gives(payload: JsonView, key: Seq<char>)
    ensures
        gives_key(payload, key) && key.len() > 0 ==> given_key(payload) == Some(key),
        gives_key(payload, key) && key.len() == 0 ==> given_key(payload) is None,
        gives_no_key(payload) || !(payload is Object) ==> given_key(payload) is None,
        given_key(payload) matches Some(k) ==> gives_key(payload, k),
{
}

// Ids.

proof fn lemma_raised_front(queue: Seq<char>, dept: Seq<char>, kind: SourceKind)
    ensures
        all_part_segments(raised_source_front(queue, dept, kind)) == seq![
            "delivery"@,
            "v3"@,
            "raised-src"@,
            "queue"@,
            queue,
            "dept"@,
            dept,
            "kind"@,
            source_kind_word(kind),
            "ref"@,
        ],
{
    lemma_raw_segments(raised_source_front(queue, dept, kind));
    assert(all_part_segments(raised_source_front(queue, dept, kind)) =~= seq![
        "delivery"@,
        "v3"@,
        "raised-src"@,
        "queue"@,
        queue,
        "dept"@,
        dept,
        "kind"@,
        source_kind_word(kind),
        "ref"@,
    ]);
}

proof fn lemma_dedup_front(queue: Seq<char>, dept: Seq<char>)
    ensures
        all_part_segments(dedup_front(queue, dept)) == seq![
            "delivery"@,
            "v3"@,
            "raised"@,
            "queue"@,
            queue,
            "dept"@,
            dept,
            "dedup"@,
        ],
{
    lemma_raw_segments(dedup_front(queue, dept));
    assert(all_part_segments(dedup_front(queue, dept)) =~= seq![
        "delivery"@,
        "v3"@,
        "raised"@,
        "queue"@,
        queue,
        "dept"@,
        dept,
        "dedup"@,
    ]);
}

proof fn lemma_raw_segments(front: Seq<PartView>)
    requires
        forall|k: int| 0 <= k < front.len() ==> (#[trigger] front[k]) is Raw,
    ensures
        all_part_segments(front).len() == front.len(),
        forall|k: int|
            0 <= k < front.len() ==> #[trigger] all_part_segments(front)[k] == front[k]->Raw_0,
    decreases front.len(),
{
    if front.len() > 0 {
        let rest = front.drop_last();
        assert forall|k: int| 0 <= k < rest.len() implies (#[trigger] rest[k]) is Raw by {
            assert(rest[k] == front[k]);
        }
        lemma_raw_segments(rest);
        assert(front[front.len() - 1] is Raw);
        assert forall|k: int| 0 <= k < front.len() implies #[trigger] all_part_segments(front)[k]
            == front[k]->Raw_0 by {
            if k < rest.len() {
                assert(all_part_segments(rest)[k] == rest[k]->Raw_0);
            }
        }
    }
}

/// Whether no slash stands in a text.
pub open spec fn without_slash(s: Seq<char>) -> bool {
    forall|i: int| 0 <= i < s.len() ==> #[trigger] s[i] != '/'
}

/// The segments of a key with one escaped part behind others that are not.
proof fn lemma_key_segments(front: Seq<PartView>, part: Seq<char>)
    requires
        front.len() > 0,
        forall|k: int|
            0 <= k < front.len() ==> (#[trigger] front[k]) is Raw && without_slash(
                front[k]->Raw_0,
            ),
    ensures
        split(mixed_key_of(front.push(PartView::Escaped(part))), '/') == all_part_segments(front)
            + part_segments(PartView::Escaped(part)),
{
    let parts = front.push(PartView::Escaped(part));
    assert(parts.drop_last() =~= front);
    lemma_raw_segments(front);
    law_escaped_segments(part);
    let a = all_part_segments(front);
    let b = part_segments(PartView::Escaped(part));
    let all = a + b;
    assert(all_part_segments(parts) == all);
    assert forall|i: int, j: int| 0 <= i < all.len() && 0 <= j < all[i].len() implies
        #[trigger] all[i][j] != '/' by {
        if i < a.len() {
            assert(all[i] == front[i]->Raw_0);
            assert(without_slash(front[i]->Raw_0));
        } else {
            assert(all[i] == b[i - a.len()]);
            assert(b[i - a.len()][j] != '/');
        }
    }
    reveal_strlit("/");
    assert("/"@ =~= seq!['/']);
    law_split_join(all, '/');
}

proof fn lemma_fixed_without_slash()
    ensures
        without_slash("delivery"@),
        without_slash("v3"@),
        without_slash("raised-src"@),
        without_slash("raised"@),
        without_slash("queue"@),
        without_slash("dept"@),
        without_slash("kind"@),
        without_slash("ref"@),
        without_slash("dedup"@),
        forall|kind: SourceKind| without_slash(#[trigger] source_kind_word(kind)),
        "raised-src"@ != "raised"@,
{
    reveal_strlit("delivery");
    reveal_strlit("v3");
    reveal_strlit("raised-src");
    reveal_strlit("raised");
    reveal_strlit("queue");
    reveal_strlit("dept");
    reveal_strlit("kind");
    reveal_strlit("ref");
    reveal_strlit("dedup");
    reveal_strlit("file_watch");
    reveal_strlit("cron");
    reveal_strlit("git");
    reveal_strlit("external");
    assert("raised-src"@.len() == 10 && "raised"@.len() == 6);
    assert forall|kind: SourceKind| without_slash(#[trigger] source_kind_word(kind)) by {
        match kind {
            SourceKind::File => {},
            SourceKind::Cron => {},
            SourceKind::Git => {},
            SourceKind::External => {},
        }
    }
}

proof fn lemma_raised_source_segments(
    queue: Seq<char>,
    dept: Seq<char>,
    source: SourceView,
)
    requires
        without_slash(queue),
        without_slash(dept),
    ensures
        ({
            let front = raised_source_front(queue, dept, source.kind);
            let s = split(mixed_key_of(front.push(PartView::Escaped(source.reference))), '/');
            &&& s.len() > 10
            &&& s[2] == "raised-src"@
            &&& s[4] == queue
            &&& s[6] == dept
            &&& s[8] == source_kind_word(source.kind)
        }),
{
    let front = raised_source_front(queue, dept, source.kind);
    lemma_fixed_without_slash();
    assert forall|k: int| 0 <= k < front.len() implies (#[trigger] front[k]) is Raw && without_slash(
        front[k]->Raw_0,
    ) by {
        assert(without_slash(source_kind_word(source.kind)));
    }
    lemma_key_segments(front, source.reference);
    lemma_raised_front(queue, dept, source.kind);
    law_escaped_segments(source.reference);
}

proof fn lemma_dedup_segments(queue: Seq<char>, dept: Seq<char>, key: Seq<char>)
    requires
        without_slash(queue),
        without_slash(dept),
    ensures
        ({
            let s = split(mixed_key_of(dedup_front(queue, dept).push(PartView::Escaped(key))), '/');
            &&& s.len() > 8
            &&& s[2] == "raised"@
            &&& s[4] == queue
            &&& s[6] == dept
        }),
{
    let front = dedup_front(queue, dept);
    lemma_fixed_without_slash();
    assert forall|k: int| 0 <= k < front.len() implies (#[trigger] front[k]) is Raw && without_slash(
        front[k]->Raw_0,
    ) by {}
    lemma_key_segments(front, key);
    lemma_dedup_front(queue, dept);
    law_escaped_segments(key);
}

/// Two events that are raised to one queue and department, that give no key and name sources of one
/// kind with different references, become deliveries with different ids, whichever deliveries raise
/// them and from whatever sources.
pub proof fn law_events_of_different_sources_are_different_deliveries(
    a: PublishEnvelope,
    b: PublishEnvelope,
    dept: Seq<char>,
    now_ms: u64,
    later_ms: u64,
    word: Seq<char>,
    reference: Seq<char>,
    other: Seq<char>,
)
    requires
        a.derived is Some,
        b.derived is Some,
        a.event@.queue == b.event@.queue,
        gives_no_key(a.event@.payload),
        gives_no_key(b.event@.payload),
        is_known_word(word),
        names(a.event@.payload, word, reference),
        names(b.event@.payload, word, other),
        reference.len() > 0,
        other.len() > 0,
        reference != other,
    ensures
        record_of(a, dept, now_ms).delivery_id != record_of(b, dept, later_ms).delivery_id,
{
    law_what_a_payload_names(a.event@.payload, word, reference);
    law_what_a_payload_names(b.event@.payload, word, other);
    let kind = kind_of_word(word)->0;
    law_the_words_for_kinds(word);
    let front = raised_source_front(a.event@.queue, dept, kind);
    lemma_raised_front(a.event@.queue, dept, kind);
    if mixed_key_of(front.push(PartView::Escaped(reference))) == mixed_key_of(
        front.push(PartView::Escaped(other)),
    ) {
        law_mixed_keys_differ(front, reference, other);
    }
}

/// An event that gives no key and names a source is the same delivery whichever delivery raises it,
/// from whatever source that one came, and whatever else the event says.
pub proof fn law_the_named_source_alone_decides(
    a: PublishEnvelope,
    b: PublishEnvelope,
    dept: Seq<char>,
    now_ms: u64,
    later_ms: u64,
    word: Seq<char>,
    reference: Seq<char>,
)
    requires
        a.derived is Some,
        b.derived is Some,
        a.event@.queue == b.event@.queue,
        gives_no_key(a.event@.payload),
        gives_no_key(b.event@.payload),
        is_known_word(word),
        reference.len() > 0,
        names(a.event@.payload, word, reference),
        names(b.event@.payload, word, reference),
    ensures
        record_of(a, dept, now_ms).delivery_id == record_of(b, dept, later_ms).delivery_id,
        !record_of(a, dept, now_ms).collapse_by_dedup_id,
{
    law_what_a_payload_names(a.event@.payload, word, reference);
    law_what_a_payload_names(b.event@.payload, word, reference);
}

/// Two raised events are one delivery where they give the same key, whatever else they say, and two
/// where they give different ones; deliveries known by a key are one whatever they hold.
pub proof fn law_the_key_decides(
    a: PublishEnvelope,
    b: PublishEnvelope,
    dept: Seq<char>,
    now_ms: u64,
    later_ms: u64,
    key: Seq<char>,
    other: Seq<char>,
)
    requires
        a.derived is Some,
        b.derived is Some,
        a.event@.queue == b.event@.queue,
        key.len() > 0,
        other.len() > 0,
        gives_key(a.event@.payload, key),
        gives_key(b.event@.payload, other),
    ensures
        record_of(a, dept, now_ms).delivery_id == record_of(b, dept, later_ms).delivery_id <==> key
            == other,
        record_of(a, dept, now_ms).collapse_by_dedup_id,
{
    law_what_key_a_payload_gives(a.event@.payload, key);
    law_what_key_a_payload_gives(b.event@.payload, other);
    let front = dedup_front(a.event@.queue, dept);
    lemma_dedup_front(a.event@.queue, dept);
    if mixed_key_of(front.push(PartView::Escaped(key))) == mixed_key_of(
        front.push(PartView::Escaped(other)),
    ) {
        law_mixed_keys_differ(front, key, other);
    }
}

/// Whether an event names no source.
pub open spec fn names_no_source(payload: JsonView) -> bool {
    payload matches JsonView::Object(m) && !m.contains_key("source_ref"@)
}

/// A raised event that gives no key and names no source is known by the source of the delivery that
/// raises it: two such events are one delivery just where the kinds and references of those sources
/// are the same.
pub proof fn law_without_more_the_source_of_the_parent_decides(
    a: PublishEnvelope,
    b: PublishEnvelope,
    dept: Seq<char>,
    now_ms: u64,
    later_ms: u64,
    s: SourceView,
    t: SourceView,
)
    requires
        a.derived is Some,
        b.derived is Some,
        a.event@.queue == b.event@.queue,
        without_slash(a.event@.queue),
        without_slash(dept),
        gives_no_key(a.event@.payload),
        gives_no_key(b.event@.payload),
        names_no_source(a.event@.payload),
        names_no_source(b.event@.payload),
        source_view(a.source) == Some(s),
        source_view(b.source) == Some(t),
    ensures
        record_of(a, dept, now_ms).delivery_id == record_of(b, dept, later_ms).delivery_id <==> s
            == t,
{
    let queue = a.event@.queue;
    let front = raised_source_front(queue, dept, s.kind);
    lemma_raised_source_segments(queue, dept, s);
    lemma_raised_source_segments(queue, dept, t);
    lemma_raised_front(queue, dept, s.kind);
    law_the_words_for_kinds(Seq::empty());
    if record_of(a, dept, now_ms).delivery_id == record_of(b, dept, later_ms).delivery_id {
        assert(source_kind_word(s.kind) == source_kind_word(t.kind));
        assert(kind_of_word(source_kind_word(s.kind)) == Some(s.kind));
        assert(kind_of_word(source_kind_word(t.kind)) == Some(t.kind));
        law_mixed_keys_differ(front, s.reference, t.reference);
    }
}

/// The deliveries of one raised event to two departments are two, and so are those of raised events
/// to two queues.
pub proof fn law_each_department_has_its_own_delivery(
    a: PublishEnvelope,
    b: PublishEnvelope,
    dept: Seq<char>,
    other: Seq<char>,
    now_ms: u64,
    later_ms: u64,
)
    requires
        a.derived is Some,
        b.derived is Some,
        a.source is Some,
        b.source is Some,
        without_slash(a.event@.queue),
        without_slash(b.event@.queue),
        without_slash(dept),
        without_slash(other),
        record_of(a, dept, now_ms).delivery_id == record_of(b, other, later_ms).delivery_id,
    ensures
        a.event@.queue == b.event@.queue,
        dept == other,
{
    lemma_fixed_without_slash();
    lemma_raised_id_segments(a, dept, now_ms);
    lemma_raised_id_segments(b, other, later_ms);
}

proof fn lemma_raised_id_segments(a: PublishEnvelope, dept: Seq<char>, now_ms: u64)
    requires
        a.derived is Some,
        a.source is Some,
        without_slash(a.event@.queue),
        without_slash(dept),
    ensures
        ({
            let s = split(record_of(a, dept, now_ms).delivery_id, '/');
            s.len() > 8 && s[4] == a.event@.queue && s[6] == dept
        }),
{
    let queue = a.event@.queue;
    match given_key(a.event@.payload) {
        Some(key) => {
            lemma_dedup_segments(queue, dept, key);
        },
        None => {
            match named_source(a.event@.payload) {
                Some(s) => {
                    lemma_raised_source_segments(queue, dept, s);
                },
                None => {
                    lemma_raised_source_segments(queue, dept, source_view(a.source)->0);
                },
            }
        },
    }
}

/// Whether a name is written in one segment of a key.
pub open spec fn fits_one_segment(name: Seq<char>) -> bool {
    encoded_part(name).len() <= SEGMENT_LIMIT
}

proof fn lemma_one_segment(name: Seq<char>)
    requires
        fits_one_segment(name),
    ensures
        key_segments(name) == seq![encoded_part(name)],
{
    lemma_encoded_part(name);
    let code = encoded_part(name);
    assert(chunks(code, SEGMENT_LIMIT as nat) =~= seq![code]);
    assert(!crate::delivery_index::only_dots(code)) by {
        lemma_never_dots(name);
    }
    assert(key_segments(name) =~= seq![code]);
}

proof fn lemma_never_dots(name: Seq<char>)
    ensures
        !crate::delivery_index::only_dots(encoded_part(name)),
{
    let code = encoded_part(name);
    if name.len() == 0 {
        assert(code[0] == '_');
    } else {
        let inner = crate::delivery_index::bytes_code(vstd::utf8::encode_utf8(name));
        if crate::delivery_index::only_dots(inner) {
            assert(code[0] == '_');
        }
    }
}

proof fn lemma_source_id_segments(queue: Seq<char>, dept: Seq<char>, source: SourceView)
    requires
        fits_one_segment(queue),
        fits_one_segment(dept),
        fits_one_segment(source.reference),
    ensures
        ({
            let s = split(key_of(source_parts(queue, dept, source)), '/');
            &&& s.len() == 10
            &&& s[3] == encoded_part(source_kind_word(source.kind))
            &&& s[5] == encoded_part(queue)
            &&& s[7] == encoded_part(dept)
            &&& s[9] == encoded_part(source.reference)
        }),
{
    let parts = source_parts(queue, dept, source);
    lemma_word_fits();
    assert forall|i: int| 0 <= i < parts.len() implies fits_one_segment(#[trigger] parts[i]) by {
        assert(fits_one_segment(source_kind_word(source.kind)));
    }
    lemma_each_one_segment(parts);
    let segments = all_segments(parts);
    assert forall|i: int, j: int| 0 <= i < segments.len() && 0 <= j < segments[i].len() implies
        #[trigger] segments[i][j] != '/' by {
        assert(segments[i] == encoded_part(parts[i]));
        lemma_encoded_part(parts[i]);
    }
    reveal_strlit("/");
    assert("/"@ =~= seq!['/']);
    law_split_join(segments, '/');
}

proof fn lemma_each_one_segment(parts: Seq<Seq<char>>)
    requires
        forall|i: int| 0 <= i < parts.len() ==> fits_one_segment(#[trigger] parts[i]),
    ensures
        all_segments(parts).len() == parts.len(),
        forall|i: int|
            0 <= i < parts.len() ==> #[trigger] all_segments(parts)[i] == encoded_part(parts[i]),
    decreases parts.len(),
{
    if parts.len() > 0 {
        let front = parts.drop_last();
        assert forall|i: int| 0 <= i < front.len() implies fits_one_segment(#[trigger] front[i]) by {
            assert(front[i] == parts[i]);
        }
        lemma_each_one_segment(front);
        lemma_one_segment(parts[parts.len() - 1]);
        assert forall|i: int| 0 <= i < parts.len() implies #[trigger] all_segments(parts)[i]
            == encoded_part(parts[i]) by {
            if i < front.len() {
                assert(all_segments(front)[i] == encoded_part(front[i]));
            }
        }
    }
}

proof fn lemma_short_fits(name: Seq<char>)
    requires
        name.len() <= 12,
        vstd::utf8::is_ascii_chars(name),
    ensures
        fits_one_segment(name),
{
    vstd::utf8::is_ascii_chars_encode_utf8(name);
    lemma_code_bound(vstd::utf8::encode_utf8(name));
}

proof fn lemma_code_bound(bytes: Seq<u8>)
    ensures
        crate::delivery_index::bytes_code(bytes).len() <= 4 * bytes.len(),
    decreases bytes.len(),
{
    if bytes.len() > 0 {
        lemma_code_bound(bytes.drop_last());
    }
}

proof fn lemma_word_fits()
    ensures
        fits_one_segment("delivery"@),
        fits_one_segment("v1"@),
        fits_one_segment("source"@),
        fits_one_segment("queue"@),
        fits_one_segment("dept"@),
        fits_one_segment("ref"@),
        forall|kind: SourceKind| fits_one_segment(#[trigger] source_kind_word(kind)),
{
    reveal_strlit("delivery");
    reveal_strlit("v1");
    reveal_strlit("source");
    reveal_strlit("queue");
    reveal_strlit("dept");
    reveal_strlit("ref");
    reveal_strlit("file_watch");
    reveal_strlit("cron");
    reveal_strlit("git");
    reveal_strlit("external");
    lemma_short_fits("delivery"@);
    lemma_short_fits("v1"@);
    lemma_short_fits("source"@);
    lemma_short_fits("queue"@);
    lemma_short_fits("dept"@);
    lemma_short_fits("ref"@);
    lemma_short_fits("file_watch"@);
    lemma_short_fits("cron"@);
    lemma_short_fits("git"@);
    lemma_short_fits("external"@);
    assert forall|kind: SourceKind| fits_one_segment(#[trigger] source_kind_word(kind)) by {
        match kind {
            SourceKind::File => {},
            SourceKind::Cron => {},
            SourceKind::Git => {},
            SourceKind::External => {},
        }
    }
}

/// Two events that sources sent are one delivery just where the queue, the department, and the kind
/// and reference of the source are the same; what they hold decides nothing. Names that are written in
/// more than one segment of a key are left out.
pub proof fn law_the_source_decides(
    a: PublishEnvelope,
    b: PublishEnvelope,
    dept: Seq<char>,
    other: Seq<char>,
    now_ms: u64,
    later_ms: u64,
    s: SourceView,
    t: SourceView,
)
    requires
        a.derived is None,
        b.derived is None,
        source_view(a.source) == Some(s),
        source_view(b.source) == Some(t),
        fits_one_segment(a.event@.queue),
        fits_one_segment(b.event@.queue),
        fits_one_segment(dept),
        fits_one_segment(other),
        fits_one_segment(s.reference),
        fits_one_segment(t.reference),
    ensures
        record_of(a, dept, now_ms).delivery_id == record_of(b, other, later_ms).delivery_id <==> (
        a.event@.queue == b.event@.queue && dept == other && s == t),
        !record_of(a, dept, now_ms).collapse_by_dedup_id,
{
    lemma_source_id_segments(a.event@.queue, dept, s);
    lemma_source_id_segments(b.event@.queue, other, t);
    if record_of(a, dept, now_ms).delivery_id == record_of(b, other, later_ms).delivery_id {
        law_encoded_part_injective(a.event@.queue, b.event@.queue);
        law_encoded_part_injective(dept, other);
        law_encoded_part_injective(s.reference, t.reference);
        law_encoded_part_injective(source_kind_word(s.kind), source_kind_word(t.kind));
        law_the_words_for_kinds(Seq::empty());
        assert(kind_of_word(source_kind_word(s.kind)) == Some(s.kind));
        assert(kind_of_word(source_kind_word(t.kind)) == Some(t.kind));
    }
}

/// The delivery that an event becomes holds what the event holds, comes from where it comes from, is
/// due at once, and has not been tried.
pub proof fn law_the_delivery_is_the_event(envelope: PublishEnvelope, dept: Seq<char>, now_ms: u64)
    ensures
        ({
            let d = record_of(envelope, dept, now_ms);
            &&& d.queue == envelope.event@.queue
            &&& d.dept == dept
            &&& d.payload == envelope.event@.payload
            &&& d.source == source_view(envelope.source)
            &&& d.cron_payload == optional_json_view(envelope.cron_payload)
            &&& d.observed_at_ms == envelope.event@.ts
            &&& d.not_before_ms == now_ms
            &&& d.attempt == 0
            &&& d.redrive_count == 0
            &&& d.lease_generation == 0
            &&& d.lease_until_ms is None
            &&& d.last_error_excerpt is None
            &&& !d.pending_dirty
            &&& d.subscriber_absent_since_ms is None
        }),
{
}

// Subscriptions.

/// How often a list names a queue.
pub open spec fn times_named(list: Seq<Seq<char>>, queue: Seq<char>) -> nat {
    list.filter(|q: Seq<char>| q == queue).len()
}

proof fn lemma_dept_subscriptions(
    consumes: Seq<Seq<char>>,
    dept: Seq<char>,
    ephemeral: Seq<Seq<char>>,
    queue: Seq<char>,
)
    ensures
        dept_subscriptions(consumes, dept, ephemeral, queue).len() == times_named(consumes, queue),
        forall|i: int|
            0 <= i < dept_subscriptions(consumes, dept, ephemeral, queue).len()
                ==> #[trigger] dept_subscriptions(consumes, dept, ephemeral, queue)[i] == (
            SubscriptionView { dept, reliable: !ephemeral.contains(queue) }),
        dept_subscriptions(consumes, dept, ephemeral, queue).len() > 0 <==> consumes.contains(
            queue,
        ),
    decreases consumes.len(),
{
    reveal(Seq::filter);
    if consumes.len() > 0 {
        let front = consumes.drop_last();
        lemma_dept_subscriptions(front, dept, ephemeral, queue);
        if consumes.contains(queue) {
            let i = choose|i: int| 0 <= i < consumes.len() && consumes[i] == queue;
            if i < front.len() {
                assert(front[i] == queue);
            }
        }
        if front.contains(queue) {
            let i = choose|i: int| 0 <= i < front.len() && front[i] == queue;
            assert(consumes[i] == queue);
        }
        if consumes.last() == queue {
            assert(consumes[consumes.len() - 1] == queue);
        }
    }
}

/// Whether a department takes from a queue, and whether what it takes is kept until it is done.
pub open spec fn takes_from(d: DepartmentDecl, queue: Seq<char>, reliable: bool) -> bool {
    texts_view(d.consumes@).contains(queue) && reliable == !texts_view(d.ephemeral@).contains(queue)
}

/// The subscriptions to a queue are those of the departments that take from it, and each is reliable
/// just where the department does not call the queue ephemeral.
pub proof fn law_who_subscribes(ds: Seq<DepartmentDecl>, queue: Seq<char>, sub: SubscriptionView)
    ensures
        subscriptions_of(ds, queue).contains(sub) <==> exists|i: int|
            0 <= i < ds.len() && (#[trigger] ds[i]).name@ == sub.dept && takes_from(
                ds[i],
                queue,
                sub.reliable,
            ),
    decreases ds.len(),
{
    if ds.len() > 0 {
        let front = ds.drop_last();
        let d = ds.last();
        law_who_subscribes(front, queue, sub);
        let a = subscriptions_of(front, queue);
        let b = dept_subscriptions(
            texts_view(d.consumes@),
            d.name@,
            texts_view(d.ephemeral@),
            queue,
        );
        lemma_dept_subscriptions(
            texts_view(d.consumes@),
            d.name@,
            texts_view(d.ephemeral@),
            queue,
        );
        let all = a + b;
        if all.contains(sub) {
            let k = choose|k: int| 0 <= k < all.len() && all[k] == sub;
            if k < a.len() {
                assert(a[k] == sub);
                let i = choose|i: int|
                    0 <= i < front.len() && (#[trigger] front[i]).name@ == sub.dept && takes_from(
                        front[i],
                        queue,
                        sub.reliable,
                    );
                assert(ds[i] == front[i]);
            } else {
                assert(b[k - a.len()] == sub);
                assert(ds[ds.len() - 1] == d);
                assert(takes_from(ds[ds.len() - 1], queue, sub.reliable));
            }
        }
        if exists|i: int|
            0 <= i < ds.len() && (#[trigger] ds[i]).name@ == sub.dept && takes_from(
                ds[i],
                queue,
                sub.reliable,
            ) {
            let i = choose|i: int|
                0 <= i < ds.len() && (#[trigger] ds[i]).name@ == sub.dept && takes_from(
                    ds[i],
                    queue,
                    sub.reliable,
                );
            if i < front.len() {
                assert(front[i] == ds[i]);
                assert(a.contains(sub));
                let k = choose|k: int| 0 <= k < a.len() && a[k] == sub;
                assert(all[k] == sub);
            } else {
                assert(b.len() > 0);
                assert(b[0] == sub);
                assert(all[a.len() as int] == sub);
            }
        }
    }
}

/// A department that names a queue once is subscribed to it once.
pub proof fn law_one_subscription_for_each_mention(
    ds: Seq<DepartmentDecl>,
    queue: Seq<char>,
)
    ensures
        subscriptions_of(ds, queue).len() == mentions(ds, queue),
    decreases ds.len(),
{
    if ds.len() > 0 {
        let d = ds.last();
        law_one_subscription_for_each_mention(ds.drop_last(), queue);
        lemma_dept_subscriptions(
            texts_view(d.consumes@),
            d.name@,
            texts_view(d.ephemeral@),
            queue,
        );
    }
}

/// How often departments name a queue that they take from.
pub open spec fn mentions(ds: Seq<DepartmentDecl>, queue: Seq<char>) -> nat
    decreases ds.len(),
{
    if ds.len() == 0 {
        0
    } else {
        mentions(ds.drop_last(), queue) + times_named(texts_view(ds.last().consumes@), queue)
    }
}

/// The departments that take from a queue reliably are those of its reliable subscriptions.
pub proof fn law_the_reliable_departments(s: Seq<SubscriptionView>)
    ensures
        reliable_depts(s).len() == s.filter(|v: SubscriptionView| v.reliable).len(),
        forall|dept: Seq<char>| #[trigger]
            reliable_depts(s).contains(dept) <==> s.contains(
                SubscriptionView { dept, reliable: true },
            ),
    decreases s.len(),
{
    reveal(Seq::filter);
    if s.len() > 0 {
        let front = s.drop_last();
        law_the_reliable_departments(front);
        assert forall|dept: Seq<char>| #[trigger]
            reliable_depts(s).contains(dept) <==> s.contains(
                SubscriptionView { dept, reliable: true },
            ) by {
            let v = SubscriptionView { dept, reliable: true };
            if s.contains(v) {
                let i = choose|i: int| 0 <= i < s.len() && s[i] == v;
                if i < front.len() {
                    assert(front[i] == v);
                    assert(reliable_depts(front).contains(dept));
                    let k = choose|k: int|
                        0 <= k < reliable_depts(front).len() && reliable_depts(front)[k] == dept;
                    assert(reliable_depts(s)[k] == dept);
                } else {
                    assert(reliable_depts(s)[reliable_depts(front).len() as int] == dept);
                }
            }
            if reliable_depts(s).contains(dept) {
                let k = choose|k: int|
                    0 <= k < reliable_depts(s).len() && reliable_depts(s)[k] == dept;
                if k < reliable_depts(front).len() {
                    assert(reliable_depts(front)[k] == dept);
                    assert(reliable_depts(front).contains(dept));
                    let i = choose|i: int| 0 <= i < front.len() && front[i] == v;
                    assert(s[i] == v);
                } else {
                    assert(s[s.len() - 1] == v);
                }
            }
        }
    }
}

/// Whether a route has a reliable subscription.
pub open spec fn is_reliable_route(route: Route) -> bool {
    exists|i: int|
        0 <= i < route.subscriptions@.len() && (#[trigger] route.subscriptions@[i]).reliable
}

proof fn lemma_reliable_route(route: Route)
    ensures
        reliable_depts(subscription_views(route.subscriptions@)).len() > 0 <==> is_reliable_route(
            route,
        ),
{
    let s = subscription_views(route.subscriptions@);
    lemma_some_reliable(s);
    if is_reliable_route(route) {
        let i = choose|i: int|
            0 <= i < route.subscriptions@.len() && (#[trigger] route.subscriptions@[i]).reliable;
        assert(s[i].reliable);
    }
    if exists|i: int| 0 <= i < s.len() && (#[trigger] s[i]).reliable {
        let i = choose|i: int| 0 <= i < s.len() && (#[trigger] s[i]).reliable;
        assert(route.subscriptions@[i].reliable);
    }
}

proof fn lemma_some_reliable(s: Seq<SubscriptionView>)
    ensures
        reliable_depts(s).len() > 0 <==> exists|i: int|
            0 <= i < s.len() && (#[trigger] s[i]).reliable,
    decreases s.len(),
{
    if s.len() > 0 {
        let front = s.drop_last();
        lemma_some_reliable(front);
        if exists|i: int| 0 <= i < s.len() && (#[trigger] s[i]).reliable {
            let i = choose|i: int| 0 <= i < s.len() && (#[trigger] s[i]).reliable;
            if i < front.len() {
                assert(front[i].reliable);
            }
        }
        if exists|i: int| 0 <= i < front.len() && (#[trigger] front[i]).reliable {
            let i = choose|i: int| 0 <= i < front.len() && (#[trigger] front[i]).reliable;
            assert(s[i].reliable);
        }
        if s.last().reliable {
            assert(s[s.len() - 1].reliable);
        }
    }
}

/// The queues with reliable subscribers are the routes that have one.
pub proof fn law_the_queues_with_reliable_subscribers(routes: Seq<Route>, queue: Seq<char>)
    ensures
        reliable_names(routes).contains(queue) <==> exists|i: int|
            0 <= i < routes.len() && (#[trigger] routes[i]).queue@ == queue && is_reliable_route(
                routes[i],
            ),
    decreases routes.len(),
{
    if routes.len() > 0 {
        let front = routes.drop_last();
        law_the_queues_with_reliable_subscribers(front, queue);
        lemma_reliable_route(routes.last());
        let all = reliable_names(routes);
        let some = reliable_names(front);
        if all.contains(queue) {
            let k = choose|k: int| 0 <= k < all.len() && all[k] == queue;
            if k < some.len() {
                assert(some[k] == queue);
                let i = choose|i: int|
                    0 <= i < front.len() && (#[trigger] front[i]).queue@ == queue
                        && is_reliable_route(front[i]);
                assert(routes[i] == front[i]);
            } else {
                assert(routes[routes.len() - 1].queue@ == queue);
            }
        }
        if exists|i: int|
            0 <= i < routes.len() && (#[trigger] routes[i]).queue@ == queue && is_reliable_route(
                routes[i],
            ) {
            let i = choose|i: int|
                0 <= i < routes.len() && (#[trigger] routes[i]).queue@ == queue
                    && is_reliable_route(routes[i]);
            if i < front.len() {
                assert(front[i] == routes[i]);
                let k = choose|k: int| 0 <= k < some.len() && some[k] == queue;
                assert(all[k] == queue);
            } else {
                assert(all[some.len() as int] == queue);
            }
        }
    }
}

/// The queues with one reliable subscriber are the routes that have just one, each with the
/// department that it is.
pub proof fn law_the_queues_with_one_reliable_subscriber(
    routes: Seq<Route>,
    queue: Seq<char>,
    dept: Seq<char>,
)
    ensures
        single_reliable(routes).contains((queue, dept)) <==> exists|i: int|
            0 <= i < routes.len() && (#[trigger] routes[i]).queue@ == queue && reliable_depts(
                subscription_views(routes[i].subscriptions@),
            ) == seq![dept],
    decreases routes.len(),
{
    if routes.len() > 0 {
        let front = routes.drop_last();
        law_the_queues_with_one_reliable_subscriber(front, queue, dept);
        let all = single_reliable(routes);
        let some = single_reliable(front);
        let depts = reliable_depts(subscription_views(routes.last().subscriptions@));
        if all.contains((queue, dept)) {
            let k = choose|k: int| 0 <= k < all.len() && all[k] == (queue, dept);
            if k < some.len() {
                assert(some[k] == (queue, dept));
                let i = choose|i: int|
                    0 <= i < front.len() && (#[trigger] front[i]).queue@ == queue
                        && reliable_depts(subscription_views(front[i].subscriptions@)) == seq![dept];
                assert(routes[i] == front[i]);
            } else {
                assert(depts =~= seq![dept]);
                assert(routes[routes.len() - 1].queue@ == queue);
            }
        }
        if exists|i: int|
            0 <= i < routes.len() && (#[trigger] routes[i]).queue@ == queue && reliable_depts(
                subscription_views(routes[i].subscriptions@),
            ) == seq![dept] {
            let i = choose|i: int|
                0 <= i < routes.len() && (#[trigger] routes[i]).queue@ == queue && reliable_depts(
                    subscription_views(routes[i].subscriptions@),
                ) == seq![dept];
            if i < front.len() {
                assert(front[i] == routes[i]);
                let k = choose|k: int| 0 <= k < some.len() && some[k] == (queue, dept);
                assert(all[k] == (queue, dept));
            } else {
                assert(depts == seq![dept]);
                assert(depts[0] == dept);
                assert(all[some.len() as int] == (queue, dept));
            }
        }
    }
}

// Failure facts.

proof fn lemma_same_behind_slash(a: Seq<char>, x: Seq<char>, b: Seq<char>, y: Seq<char>)
    requires
        a + seq!['/'] + x == b + seq!['/'] + y,
        without_slash(x),
        without_slash(y),
    ensures
        a == b,
        x == y,
{
    let s = a + seq!['/'] + x;
    let t = b + seq!['/'] + y;
    assert(s.len() == a.len() + 1 + x.len());
    assert(t.len() == b.len() + 1 + y.len());
    assert(s[a.len() as int] == '/');
    assert(t[b.len() as int] == '/');
    if a.len() < b.len() {
        assert(s[b.len() as int] == x[b.len() - a.len() - 1]);
    } else if b.len() < a.len() {
        assert(t[a.len() as int] == y[a.len() - b.len() - 1]);
    }
    assert(a =~= s.take(a.len() as int));
    assert(b =~= t.take(b.len() as int));
    assert(x =~= s.skip(a.len() as int + 1));
    assert(y =~= t.skip(b.len() as int + 1));
}

/// Two failure facts come from one source just where their fingerprints and their times are the
/// same.
pub proof fn law_failure_facts_are_told_apart(
    a: EventView,
    b: EventView,
    f: Seq<char>,
    g: Seq<char>,
)
    requires
        a.payload.text_at("fingerprint"@) == Some(f),
        b.payload.text_at("fingerprint"@) == Some(g),
    ensures
        fact_source(a) == fact_source(b) <==> f == g && a.ts == b.ts,
        fact_source(a).kind == SourceKind::External,
{
    if fact_source(a) == fact_source(b) {
        reveal_strlit("/");
        assert("/"@ =~= seq!['/']);
        lemma_decimal(a.ts as nat);
        lemma_decimal(b.ts as nat);
        let x = decimal(a.ts as nat);
        let y = decimal(b.ts as nat);
        assert forall|i: int| 0 <= i < x.len() implies #[trigger] x[i] != '/' by {
            assert(is_digit(x[i]));
        }
        assert forall|i: int| 0 <= i < y.len() implies #[trigger] y[i] != '/' by {
            assert(is_digit(y[i]));
        }
        let front = "fkst.failure_fact.v1/"@;
        lemma_same_behind_slash(front + f, x, front + g, y);
        assert(f =~= (front + f).skip(front.len() as int));
        assert(g =~= (front + g).skip(front.len() as int));
    }
}

} // verus!
