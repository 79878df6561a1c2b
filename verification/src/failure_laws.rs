//! Laws of failures: how they are classed, told apart and told of.

use vstd::prelude::*;
use vstd::string::*;
use vstd::utf8::encode_utf8;
use crate::cutting::{is_whitespace, join};
use crate::delivery_types::{DeadView, DeliveryView, SourceView};
use crate::dispatch::{exit_failure, publish_failure};
use crate::dispatch_laws::{law_one_word, law_whitespace_parts_words};
use crate::failure_fact::{
    class_of, dead_letter_of, dead_liveness, dead_record_of, delivery_fact, delivery_liveness,
    fingerprint_of, kind_word, liveness_age, liveness_in, lock_busy_fact, schema_fact,
    seconds_between, short, source_ref_of, took_too_long, watchdog_fact, ErrorClass,
};
use crate::fingerprint::{
    core_of, is_punctuation, leading_punctuation, normalized, normalized_token, normalized_words,
    trailing_punctuation, words,
};
use crate::json::JsonView;

verus! {

// Classes.

proof fn lemma_fronts()
    ensures
        "exit="@.len() == 5 && "exit="@[0] == 'e',
        "spawn error:"@.len() == 12 && "spawn error:"@[0] == 's',
        "raised publish error:"@.len() == 21 && "raised publish error:"@[0] == 'r',
        "build spawn args:"@.len() == 17 && "build spawn args:"@[0] == 'b',
{
    reveal_strlit("exit=");
    reveal_strlit("spawn error:");
    reveal_strlit("raised publish error:");
    reveal_strlit("build spawn args:");
}

proof fn lemma_front_char(front: Seq<char>, s: Seq<char>)
    requires
        front.len() > 0,
        front.is_prefix_of(s),
    ensures
        s.len() > 0,
        s[0] == front[0],
{
    assert(s.take(front.len() as int)[0] == s[0]);
}

/// A failure is classed by how its text starts, and any other is a failed delivery.
pub proof fn law_how_failures_are_classed(rest: Seq<char>, other: Seq<char>)
    ensures
        class_of("exit="@ + rest) == ErrorClass::FrameworkChildNonzero,
        class_of("spawn error:"@ + rest) == ErrorClass::FrameworkChildSpawn,
        class_of("raised publish error:"@ + rest) == ErrorClass::RaisedPublish,
        class_of("build spawn args:"@ + rest) == ErrorClass::SpawnArgs,
        !"exit="@.is_prefix_of(other) && !"spawn error:"@.is_prefix_of(other)
            && !"raised publish error:"@.is_prefix_of(other) && !"build spawn args:"@.is_prefix_of(
            other,
        ) ==> class_of(other) == ErrorClass::DeliveryFailure,
{
    lemma_fronts();
    lemma_starts("exit="@, rest);
    lemma_starts("spawn error:"@, rest);
    lemma_starts("raised publish error:"@, rest);
    lemma_starts("build spawn args:"@, rest);
}

proof fn lemma_starts(front: Seq<char>, rest: Seq<char>)
    requires
        front.len() > 0,
    ensures
        front.is_prefix_of(front + rest),
        forall|other: Seq<char>|
            other.len() > 0 && other[0] != front[0] ==> !#[trigger] other.is_prefix_of(
                front + rest,
            ),
{
    assert((front + rest).take(front.len() as int) =~= front);
    assert forall|other: Seq<char>|
        other.len() > 0 && other[0] != front[0] implies !#[trigger] other.is_prefix_of(
        front + rest,
    ) by {
        if other.is_prefix_of(front + rest) {
            lemma_front_char(other, front + rest);
        }
    }
}

/// What is made of a child that ended badly, and of events that could not be published, is classed as
/// what it is.
pub proof fn law_failures_are_classed_as_what_they_are(
    exit_code: i32,
    stderr: Seq<char>,
    error: Seq<char>,
)
    ensures
        class_of(exit_failure(exit_code, stderr).message) == ErrorClass::FrameworkChildNonzero,
        class_of(publish_failure(error).message) == ErrorClass::RaisedPublish,
        !publish_failure(error).replayable,
{
    let rest = crate::numeral::signed_decimal(exit_code as int) + " stderr="@ + stderr;
    assert(exit_failure(exit_code, stderr).message =~= "exit="@ + rest);
    law_how_failures_are_classed(rest, Seq::empty());
    reveal_strlit("raised publish error: ");
    reveal_strlit("raised publish error:");
    assert("raised publish error: "@ =~= "raised publish error:"@ + seq![' ']);
    assert(publish_failure(error).message =~= "raised publish error:"@ + (seq![' '] + error));
    law_how_failures_are_classed(seq![' '] + error, Seq::empty());
}

proof fn lemma_class_names()
    ensures
        forall|a: ErrorClass, b: ErrorClass| #[trigger] a.name() == #[trigger] b.name() ==> a == b,
        forall|a: ErrorClass, i: int|
            0 <= i < a.name().len() ==> #[trigger] a.name()[i] != ':',
{
    reveal_strlit("delivery_failure");
    reveal_strlit("framework_child_nonzero");
    reveal_strlit("framework_child_spawn");
    reveal_strlit("raised_publish");
    reveal_strlit("spawn_args");
    reveal_strlit("store_op_watchdog");
    reveal_strlit("schema_validation");
    reveal_strlit("lock_busy");
    assert("delivery_failure"@.len() == 16 && "framework_child_nonzero"@.len() == 23
        && "framework_child_spawn"@.len() == 21 && "raised_publish"@.len() == 14
        && "spawn_args"@.len() == 10 && "store_op_watchdog"@.len() == 17
        && "schema_validation"@.len() == 17 && "lock_busy"@.len() == 9);
    assert("store_op_watchdog"@[1] == 't' && "schema_validation"@[1] == 'c');
    assert forall|a: ErrorClass, i: int| 0 <= i < a.name().len() implies #[trigger] a.name()[i]
        != ':' by {
        match a {
            ErrorClass::DeliveryFailure => {},
            ErrorClass::FrameworkChildNonzero => {},
            ErrorClass::FrameworkChildSpawn => {},
            ErrorClass::RaisedPublish => {},
            ErrorClass::SpawnArgs => {},
            ErrorClass::StoreOpWatchdog => {},
            ErrorClass::SchemaValidation => {},
            ErrorClass::LockBusy => {},
        }
    }
    assert forall|a: ErrorClass, b: ErrorClass| #[trigger] a.name() == #[trigger] b.name() implies a
        == b by {
        match a {
            ErrorClass::DeliveryFailure => {},
            ErrorClass::FrameworkChildNonzero => {},
            ErrorClass::FrameworkChildSpawn => {},
            ErrorClass::RaisedPublish => {},
            ErrorClass::SpawnArgs => {},
            ErrorClass::StoreOpWatchdog => {},
            ErrorClass::SchemaValidation => {},
            ErrorClass::LockBusy => {},
        }
    }
}

/// Failures of different classes have different fingerprints; in one class the fingerprint goes by
/// the text without what differs from one occurrence to the next.
pub proof fn law_fingerprints_tell_classes_apart(
    a: ErrorClass,
    x: Seq<char>,
    b: ErrorClass,
    y: Seq<char>,
)
    ensures
        fingerprint_of(a, x) == fingerprint_of(b, y) ==> a == b,
        a == b && normalized(x) == normalized(y) ==> fingerprint_of(a, x) == fingerprint_of(b, y),
{
    lemma_class_names();
    reveal_strlit(":");
    assert(":"@ =~= seq![':']);
    if fingerprint_of(a, x) == fingerprint_of(b, y) {
        let s = fingerprint_of(a, x);
        let t = fingerprint_of(b, y);
        let m = a.name();
        let n = b.name();
        assert(s[m.len() as int] == ':');
        assert(t[n.len() as int] == ':');
        if m.len() < n.len() {
            assert(t[m.len() as int] == n[m.len() as int]);
        } else if n.len() < m.len() {
            assert(s[n.len() as int] == m[n.len() as int]);
        }
        assert(m =~= s.take(m.len() as int));
        assert(n =~= t.take(n.len() as int));
    }
}

// What differs from one occurrence to the next.

proof fn lemma_leading(p: Seq<char>, t: Seq<char>)
    requires
        forall|i: int| 0 <= i < p.len() ==> is_punctuation(#[trigger] p[i]),
        t.len() > 0,
        !is_punctuation(t[0]),
    ensures
        leading_punctuation(p + t) == p.len(),
    decreases p.len(),
{
    if p.len() > 0 {
        assert(is_punctuation(p[0]));
        assert((p + t).drop_first() =~= p.drop_first() + t);
        assert forall|i: int| 0 <= i < p.drop_first().len() implies is_punctuation(
            #[trigger] p.drop_first()[i],
        ) by {
            assert(p.drop_first()[i] == p[i + 1]);
        }
        lemma_leading(p.drop_first(), t);
    } else {
        assert(p + t =~= t);
    }
}

proof fn lemma_trailing(t: Seq<char>, q: Seq<char>)
    requires
        forall|i: int| 0 <= i < q.len() ==> is_punctuation(#[trigger] q[i]),
        t.len() > 0,
        !is_punctuation(t.last()),
    ensures
        trailing_punctuation(t + q) == t.len(),
    decreases q.len(),
{
    if q.len() > 0 {
        assert(is_punctuation(q[q.len() - 1]));
        assert((t + q).last() == q[q.len() - 1]);
        assert((t + q).drop_last() =~= t + q.drop_last());
        assert forall|i: int| 0 <= i < q.drop_last().len() implies is_punctuation(
            #[trigger] q.drop_last()[i],
        ) by {
            assert(q.drop_last()[i] == q[i]);
        }
        lemma_trailing(t, q.drop_last());
    } else {
        assert(t + q =~= t);
    }
}

/// A long number: ten digits or more.
pub open spec fn is_long_number(s: Seq<char>) -> bool {
    s.len() >= 10 && forall|i: int| 0 <= i < s.len() ==> '0' <= #[trigger] s[i] && s[i] <= '9'
}

pub open spec fn is_hex_digit(c: char) -> bool {
    ('0' <= c && c <= '9') || ('a' <= c && c <= 'f') || ('A' <= c && c <= 'F')
}

/// A digest: seven to sixty-four hexadecimal digits, not all of them decimal ones.
pub open spec fn is_digest(s: Seq<char>) -> bool {
    &&& 7 <= s.len() <= 64
    &&& forall|i: int| 0 <= i < s.len() ==> is_hex_digit(#[trigger] s[i])
    &&& exists|i: int| 0 <= i < s.len() && !('0' <= #[trigger] s[i] && s[i] <= '9')
}

/// A time: twenty characters or more, with dashes and a `T` where a date and a time have them.
pub open spec fn is_stamp(s: Seq<char>) -> bool {
    s.len() >= 20 && s[4] == '-' && s[7] == '-' && (s[10] == 'T' || s[10] == 't' || s[10] == ' ')
}

/// What differs from one occurrence of a failure to the next is hidden: in a word, without the
/// punctuation around it, a time, a digest or a long number is replaced by what it is, and anything
/// else stays. The punctuation stays too.
pub proof fn law_what_is_hidden(p: Seq<char>, middle: Seq<char>, q: Seq<char>)
    requires
        forall|i: int| 0 <= i < p.len() ==> is_punctuation(#[trigger] p[i]),
        forall|i: int| 0 <= i < q.len() ==> is_punctuation(#[trigger] q[i]),
        middle.len() > 0,
        !is_punctuation(middle[0]),
        !is_punctuation(middle.last()),
        vstd::utf8::is_ascii_chars(middle),
    ensures
        is_stamp(middle) ==> normalized_token(p + middle + q) == p + "<timestamp>"@ + q,
        !is_stamp(middle) && is_digest(middle) ==> normalized_token(p + middle + q) == p + "<sha>"@
            + q,
        !is_stamp(middle) && is_long_number(middle) ==> normalized_token(p + middle + q) == p
            + "<number>"@ + q,
        !is_stamp(middle) && !is_digest(middle) && !is_long_number(middle) ==> normalized_token(
            p + middle + q,
        ) == p + middle + q,
{
    let token = p + middle + q;
    assert(token =~= p + (middle + q));
    assert((middle + q)[0] == middle[0]);
    lemma_leading(p, middle + q);
    assert(token.skip(p.len() as int) =~= middle + q);
    lemma_trailing(middle, q);
    assert(core_of(token) =~= middle);
    assert(token.take(p.len() as int) =~= p);
    assert(token.skip((p.len() + middle.len()) as int) =~= q);
    vstd::utf8::is_ascii_chars_encode_utf8(middle);
    let bytes = encode_utf8(middle);
    assert(bytes.len() == middle.len());
    assert forall|i: int| 0 <= i < middle.len() implies #[trigger] bytes[i] == middle[i] as u8
        && (middle[i] as u32) < 128 by {}
    assert(crate::fingerprint::is_timestamp(bytes) == is_stamp(middle)) by {
        if middle.len() >= 20 {
            assert(bytes[4] == middle[4] as u8 && bytes[7] == middle[7] as u8 && bytes[10]
                == middle[10] as u8);
        }
    }
    assert(crate::fingerprint::is_sha(bytes) == is_digest(middle)) by {
        if is_digest(middle) {
            assert forall|i: int| 0 <= i < bytes.len() implies crate::fingerprint::is_hex_byte(
                #[trigger] bytes[i],
            ) by {
                assert(is_hex_digit(middle[i]));
            }
            let i = choose|i: int|
                0 <= i < middle.len() && !('0' <= #[trigger] middle[i] && middle[i] <= '9');
            assert(is_hex_digit(middle[i]));
            assert(crate::fingerprint::is_letter_byte(bytes[i]));
        }
        if crate::fingerprint::is_sha(bytes) {
            assert forall|i: int| 0 <= i < middle.len() implies is_hex_digit(
                #[trigger] middle[i],
            ) by {
                assert(crate::fingerprint::is_hex_byte(bytes[i]));
            }
            let i = choose|i: int|
                0 <= i < bytes.len() && crate::fingerprint::is_letter_byte(#[trigger] bytes[i]);
            assert(bytes[i] == middle[i] as u8);
            assert(!('0' <= middle[i] && middle[i] <= '9'));
        }
    }
    assert(crate::fingerprint::is_epoch_number(bytes) == is_long_number(middle)) by {
        if is_long_number(middle) {
            assert forall|i: int| 0 <= i < bytes.len() implies 48 <= #[trigger] bytes[i] <= 57 by {
                assert('0' <= middle[i] && middle[i] <= '9');
            }
        }
        if crate::fingerprint::is_epoch_number(bytes) {
            assert forall|i: int| 0 <= i < middle.len() implies '0' <= #[trigger] middle[i]
                && middle[i] <= '9' by {
                assert(48 <= bytes[i] <= 57);
            }
        }
    }
}

proof fn lemma_words_of(list: Seq<Seq<char>>)
    requires
        forall|i: int|
            0 <= i < list.len() ==> (#[trigger] list[i]).len() > 0 && forall|j: int|
                0 <= j < list[i].len() ==> !is_whitespace(#[trigger] list[i][j]),
    ensures
        words(join(list, " "@)) == list,
    decreases list.len(),
{
    reveal_strlit(" ");
    assert(" "@ =~= seq![' ']);
    if list.len() == 0 {
        assert(words(join(list, " "@)) =~= list);
    } else if list.len() == 1 {
        law_one_word(list[0]);
        assert(words(join(list, " "@)) =~= list);
    } else {
        let front = list.drop_last();
        assert forall|i: int| 0 <= i < front.len() implies (#[trigger] front[i]).len() > 0
            && forall|j: int| 0 <= j < front[i].len() ==> !is_whitespace(#[trigger] front[i][j]) by {
            assert(front[i] == list[i]);
        }
        lemma_words_of(front);
        let last = list[list.len() - 1];
        law_one_word(last);
        law_whitespace_parts_words(join(front, " "@), ' ', last);
        assert(join(list, " "@) =~= join(front, " "@) + seq![' '] + last);
        assert(words(join(list, " "@)) =~= list);
    }
}

/// A text of words with a space between each two, none of which is hidden, stays as it is: failures
/// that are told in different words are told apart.
pub proof fn law_other_words_stay(list: Seq<Seq<char>>)
    requires
        forall|i: int|
            0 <= i < list.len() ==> (#[trigger] list[i]).len() > 0 && forall|j: int|
                0 <= j < list[i].len() ==> !is_whitespace(#[trigger] list[i][j]),
        forall|i: int| 0 <= i < list.len() ==> normalized_token(#[trigger] list[i]) == list[i],
    ensures
        normalized(join(list, " "@)) == join(list, " "@),
{
    lemma_words_of(list);
    assert(normalized_words(list) =~= list);
}

// What is told.

proof fn lemma_keys()
    ensures
        "schema"@.len() == 6,
        "error_class"@.len() == 11 && "error_class"@[0] == 'e',
        "fingerprint"@.len() == 11 && "fingerprint"@[0] == 'f',
        "error"@.len() == 5 && "error"@[0] == 'e',
        "attempt"@.len() == 7,
        "delivery_id"@.len() == 11 && "delivery_id"@[0] == 'd',
        "dedup_id"@.len() == 8 && "dedup_id"@[0] == 'd',
        "queue"@.len() == 5 && "queue"@[0] == 'q',
        "dept"@.len() == 4 && "dept"@[0] == 'd',
        "origin_queue"@.len() == 12,
        "origin_dept"@.len() == 11 && "origin_dept"@[0] == 'o',
        "source_ref"@.len() == 10 && "source_ref"@[0] == 's',
        "observed_at_ms"@.len() == 14 && "observed_at_ms"@[0] == 'o',
        "queue_liveness"@.len() == 14 && "queue_liveness"@[0] == 'q',
        "redrive_count"@.len() == 13,
        "store_op"@.len() == 8 && "store_op"@[0] == 's',
        "elapsed_ms"@.len() == 10 && "elapsed_ms"@[0] == 'e',
        "lock"@.len() == 4 && "lock"@[0] == 'l',
        "kind"@.len() == 4 && "reference"@.len() == 9,
{
    reveal_strlit("schema");
    reveal_strlit("error_class");
    reveal_strlit("fingerprint");
    reveal_strlit("error");
    reveal_strlit("attempt");
    reveal_strlit("delivery_id");
    reveal_strlit("dedup_id");
    reveal_strlit("queue");
    reveal_strlit("dept");
    reveal_strlit("origin_queue");
    reveal_strlit("origin_dept");
    reveal_strlit("source_ref");
    reveal_strlit("observed_at_ms");
    reveal_strlit("queue_liveness");
    reveal_strlit("redrive_count");
    reveal_strlit("store_op");
    reveal_strlit("elapsed_ms");
    reveal_strlit("lock");
    reveal_strlit("kind");
    reveal_strlit("reference");
}

/// A source is told by a word for its kind and its reference; where there is none, that is told.
pub proof fn law_how_a_source_is_told(s: SourceView)
    ensures
        source_ref_of(Some(s)).text_at("kind"@) == Some(kind_word(s.kind)),
        source_ref_of(Some(s)).text_at("reference"@) == Some(s.reference),
        source_ref_of(None) == JsonView::Null,
        crate::delivery_router::kind_of_word(kind_word(s.kind)) == Some(s.kind),
{
    lemma_keys();
    crate::publish_laws::law_the_words_for_kinds(Seq::empty());
    reveal_strlit("file");
    reveal_strlit("cron");
    reveal_strlit("git");
    reveal_strlit("external");
    assert(crate::publish_laws::is_known_word(kind_word(s.kind)));
}

/// The fact about a delivery that failed tells which delivery it was, where it came from and was
/// going, how it failed, and which attempt that was.
pub proof fn law_what_a_failure_fact_tells(d: DeliveryView, error: Seq<char>, now_ms: u64)
    ensures
        ({
            let e = delivery_fact(d, error, now_ms);
            &&& e.queue == "fkst.failure_fact"@
            &&& e.ts == now_ms
            &&& e.payload.text_at("schema"@) == Some("fkst.failure_fact.v1"@)
            &&& e.payload.text_at("error_class"@) == Some(class_of(error).name())
            &&& e.payload.text_at("fingerprint"@) == Some(fingerprint_of(class_of(error), error))
            &&& e.payload.text_at("error"@) == Some(short(error))
            &&& e.payload.get("attempt"@) == Some(
                JsonView::Unsigned(crate::store_keeping::capped_time(d.attempt + 1) as nat),
            )
            &&& e.payload.text_at("delivery_id"@) == Some(d.delivery_id)
            &&& e.payload.text_at("origin_queue"@) == Some(d.queue)
            &&& e.payload.text_at("origin_dept"@) == Some(d.dept)
            &&& e.payload.get("source_ref"@) == Some(source_ref_of(d.source))
            &&& e.payload.get("observed_at_ms"@) == Some(
                JsonView::Unsigned(d.observed_at_ms as nat),
            )
            &&& e.payload.get("queue_liveness"@) == Some(delivery_liveness(d, now_ms))
        }),
{
    lemma_keys();
}

/// A dead letter about a delivery tells which delivery it was, where it came from and was going, how
/// it failed, and which attempt that was.
pub proof fn law_what_a_dead_letter_tells(d: DeliveryView, error: Seq<char>, now_ms: u64)
    ensures
        ({
            let p = dead_letter_of(d, error, now_ms);
            &&& p.text_at("delivery_id"@) == Some(d.delivery_id)
            &&& p.text_at("dedup_id"@) == Some(d.delivery_id)
            &&& p.text_at("queue"@) == Some(d.queue)
            &&& p.text_at("dept"@) == Some(d.dept)
            &&& p.text_at("origin_queue"@) == Some(d.queue)
            &&& p.text_at("origin_dept"@) == Some(d.dept)
            &&& p.get("attempt"@) == Some(
                JsonView::Unsigned(crate::store_keeping::capped_time(d.attempt + 1) as nat),
            )
            &&& p.text_at("error"@) == Some(short(error))
            &&& p.text_at("error_class"@) == Some(class_of(error).name())
            &&& p.text_at("fingerprint"@) == Some(fingerprint_of(class_of(error), error))
            &&& p.get("source_ref"@) == Some(source_ref_of(d.source))
            &&& p.get("queue_liveness"@) == Some(delivery_liveness(d, now_ms))
        }),
{
    lemma_keys();
}

/// A dead letter about a dead delivery tells which delivery it was, how often it was tried and sent
/// again, and how it failed last.
pub proof fn law_what_the_letter_of_the_dead_tells(d: DeadView, error: Seq<char>, now_ms: u64)
    requires
        d.error_excerpt == Some(error) || (d.error_excerpt is None && error
            == "unknown delivery failure"@),
    ensures
        ({
            let p = dead_record_of(d, now_ms);
            &&& p.text_at("delivery_id"@) == Some(d.delivery_id)
            &&& p.text_at("dedup_id"@) == Some(d.delivery_id)
            &&& p.text_at("queue"@) == Some(d.queue)
            &&& p.text_at("dept"@) == Some(d.dept)
            &&& p.text_at("origin_queue"@) == Some(d.queue)
            &&& p.text_at("origin_dept"@) == Some(d.dept)
            &&& p.get("attempt"@) == Some(JsonView::Unsigned(d.attempts as nat))
            &&& p.get("redrive_count"@) == Some(JsonView::Unsigned(d.redrive_count as nat))
            &&& p.text_at("error"@) == Some(short(error))
            &&& p.text_at("error_class"@) == Some(class_of(error).name())
            &&& p.text_at("fingerprint"@) == Some(fingerprint_of(class_of(error), error))
            &&& p.get("source_ref"@) == Some(source_ref_of(d.source))
            &&& p.get("queue_liveness"@) == Some(dead_liveness(d, now_ms))
        }),
{
    lemma_keys();
}

/// The fact about a busy lock tells the lock and the delivery, where they are known, and counts no
/// attempt.
pub proof fn law_what_the_fact_about_a_lock_tells(
    dept: Seq<char>,
    queue: Seq<char>,
    d: DeliveryView,
    lock: Seq<char>,
    now_ms: u64,
)
    ensures
        ({
            let e = lock_busy_fact(dept, queue, Some(d), Some(lock), now_ms);
            &&& e.queue == "fkst.failure_fact"@
            &&& e.ts == now_ms
            &&& e.payload.text_at("error_class"@) == Some("lock_busy"@)
            &&& e.payload.text_at("lock"@) == Some(lock)
            &&& e.payload.text_at("delivery_id"@) == Some(d.delivery_id)
            &&& e.payload.get("attempt"@) == Some(JsonView::Unsigned(d.attempt as nat))
            &&& e.payload.text_at("origin_queue"@) == Some(queue)
            &&& e.payload.text_at("origin_dept"@) == Some(dept)
            &&& e.payload.text_at("error"@) == Some(short("lock_busy: "@ + lock))
            &&& e.payload.text_at("fingerprint"@) == Some(
                fingerprint_of(ErrorClass::LockBusy, "lock_busy: "@ + lock),
            )
        }),
        lock_busy_fact(dept, queue, None, None, now_ms).payload.get("delivery_id"@) == Some(
            JsonView::Null,
        ),
        lock_busy_fact(dept, queue, None, None, now_ms).payload.get("lock"@) == Some(
            JsonView::Null,
        ),
{
    lemma_keys();
}

/// The fact about a refused graph tells why it was refused.
pub proof fn law_what_the_fact_about_a_graph_tells(error: Seq<char>, now_ms: u64)
    ensures
        ({
            let e = schema_fact(error, now_ms);
            &&& e.queue == "fkst.failure_fact"@
            &&& e.ts == now_ms
            &&& e.payload.text_at("error_class"@) == Some("schema_validation"@)
            &&& e.payload.text_at("error"@) == Some(short(error))
            &&& e.payload.text_at("fingerprint"@) == Some(
                fingerprint_of(ErrorClass::SchemaValidation, error),
            )
        }),
{
    lemma_keys();
}

/// The fact about a slow operation of the store tells the operation, the department and how long it
/// took.
pub proof fn law_what_the_fact_about_a_slow_store_tells(
    op: Seq<char>,
    dept: Seq<char>,
    elapsed_ms: u64,
    now_ms: u64,
)
    ensures
        ({
            let e = watchdog_fact(op, dept, elapsed_ms, now_ms);
            &&& e.queue == "fkst.failure_fact"@
            &&& e.ts == now_ms
            &&& e.payload.text_at("error_class"@) == Some("store_op_watchdog"@)
            &&& e.payload.text_at("origin_dept"@) == Some(dept)
            &&& e.payload.text_at("store_op"@) == Some(op)
            &&& e.payload.get("elapsed_ms"@) == Some(JsonView::Unsigned(elapsed_ms as nat))
        }),
{
    lemma_keys();
}

/// An operation of the store is told of just where it took more than a quarter of a second, with the
/// whole milliseconds that it took.
pub proof fn law_when_the_store_is_slow(elapsed_nanos: u128)
    ensures
        took_too_long(elapsed_nanos) is Some <==> elapsed_nanos > 250_000_000,
        took_too_long(elapsed_nanos) matches Some(ms) ==> ms as int * 1_000_000 <= elapsed_nanos && (
        elapsed_nanos / 1_000_000 <= u64::MAX ==> elapsed_nanos < (ms + 1) * 1_000_000),
{
}

// How long an item has waited.

proof fn lemma_liveness_keys()
    ensures
        "item_id"@.len() == 7,
        "queue"@.len() == 5 && "queue"@[0] == 'q',
        "owner"@.len() == 5 && "owner"@[0] == 'o' && "owner"@[1] == 'w',
        "state"@.len() == 5 && "state"@[0] == 's',
        "order"@.len() == 5 && "order"@[0] == 'o' && "order"@[1] == 'r',
        "age_seconds"@.len() == 11 && "age_seconds"@[0] == 'a',
        "next_action"@.len() == 11 && "next_action"@[0] == 'n',
        "linked_item_id"@.len() == 14,
        "slo_seconds"@.len() == 11 && "slo_seconds"@[0] == 's',
        "breached"@.len() == 8,
{
    reveal_strlit("item_id");
    reveal_strlit("queue");
    reveal_strlit("owner");
    reveal_strlit("state");
    reveal_strlit("order");
    reveal_strlit("age_seconds");
    reveal_strlit("next_action");
    reveal_strlit("linked_item_id");
    reveal_strlit("slo_seconds");
    reveal_strlit("breached");
}

/// What is told of an item that its payload says nothing of: the delivery itself, how many whole
/// seconds ago it was observed, and whether it is leased.
pub proof fn law_how_long_a_silent_item_has_waited(
    d: DeliveryView,
    now_ms: u64,
    m: Map<Seq<char>, JsonView>,
)
    requires
        d.payload == JsonView::Object(m),
        forall|k: Seq<char>| !#[trigger] m.contains_key(k),
    ensures
        ({
            let told = delivery_liveness(d, now_ms);
            &&& told.text_at("item_id"@) == Some(d.delivery_id)
            &&& told.text_at("queue"@) == Some(d.queue)
            &&& told.text_at("owner"@) == Some(d.dept)
            &&& told.text_at("state"@) == Some(
                if d.lease_until_ms is Some {
                    "leased"@
                } else {
                    "queued"@
                },
            )
            &&& told.get("order"@) == Some(JsonView::Unsigned(d.not_before_ms as nat))
            &&& told.get("age_seconds"@) == Some(
                JsonView::Unsigned(seconds_between(now_ms as nat, d.observed_at_ms as nat)),
            )
            &&& told.get("slo_seconds"@) is None
            &&& told.get("breached"@) is None
            &&& told.get("linked_item_id"@) is None
        }),
{
    lemma_liveness_keys();
    assert(!m.contains_key("queue_liveness"@));
    assert(liveness_in(d) == d.payload);
    assert(!m.contains_key("item_id"@));
    assert(!m.contains_key("owner"@));
    assert(!m.contains_key("state"@));
    assert(!m.contains_key("order"@));
    assert(!m.contains_key("age_seconds"@));
    assert(!m.contains_key("observed_at_ms"@));
    assert(!m.contains_key("next_action"@));
    assert(!m.contains_key("linked_item_id"@));
    assert(!m.contains_key("slo_seconds"@));
    assert(!m.contains_key("breached"@));
}

/// An item that may wait for some time is late just where it has waited for that time, unless its
/// payload says whether it is.
pub proof fn law_when_an_item_is_late(
    d: DeliveryView,
    now_ms: u64,
    m: Map<Seq<char>, JsonView>,
    slo: nat,
)
    requires
        liveness_in(d) == JsonView::Object(m),
        m.contains_key("slo_seconds"@),
        m["slo_seconds"@] == JsonView::Unsigned(slo),
        !m.contains_key("breached"@),
    ensures
        delivery_liveness(d, now_ms).get("slo_seconds"@) == Some(JsonView::Unsigned(slo)),
        delivery_liveness(d, now_ms).get("breached"@) == Some(
            JsonView::Bool(liveness_age(d, now_ms) >= slo),
        ),
        delivery_liveness(d, now_ms).get("age_seconds"@) == Some(
            JsonView::Unsigned(liveness_age(d, now_ms)),
        ),
{
    lemma_liveness_keys();
}

/// What a payload says of its item is told as it says it.
pub proof fn law_what_a_payload_says_of_its_item(
    d: DeliveryView,
    now_ms: u64,
    m: Map<Seq<char>, JsonView>,
    text: Seq<char>,
    n: nat,
    b: bool,
)
    requires
        liveness_in(d) == JsonView::Object(m),
    ensures
        ({
            let told = delivery_liveness(d, now_ms);
            &&& told.text_at("queue"@) == Some(d.queue)
            &&& m.contains_key("item_id"@) && m["item_id"@] == JsonView::Text(text)
                ==> told.text_at("item_id"@) == Some(text)
            &&& m.contains_key("owner"@) && m["owner"@] == JsonView::Text(text) ==> told.text_at(
                "owner"@,
            ) == Some(text)
            &&& m.contains_key("state"@) && m["state"@] == JsonView::Text(text) ==> told.text_at(
                "state"@,
            ) == Some(text)
            &&& m.contains_key("next_action"@) && m["next_action"@] == JsonView::Text(text)
                ==> told.text_at("next_action"@) == Some(text)
            &&& m.contains_key("linked_item_id"@) && m["linked_item_id"@] == JsonView::Text(text)
                ==> told.text_at("linked_item_id"@) == Some(text)
            &&& m.contains_key("order"@) && m["order"@] == JsonView::Unsigned(n) ==> told.get(
                "order"@,
            ) == Some(JsonView::Unsigned(n))
            &&& m.contains_key("age_seconds"@) && m["age_seconds"@] == JsonView::Unsigned(n)
                ==> told.get("age_seconds"@) == Some(JsonView::Unsigned(n))
            &&& !m.contains_key("age_seconds"@) && m.contains_key("observed_at_ms"@)
                && m["observed_at_ms"@] == JsonView::Unsigned(n) ==> told.get("age_seconds"@)
                == Some(JsonView::Unsigned(seconds_between(now_ms as nat, n)))
            &&& m.contains_key("breached"@) && m["breached"@] == JsonView::Bool(b) ==> told.get(
                "breached"@,
            ) == Some(JsonView::Bool(b))
        }),
        d.payload.get("queue_liveness"@) matches Some(v) ==> liveness_in(d) == v,
        d.payload.get("queue_liveness"@) is None ==> liveness_in(d) == d.payload,
{
    lemma_liveness_keys();
    reveal_strlit("observed_at_ms");
}

/// What is told of the item of a dead delivery is what was told of it while it lived, or that it is
/// dead where nothing is left of it.
pub proof fn law_what_is_told_of_a_dead_item(d: DeadView, now_ms: u64)
    ensures
        d.record matches Some(r) ==> dead_liveness(d, now_ms) == delivery_liveness(r, now_ms),
        d.record is None ==> ({
            let told = dead_liveness(d, now_ms);
            &&& told.text_at("item_id"@) == Some(d.delivery_id)
            &&& told.text_at("queue"@) == Some(d.queue)
            &&& told.text_at("owner"@) == Some(d.dept)
            &&& told.text_at("state"@) == Some("dead"@)
            &&& told.get("order"@) == Some(JsonView::Unsigned(d.not_before_ms as nat))
            &&& told.get("age_seconds"@) == Some(
                JsonView::Unsigned(seconds_between(now_ms as nat, d.observed_at_ms as nat)),
            )
        }),
{
    lemma_liveness_keys();
}

/// Whole seconds between two times, and none where the first has not come.
pub proof fn law_whole_seconds(now_ms: nat, then_ms: nat)
    ensures
        now_ms >= then_ms ==> 1000 * seconds_between(now_ms, then_ms) <= now_ms - then_ms < 1000 * (
        seconds_between(now_ms, then_ms) + 1),
        now_ms <= then_ms ==> seconds_between(now_ms, then_ms) == 0,
{
}

} // verus!
