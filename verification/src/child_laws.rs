//! Laws of children: how they are called, what is read of what they write, and what they raise.

use vstd::prelude::*;
use vstd::string::*;
use crate::cutting::{is_whitespace, join, law_split_join, split, trimmed};
use crate::dispatch::{is_note, DeliveryNote};
use crate::event::EventView;
use crate::event_fanout::{mailboxes_at, warning_of, warnings_of, Posted, QueueMailboxes};
use crate::journal::fields_view;
use crate::json::JsonView;
use crate::launchd_laws::names_root;
use crate::numeral::{decimal, is_digit, lemma_decimal, lemma_zero_padded, zero_padded};
use crate::raised::{
    authentic_code, base64_decode, is_raised_line, last_authentic, raised_by, raised_by_code,
    raised_code, raised_entries, raised_entry, raised_in, raised_on_line, start_trimmed,
    without_fronts,
};
use crate::restart_authority::cleaned;
use crate::spawner::{
    child_args, chunk_log, earlier, env_removed, env_set, line_end, log_basename, log_file_name,
    lossy_text, named_parts, root_flags, shown_command, unfinished_line, whole_lines,
    with_root_args, without_return, FrameworkStream,
};
use crate::supervise_laws::tells_field;
use crate::text_laws::{
    is_blank, law_a_text_is_split_at_the_first_separator, law_nothing_is_left_of_whitespace,
    law_what_is_trimmed, lemma_trim_start,
};

verus! {

// What children raise.

/// Each entry is raised as the event that it names, in their order; where one cannot be read, none
/// is raised.
pub proof fn law_each_entry_is_raised(items: Seq<JsonView>, now_ms: u64)
    ensures
        raised_entries(items, now_ms) is Some <==> forall|i: int|
            0 <= i < items.len() ==> raised_entry(#[trigger] items[i]) is Some,
        raised_entries(items, now_ms) matches Some(events) ==> events.len() == items.len()
            && forall|i: int|
            #![trigger events[i]]
            0 <= i < items.len() ==> Some((events[i].queue, events[i].payload)) == raised_entry(
                items[i],
            ) && events[i].ts == now_ms,
        raised_by(Some(JsonView::Array(items)), now_ms) == (match raised_entries(items, now_ms) {
            Some(events) => events,
            None => Seq::empty(),
        }),
        raised_by(None, now_ms) == Seq::<EventView>::empty(),
    decreases items.len(),
{
    if items.len() > 0 {
        let front = items.drop_last();
        law_each_entry_is_raised(front, now_ms);
        if raised_entries(items, now_ms) is Some {
            assert forall|i: int| 0 <= i < items.len() implies raised_entry(
                #[trigger] items[i],
            ) is Some by {
                if i < front.len() {
                    assert(raised_entry(front[i]) is Some);
                }
            }
            let events = raised_entries(items, now_ms)->0;
            let before = raised_entries(front, now_ms)->0;
            assert forall|i: int|
                #![trigger events[i]]
                0 <= i < items.len() implies Some((events[i].queue, events[i].payload))
                == raised_entry(items[i]) && events[i].ts == now_ms by {
                if i < front.len() {
                    assert(events[i] == before[i]);
                    assert(front[i] == items[i]);
                }
            }
        }
        if forall|i: int| 0 <= i < items.len() ==> raised_entry(#[trigger] items[i]) is Some {
            assert forall|i: int| 0 <= i < front.len() implies raised_entry(
                #[trigger] front[i],
            ) is Some by {
                assert(raised_entry(items[i]) is Some);
            }
            assert(raised_entry(items[items.len() - 1]) is Some);
        }
    }
}

/// An entry is an object with a queue and a payload, or a list of the two; the payload may be left
/// out.
pub proof fn law_how_an_entry_is_written(
    m: Map<Seq<char>, JsonView>,
    queue: Seq<char>,
    payload: JsonView,
)
    ensures
        m.contains_key("queue"@) && m["queue"@] == JsonView::Text(queue) ==> raised_entry(
            JsonView::Object(m),
        ) == Some(
            (
                queue,
                if m.contains_key("payload"@) {
                    m["payload"@]
                } else {
                    JsonView::Null
                },
            ),
        ),
        !m.contains_key("queue"@) ==> raised_entry(JsonView::Object(m)) is None,
        raised_entry(JsonView::Array(seq![JsonView::Text(queue), payload])) == Some(
            (queue, payload),
        ),
        raised_entry(JsonView::Array(seq![JsonView::Text(queue)])) == Some((queue, JsonView::Null)),
        raised_entry(JsonView::Array(seq![JsonView::Text(queue), payload, payload])) is None,
        raised_entry(JsonView::Array(Seq::empty())) is None,
        raised_entry(JsonView::Text(queue)) is None,
        raised_entry(JsonView::Null) is None,
{
}

proof fn lemma_start_trimmed(a: Seq<char>, t: Seq<char>)
    requires
        is_blank(a),
        t.len() > 0,
        !is_whitespace(t[0]),
    ensures
        start_trimmed(a + t) == t,
{
    lemma_trim_start(a, t);
    assert((a + t).skip(a.len() as int) =~= t);
}

/// A line that starts with the word, behind whitespace or not, raises what stands behind it.
pub proof fn law_what_a_line_raises(a: Seq<char>, code: Seq<char>, now_ms: u64)
    requires
        is_blank(a),
        !"RAISED: "@.is_prefix_of(code),
    ensures
        is_raised_line(a + ("RAISED: "@ + code)),
        raised_code(a + ("RAISED: "@ + code)) == trimmed(code),
        raised_on_line(a + ("RAISED: "@ + code), now_ms) == raised_by_code(trimmed(code), now_ms),
{
    reveal_strlit("RAISED: ");
    let t = "RAISED: "@ + code;
    assert(t[0] == 'R');
    lemma_start_trimmed(a, t);
    assert(t.subrange(0, 8) =~= "RAISED: "@);
    assert("RAISED: "@.is_prefix_of(t));
    assert(t.skip(8) =~= code);
    reveal_with_fuel(without_fronts, 3);
    assert(without_fronts(t, "RAISED: "@) =~= code);
}

/// Any other line raises nothing, and neither does a code that is none.
pub proof fn law_other_lines_raise_nothing(line: Seq<char>, code: Seq<char>, now_ms: u64)
    ensures
        !"RAISED: "@.is_prefix_of(start_trimmed(line)) ==> raised_on_line(line, now_ms) == Seq::<
            EventView,
        >::empty(),
        base64_decode(code) is None ==> raised_by_code(code, now_ms) == Seq::<EventView>::empty(),
{
}

/// A line that carries the token raises what stands behind it; with another token it raises nothing.
pub proof fn law_a_line_that_carries_the_token(
    a: Seq<char>,
    token: Seq<char>,
    code: Seq<char>,
    other: Seq<char>,
)
    requires
        is_blank(a),
        forall|i: int| 0 <= i < token.len() ==> #[trigger] token[i] != ' ',
    ensures
        authentic_code(a + ("RAISED-AUTH: "@ + (token + seq![' '] + code)), token) == Some(
            trimmed(code),
        ),
        other != token ==> authentic_code(
            a + ("RAISED-AUTH: "@ + (token + seq![' '] + code)),
            other,
        ) is None,
        authentic_code(a + ("RAISED-AUTH: "@ + token), token) is None,
{
    reveal_strlit("RAISED-AUTH: ");
    let rest = token + seq![' '] + code;
    let t = "RAISED-AUTH: "@ + rest;
    assert(t[0] == 'R');
    lemma_start_trimmed(a, t);
    assert(t.subrange(0, 13) =~= "RAISED-AUTH: "@);
    assert("RAISED-AUTH: "@.is_prefix_of(t));
    assert(t.skip(13) =~= rest);
    law_a_text_is_split_at_the_first_separator(token, code, ' ');
    let u = "RAISED-AUTH: "@ + token;
    assert(u[0] == 'R');
    lemma_start_trimmed(a, u);
    assert(u.skip(13) =~= token);
}

/// Of the lines that carry the token the last one counts.
pub proof fn law_the_last_authentic_line_counts(
    before: Seq<Seq<char>>,
    line: Seq<char>,
    after: Seq<Seq<char>>,
    token: Seq<char>,
)
    requires
        authentic_code(line, token) is Some,
        forall|i: int|
            0 <= i < after.len() ==> authentic_code(#[trigger] after[i], token) is None,
    ensures
        last_authentic(before.push(line) + after, token) == authentic_code(line, token),
        last_authentic(after, token) is None,
    decreases after.len(),
{
    let all = before.push(line) + after;
    if after.len() > 0 {
        assert(all.drop_last() =~= before.push(line) + after.drop_last());
        assert(authentic_code(after[after.len() - 1], token) is None);
        assert forall|i: int| 0 <= i < after.drop_last().len() implies authentic_code(
            #[trigger] after.drop_last()[i],
            token,
        ) is None by {
            assert(after.drop_last()[i] == after[i]);
        }
        law_the_last_authentic_line_counts(before, line, after.drop_last(), token);
    } else {
        assert(all =~= before.push(line));
    }
}

/// Of the lines that a child wrote the last one that raises counts, whatever else it wrote.
pub proof fn law_what_is_raised_by_what_was_written(
    before: Seq<Seq<char>>,
    line: Seq<char>,
    after: Seq<Seq<char>>,
    now_ms: u64,
)
    requires
        is_raised_line(line),
        forall|i: int| 0 <= i < after.len() ==> !is_raised_line(#[trigger] after[i]),
        forall|i: int, j: int|
            0 <= i < (before.push(line) + after).len() && 0 <= j < (before.push(line)
                + after)[i].len() ==> #[trigger] (before.push(line) + after)[i][j] != '\n',
    ensures
        raised_in(join(before.push(line) + after, seq!['\n']), now_ms) == raised_on_line(
            line,
            now_ms,
        ),
{
    let all = before.push(line) + after;
    law_split_join(all, '\n');
    crate::raised::law_last_line_wins(before, line, after);
}

/// What is noted of a delivery names the event, the department, the delivery and the reason.
pub proof fn law_what_is_noted(
    note: DeliveryNote,
    event: Seq<char>,
    dept: Seq<char>,
    delivery_id: Seq<char>,
    reason: Seq<char>,
)
    requires
        is_note(note, event, dept, delivery_id, reason),
    ensures
        note.event@ == event,
        tells_field(fields_view(note.fields@), "dept"@, dept),
        tells_field(fields_view(note.fields@), "delivery_id"@, delivery_id),
        tells_field(fields_view(note.fields@), "reason"@, reason),
{
    reveal_strlit("dept");
    reveal_strlit("delivery_id");
    reveal_strlit("reason");
    assert("dept"@.len() == 4 && "delivery_id"@.len() == 11 && "reason"@.len() == 6);
    let f = fields_view(note.fields@);
    assert(f.contains(f[0]) && f.contains(f[1]) && f.contains(f[2]));
}

// What is read of what children write.

/// The first of several reads is the one that counts.
pub proof fn law_the_first_read_counts(before: u128, now: u128)
    ensures
        earlier(None, now) == now,
        earlier(Some(before), now) <= before,
        earlier(Some(before), now) <= now,
        earlier(Some(before), now) == before || earlier(Some(before), now) == now,
{
}

proof fn lemma_line_end(line: Seq<u8>, rest: Seq<u8>)
    requires
        forall|i: int| 0 <= i < line.len() ==> #[trigger] line[i] != 10,
    ensures
        line_end(line) == line.len(),
        line_end(line + seq![10u8] + rest) == line.len(),
    decreases line.len(),
{
    let all = line + seq![10u8] + rest;
    if line.len() > 0 {
        assert(line[0] != 10);
        assert(all[0] == line[0]);
        assert(all.drop_first() =~= line.drop_first() + seq![10u8] + rest);
        assert forall|i: int| 0 <= i < line.drop_first().len() implies #[trigger]
            line.drop_first()[i] != 10 by {
            assert(line.drop_first()[i] == line[i + 1]);
        }
        lemma_line_end(line.drop_first(), rest);
    } else {
        assert(all[0] == 10);
    }
}

/// A line is what stands in front of a line feed, without the carriage return that may stand in front
/// of it; what no line feed ends is no line yet.
pub proof fn law_what_is_a_line(line: Seq<u8>, rest: Seq<u8>)
    requires
        forall|i: int| 0 <= i < line.len() ==> #[trigger] line[i] != 10,
    ensures
        whole_lines(line + seq![10u8] + rest) == seq![lossy_text(without_return(line))]
            + whole_lines(rest),
        unfinished_line(line + seq![10u8] + rest) == unfinished_line(rest),
        whole_lines(line) == Seq::<Seq<char>>::empty(),
        unfinished_line(line) == line,
        without_return(line.push(13)) == line,
        line.len() == 0 || line.last() != 13 ==> without_return(line) == line,
{
    lemma_line_end(line, rest);
    let all = line + seq![10u8] + rest;
    assert(all.take(line.len() as int) =~= line);
    assert(all.skip(line.len() as int + 1) =~= rest);
    assert(line.push(13).drop_last() =~= line);
}

/// What is logged of what a child wrote names the stream on a line of its own, then gives each byte,
/// and ends with a line feed.
pub proof fn law_what_is_logged(stream: FrameworkStream, bytes: Seq<u8>)
    ensures
        chunk_log(stream, bytes).len() == 7 + bytes.len() + (if bytes.len() > 0 && bytes.last()
            == 10 {
            0int
        } else {
            1int
        }),
        chunk_log(stream, bytes).subrange(7, 7 + bytes.len() as int) == bytes,
        chunk_log(stream, bytes).last() == 10,
        chunk_log(stream, bytes).take(7) == vstd::utf8::encode_utf8(
            match stream {
                FrameworkStream::Stdout => "STDOUT\n"@,
                FrameworkStream::Stderr => "STDERR\n"@,
            },
        ),
{
    reveal_strlit("STDOUT\n");
    reveal_strlit("STDERR\n");
    vstd::utf8::is_ascii_chars_encode_utf8("STDOUT\n"@);
    vstd::utf8::is_ascii_chars_encode_utf8("STDERR\n"@);
    assert(chunk_log(stream, bytes).subrange(7, 7 + bytes.len() as int) =~= bytes);
    let name = match stream {
        FrameworkStream::Stdout => "STDOUT\n"@,
        FrameworkStream::Stderr => "STDERR\n"@,
    };
    assert(name.len() == 7);
    assert(chunk_log(stream, bytes).take(7) =~= vstd::utf8::encode_utf8(name));
}

// How children are called.

proof fn lemma_root_args(args: Seq<Seq<char>>, roots: Seq<Seq<char>>)
    ensures
        ({
            let all = with_root_args(args, roots);
            let n = args.len() as int;
            &&& all.len() == n + 2 * roots.len()
            &&& forall|i: int| 0 <= i < n ==> #[trigger] all[i] == args[i]
            &&& forall|i: int| 0 <= i < roots.len() ==> #[trigger] names_root(all, n, roots, i)
        }),
    decreases roots.len(),
{
    if roots.len() > 0 {
        lemma_root_args(args, roots.drop_last());
        let before = with_root_args(args, roots.drop_last());
        let all = with_root_args(args, roots);
        let n = args.len() as int;
        assert forall|i: int| 0 <= i < roots.len() implies #[trigger] names_root(
            all,
            n,
            roots,
            i,
        ) by {
            if i < roots.len() - 1 {
                assert(names_root(before, n, roots.drop_last(), i));
                assert(roots.drop_last()[i] == roots[i]);
            }
        }
        assert forall|i: int| 0 <= i < n implies #[trigger] all[i] == args[i] by {
            assert(all[i] == before[i]);
        }
    }
}

/// A child runs its script on its event, for its project, with each package root in their order and
/// in the namespace of its owner.
pub proof fn law_what_a_child_is_called_with(
    lua: Seq<char>,
    host_root: Seq<char>,
    roots: Seq<Seq<char>>,
    owner: Seq<char>,
    event: Seq<char>,
)
    ensures
        ({
            let all = child_args(lua, host_root, roots, owner, event);
            let n: int = 4 + 2 * roots.len() as int;
            &&& all.len() == n + 4
            &&& all[0] == "run"@ && all[1] == lua
            &&& all[2] == "--project-root"@ && all[3] == host_root
            &&& forall|i: int| 0 <= i < roots.len() ==> #[trigger] names_root(all, 4, roots, i)
            &&& all[n] == "--owner-namespace"@ && all[n + 1] == owner
            &&& all[n + 2] == "--event"@ && all[n + 3] == event
        }),
{
    let first = seq!["run"@, lua, "--project-root"@, host_root];
    lemma_root_args(first, roots);
    let inner = with_root_args(first, roots);
    let all = child_args(lua, host_root, roots, owner, event);
    assert(all[0] == inner[0] && all[1] == inner[1] && all[2] == inner[2] && all[3] == inner[3]);
    assert(inner[0] == first[0] && inner[1] == first[1] && inner[2] == first[2] && inner[3]
        == first[3]);
    assert forall|i: int| 0 <= i < roots.len() implies #[trigger] names_root(all, 4, roots, i) by {
        assert(names_root(inner, 4, roots, i));
    }
}

proof fn lemma_join_pushed(parts: Seq<Seq<char>>, more: Seq<char>)
    requires
        parts.len() > 0,
    ensures
        join(parts.push(more), " "@) == join(parts, " "@) + " "@ + more,
{
    assert(parts.push(more).drop_last() =~= parts);
}

proof fn lemma_shown_roots(args: Seq<Seq<char>>, roots: Seq<Seq<char>>)
    requires
        args.len() > 0,
        roots.len() > 0,
    ensures
        join(with_root_args(args, roots), " "@) == join(args, " "@) + " "@ + join(
            root_flags(roots),
            " "@,
        ),
        with_root_args(args, roots).len() > 0,
    decreases roots.len(),
{
    reveal_strlit("--package-root ");
    reveal_strlit("--package-root");
    reveal_strlit(" ");
    assert("--package-root "@ =~= "--package-root"@ + " "@);
    let front = roots.drop_last();
    let before = with_root_args(args, front);
    if front.len() > 0 {
        lemma_shown_roots(args, front);
        assert(root_flags(roots).drop_last() =~= root_flags(front));
    } else {
        assert(before =~= args);
        assert(join(root_flags(roots), " "@) =~= root_flags(roots)[0]);
    }
    lemma_join_pushed(before, "--package-root"@);
    lemma_join_pushed(before.push("--package-root"@), roots.last());
    assert(join(with_root_args(args, roots), " "@) =~= join(args, " "@) + " "@ + join(
        root_flags(roots),
        " "@,
    ));
}

/// What is shown of a call is the binary and its arguments with a space between each two, without
/// the event.
pub proof fn law_what_is_shown_of_a_call(
    binary: Seq<char>,
    lua: Seq<char>,
    host_root: Seq<char>,
    roots: Seq<Seq<char>>,
    owner: Seq<char>,
)
    requires
        roots.len() > 0,
    ensures
        shown_command(binary, lua, host_root, roots, owner) == binary + " "@ + join(
            child_args(lua, host_root, roots, owner, "<json>"@),
            " "@,
        ),
{
    reveal_strlit(" ");
    reveal_strlit("run");
    reveal_strlit(" run ");
    reveal_strlit("--project-root");
    reveal_strlit(" --project-root ");
    reveal_strlit("--owner-namespace");
    reveal_strlit(" --owner-namespace ");
    reveal_strlit("--event");
    reveal_strlit("<json>");
    reveal_strlit(" --event <json>");
    assert(" run "@ =~= " "@ + "run"@ + " "@);
    assert(" --project-root "@ =~= " "@ + "--project-root"@ + " "@);
    assert(" --owner-namespace "@ =~= " "@ + "--owner-namespace"@ + " "@);
    assert(" --event <json>"@ =~= " "@ + "--event"@ + " "@ + "<json>"@);
    let one = seq!["run"@];
    let first = seq!["run"@, lua, "--project-root"@, host_root];
    assert(first =~= one.push(lua).push("--project-root"@).push(host_root));
    lemma_join_pushed(one, lua);
    lemma_join_pushed(one.push(lua), "--project-root"@);
    lemma_join_pushed(one.push(lua).push("--project-root"@), host_root);
    lemma_shown_roots(first, roots);
    let inner = with_root_args(first, roots);
    lemma_join_pushed(inner, "--owner-namespace"@);
    lemma_join_pushed(inner.push("--owner-namespace"@), owner);
    lemma_join_pushed(inner.push("--owner-namespace"@).push(owner), "--event"@);
    lemma_join_pushed(inner.push("--owner-namespace"@).push(owner).push("--event"@), "<json>"@);
    assert(child_args(lua, host_root, roots, owner, "<json>"@) =~= inner.push(
        "--owner-namespace"@,
    ).push(owner).push("--event"@).push("<json>"@));
    assert(shown_command(binary, lua, host_root, roots, owner) =~= binary + " "@ + join(
        child_args(lua, host_root, roots, owner, "<json>"@),
        " "@,
    ));
}

/// A child learns how many permits there are, who supervises it and, where there is one, the token
/// that it raises with; whether it may replay is told or taken away, and never both.
pub proof fn law_what_a_child_learns(
    name: Seq<char>,
    slots: u64,
    pid: u32,
    token: Seq<char>,
    bypass: bool,
    t: Option<Seq<char>>,
)
    ensures
        env_set(name, slots, pid, t, bypass).contains((name, decimal(slots as nat))),
        env_set(name, slots, pid, t, bypass).contains(
            ("FKST_SUPERVISOR_PID"@, decimal(pid as nat)),
        ),
        env_set(name, slots, pid, Some(token), bypass).contains(
            ("FKST_RAISED_AUTH_TOKEN"@, token),
        ),
        env_set(name, slots, pid, t, true).contains(
            ("FKST_INTERNAL_CACHE_REPLAY_BYPASS"@, "1"@),
        ),
        env_set(name, slots, pid, t, true).contains(("FKST_INTERNAL_ONCE_REPLAY_BYPASS"@, "1"@)),
        env_set(name, slots, pid, t, bypass).len() == 2 + (if t is Some {
            1int
        } else {
            0int
        }) + (if bypass {
            2int
        } else {
            0int
        }),
        env_removed(false).contains("FKST_INTERNAL_CACHE_REPLAY_BYPASS"@),
        env_removed(false).contains("FKST_INTERNAL_ONCE_REPLAY_BYPASS"@),
        !env_removed(true).contains("FKST_INTERNAL_CACHE_REPLAY_BYPASS"@),
        !env_removed(true).contains("FKST_INTERNAL_ONCE_REPLAY_BYPASS"@),
{
    reveal_strlit("FKST_INTERNAL_CACHE_REPLAY_BYPASS");
    reveal_strlit("FKST_INTERNAL_ONCE_REPLAY_BYPASS");
    reveal_strlit("BIN");
    reveal_strlit("FKST_FRAMEWORK_BIN");
    reveal_strlit("FKST_CODEX_WORKER_BIN");
    let own = env_set(name, slots, pid, t, bypass);
    assert(own[0] == (name, decimal(slots as nat)));
    assert(own[1] == ("FKST_SUPERVISOR_PID"@, decimal(pid as nat)));
    let tokened = env_set(name, slots, pid, Some(token), bypass);
    assert(tokened[2] == ("FKST_RAISED_AUTH_TOKEN"@, token));
    let free = env_set(name, slots, pid, t, true);
    assert(free[free.len() - 2] == ("FKST_INTERNAL_CACHE_REPLAY_BYPASS"@, "1"@));
    assert(free[free.len() - 1] == ("FKST_INTERNAL_ONCE_REPLAY_BYPASS"@, "1"@));
    assert(env_removed(false)[0] == "FKST_INTERNAL_CACHE_REPLAY_BYPASS"@);
    assert(env_removed(false)[1] == "FKST_INTERNAL_ONCE_REPLAY_BYPASS"@);
    assert("FKST_INTERNAL_CACHE_REPLAY_BYPASS"@.len() == 33);
    assert("FKST_INTERNAL_ONCE_REPLAY_BYPASS"@.len() == 32);
    assert("BIN"@.len() == 3 && "FKST_FRAMEWORK_BIN"@.len() == 18 && "FKST_CODEX_WORKER_BIN"@.len()
        == 21);
}

proof fn lemma_named_parts_end(parts: Seq<Seq<char>>, name: Seq<char>)
    requires
        name.len() > 0,
        name != "."@,
    ensures
        named_parts(parts.push(name)).len() > 0,
        named_parts(parts.push(name)).last() == name,
{
    assert(parts.push(name).drop_last() =~= parts);
}

/// The log of a child is named after the last part of its label.
pub proof fn law_what_a_log_is_named_after(parts: Seq<Seq<char>>, name: Seq<char>)
    requires
        name.len() > 0,
        name != "."@,
        name != ".."@,
        forall|j: int| 0 <= j < name.len() ==> #[trigger] name[j] != '/',
        forall|i: int, j: int|
            0 <= i < parts.len() && 0 <= j < parts[i].len() ==> #[trigger] parts[i][j] != '/',
    ensures
        log_basename(join(parts.push(name), seq!['/'])) == name,
        log_basename(Seq::empty()) == "framework-child"@,
{
    let all = parts.push(name);
    assert forall|i: int, j: int| 0 <= i < all.len() && 0 <= j < all[i].len() implies #[trigger]
        all[i][j] != '/' by {
        if i < parts.len() {
            assert(parts[i][j] != '/');
        } else {
            assert(name[j] != '/');
        }
    }
    law_split_join(all, '/');
    lemma_named_parts_end(parts, name);
    let nothing = split(Seq::<char>::empty(), '/');
    assert(nothing =~= seq![Seq::<char>::empty()]);
    assert(nothing.drop_last().len() == 0);
    reveal_with_fuel(named_parts, 2);
    assert(named_parts(nothing).len() == 0);
}

proof fn lemma_no_dash(n: nat)
    ensures
        forall|i: int| 0 <= i < decimal(n).len() ==> #[trigger] decimal(n)[i] != '-',
        forall|i: int|
            0 <= i < zero_padded(decimal(n), 9).len() ==> #[trigger] zero_padded(decimal(n), 9)[i]
                != '-',
{
    lemma_decimal(n);
    lemma_zero_padded(decimal(n), 9);
    assert forall|i: int| 0 <= i < decimal(n).len() implies #[trigger] decimal(n)[i] != '-' by {
        assert(is_digit(decimal(n)[i]));
    }
    let padded = zero_padded(decimal(n), 9);
    assert forall|i: int| 0 <= i < padded.len() implies #[trigger] padded[i] != '-' by {
        assert(is_digit(padded[i]));
    }
}

/// Each child of a label has a log of its own: the names differ wherever the times or the numbers do.
pub proof fn law_logs_are_told_apart(
    label: Seq<char>,
    secs: u64,
    nanos: u32,
    id: u64,
    other_secs: u64,
    other_nanos: u32,
    other_id: u64,
)
    requires
        log_file_name(label, secs, nanos, id) == log_file_name(
            label,
            other_secs,
            other_nanos,
            other_id,
        ),
    ensures
        secs == other_secs && nanos == other_nanos && id == other_id,
{
    reveal_strlit("-");
    assert("-"@ =~= seq!['-']);
    let base = log_basename(label) + "-"@;
    let a = log_file_name(label, secs, nanos, id);
    let s1 = decimal(secs as nat);
    let n1 = zero_padded(decimal(nanos as nat), 9);
    let d1 = decimal(id as nat) + ".log"@;
    let s2 = decimal(other_secs as nat);
    let n2 = zero_padded(decimal(other_nanos as nat), 9);
    let d2 = decimal(other_id as nat) + ".log"@;
    let r1 = n1 + seq!['-'] + d1;
    let r2 = n2 + seq!['-'] + d2;
    assert(a =~= base + (s1 + seq!['-'] + r1));
    assert(a =~= base + (s2 + seq!['-'] + r2));
    assert(a.skip(base.len() as int) =~= s1 + seq!['-'] + r1);
    assert(a.skip(base.len() as int) =~= s2 + seq!['-'] + r2);
    lemma_no_dash(secs as nat);
    lemma_no_dash(other_secs as nat);
    lemma_no_dash(nanos as nat);
    lemma_no_dash(other_nanos as nat);
    law_a_text_is_split_at_the_first_separator(s1, r1, '-');
    law_a_text_is_split_at_the_first_separator(s2, r2, '-');
    law_a_text_is_split_at_the_first_separator(n1, d1, '-');
    law_a_text_is_split_at_the_first_separator(n2, d2, '-');
    crate::text_laws::law_numerals_differ(secs as nat, other_secs as nat);
    lemma_decimal(nanos as nat);
    lemma_decimal(other_nanos as nat);
    lemma_zero_padded(decimal(nanos as nat), 9);
    lemma_zero_padded(decimal(other_nanos as nat), 9);
    assert(decimal(id as nat) =~= d1.take(d1.len() - ".log"@.len()));
    assert(decimal(other_id as nat) =~= d2.take(d2.len() - ".log"@.len()));
    crate::text_laws::law_numerals_differ(id as nat, other_id as nat);
}

// What is told of events that were not taken.

/// An event that was taken is not told of; of each mailbox that did not take it one thing is told,
/// and which one says why. An unknown queue is told of once.
pub proof fn law_what_is_told_of_an_event(each: Seq<Posted>, more: Posted)
    ensures
        warning_of(Posted::Taken) is None,
        warning_of(Posted::Full) is Some,
        warning_of(Posted::Closed) is Some,
        warning_of(Posted::Full) != warning_of(Posted::Closed),
        warnings_of(Some(Seq::empty())) == Seq::<Seq<char>>::empty(),
        warnings_of(Some(each.push(more))) == (match warning_of(more) {
            Some(text) => warnings_of(Some(each)).push(text),
            None => warnings_of(Some(each)),
        }),
        warnings_of(None).len() == 1,
        (forall|i: int| 0 <= i < each.len() ==> #[trigger] each[i] == Posted::Taken) ==> warnings_of(
            Some(each),
        ).len() == 0,
    decreases each.len(),
{
    reveal_strlit("consumer mailbox full, dropping event for slow subscriber");
    reveal_strlit("consumer mailbox closed (dept dropped receiver)");
    assert("consumer mailbox full, dropping event for slow subscriber"@.len() == 57);
    assert("consumer mailbox closed (dept dropped receiver)"@.len() == 47);
    assert(each.push(more).drop_last() =~= each);
    if forall|i: int| 0 <= i < each.len() ==> #[trigger] each[i] == Posted::Taken {
        if each.len() > 0 {
            assert(each[each.len() - 1] == Posted::Taken);
            assert forall|i: int| 0 <= i < each.drop_last().len() implies #[trigger]
                each.drop_last()[i] == Posted::Taken by {
                assert(each.drop_last()[i] == each[i]);
            }
            law_what_is_told_of_an_event(each.drop_last(), more);
        }
    }
}

/// A queue has the mailboxes that stand under its name.
pub proof fn law_the_mailboxes_of_a_queue(queues: Seq<QueueMailboxes>, queue: Seq<char>, i: int)
    ensures
        mailboxes_at(queues, queue) is Some <==> exists|k: int|
            0 <= k < queues.len() && (#[trigger] queues[k]).queue@ == queue,
        0 <= i < queues.len() && queues[i].queue@ == queue && (forall|k: int|
            0 <= k < i ==> (#[trigger] queues[k]).queue@ != queue) ==> mailboxes_at(queues, queue)
            == Some(queues[i].mailboxes@),
    decreases queues.len(),
{
    if queues.len() > 0 {
        let rest = queues.drop_first();
        law_the_mailboxes_of_a_queue(rest, queue, i - 1);
        if exists|k: int| 0 <= k < queues.len() && (#[trigger] queues[k]).queue@ == queue {
            let k = choose|k: int|
                0 <= k < queues.len() && (#[trigger] queues[k]).queue@ == queue;
            if k > 0 {
                assert(rest[k - 1] == queues[k]);
            }
        }
        if exists|k: int| 0 <= k < rest.len() && (#[trigger] rest[k]).queue@ == queue {
            let k = choose|k: int| 0 <= k < rest.len() && (#[trigger] rest[k]).queue@ == queue;
            assert(queues[k + 1] == rest[k]);
        }
        if queues[0].queue@ == queue {
            assert(mailboxes_at(queues, queue) is Some);
        }
        if 0 < i < queues.len() && (forall|k: int|
            0 <= k < i ==> (#[trigger] queues[k]).queue@ != queue) {
            assert(queues[0].queue@ != queue);
            assert(rest[i - 1] == queues[i]);
            assert forall|k: int| 0 <= k < i - 1 implies (#[trigger] rest[k]).queue@ != queue by {
                assert(rest[k] == queues[k + 1]);
            }
        }
    }
}

// What launchd says.

/// A value of the environment counts without the whitespace around it; where nothing or only a
/// nought is left, it does not count.
pub proof fn law_which_values_count(a: Seq<char>, t: Seq<char>, b: Seq<char>)
    requires
        is_blank(a),
        is_blank(b),
        t.len() > 0,
        !is_whitespace(t[0]),
        !is_whitespace(t.last()),
    ensures
        cleaned(None) is None,
        cleaned(Some(a)) is None,
        t == seq!['0'] ==> cleaned(Some(a + t + b)) is None,
        t != seq!['0'] ==> cleaned(Some(a + t + b)) == Some(t),
{
    reveal_strlit("0");
    assert("0"@ =~= seq!['0']);
    law_what_is_trimmed(a, t, b);
    law_nothing_is_left_of_whitespace(a);
}

} // verus!
