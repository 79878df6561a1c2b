//! Laws of the test harness: what is reported of a test, and what a fired raiser leads to.

use vstd::prelude::*;
use vstd::string::*;
use crate::delivery_types::SourceKind;
use crate::json::JsonView;
use crate::numeral::{decimal, signed_decimal};
use crate::test_assertions::{assertion_text, is_false, shown, LuaShown};
use crate::test_commands::{mode_of, replacement_of, CommandCassetteMode, RedactionEntry};
use crate::test_fire_raiser::{
    all_accepted, all_raised, first_error, source_word, status_word, test_emission, ConsumerRun,
};
use crate::test_run_cache::{value_at, PathEntry};
use crate::test_runner::{
    broken, count, file_at, is_test, name_for, on_queue, result_of, TestEntry, TestFile,
    TestReportEntry, TestReportStatus,
};

verus! {

// Assertions.

/// Nothing and `false` are false, and every other value is true.
pub proof fn law_what_is_false(v: LuaShown, n: i64, s: String)
    ensures
        is_false(LuaShown::Nil),
        is_false(LuaShown::Boolean(false)),
        !is_false(LuaShown::Boolean(true)),
        !is_false(LuaShown::Integer(n)),
        !is_false(LuaShown::Text(s)),
        is_false(v) ==> v == LuaShown::Nil || v == LuaShown::Boolean(false),
{
}

/// Numbers are shown by their numerals, and the two truth values and nothing by different words.
pub proof fn law_values_are_told_apart(a: i64, b: i64)
    ensures
        shown(LuaShown::Integer(a)) == shown(LuaShown::Integer(b)) ==> a == b,
        a >= 0 ==> shown(LuaShown::Integer(a)) == decimal(a as nat),
        shown(LuaShown::Boolean(true)) != shown(LuaShown::Boolean(false)),
        shown(LuaShown::Nil) != shown(LuaShown::Boolean(true)),
        shown(LuaShown::Nil) != shown(LuaShown::Boolean(false)),
{
    reveal_strlit("true");
    reveal_strlit("false");
    reveal_strlit("nil");
    assert("true"@.len() == 4 && "false"@.len() == 5 && "nil"@.len() == 3);
    crate::numeral::lemma_decimal(if a >= 0 {
        a as nat
    } else {
        (-(a as int)) as nat
    });
    crate::numeral::lemma_decimal(if b >= 0 {
        b as nat
    } else {
        (-(b as int)) as nat
    });
    reveal_strlit("-");
    assert("-"@ =~= seq!['-']);
    let x = signed_decimal(a as int);
    let y = signed_decimal(b as int);
    if x == y {
        if a < 0 && b < 0 {
            let m = (-(a as int)) as nat;
            let n = (-(b as int)) as nat;
            assert(x.skip(1) =~= decimal(m));
            assert(y.skip(1) =~= decimal(n));
            crate::text_laws::law_numerals_differ(m, n);
        } else if a >= 0 && b >= 0 {
            crate::text_laws::law_numerals_differ(a as nat, b as nat);
        } else if a < 0 {
            assert(x[0] == '-');
            assert(crate::numeral::is_digit(decimal(b as nat)[0]));
        } else {
            assert(y[0] == '-');
            assert(crate::numeral::is_digit(decimal(a as nat)[0]));
        }
    }
}

/// What is told of an assertion that failed starts with its name and ends with what was found; a
/// message of the test stands between the two.
pub proof fn law_what_is_told_of_an_assertion(
    name: Seq<char>,
    message: String,
    detail: Seq<char>,
    other: Option<String>,
)
    ensures
        assertion_text(name, None, detail) == name + seq![':', ' '] + detail,
        message@.len() == 0 ==> assertion_text(name, Some(message), detail) == assertion_text(
            name,
            None,
            detail,
        ),
        message@.len() > 0 ==> assertion_text(name, Some(message), detail) == name + seq![':', ' ']
            + message@ + seq![':', ' '] + detail,
{
    reveal_strlit(": ");
    assert(": "@ =~= seq![':', ' ']);
}

// Cassettes.

/// A cassette is played or recorded, and nothing else; what is to be hidden is hidden behind what the
/// test says, or else behind the usual mark.
pub proof fn law_the_modes_of_a_cassette(word: Seq<char>, e: RedactionEntry)
    ensures
        mode_of("replay"@) == Some(CommandCassetteMode::Replay),
        mode_of("record"@) == Some(CommandCassetteMode::Record),
        word != "replay"@ && word != "record"@ ==> mode_of(word) is None,
        e.replacement matches Some(s) ==> replacement_of(e) == s@,
        e.replacement is None ==> replacement_of(e) == "<REDACTED>"@,
{
    reveal_strlit("replay");
    reveal_strlit("record");
    assert("replay"@[2] == 'p' && "record"@[2] == 'c');
}

// Fired raisers.

/// A raiser that a test fires leads to what it produces, from a source of its own name.
pub proof fn law_what_a_fired_raiser_emits(name: Seq<char>, produces: Seq<char>)
    ensures
        test_emission(name, produces).queue == produces,
        test_emission(name, produces).source.kind == SourceKind::Cron,
        test_emission(name, produces).payload.text_at("raiser"@) == Some(name),
        test_emission(name, produces).cron_payload == Some(test_emission(name, produces).payload),
        test_emission(name, produces).source.reference == crate::source_runner::cron_reference(
            name,
            0,
        ),
{
}

/// The consumers of an event accepted it where each of them did, and else the first error is told.
pub proof fn law_what_is_told_of_the_consumers(runs: Seq<ConsumerRun>, i: int)
    ensures
        all_accepted(runs) <==> forall|k: int|
            0 <= k < runs.len() ==> (#[trigger] runs[k]).exit_code == 0,
        status_word(true) != status_word(false),
        status_word(true) == "accepted"@,
        (forall|k: int| 0 <= k < runs.len() ==> (#[trigger] runs[k]).error is None) ==> first_error(
            runs,
        ) is None,
        0 <= i < runs.len() && runs[i].error is Some && (forall|k: int|
            0 <= k < i ==> (#[trigger] runs[k]).error is None) ==> first_error(runs) == Some(
            runs[i].error->0@,
        ),
    decreases runs.len(),
{
    reveal_strlit("accepted");
    reveal_strlit("error");
    assert("accepted"@.len() == 8 && "error"@.len() == 5);
    if runs.len() > 0 {
        let rest = runs.drop_first();
        law_what_is_told_of_the_consumers(rest, i - 1);
        assert(forall|k: int| 0 <= k < rest.len() ==> #[trigger] rest[k] == runs[k + 1]);
        if forall|k: int| 0 <= k < runs.len() ==> (#[trigger] runs[k]).error is None {
            assert(runs[0].error is None);
            assert forall|k: int| 0 <= k < rest.len() implies (#[trigger] rest[k]).error is None by {
                assert(runs[k + 1].error is None);
            }
        }
        if 0 < i < runs.len() && (forall|k: int|
            0 <= k < i ==> (#[trigger] runs[k]).error is None) {
            assert(runs[0].error is None);
            assert forall|k: int| 0 <= k < i - 1 implies (#[trigger] rest[k]).error is None by {
                assert(runs[k + 1].error is None);
            }
        }
    }
}

/// What consumers raised is told in their order, each event with the consumer that raised it.
pub proof fn law_what_consumers_raised(runs: Seq<ConsumerRun>, more: ConsumerRun, i: int)
    ensures
        all_raised(Seq::empty()) == Seq::<(Seq<char>, Seq<char>, JsonView)>::empty(),
        all_raised(runs.push(more)).len() == all_raised(runs).len() + more.raises@.len(),
        all_raised(runs).is_prefix_of(all_raised(runs.push(more))),
        0 <= i < more.raises@.len() ==> all_raised(runs.push(more))[all_raised(runs).len() + i] == (
            more.consumer@,
            more.raises@[i].queue@,
            more.raises@[i].payload@,
        ),
{
    assert(runs.push(more).drop_last() =~= runs);
    assert(all_raised(runs.push(more)).subrange(0, all_raised(runs).len() as int) =~= all_raised(
        runs,
    ));
}

/// The kinds of sources have different words.
pub proof fn law_the_words_for_sources(a: SourceKind, b: SourceKind)
    ensures
        source_word(a) == source_word(b) ==> a == b,
        source_word(SourceKind::Cron) == "cron"@,
        source_word(SourceKind::File) == "file_watch"@,
{
    reveal_strlit("cron");
    reveal_strlit("file_watch");
    reveal_strlit("git");
    reveal_strlit("external");
    assert("cron"@.len() == 4 && "file_watch"@.len() == 10 && "git"@.len() == 3 && "external"@.len()
        == 8);
}

// The cache of a run.

/// Under a path stands what was kept there last.
pub proof fn law_what_stands_under_a_path<V>(
    entries: Seq<PathEntry<V>>,
    entry: PathEntry<V>,
    path: Seq<char>,
)
    ensures
        value_at(Seq::<PathEntry<V>>::empty(), path) is None,
        entry.path@ == path ==> value_at(entries.push(entry), path) == Some(entry.value),
        entry.path@ != path ==> value_at(entries.push(entry), path) == value_at(entries, path),
{
    assert(entries.push(entry).drop_last() =~= entries);
}

// Tests and what is reported of them.

/// Which files and functions are tests.
pub proof fn law_what_is_a_test(rest: Seq<char>, name: Seq<char>, e: TestEntry)
    ensures
        is_test("test_"@ + rest),
        is_test(name) ==> exists|behind: Seq<char>| name == #[trigger] ("test_"@ + behind),
        broken(e) <==> is_test(e.name@) && !e.is_function,
{
    assert(("test_"@ + rest).subrange(0, "test_"@.len() as int) =~= "test_"@);
    if is_test(name) {
        assert(name =~= "test_"@ + name.skip("test_"@.len() as int));
    }
}

/// A test file is found by its path.
pub proof fn law_a_file_is_found_by_its_path(files: Seq<TestFile>, path: Seq<char>, i: int)
    ensures
        file_at(files, path) matches Some(f) ==> f.path@ == path && files.contains(f),
        0 <= i < files.len() && files[i].path@ == path ==> file_at(files, path) is Some,
    decreases files.len(),
{
    if files.len() > 0 {
        let rest = files.drop_first();
        law_a_file_is_found_by_its_path(rest, path, i - 1);
        if let Some(f) = file_at(files, path) {
            if files[0].path@ == path {
                assert(files[0] == f);
            } else {
                let k = choose|k: int| 0 <= k < rest.len() && rest[k] == f;
                assert(files[k + 1] == f);
            }
        }
        if 0 < i < files.len() {
            assert(rest[i - 1] == files[i]);
        }
    }
}

/// Every test passed or failed, and each is counted once.
pub proof fn law_each_test_is_counted_once(tests: Seq<TestReportEntry>, more: TestReportEntry)
    ensures
        count(tests, TestReportStatus::Pass) + count(tests, TestReportStatus::Fail) == tests.len(),
        more.status == TestReportStatus::Pass ==> count(tests.push(more), TestReportStatus::Pass)
            == count(tests, TestReportStatus::Pass) + 1 && count(
            tests.push(more),
            TestReportStatus::Fail,
        ) == count(tests, TestReportStatus::Fail),
        more.status == TestReportStatus::Fail ==> count(tests.push(more), TestReportStatus::Fail)
            == count(tests, TestReportStatus::Fail) + 1 && count(
            tests.push(more),
            TestReportStatus::Pass,
        ) == count(tests, TestReportStatus::Pass),
    decreases tests.len(),
{
    assert(tests.push(more).drop_last() =~= tests);
    if tests.len() > 0 {
        law_each_test_is_counted_once(tests.drop_last(), more);
    }
}

/// The line about a test says whether it passed and names its file and the test; that of a failed one
/// ends with the error.
pub proof fn law_the_line_about_a_test(file: Seq<char>, name: Seq<char>, error: Seq<char>)
    ensures
        result_of(file, name, None) == "PASS "@ + (file + "::"@ + name),
        ("FAIL "@ + (file + "::"@ + name)).is_prefix_of(result_of(file, name, Some(error))),
        error.is_suffix_of(result_of(file, name, Some(error))),
        result_of(file, name, None) != result_of(file, name, Some(error)),
{
    reveal_strlit("PASS ");
    reveal_strlit("FAIL ");
    let bad = result_of(file, name, Some(error));
    let front = "FAIL "@ + (file + "::"@ + name);
    assert(result_of(file, name, None) =~= "PASS "@ + (file + "::"@ + name));
    assert(bad.subrange(0, front.len() as int) =~= front);
    assert(bad.subrange(bad.len() - error.len(), bad.len() as int) =~= error);
    assert(bad[0] == 'F');
    assert(result_of(file, name, None)[0] == 'P');
}

/// A department is named after its directory, and behind the namespace of its owner where that is not
/// the host's.
pub proof fn law_what_a_department_is_named_after(
    dir: Seq<char>,
    owner: Seq<char>,
    host: Seq<char>,
    pieces: Seq<Seq<char>>,
)
    ensures
        name_for(seq!["departments"@, dir, "main.lua"@], host, host) == Some(dir),
        owner != host ==> name_for(seq!["departments"@, dir, "main.lua"@], owner, host) == Some(
            owner + seq!['.'] + dir,
        ),
        name_for(pieces, owner, host) is Some ==> pieces =~= seq![
            "departments"@,
            pieces[1],
            "main.lua"@,
        ],
{
    reveal_strlit(".");
    assert("."@ =~= seq!['.']);
}

/// An event that is put on a queue names it, and keeps every other member.
pub proof fn law_an_event_on_a_queue(
    m: Map<Seq<char>, JsonView>,
    queue: Seq<char>,
    key: Seq<char>,
)
    ensures
        on_queue(JsonView::Object(m), queue).text_at("queue"@) == Some(queue),
        key != "queue"@ ==> on_queue(JsonView::Object(m), queue).get(key) == JsonView::Object(
            m,
        ).get(key),
        on_queue(JsonView::Null, queue) == JsonView::Null,
{
}

} // verus!
