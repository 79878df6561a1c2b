//! What a run of the tests of a package finds and tells.

use vstd::prelude::*;
use vstd::string::*;
use crate::cutting::{ends_with, starts_with};
use crate::numeral::{decimal, push_decimal};
use crate::order::{lemma_less_total, less_text, text_less};
use crate::paths::{
    lemma_path_key, path_key, path_key_text, path_like, trim_front_slashes, without_front_slashes,
};
use crate::tables::ascending;
use crate::delivery_types::put;
use crate::json::{Json, JsonView, Member};
use crate::text::{copy_text, same_text, text_view, texts_view};

verus! {

// Test files.

/// Whether the name of a file is that of a test file.
pub fn is_test_file(name: &str) -> (r: bool)
    ensures
        r == "_test.lua"@.is_suffix_of(name@),
{
    ends_with(name, "_test.lua")
}

/// A file of tests, and the package that it belongs to.
pub struct TestFile {
    pub path: String,
    pub owner_root: String,
    pub owner_namespace: String,
}

pub open spec fn file_keys(files: Seq<TestFile>) -> Seq<Seq<char>> {
    Seq::new(files.len(), |i: int| path_key(files[i].path@))
}

/// Files that stand in the order of their paths, each path once.
pub open spec fn files_in_order(files: Seq<TestFile>) -> bool {
    &&& ascending(file_keys(files))
    &&& forall|i: int| 0 <= i < files.len() ==> path_like(#[trigger] files[i].path@)
}

/// The file at a path.
pub open spec fn file_at(files: Seq<TestFile>, path: Seq<char>) -> Option<TestFile>
    decreases files.len(),
{
    if files.len() == 0 {
        None
    } else if files[0].path@ == path {
        Some(files[0])
    } else {
        file_at(files.drop_first(), path)
    }
}

proof fn lemma_file_at_is(files: Seq<TestFile>, at: int)
    requires
        0 <= at < files.len(),
        forall|j: int| 0 <= j < at ==> #[trigger] files[j].path@ != files[at].path@,
    ensures
        file_at(files, files[at].path@) == Some(files[at]),
    decreases files.len(),
{
    if at > 0 {
        let rest = files.drop_first();
        assert(files[0].path@ != files[at].path@);
        assert forall|j: int| 0 <= j < at - 1 implies #[trigger] rest[j].path@
            != rest[at - 1].path@ by {
            assert(files[j + 1].path@ != files[at].path@);
        }
        lemma_file_at_is(rest, at - 1);
    }
}

proof fn lemma_file_at_update(files: Seq<TestFile>, at: int, file: TestFile, path: Seq<char>)
    requires
        0 <= at < files.len(),
        files[at].path@ == file.path@,
        path != file.path@,
    ensures
        file_at(files.update(at, file), path) == file_at(files, path),
    decreases files.len(),
{
    let after = files.update(at, file);
    if at > 0 {
        assert(after[0] == files[0]);
        if files[0].path@ != path {
            assert(after.drop_first() =~= files.drop_first().update(at - 1, file));
            lemma_file_at_update(files.drop_first(), at - 1, file, path);
        }
    } else {
        assert(after.drop_first() =~= files.drop_first());
    }
}

proof fn lemma_file_at_insert(files: Seq<TestFile>, at: int, file: TestFile, path: Seq<char>)
    requires
        0 <= at <= files.len(),
        path != file.path@,
    ensures
        file_at(files.insert(at, file), path) == file_at(files, path),
    decreases files.len(),
{
    let after = files.insert(at, file);
    if at > 0 {
        assert(after[0] == files[0]);
        if files[0].path@ != path {
            assert(after.drop_first() =~= files.drop_first().insert(at - 1, file));
            lemma_file_at_insert(files.drop_first(), at - 1, file, path);
        }
    } else {
        assert(after.drop_first() =~= files);
    }
}

/// Puts a file where it belongs among files in the order of their paths. Where one with its path is
/// there, it takes its place.
pub fn insert_test_file(files: &mut Vec<TestFile>, file: TestFile)
    requires
        files_in_order(old(files)@),
        path_like(file.path@),
    ensures
        files_in_order(final(files)@),
        file_at(final(files)@, file.path@) == Some(file),
        forall|path: Seq<char>|
            path != file.path@ ==> #[trigger] file_at(final(files)@, path) == file_at(
                old(files)@,
                path,
            ),
{
    let ghost before = files@;
    let ghost keys = file_keys(before);
    let ghost put = file;
    let key: String = path_key_text(file.path.as_str());
    let mut i: usize = 0;
    while i < files.len() && less_text(
        path_key_text(files[i].path.as_str()).as_str(),
        key.as_str(),
    )
        invariant
            i <= files@.len(),
            files@ == before,
            before == old(files)@,
            keys == file_keys(before),
            file == put,
            key@ == path_key(put.path@),
            forall|j: int| 0 <= j < i ==> text_less(#[trigger] keys[j], key@),
        decreases files@.len() - i,
    {
        assert(keys[i as int] == path_key(before[i as int].path@));
        i = i + 1;
    }
    proof {
        assert forall|j: int| 0 <= j < i implies #[trigger] before[j].path@ != put.path@ by {
            assert(text_less(keys[j], key@));
            crate::order::lemma_less_irreflexive(key@);
        }
    }
    if i < files.len() && same_text(files[i].path.as_str(), file.path.as_str()) {
        files.set(i, file);
        proof {
            let after = files@;
            assert(file_keys(after) =~= keys);
            assert forall|j: int| 0 <= j < i implies #[trigger] after[j].path@
                != after[i as int].path@ by {
                assert(before[j].path@ != put.path@);
            }
            lemma_file_at_is(after, i as int);
            assert forall|path: Seq<char>| path != put.path@ implies #[trigger] file_at(after, path)
                == file_at(before, path) by {
                lemma_file_at_update(before, i as int, put, path);
            }
        }
    } else {
        proof {
            if i < before.len() {
                lemma_less_total(keys[i as int], key@);
                if keys[i as int] == key@ {
                    assert(path_like(before[i as int].path@));
                    lemma_path_key(before[i as int].path@, put.path@);
                }
            }
            crate::config::lemma_insert_in_order(keys, i as int, key@);
        }
        files.insert(i, file);
        proof {
            let after = files@;
            assert(file_keys(after) =~= keys.insert(i as int, key@));
            assert forall|j: int| 0 <= j < i implies #[trigger] after[j].path@
                != after[i as int].path@ by {
                assert(before[j].path@ != put.path@);
            }
            lemma_file_at_is(after, i as int);
            assert forall|path: Seq<char>| path != put.path@ implies #[trigger] file_at(after, path)
                == file_at(before, path) by {
                lemma_file_at_insert(before, i as int, put, path);
            }
        }
    }
}

/// How a file is told of: by its path below the root of its package, where it is below it, without
/// slashes in front.
pub fn display_path(path: &str, below_root: Option<&str>) -> (r: String)
    ensures
        r@ == without_front_slashes(
            match below_root {
                Some(rest) => rest@,
                None => path@,
            },
        ),
{
    match below_root {
        Some(rest) => trim_front_slashes(rest),
        None => trim_front_slashes(path),
    }
}

// The tests of a file.

/// An entry of the table that a test file gives back.
pub struct TestEntry {
    pub name: String,
    pub is_function: bool,
}

/// Whether an entry is a test.
pub open spec fn is_test(name: Seq<char>) -> bool {
    "test_"@.is_prefix_of(name)
}

/// An entry that should be a test and is no function.
pub open spec fn broken(e: TestEntry) -> bool {
    is_test(e.name@) && !e.is_function
}

/// The tests of a file, in the order of their names, or the name of the first that is no function.
/// Each name comes once.
pub fn select_tests(entries: &Vec<TestEntry>) -> (r: Result<Vec<String>, String>)
    ensures
        match r {
            Ok(names) => {
                &&& forall|i: int| 0 <= i < entries@.len() ==> !broken(#[trigger] entries@[i])
                &&& ascending(texts_view(names@))
                &&& forall|name: Seq<char>| #[trigger]
                    texts_view(names@).contains(name) <==> is_test(name) && exists|
                        i: int,
                    |
                        0 <= i < entries@.len() && (#[trigger] entries@[i]).name@ == name
            },
            Err(message) => exists|i: int|
                0 <= i < entries@.len() && broken(#[trigger] entries@[i]) && message@
                    == entries@[i].name@ + " is not a function"@ && forall|j: int|
                    0 <= j < i ==> !broken(#[trigger] entries@[j]),
        },
{
    let mut names: Vec<String> = Vec::new();
    let mut i: usize = 0;
    assert(ascending(texts_view(names@)));
    while i < entries.len()
        invariant
            i <= entries@.len(),
            forall|j: int| 0 <= j < i ==> !broken(#[trigger] entries@[j]),
            ascending(texts_view(names@)),
            forall|name: Seq<char>| #[trigger]
                texts_view(names@).contains(name) <==> is_test(name) && exists|j: int|
                    0 <= j < i && (#[trigger] entries@[j]).name@ == name,
        decreases entries@.len() - i,
    {
        let e: &TestEntry = &entries[i];
        let ghost before = texts_view(names@);
        if starts_with(e.name.as_str(), "test_") {
            if !e.is_function {
                let mut message: String = copy_text(e.name.as_str());
                message.append(" is not a function");
                assert(broken(entries@[i as int]));
                return Err(message);
            }
            crate::config::insert_name(&mut names, e.name.as_str());
        }
        proof {
            let after = texts_view(names@);
            assert forall|name: Seq<char>| #[trigger] after.contains(name) <==> is_test(name)
                && exists|j: int| 0 <= j < i + 1 && (#[trigger] entries@[j]).name@ == name by {
                if is_test(name) && exists|j: int|
                    0 <= j < i + 1 && (#[trigger] entries@[j]).name@ == name {
                    let j = choose|j: int|
                        0 <= j < i + 1 && (#[trigger] entries@[j]).name@ == name;
                    if j < i {
                        assert(before.contains(name));
                    }
                }
                if after.contains(name) {
                    if !before.contains(name) {
                        assert(entries@[i as int].name@ == name);
                    } else {
                        let j = choose|j: int| 0 <= j < i && (#[trigger] entries@[j]).name@ == name;
                        assert(entries@[j].name@ == name);
                    }
                }
            }
        }
        i = i + 1;
    }
    Ok(names)
}

// The report.

#[derive(Clone, Copy, Debug, PartialEq, Eq, Structural)]
pub enum TestReportStatus {
    Pass,
    Fail,
}

/// What became of one test.
pub struct TestReportEntry {
    pub owner_namespace: String,
    pub file: String,
    pub name: String,
    pub status: TestReportStatus,
    pub error: Option<String>,
}

pub struct ReportEntryView {
    pub owner_namespace: Seq<char>,
    pub file: Seq<char>,
    pub name: Seq<char>,
    pub status: TestReportStatus,
    pub error: Option<Seq<char>>,
}

impl View for TestReportEntry {
    type V = ReportEntryView;

    open spec fn view(&self) -> ReportEntryView {
        ReportEntryView {
            owner_namespace: self.owner_namespace@,
            file: self.file@,
            name: self.name@,
            status: self.status,
            error: text_view(self.error),
        }
    }
}

pub struct TestReportSummary {
    pub passed: usize,
    pub failed: usize,
}

/// What became of every test, in the order in which they ran.
pub struct TestReport {
    pub schema: &'static str,
    pub summary: TestReportSummary,
    pub tests: Vec<TestReportEntry>,
}

pub const REPORT_SCHEMA: &'static str = "fkst.test.report.v1";

/// How many of the tests ended so.
pub open spec fn count(tests: Seq<TestReportEntry>, status: TestReportStatus) -> nat
    decreases tests.len(),
{
    if tests.len() == 0 {
        0
    } else {
        count(tests.drop_last(), status) + if tests.last().status == status {
            1nat
        } else {
            0
        }
    }
}

proof fn lemma_counts(tests: Seq<TestReportEntry>)
    ensures
        count(tests, TestReportStatus::Pass) + count(tests, TestReportStatus::Fail) == tests.len(),
    decreases tests.len(),
{
    if tests.len() > 0 {
        lemma_counts(tests.drop_last());
    }
}

impl TestReport {
    /// The summary counts the tests, and a test that failed says why.
    pub open spec fn well_formed(self) -> bool {
        &&& self.schema@ == REPORT_SCHEMA@
        &&& self.summary.passed == count(self.tests@, TestReportStatus::Pass)
        &&& self.summary.failed == count(self.tests@, TestReportStatus::Fail)
        &&& forall|i: int|
            0 <= i < self.tests@.len() ==> ((#[trigger] self.tests@[i]).error is Some
                <==> self.tests@[i].status == TestReportStatus::Fail)
    }

    pub fn new() -> (r: TestReport)
        ensures
            r.well_formed(),
            r.tests@.len() == 0,
    {
        TestReport {
            schema: REPORT_SCHEMA,
            summary: TestReportSummary { passed: 0, failed: 0 },
            tests: Vec::new(),
        }
    }

    fn push(&mut self, entry: TestReportEntry)
        requires
            old(self).well_formed(),
            entry.error is Some <==> entry.status == TestReportStatus::Fail,
            old(self).tests@.len() < usize::MAX,
        ensures
            final(self).well_formed(),
            final(self).tests@ == old(self).tests@.push(entry),
    {
        let ghost before = self.tests@;
        proof {
            lemma_counts(before);
        }
        match entry.status {
            TestReportStatus::Pass => {
                self.summary.passed = self.summary.passed + 1;
            },
            TestReportStatus::Fail => {
                self.summary.failed = self.summary.failed + 1;
            },
        }
        self.tests.push(entry);
        proof {
            assert(self.tests@.drop_last() =~= before);
            assert forall|i: int| 0 <= i < self.tests@.len() implies ((
            #[trigger] self.tests@[i]).error is Some <==> self.tests@[i].status
                == TestReportStatus::Fail) by {
                if i < before.len() {
                    assert(before[i].error is Some <==> before[i].status == TestReportStatus::Fail);
                }
            }
        }
    }

    /// Notes a test that passed.
    pub fn push_pass(&mut self, owner_namespace: &str, file: &str, name: &str)
        requires
            old(self).well_formed(),
            old(self).tests@.len() < usize::MAX,
        ensures
            final(self).well_formed(),
            final(self).tests@.drop_last() == old(self).tests@,
            final(self).tests@.last()@ == (ReportEntryView {
                owner_namespace: owner_namespace@,
                file: file@,
                name: name@,
                status: TestReportStatus::Pass,
                error: None,
            }),
            final(self).tests@.len() == old(self).tests@.len() + 1,
    {
        self.push(
            TestReportEntry {
                owner_namespace: copy_text(owner_namespace),
                file: copy_text(file),
                name: copy_text(name),
                status: TestReportStatus::Pass,
                error: None,
            },
        );
        assert(self.tests@.drop_last() =~= old(self).tests@);
    }

    /// Notes a test that failed.
    pub fn push_fail(&mut self, owner_namespace: &str, file: &str, name: &str, error: String)
        requires
            old(self).well_formed(),
            old(self).tests@.len() < usize::MAX,
        ensures
            final(self).well_formed(),
            final(self).tests@.drop_last() == old(self).tests@,
            final(self).tests@.last()@ == (ReportEntryView {
                owner_namespace: owner_namespace@,
                file: file@,
                name: name@,
                status: TestReportStatus::Fail,
                error: Some(error@),
            }),
            final(self).tests@.len() == old(self).tests@.len() + 1,
    {
        self.push(
            TestReportEntry {
                owner_namespace: copy_text(owner_namespace),
                file: copy_text(file),
                name: copy_text(name),
                status: TestReportStatus::Fail,
                error: Some(error),
            },
        );
        assert(self.tests@.drop_last() =~= old(self).tests@);
    }

    /// The code that the run ends with: zero where no test failed.
    pub fn exit_code(&self) -> (r: i32)
        requires
            self.well_formed(),
        ensures
            r == if forall|i: int|
                0 <= i < self.tests@.len() ==> (#[trigger] self.tests@[i]).status
                    == TestReportStatus::Pass {
                0i32
            } else {
                1i32
            },
    {
        proof {
            lemma_none_failed(self.tests@);
        }
        if self.summary.failed == 0 {
            0
        } else {
            1
        }
    }

    /// The last line of the run.
    pub fn summary_line(&self) -> (r: String)
        requires
            self.well_formed(),
        ensures
            r@ == decimal(count(self.tests@, TestReportStatus::Pass)) + " passed, "@ + decimal(
                count(self.tests@, TestReportStatus::Fail),
            ) + " failed"@,
    {
        let mut out: String = String::new();
        push_decimal(&mut out, self.summary.passed as u64);
        out.append(" passed, ");
        push_decimal(&mut out, self.summary.failed as u64);
        out.append(" failed");
        assert(out@ =~= decimal(count(self.tests@, TestReportStatus::Pass)) + " passed, "@
            + decimal(count(self.tests@, TestReportStatus::Fail)) + " failed"@);
        out
    }
}

/// No test failed where none is counted as failed.
proof fn lemma_none_failed(tests: Seq<TestReportEntry>)
    ensures
        count(tests, TestReportStatus::Fail) == 0 <==> forall|i: int|
            0 <= i < tests.len() ==> (#[trigger] tests[i]).status == TestReportStatus::Pass,
    decreases tests.len(),
{
    if tests.len() > 0 {
        let front = tests.drop_last();
        lemma_none_failed(front);
        if count(tests, TestReportStatus::Fail) == 0 {
            assert forall|i: int| 0 <= i < tests.len() implies (#[trigger] tests[i]).status
                == TestReportStatus::Pass by {
                if i < front.len() {
                    assert(front[i].status == TestReportStatus::Pass);
                } else {
                    assert(tests[i] == tests.last());
                }
            }
        } else if forall|i: int|
            0 <= i < tests.len() ==> (#[trigger] tests[i]).status == TestReportStatus::Pass {
            assert(tests[tests.len() - 1].status == TestReportStatus::Pass);
            assert forall|i: int| 0 <= i < front.len() implies (#[trigger] front[i]).status
                == TestReportStatus::Pass by {
                assert(tests[i].status == TestReportStatus::Pass);
            }
        }
    }
}

/// What is printed of a test.
pub open spec fn result_of(file: Seq<char>, name: Seq<char>, error: Option<Seq<char>>) -> Seq<char> {
    match error {
        None => "PASS "@ + file + "::"@ + name,
        Some(e) => "FAIL "@ + file + "::"@ + name + ": "@ + e,
    }
}

pub fn result_line(file: &str, name: &str, error: Option<&str>) -> (r: String)
    ensures
        r@ == result_of(
            file@,
            name@,
            match error {
                Some(e) => Some(e@),
                None => None,
            },
        ),
{
    let mut out: String = copy_text(
        match error {
            Some(_) => "FAIL ",
            None => "PASS ",
        },
    );
    out.append(file);
    out.append("::");
    out.append(name);
    match error {
        Some(e) => {
            out.append(": ");
            out.append(e);
        },
        None => {},
    }
    out
}

// Running a department.

/// How the run of a department ended.
pub struct DepartmentRunOutcome {
    pub exit_code: i32,
    pub error: Option<String>,
}

/// A run ends with zero where it succeeds, and else with one and the error.
pub fn run_outcome(ended: Result<(), String>) -> (r: DepartmentRunOutcome)
    ensures
        match ended {
            Ok(_) => r.exit_code == 0 && r.error is None,
            Err(message) => r.exit_code == 1 && r.error == Some(message),
        },
{
    match ended {
        Ok(()) => DepartmentRunOutcome { exit_code: 0, error: None },
        Err(message) => DepartmentRunOutcome { exit_code: 1, error: Some(message) },
    }
}

/// The name of the department whose file is at these pieces of a path below the root of its
/// package: `departments`, the name, `main.lua`.
pub open spec fn name_for(
    pieces: Seq<Seq<char>>,
    owner_namespace: Seq<char>,
    host_namespace: Seq<char>,
) -> Option<Seq<char>> {
    if pieces.len() == 3 && pieces[0] == "departments"@ && pieces[2] == "main.lua"@ {
        Some(
            if owner_namespace == host_namespace {
                pieces[1]
            } else {
                owner_namespace + "."@ + pieces[1]
            },
        )
    } else {
        None
    }
}

pub fn department_name_for_lua(
    pieces: &Vec<String>,
    owner_namespace: &str,
    host_namespace: &str,
) -> (r: Option<String>)
    ensures
        text_view(r) == name_for(texts_view(pieces@), owner_namespace@, host_namespace@),
{
    if pieces.len() == 3 && same_text(pieces[0].as_str(), "departments") && same_text(
        pieces[2].as_str(),
        "main.lua",
    ) {
        if same_text(owner_namespace, host_namespace) {
            Some(copy_text(pieces[1].as_str()))
        } else {
            let mut out: String = copy_text(owner_namespace);
            out.append(".");
            out.append(pieces[1].as_str());
            Some(out)
        }
    } else {
        None
    }
}

/// The queue that an event names, if it names one.
pub fn event_queue(event: &Json) -> (r: Option<String>)
    ensures
        text_view(r) == event@.text_at("queue"@),
{
    event.text_at("queue")
}

/// An event with another queue in the place of the one that it names.
pub open spec fn on_queue(event: JsonView, queue: Seq<char>) -> JsonView {
    match event {
        JsonView::Object(members) => JsonView::Object(
            members.insert("queue"@, JsonView::Text(queue)),
        ),
        other => other,
    }
}

pub fn with_event_queue(event: Json, queue: &str) -> (r: Json)
    ensures
        r@ == on_queue(event@, queue@),
{
    match event {
        Json::Object(members) => {
            let mut changed: Vec<Member> = members;
            put(&mut changed, "queue", Json::text(queue));
            Json::Object(changed)
        },
        other => other,
    }
}

/// The name of a test file that could not be loaded, in the place of the name of a test.
pub const LOAD: &'static str = "<load>";

/// The name under which a report is written before it is given its own.
pub fn report_tmp_name(file_name: &str, pid: u32) -> (r: String)
    ensures
        r@ == "."@ + file_name@ + "."@ + decimal(pid as nat) + ".tmp"@,
{
    let mut out: String = copy_text(".");
    out.append(file_name);
    out.append(".");
    push_decimal(&mut out, pid as u64);
    out.append(".tmp");
    out
}

} // verus!
