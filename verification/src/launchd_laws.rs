//! Laws of launchd units: which are refused, what they run, and how they are written and read.

use vstd::prelude::*;
use vstd::string::*;
use crate::journal::lemma_replaced_front;
use crate::launchd::{
    args_read, fault_message, flag_read, is_label_char, label_fault, plist, roots_fault,
    unit_arguments, unit_fault, unit_of_command_line, with_arguments, with_roots, with_string_key,
    xml_char, xml_text, ArgsView, LaunchdFault, UnitView,
};

verus! {

// Which units are refused.

/// A label that launchd takes: letters, digits, dots, dashes and underscores, and at least one.
pub open spec fn is_label(s: Seq<char>) -> bool {
    s.len() > 0 && forall|i: int|
        0 <= i < s.len() ==> ('a' <= #[trigger] s[i] && s[i] <= 'z') || ('A' <= s[i] && s[i] <= 'Z')
            || ('0' <= s[i] && s[i] <= '9') || s[i] == '.' || s[i] == '-' || s[i] == '_'
}

pub open spec fn is_absolute(path: Seq<char>) -> bool {
    path.len() > 0 && path[0] == '/'
}

proof fn lemma_label(label: Seq<char>)
    ensures
        label_fault(label) is None <==> is_label(label),
{
    if label.len() > 0 {
        if label_fault(label) is None {
            assert forall|i: int| 0 <= i < label.len() implies ('a' <= #[trigger] label[i]
                && label[i] <= 'z') || ('A' <= label[i] && label[i] <= 'Z') || ('0' <= label[i]
                && label[i] <= '9') || label[i] == '.' || label[i] == '-' || label[i] == '_' by {
                assert(is_label_char(label[i]));
            }
        } else {
            let i = choose|i: int| 0 <= i < label.len() && !is_label_char(#[trigger] label[i]);
            assert(!is_label_char(label[i]));
        }
    }
}

/// Package roots are refused for the first that is empty or relative.
pub proof fn law_which_package_roots_are_refused(roots: Seq<Seq<char>>, i: int)
    ensures
        roots_fault(roots) is None <==> forall|j: int|
            0 <= j < roots.len() ==> is_absolute(#[trigger] roots[j]),
        0 <= i < roots.len() && !is_absolute(roots[i]) && (forall|j: int|
            0 <= j < i ==> is_absolute(#[trigger] roots[j])) ==> roots_fault(roots) == Some(
            if roots[i].len() == 0 {
                LaunchdFault::EmptyPath("--package-root"@)
            } else {
                LaunchdFault::RelativePath("--package-root"@)
            },
        ),
    decreases roots.len(),
{
    if roots.len() > 0 {
        let front = roots.drop_last();
        law_which_package_roots_are_refused(front, i);
        assert(forall|j: int| 0 <= j < front.len() ==> #[trigger] front[j] == roots[j]);
        if roots_fault(front) is None && is_absolute(roots.last()) {
            assert forall|j: int| 0 <= j < roots.len() implies is_absolute(#[trigger] roots[j]) by {
                if j < front.len() {
                    assert(is_absolute(front[j]));
                }
            }
        }
        if forall|j: int| 0 <= j < roots.len() ==> is_absolute(#[trigger] roots[j]) {
            assert forall|j: int| 0 <= j < front.len() implies is_absolute(#[trigger] front[j]) by {
                assert(is_absolute(roots[j]));
            }
            assert(is_absolute(roots[roots.len() - 1]));
        }
        if 0 <= i < roots.len() && !is_absolute(roots[i]) && (forall|j: int|
            0 <= j < i ==> is_absolute(#[trigger] roots[j])) {
            assert forall|j: int| 0 <= j < i && j < front.len() implies is_absolute(
                #[trigger] front[j],
            ) by {
                assert(is_absolute(roots[j]));
            }
        }
    }
}

/// A unit is taken just where launchd takes its label and each of its paths is absolute.
pub proof fn law_which_units_are_taken(unit: UnitView)
    ensures
        unit_fault(unit) is None <==> is_label(unit.label) && is_absolute(unit.framework_bin)
            && is_absolute(unit.project_root) && is_absolute(unit.runtime_root) && is_absolute(
            unit.durable_root,
        ) && forall|j: int|
            0 <= j < unit.package_roots.len() ==> is_absolute(#[trigger] unit.package_roots[j]),
{
    lemma_label(unit.label);
    law_which_package_roots_are_refused(unit.package_roots, 0);
}

/// A unit with one thing wrong is refused for that.
pub proof fn law_why_a_unit_is_refused(unit: UnitView, wrong: Seq<char>)
    requires
        unit_fault(unit) is None,
    ensures
        unit_fault(UnitView { label: Seq::empty(), ..unit }) == Some(LaunchdFault::EmptyLabel),
        wrong.len() > 0 && !is_label(wrong) ==> unit_fault(UnitView { label: wrong, ..unit })
            == Some(LaunchdFault::BadLabel),
        wrong.len() > 0 && wrong[0] != '/' ==> {
            &&& unit_fault(UnitView { framework_bin: wrong, ..unit }) == Some(
                LaunchdFault::RelativePath("--framework-bin"@),
            )
            &&& unit_fault(UnitView { project_root: wrong, ..unit }) == Some(
                LaunchdFault::RelativePath("--project-root"@),
            )
            &&& unit_fault(UnitView { runtime_root: wrong, ..unit }) == Some(
                LaunchdFault::RelativePath("--runtime-root"@),
            )
            &&& unit_fault(UnitView { durable_root: wrong, ..unit }) == Some(
                LaunchdFault::RelativePath("--durable-root"@),
            )
        },
        unit_fault(UnitView { framework_bin: Seq::empty(), ..unit }) == Some(
            LaunchdFault::EmptyPath("--framework-bin"@),
        ),
        unit_fault(UnitView { project_root: Seq::empty(), ..unit }) == Some(
            LaunchdFault::EmptyPath("--project-root"@),
        ),
        unit_fault(UnitView { runtime_root: Seq::empty(), ..unit }) == Some(
            LaunchdFault::EmptyPath("--runtime-root"@),
        ),
        unit_fault(UnitView { durable_root: Seq::empty(), ..unit }) == Some(
            LaunchdFault::EmptyPath("--durable-root"@),
        ),
{
    lemma_label(unit.label);
    lemma_label(wrong);
}

// What a unit runs.

/// Whether from some place on each package root is named, in their order.
pub open spec fn names_roots(arguments: Seq<Seq<char>>, from: int, roots: Seq<Seq<char>>) -> bool {
    forall|i: int| 0 <= i < roots.len() ==> #[trigger] names_root(arguments, from, roots, i)
}

pub open spec fn names_root(
    arguments: Seq<Seq<char>>,
    from: int,
    roots: Seq<Seq<char>>,
    i: int,
) -> bool {
    arguments[from + 2 * i] == "--package-root"@ && arguments[from + 2 * i + 1] == roots[i]
}

proof fn lemma_roots(arguments: Seq<Seq<char>>, roots: Seq<Seq<char>>)
    ensures
        ({
            let all = with_roots(arguments, roots);
            let n = arguments.len();
            &&& all.len() == n + 2 * roots.len()
            &&& forall|i: int| 0 <= i < n ==> #[trigger] all[i] == arguments[i]
            &&& names_roots(all, n as int, roots)
        }),
    decreases roots.len(),
{
    if roots.len() > 0 {
        lemma_roots(arguments, roots.drop_last());
        let before = with_roots(arguments, roots.drop_last());
        let all = with_roots(arguments, roots);
        let n = arguments.len();
        assert forall|i: int| 0 <= i < roots.len() implies #[trigger] names_root(
            all,
            n as int,
            roots,
            i,
        ) by {
            if i < roots.len() - 1 {
                assert(names_root(before, n as int, roots.drop_last(), i));
                assert(roots.drop_last()[i] == roots[i]);
                assert(all[n + 2 * i] == before[n + 2 * i]);
                assert(all[n + 2 * i + 1] == before[n + 2 * i + 1]);
            }
        }
        assert forall|i: int| 0 <= i < n implies #[trigger] all[i] == arguments[i] by {
            assert(all[i] == before[i]);
        }
    }
}

/// A unit runs its framework binary to supervise its project, and names each of its package roots in
/// their order.
pub proof fn law_what_a_unit_runs(unit: UnitView)
    ensures
        ({
            let all = unit_arguments(unit);
            &&& all.len() == 6 + 2 * unit.package_roots.len()
            &&& all[0] == unit.framework_bin
            &&& all[1] == "supervise"@
            &&& all[2] == "--project-root"@ && all[3] == unit.project_root
            &&& all[4] == "--framework-bin"@ && all[5] == unit.framework_bin
            &&& names_roots(all, 6, unit.package_roots)
        }),
{
    let first = seq![
        unit.framework_bin,
        "supervise"@,
        "--project-root"@,
        unit.project_root,
        "--framework-bin"@,
        unit.framework_bin,
    ];
    lemma_roots(first, unit.package_roots);
    let all = unit_arguments(unit);
    assert(all[0] == first[0] && all[1] == first[1] && all[2] == first[2] && all[3] == first[3]
        && all[4] == first[4] && all[5] == first[5]);
}

// How a unit is written.

/// Whether a text stands somewhere in another.
pub open spec fn stands_in(s: Seq<char>, part: Seq<char>) -> bool {
    exists|a: Seq<char>, b: Seq<char>| s == #[trigger] (a + part + b)
}

proof fn lemma_stands(a: Seq<char>, part: Seq<char>, b: Seq<char>)
    ensures
        stands_in(a + part + b, part),
{
}

proof fn lemma_stands_further(s: Seq<char>, part: Seq<char>, behind: Seq<char>)
    requires
        stands_in(s, part),
    ensures
        stands_in(s + behind, part),
{
    let (a, b) = choose|a: Seq<char>, b: Seq<char>| s == #[trigger] (a + part + b);
    assert(s + behind =~= a + part + (b + behind));
}

/// An entry with a text in a property list.
pub open spec fn text_entry(key: Seq<char>, value: Seq<char>) -> Seq<char> {
    "  <key>"@ + xml_text(key) + "</key>\n"@ + "  <string>"@ + xml_text(value) + "</string>\n"@
}

proof fn lemma_entry(base: Seq<char>, key: Seq<char>, value: Seq<char>)
    ensures
        with_string_key(base, key, value) == base + text_entry(key, value),
        stands_in(with_string_key(base, key, value), text_entry(key, value)),
        forall|part: Seq<char>| #[trigger]
            stands_in(base, part) ==> stands_in(with_string_key(base, key, value), part),
{
    assert(with_string_key(base, key, value) =~= base + text_entry(key, value));
    assert(base + text_entry(key, value) =~= base + text_entry(key, value) + Seq::<char>::empty());
    lemma_stands(base, text_entry(key, value), Seq::empty());
    assert forall|part: Seq<char>| #[trigger] stands_in(base, part) implies stands_in(
        with_string_key(base, key, value),
        part,
    ) by {
        lemma_stands_further(base, part, text_entry(key, value));
    }
}

proof fn lemma_arguments(base: Seq<char>, arguments: Seq<Seq<char>>, i: int)
    ensures
        0 <= i < arguments.len() ==> stands_in(
            with_arguments(base, arguments),
            "    <string>"@ + xml_text(arguments[i]) + "</string>\n"@,
        ),
        forall|part: Seq<char>| #[trigger]
            stands_in(base, part) ==> stands_in(with_arguments(base, arguments), part),
    decreases arguments.len(),
{
    if arguments.len() > 0 {
        let front = with_arguments(base, arguments.drop_last());
        let last = "    <string>"@ + xml_text(arguments.last()) + "</string>\n"@;
        lemma_arguments(base, arguments.drop_last(), i);
        assert(with_arguments(base, arguments) =~= front + last);
        assert(front + last =~= front + last + Seq::<char>::empty());
        lemma_stands(front, last, Seq::empty());
        if 0 <= i < arguments.len() - 1 {
            assert(arguments.drop_last()[i] == arguments[i]);
            lemma_stands_further(
                front,
                "    <string>"@ + xml_text(arguments[i]) + "</string>\n"@,
                last,
            );
        }
        assert forall|part: Seq<char>| #[trigger] stands_in(base, part) implies stands_in(
            with_arguments(base, arguments),
            part,
        ) by {
            lemma_stands_further(front, part, last);
        }
    }
}

/// The property list of a unit holds its label, each of its arguments, its two roots under the names
/// that the supervisor reads, and that launchd keeps it alive.
#[verifier::rlimit(60)]
pub proof fn law_what_a_property_list_holds(unit: UnitView, i: int)
    requires
        0 <= i < unit_arguments(unit).len(),
    ensures
        stands_in(plist(unit), text_entry("Label"@, unit.label)),
        stands_in(
            plist(unit),
            "    <string>"@ + xml_text(unit_arguments(unit)[i]) + "</string>\n"@,
        ),
        stands_in(plist(unit), text_entry("FKST_RUNTIME_ROOT"@, unit.runtime_root)),
        stands_in(plist(unit), text_entry("FKST_DURABLE_ROOT"@, unit.durable_root)),
        stands_in(plist(unit), text_entry("FKST_LAUNCHD_LABEL"@, unit.label)),
        stands_in(plist(unit), "  <key>KeepAlive</key>\n"@ + "  <true/>\n"@),
        stands_in(plist(unit), "  <key>AbandonProcessGroup</key>\n"@ + "  <true/>\n"@),
{
    let front = "<?xml version=\"1.0\" encoding=\"UTF-8\"?>\n"@
        + "<!DOCTYPE plist PUBLIC \"-//Apple//DTD PLIST 1.0//EN\" \"http://www.apple.com/DTDs/PropertyList-1.0.dtd\">\n"@
        + "<plist version=\"1.0\">\n"@ + "<dict>\n"@;
    let labelled = with_string_key(front, "Label"@, unit.label);
    lemma_entry(front, "Label"@, unit.label);
    let opened = "  <key>ProgramArguments</key>\n"@ + "  <array>\n"@;
    let head = labelled + "  <key>ProgramArguments</key>\n"@ + "  <array>\n"@;
    assert(head =~= labelled + opened);
    let arguments = unit_arguments(unit);
    let label = text_entry("Label"@, unit.label);
    lemma_stands_further(labelled, label, opened);
    let listed = with_arguments(head, arguments);
    lemma_arguments(head, arguments, i);
    let argument = "    <string>"@ + xml_text(arguments[i]) + "</string>\n"@;
    let closed = "  </array>\n"@ + "  <key>EnvironmentVariables</key>\n"@ + "  <dict>\n"@;
    let program = listed + "  </array>\n"@ + "  <key>EnvironmentVariables</key>\n"@ + "  <dict>\n"@;
    assert(program =~= listed + closed);
    lemma_stands_further(listed, label, closed);
    lemma_stands_further(listed, argument, closed);
    let first = with_string_key(program, "FKST_RUNTIME_ROOT"@, unit.runtime_root);
    lemma_entry(program, "FKST_RUNTIME_ROOT"@, unit.runtime_root);
    let second = with_string_key(first, "FKST_DURABLE_ROOT"@, unit.durable_root);
    lemma_entry(first, "FKST_DURABLE_ROOT"@, unit.durable_root);
    let third = with_string_key(second, "FKST_LAUNCHD_LABEL"@, unit.label);
    lemma_entry(second, "FKST_LAUNCHD_LABEL"@, unit.label);
    let alive = "  <key>KeepAlive</key>\n"@ + "  <true/>\n"@;
    let abandon = "  <key>AbandonProcessGroup</key>\n"@ + "  <true/>\n"@;
    let ended = "  </dict>\n"@ + "  <key>KeepAlive</key>\n"@ + "  <true/>\n"@
        + "  <key>AbandonProcessGroup</key>\n"@ + "  <true/>\n"@ + "</dict>\n"@ + "</plist>\n"@;
    assert(plist(unit) =~= third + ended);
    lemma_stands_further(third, label, ended);
    lemma_stands_further(third, argument, ended);
    lemma_stands_further(third, text_entry("FKST_RUNTIME_ROOT"@, unit.runtime_root), ended);
    lemma_stands_further(third, text_entry("FKST_DURABLE_ROOT"@, unit.durable_root), ended);
    lemma_stands_further(third, text_entry("FKST_LAUNCHD_LABEL"@, unit.label), ended);
    let before = third + "  </dict>\n"@;
    let rest = abandon + "</dict>\n"@ + "</plist>\n"@;
    assert(plist(unit) =~= before + alive + rest);
    lemma_stands(before, alive, rest);
    assert(plist(unit) =~= (before + alive) + abandon + ("</dict>\n"@ + "</plist>\n"@));
    lemma_stands(before + alive, abandon, "</dict>\n"@ + "</plist>\n"@);
}

proof fn lemma_xml_chars()
    ensures
        "&amp;"@ == seq!['&', 'a', 'm', 'p', ';'],
        "&lt;"@ == seq!['&', 'l', 't', ';'],
        "&gt;"@ == seq!['&', 'g', 't', ';'],
        "&quot;"@ == seq!['&', 'q', 'u', 'o', 't', ';'],
        "&apos;"@ == seq!['&', 'a', 'p', 'o', 's', ';'],
{
    reveal_strlit("&amp;");
    reveal_strlit("&lt;");
    reveal_strlit("&gt;");
    reveal_strlit("&quot;");
    reveal_strlit("&apos;");
    assert("&amp;"@ =~= seq!['&', 'a', 'm', 'p', ';']);
    assert("&lt;"@ =~= seq!['&', 'l', 't', ';']);
    assert("&gt;"@ =~= seq!['&', 'g', 't', ';']);
    assert("&quot;"@ =~= seq!['&', 'q', 'u', 'o', 't', ';']);
    assert("&apos;"@ =~= seq!['&', 'a', 'p', 'o', 's', ';']);
}

/// Different texts are written differently in a property list, and one without the five special
/// characters is written as it is.
pub proof fn law_what_is_written_can_be_read(a: Seq<char>, b: Seq<char>)
    ensures
        xml_text(a) == xml_text(b) ==> a == b,
        (forall|i: int|
            0 <= i < a.len() ==> #[trigger] a[i] != '&' && a[i] != '<' && a[i] != '>' && a[i] != '"'
                && a[i] != '\'') ==> xml_text(a) == a,
    decreases a.len(),
{
    let put = |c: char| xml_char(c);
    lemma_xml_chars();
    if a.len() > 0 {
        lemma_replaced_front(a, put);
        assert(xml_text(a) == xml_char(a[0]) + xml_text(a.drop_first()));
    }
    if b.len() > 0 {
        lemma_replaced_front(b, put);
        assert(xml_text(b) == xml_char(b[0]) + xml_text(b.drop_first()));
    }
    if xml_text(a) == xml_text(b) {
        if a.len() == 0 || b.len() == 0 {
            assert(a =~= b);
        } else {
            let s = xml_text(a);
            let t = xml_text(b);
            assert(s[0] == xml_char(a[0])[0]);
            assert(t[0] == xml_char(b[0])[0]);
            if s[0] == '&' {
                assert(s[1] == xml_char(a[0])[1]);
                assert(t[1] == xml_char(b[0])[1]);
                if s[1] == 'a' {
                    assert(s[2] == xml_char(a[0])[2]);
                    assert(t[2] == xml_char(b[0])[2]);
                }
            }
            assert(a[0] == b[0]);
            let n = xml_char(a[0]).len() as int;
            assert(s.skip(n) =~= xml_text(a.drop_first()));
            assert(t.skip(n) =~= xml_text(b.drop_first()));
            law_what_is_written_can_be_read(a.drop_first(), b.drop_first());
            assert(a =~= seq![a[0]] + a.drop_first());
            assert(b =~= seq![b[0]] + b.drop_first());
        }
    }
    if forall|i: int|
        0 <= i < a.len() ==> #[trigger] a[i] != '&' && a[i] != '<' && a[i] != '>' && a[i] != '"'
            && a[i] != '\'' {
        if a.len() > 0 {
            let rest = a.drop_first();
            assert forall|i: int| 0 <= i < rest.len() implies #[trigger] rest[i] != '&' && rest[i]
                != '<' && rest[i] != '>' && rest[i] != '"' && rest[i] != '\'' by {
                assert(rest[i] == a[i + 1]);
            }
            law_what_is_written_can_be_read(rest, rest);
            assert(a[0] != '&');
            assert(a =~= seq![a[0]] + rest);
        } else {
            assert(xml_text(a) =~= a);
        }
    }
}

// How a unit is read.

proof fn lemma_flags()
    ensures
        "--label"@.len() == 7,
        "--framework-bin"@.len() == 15,
        "--project-root"@.len() == 14 && "--project-root"@[3] == 'r',
        "--package-root"@.len() == 14 && "--package-root"@[3] == 'a',
        "--runtime-root"@.len() == 14 && "--runtime-root"@[3] == 'u',
        "--durable-root"@.len() == 14 && "--durable-root"@[3] == 'u',
        "--runtime-root"@[2] == 'r' && "--durable-root"@[2] == 'd' && "--project-root"@[2] == 'p'
            && "--package-root"@[2] == 'p',
{
    reveal_strlit("--label");
    reveal_strlit("--framework-bin");
    reveal_strlit("--project-root");
    reveal_strlit("--package-root");
    reveal_strlit("--runtime-root");
    reveal_strlit("--durable-root");
}

/// A command line that gives each of the five values, and package roots or none, gives the unit of
/// those values.
pub proof fn law_a_command_line_gives_its_unit(unit: UnitView, args: Seq<Seq<char>>)
    requires
        unit_fault(unit) is None,
        unit.package_roots.len() == 1,
        args == seq![
            "--label"@,
            unit.label,
            "--framework-bin"@,
            unit.framework_bin,
            "--project-root"@,
            unit.project_root,
            "--package-root"@,
            unit.package_roots[0],
            "--runtime-root"@,
            unit.runtime_root,
            "--durable-root"@,
            unit.durable_root,
        ],
    ensures
        unit_of_command_line(args) == Ok::<UnitView, LaunchdFault>(unit),
        unit_of_command_line(args.take(10)) == Err::<UnitView, LaunchdFault>(
            LaunchdFault::Missing("--durable-root"@),
        ),
        unit_of_command_line(args.take(8)) == Err::<UnitView, LaunchdFault>(
            LaunchdFault::Missing("--runtime-root"@),
        ),
        unit_of_command_line(args.take(4)) == Err::<UnitView, LaunchdFault>(
            LaunchdFault::Missing("--project-root"@),
        ),
        unit_of_command_line(args.take(2)) == Err::<UnitView, LaunchdFault>(
            LaunchdFault::Missing("--framework-bin"@),
        ),
        unit_of_command_line(args.take(0)) == Err::<UnitView, LaunchdFault>(
            LaunchdFault::Missing("--label"@),
        ),
{
    lemma_flags();
    law_which_units_are_taken(unit);
    assert(is_absolute(unit.package_roots[0]));
    reveal_with_fuel(args_read, 8);
    assert(args.len() == 12);
    assert(Seq::<Seq<char>>::empty().push(unit.package_roots[0]) =~= unit.package_roots);
    assert(unit_of_command_line(args) == Ok::<UnitView, LaunchdFault>(unit));
}

/// What a flag does to what was read before it: it adds its value, and nothing else changes.
pub proof fn law_what_a_flag_says(
    args: Seq<Seq<char>>,
    i: int,
    read: ArgsView,
    flag: Seq<char>,
    value: Seq<char>,
)
    requires
        0 <= i,
        i + 1 < args.len(),
        args[i] == flag,
        args[i + 1] == value,
        value.len() > 0,
    ensures
        flag == "--label"@ ==> flag_read(args, i, read) == (if read.label is Some {
            Err::<ArgsView, LaunchdFault>(LaunchdFault::Duplicate("--label"@))
        } else {
            Ok(ArgsView { label: Some(value), ..read })
        }),
        flag == "--framework-bin"@ ==> flag_read(args, i, read) == Ok::<ArgsView, LaunchdFault>(
            ArgsView { framework_bin: Some(value), ..read },
        ),
        flag == "--project-root"@ ==> flag_read(args, i, read) == Ok::<ArgsView, LaunchdFault>(
            ArgsView { project_root: Some(value), ..read },
        ),
        flag == "--package-root"@ ==> flag_read(args, i, read) == Ok::<ArgsView, LaunchdFault>(
            ArgsView { package_roots: read.package_roots.push(value), ..read },
        ),
        flag == "--runtime-root"@ ==> flag_read(args, i, read) == Ok::<ArgsView, LaunchdFault>(
            ArgsView { runtime_root: Some(value), ..read },
        ),
        flag == "--durable-root"@ ==> flag_read(args, i, read) == Ok::<ArgsView, LaunchdFault>(
            ArgsView { durable_root: Some(value), ..read },
        ),
        flag != "--label"@ && flag != "--framework-bin"@ && flag != "--project-root"@ && flag
            != "--package-root"@ && flag != "--runtime-root"@ && flag != "--durable-root"@
            ==> flag_read(args, i, read) == Err::<ArgsView, LaunchdFault>(
            LaunchdFault::Unknown(flag),
        ),
{
    lemma_flags();
}

/// A flag without a value behind it is refused.
pub proof fn law_a_flag_without_a_value(args: Seq<Seq<char>>, read: ArgsView, i: int)
    requires
        0 <= i < args.len(),
        crate::launchd::is_launchd_flag(args[i]),
        i + 1 == args.len() || args[i + 1].len() == 0,
        read.label is None,
    ensures
        flag_read(args, i, read) == Err::<ArgsView, LaunchdFault>(
            LaunchdFault::MissingValue(args[i]),
        ),
{
    lemma_flags();
}

/// The message about a refused unit names the flag that it is about, and different faults have
/// different messages.
pub proof fn law_messages_name_what_is_wrong(flag: Seq<char>, other: Seq<char>)
    ensures
        flag.is_prefix_of(fault_message(LaunchdFault::EmptyPath(flag))),
        flag.is_prefix_of(fault_message(LaunchdFault::RelativePath(flag))),
        flag.is_suffix_of(fault_message(LaunchdFault::Missing(flag))),
        flag.is_suffix_of(fault_message(LaunchdFault::Duplicate(flag))),
        flag.is_suffix_of(fault_message(LaunchdFault::Unknown(flag))),
        fault_message(LaunchdFault::EmptyPath(flag)) != fault_message(
            LaunchdFault::RelativePath(flag),
        ),
        fault_message(LaunchdFault::Missing(flag)) != fault_message(LaunchdFault::Duplicate(flag)),
        fault_message(LaunchdFault::Missing(flag)) != fault_message(
            LaunchdFault::MissingValue(flag),
        ),
{
    reveal_strlit(" must not be empty");
    reveal_strlit(" must be absolute for launchd rendering");
    reveal_strlit("missing ");
    reveal_strlit("duplicate ");
    reveal_strlit(" value");
    reveal_strlit("unknown supervise render-launchd argument: ");
    assert(fault_message(LaunchdFault::EmptyPath(flag)).take(flag.len() as int) =~= flag);
    assert(fault_message(LaunchdFault::RelativePath(flag)).take(flag.len() as int) =~= flag);
    let missing = fault_message(LaunchdFault::Missing(flag));
    assert(missing.skip(missing.len() - flag.len()) =~= flag);
    let twice = fault_message(LaunchdFault::Duplicate(flag));
    assert(twice.skip(twice.len() - flag.len()) =~= flag);
    let unknown = fault_message(LaunchdFault::Unknown(flag));
    assert(unknown.skip(unknown.len() - flag.len()) =~= flag);
    assert(missing.len() != twice.len());
}

} // verus!
