//! The launchd unit of a supervisor.

use vstd::prelude::*;
use vstd::string::*;
use crate::journal::{lemma_replaced_all, lemma_replaced_step, replaced};
use crate::text::{copy_text, same_text, texts_view, to_chars};

verus! {

/// Why a launchd unit cannot be made.
pub enum LaunchdError {
    EmptyLabel,
    BadLabel,
    EmptyPath(String),
    RelativePath(String),
    Missing(String),
    MissingValue(String),
    Duplicate(String),
    Unknown(String),
}

pub enum LaunchdFault {
    EmptyLabel,
    BadLabel,
    EmptyPath(Seq<char>),
    RelativePath(Seq<char>),
    Missing(Seq<char>),
    MissingValue(Seq<char>),
    Duplicate(Seq<char>),
    Unknown(Seq<char>),
}

impl View for LaunchdError {
    type V = LaunchdFault;

    open spec fn view(&self) -> LaunchdFault {
        match self {
            LaunchdError::EmptyLabel => LaunchdFault::EmptyLabel,
            LaunchdError::BadLabel => LaunchdFault::BadLabel,
            LaunchdError::EmptyPath(s) => LaunchdFault::EmptyPath(s@),
            LaunchdError::RelativePath(s) => LaunchdFault::RelativePath(s@),
            LaunchdError::Missing(s) => LaunchdFault::Missing(s@),
            LaunchdError::MissingValue(s) => LaunchdFault::MissingValue(s@),
            LaunchdError::Duplicate(s) => LaunchdFault::Duplicate(s@),
            LaunchdError::Unknown(s) => LaunchdFault::Unknown(s@),
        }
    }
}

/// What is said of a fault.
pub open spec fn fault_message(fault: LaunchdFault) -> Seq<char> {
    match fault {
        LaunchdFault::EmptyLabel => "launchd label must not be empty"@,
        LaunchdFault::BadLabel =>
            "launchd label must contain only ASCII letters, digits, '.', '-', or '_'"@,
        LaunchdFault::EmptyPath(flag) => flag + " must not be empty"@,
        LaunchdFault::RelativePath(flag) => flag + " must be absolute for launchd rendering"@,
        LaunchdFault::Missing(flag) => "missing "@ + flag,
        LaunchdFault::MissingValue(flag) => "missing "@ + flag + " value"@,
        LaunchdFault::Duplicate(flag) => "duplicate "@ + flag,
        LaunchdFault::Unknown(arg) => "unknown supervise render-launchd argument: "@ + arg,
    }
}

impl LaunchdError {
    pub fn message(&self) -> (r: String)
        ensures
            r@ == fault_message(self@),
    {
        match self {
            LaunchdError::EmptyLabel => copy_text("launchd label must not be empty"),
            LaunchdError::BadLabel => copy_text(
                "launchd label must contain only ASCII letters, digits, '.', '-', or '_'",
            ),
            LaunchdError::EmptyPath(flag) => copy_text(flag.as_str()).concat(" must not be empty"),
            LaunchdError::RelativePath(flag) => copy_text(flag.as_str()).concat(
                " must be absolute for launchd rendering",
            ),
            LaunchdError::Missing(flag) => copy_text("missing ").concat(flag.as_str()),
            LaunchdError::MissingValue(flag) => copy_text("missing ").concat(flag.as_str()).concat(
                " value",
            ),
            LaunchdError::Duplicate(flag) => copy_text("duplicate ").concat(flag.as_str()),
            LaunchdError::Unknown(arg) => copy_text(
                "unknown supervise render-launchd argument: ",
            ).concat(arg.as_str()),
        }
    }
}

/// A supervisor that launchd keeps alive.
pub struct LaunchdDeploymentUnit {
    pub label: String,
    pub framework_bin: String,
    pub project_root: String,
    pub package_roots: Vec<String>,
    pub runtime_root: String,
    pub durable_root: String,
}

pub struct UnitView {
    pub label: Seq<char>,
    pub framework_bin: Seq<char>,
    pub project_root: Seq<char>,
    pub package_roots: Seq<Seq<char>>,
    pub runtime_root: Seq<char>,
    pub durable_root: Seq<char>,
}

impl View for LaunchdDeploymentUnit {
    type V = UnitView;

    open spec fn view(&self) -> UnitView {
        UnitView {
            label: self.label@,
            framework_bin: self.framework_bin@,
            project_root: self.project_root@,
            package_roots: texts_view(self.package_roots@),
            runtime_root: self.runtime_root@,
            durable_root: self.durable_root@,
        }
    }
}

pub open spec fn is_label_char(c: char) -> bool {
    ('A' <= c && c <= 'Z') || ('a' <= c && c <= 'z') || ('0' <= c && c <= '9') || c == '.' || c
        == '-' || c == '_'
}

pub open spec fn label_fault(label: Seq<char>) -> Option<LaunchdFault> {
    if label.len() == 0 {
        Some(LaunchdFault::EmptyLabel)
    } else if exists|i: int| 0 <= i < label.len() && !is_label_char(#[trigger] label[i]) {
        Some(LaunchdFault::BadLabel)
    } else {
        None
    }
}

pub open spec fn path_fault(flag: Seq<char>, path: Seq<char>) -> Option<LaunchdFault> {
    if path.len() == 0 {
        Some(LaunchdFault::EmptyPath(flag))
    } else if path[0] != '/' {
        Some(LaunchdFault::RelativePath(flag))
    } else {
        None
    }
}

pub open spec fn roots_fault(roots: Seq<Seq<char>>) -> Option<LaunchdFault>
    decreases roots.len(),
{
    if roots.len() == 0 {
        None
    } else {
        match roots_fault(roots.drop_last()) {
            Some(fault) => Some(fault),
            None => path_fault("--package-root"@, roots.last()),
        }
    }
}

/// The first thing that is wrong with a unit.
pub open spec fn unit_fault(unit: UnitView) -> Option<LaunchdFault> {
    match label_fault(unit.label) {
        Some(fault) => Some(fault),
        None => match path_fault("--framework-bin"@, unit.framework_bin) {
            Some(fault) => Some(fault),
            None => match path_fault("--project-root"@, unit.project_root) {
                Some(fault) => Some(fault),
                None => match path_fault("--runtime-root"@, unit.runtime_root) {
                    Some(fault) => Some(fault),
                    None => match path_fault("--durable-root"@, unit.durable_root) {
                        Some(fault) => Some(fault),
                        None => roots_fault(unit.package_roots),
                    },
                },
            },
        },
    }
}

fn validate_label(label: &str) -> (r: Result<(), LaunchdError>)
    ensures
        match r {
            Ok(_) => label_fault(label@) is None,
            Err(e) => label_fault(label@) == Some(e@),
        },
{
    let chars: Vec<char> = to_chars(label);
    if chars.len() == 0 {
        return Err(LaunchdError::EmptyLabel);
    }
    let mut i: usize = 0;
    while i < chars.len()
        invariant
            chars@ == label@,
            label@.len() > 0,
            i <= label@.len(),
            forall|j: int| 0 <= j < i ==> is_label_char(#[trigger] label@[j]),
        decreases label@.len() - i,
    {
        let c: char = chars[i];
        if !(('A' <= c && c <= 'Z') || ('a' <= c && c <= 'z') || ('0' <= c && c <= '9') || c == '.'
            || c == '-' || c == '_') {
            assert(!is_label_char(label@[i as int]));
            return Err(LaunchdError::BadLabel);
        }
        i = i + 1;
    }
    Ok(())
}

fn validate_absolute_path(flag: &str, path: &str) -> (r: Result<(), LaunchdError>)
    ensures
        match r {
            Ok(_) => path_fault(flag@, path@) is None,
            Err(e) => path_fault(flag@, path@) == Some(e@),
        },
{
    let chars: Vec<char> = to_chars(path);
    if chars.len() == 0 {
        Err(LaunchdError::EmptyPath(copy_text(flag)))
    } else if chars[0] != '/' {
        Err(LaunchdError::RelativePath(copy_text(flag)))
    } else {
        Ok(())
    }
}

fn validate_roots(roots: &Vec<String>) -> (r: Result<(), LaunchdError>)
    ensures
        match r {
            Ok(_) => roots_fault(texts_view(roots@)) is None,
            Err(e) => roots_fault(texts_view(roots@)) == Some(e@),
        },
{
    let ghost views = texts_view(roots@);
    let mut i: usize = 0;
    while i < roots.len()
        invariant
            views == texts_view(roots@),
            i <= roots@.len(),
            roots_fault(views.take(i as int)) is None,
        decreases roots@.len() - i,
    {
        proof {
            assert(views.take(i + 1).drop_last() =~= views.take(i as int));
            assert(views.take(i + 1).last() == roots@[i as int]@);
        }
        match validate_absolute_path("--package-root", roots[i].as_str()) {
            Ok(_) => {},
            Err(e) => {
                proof {
                    lemma_roots_fault_stays(views, i + 1);
                }
                return Err(e);
            },
        }
        i = i + 1;
    }
    assert(views.take(views.len() as int) =~= views);
    Ok(())
}

/// The first fault of a front part is the first fault of the whole.
proof fn lemma_roots_fault_stays(roots: Seq<Seq<char>>, n: int)
    requires
        0 <= n <= roots.len(),
        roots_fault(roots.take(n)) is Some,
    ensures
        roots_fault(roots) == roots_fault(roots.take(n)),
    decreases roots.len() - n,
{
    if n == roots.len() {
        assert(roots.take(n) =~= roots);
    } else {
        assert(roots.take(n + 1).drop_last() =~= roots.take(n));
        lemma_roots_fault_stays(roots, n + 1);
    }
}

/// How a character is written in XML.
pub open spec fn xml_char(c: char) -> Seq<char> {
    if c == '&' {
        "&amp;"@
    } else if c == '<' {
        "&lt;"@
    } else if c == '>' {
        "&gt;"@
    } else if c == '"' {
        "&quot;"@
    } else if c == '\'' {
        "&apos;"@
    } else {
        seq![c]
    }
}

pub open spec fn xml_text(s: Seq<char>) -> Seq<char> {
    replaced(s, |c: char| xml_char(c))
}

/// A text as it stands in XML.
pub fn escape_xml(value: &str) -> (r: String)
    ensures
        r@ == xml_text(value@),
{
    let chars: Vec<char> = to_chars(value);
    let mut out: String = String::new();
    let mut i: usize = 0;
    while i < chars.len()
        invariant
            chars@ == value@,
            i <= value@.len(),
            out@ == replaced(value@.take(i as int), |c: char| xml_char(c)),
        decreases value@.len() - i,
    {
        let c: char = chars[i];
        let ghost before = out@;
        if c == '&' {
            out.append("&amp;");
        } else if c == '<' {
            out.append("&lt;");
        } else if c == '>' {
            out.append("&gt;");
        } else if c == '"' {
            out.append("&quot;");
        } else if c == '\'' {
            out.append("&apos;");
        } else {
            out.push(c);
        }
        proof {
            lemma_replaced_step(value@, |c: char| xml_char(c), i as int);
            assert(out@ =~= before + xml_char(c));
        }
        i = i + 1;
    }
    assert(value@.take(value@.len() as int) =~= value@);
    out
}

/// A text in XML holds no character that opens or closes an element.
pub proof fn law_xml_text(s: Seq<char>)
    ensures
        forall|i: int|
            0 <= i < xml_text(s).len() ==> #[trigger] xml_text(s)[i] != '<' && xml_text(s)[i] != '>',
{
    let put = |c: char| xml_char(c);
    let good = |c: char| c != '<' && c != '>';
    reveal_strlit("&amp;");
    reveal_strlit("&lt;");
    reveal_strlit("&gt;");
    reveal_strlit("&quot;");
    reveal_strlit("&apos;");
    assert forall|c: char, i: int| 0 <= i < put(c).len() implies good(#[trigger] put(c)[i]) by {
        assert(put(c) == xml_char(c));
    }
    lemma_replaced_all(s, put, good);
    assert forall|i: int| 0 <= i < xml_text(s).len() implies #[trigger] xml_text(s)[i] != '<'
        && xml_text(s)[i] != '>' by {
        assert(good(replaced(s, put)[i]));
    }
}

/// `base` with a key and its text behind it.
pub open spec fn with_string_key(base: Seq<char>, key: Seq<char>, value: Seq<char>) -> Seq<char> {
    base + "  <key>"@ + xml_text(key) + "</key>\n"@ + "  <string>"@ + xml_text(value)
        + "</string>\n"@
}

fn push_string_key(out: &mut String, key: &str, value: &str)
    ensures
        final(out)@ == with_string_key(old(out)@, key@, value@),
{
    out.append("  <key>");
    out.append(escape_xml(key).as_str());
    out.append("</key>\n");
    out.append("  <string>");
    out.append(escape_xml(value).as_str());
    out.append("</string>\n");
}

/// `base` with the arguments behind it.
pub open spec fn with_arguments(base: Seq<char>, arguments: Seq<Seq<char>>) -> Seq<char>
    decreases arguments.len(),
{
    if arguments.len() == 0 {
        base
    } else {
        with_arguments(base, arguments.drop_last()) + "    <string>"@ + xml_text(arguments.last())
            + "</string>\n"@
    }
}

/// The package roots as arguments, behind the others.
pub open spec fn with_roots(arguments: Seq<Seq<char>>, roots: Seq<Seq<char>>) -> Seq<Seq<char>>
    decreases roots.len(),
{
    if roots.len() == 0 {
        arguments
    } else {
        with_roots(arguments, roots.drop_last()).push("--package-root"@).push(roots.last())
    }
}

/// The command line of the supervisor.
pub open spec fn unit_arguments(unit: UnitView) -> Seq<Seq<char>> {
    with_roots(
        seq![
            unit.framework_bin,
            "supervise"@,
            "--project-root"@,
            unit.project_root,
            "--framework-bin"@,
            unit.framework_bin,
        ],
        unit.package_roots,
    )
}

/// The property list of a unit.
pub open spec fn plist(unit: UnitView) -> Seq<char> {
    let head = with_string_key(
        "<?xml version=\"1.0\" encoding=\"UTF-8\"?>\n"@
            + "<!DOCTYPE plist PUBLIC \"-//Apple//DTD PLIST 1.0//EN\" \"http://www.apple.com/DTDs/PropertyList-1.0.dtd\">\n"@
            + "<plist version=\"1.0\">\n"@ + "<dict>\n"@,
        "Label"@,
        unit.label,
    ) + "  <key>ProgramArguments</key>\n"@ + "  <array>\n"@;
    let program = with_arguments(head, unit_arguments(unit)) + "  </array>\n"@
        + "  <key>EnvironmentVariables</key>\n"@ + "  <dict>\n"@;
    let environment = with_string_key(
        with_string_key(
            with_string_key(program, "FKST_RUNTIME_ROOT"@, unit.runtime_root),
            "FKST_DURABLE_ROOT"@,
            unit.durable_root,
        ),
        "FKST_LAUNCHD_LABEL"@,
        unit.label,
    );
    environment + "  </dict>\n"@ + "  <key>KeepAlive</key>\n"@ + "  <true/>\n"@
        + "  <key>AbandonProcessGroup</key>\n"@ + "  <true/>\n"@ + "</dict>\n"@ + "</plist>\n"@
}

impl LaunchdDeploymentUnit {
    /// A unit whose label and paths launchd takes.
    pub fn new(
        label: String,
        framework_bin: String,
        project_root: String,
        package_roots: Vec<String>,
        runtime_root: String,
        durable_root: String,
    ) -> (r: Result<LaunchdDeploymentUnit, LaunchdError>)
        ensures
            ({
                let unit = UnitView {
                    label: label@,
                    framework_bin: framework_bin@,
                    project_root: project_root@,
                    package_roots: texts_view(package_roots@),
                    runtime_root: runtime_root@,
                    durable_root: durable_root@,
                };
                match r {
                    Ok(made) => unit_fault(unit) is None && made@ == unit,
                    Err(e) => unit_fault(unit) == Some(e@),
                }
            }),
    {
        match validate_label(label.as_str()) {
            Ok(_) => {},
            Err(e) => return Err(e),
        }
        match validate_absolute_path("--framework-bin", framework_bin.as_str()) {
            Ok(_) => {},
            Err(e) => return Err(e),
        }
        match validate_absolute_path("--project-root", project_root.as_str()) {
            Ok(_) => {},
            Err(e) => return Err(e),
        }
        match validate_absolute_path("--runtime-root", runtime_root.as_str()) {
            Ok(_) => {},
            Err(e) => return Err(e),
        }
        match validate_absolute_path("--durable-root", durable_root.as_str()) {
            Ok(_) => {},
            Err(e) => return Err(e),
        }
        match validate_roots(&package_roots) {
            Ok(_) => {},
            Err(e) => return Err(e),
        }
        Ok(
            LaunchdDeploymentUnit {
                label,
                framework_bin,
                project_root,
                package_roots,
                runtime_root,
                durable_root,
            },
        )
    }

    /// The command line of the supervisor.
    pub fn supervise_arguments(&self) -> (r: Vec<String>)
        ensures
            texts_view(r@) == unit_arguments(self@),
    {
        let mut args: Vec<String> = Vec::new();
        args.push(copy_text(self.framework_bin.as_str()));
        args.push(copy_text("supervise"));
        args.push(copy_text("--project-root"));
        args.push(copy_text(self.project_root.as_str()));
        args.push(copy_text("--framework-bin"));
        args.push(copy_text(self.framework_bin.as_str()));
        let ghost first = texts_view(args@);
        assert(first =~= seq![
            self.framework_bin@,
            "supervise"@,
            "--project-root"@,
            self.project_root@,
            "--framework-bin"@,
            self.framework_bin@,
        ]);
        let ghost roots = texts_view(self.package_roots@);
        let mut i: usize = 0;
        while i < self.package_roots.len()
            invariant
                roots == texts_view(self.package_roots@),
                i <= self.package_roots@.len(),
                texts_view(args@) == with_roots(first, roots.take(i as int)),
            decreases self.package_roots@.len() - i,
        {
            let ghost before = texts_view(args@);
            args.push(copy_text("--package-root"));
            args.push(copy_text(self.package_roots[i].as_str()));
            proof {
                assert(roots.take(i + 1).drop_last() =~= roots.take(i as int));
                assert(roots.take(i + 1).last() == self.package_roots@[i as int]@);
                assert(texts_view(args@) =~= before.push("--package-root"@).push(
                    self.package_roots@[i as int]@,
                ));
            }
            i = i + 1;
        }
        assert(roots.take(roots.len() as int) =~= roots);
        args
    }

    /// The property list of the unit.
    pub fn render_launchd_plist(&self) -> (r: String)
        ensures
            r@ == plist(self@),
    {
        let arguments: Vec<String> = self.supervise_arguments();
        let mut out: String = copy_text("<?xml version=\"1.0\" encoding=\"UTF-8\"?>\n");
        out.append(
            "<!DOCTYPE plist PUBLIC \"-//Apple//DTD PLIST 1.0//EN\" \"http://www.apple.com/DTDs/PropertyList-1.0.dtd\">\n",
        );
        out.append("<plist version=\"1.0\">\n");
        out.append("<dict>\n");
        push_string_key(&mut out, "Label", self.label.as_str());
        out.append("  <key>ProgramArguments</key>\n");
        out.append("  <array>\n");
        let ghost head = out@;
        let ghost views = texts_view(arguments@);
        let mut i: usize = 0;
        while i < arguments.len()
            invariant
                views == texts_view(arguments@),
                i <= arguments@.len(),
                out@ == with_arguments(head, views.take(i as int)),
            decreases arguments@.len() - i,
        {
            out.append("    <string>");
            out.append(escape_xml(arguments[i].as_str()).as_str());
            out.append("</string>\n");
            proof {
                assert(views.take(i + 1).drop_last() =~= views.take(i as int));
                assert(views.take(i + 1).last() == arguments@[i as int]@);
            }
            i = i + 1;
        }
        assert(views.take(views.len() as int) =~= views);
        out.append("  </array>\n");
        out.append("  <key>EnvironmentVariables</key>\n");
        out.append("  <dict>\n");
        push_string_key(&mut out, "FKST_RUNTIME_ROOT", self.runtime_root.as_str());
        push_string_key(&mut out, "FKST_DURABLE_ROOT", self.durable_root.as_str());
        push_string_key(&mut out, "FKST_LAUNCHD_LABEL", self.label.as_str());
        out.append("  </dict>\n");
        out.append("  <key>KeepAlive</key>\n");
        out.append("  <true/>\n");
        out.append("  <key>AbandonProcessGroup</key>\n");
        out.append("  <true/>\n");
        out.append("</dict>\n");
        out.append("</plist>\n");
        out
    }
}

// The command line that names a unit.

/// What has been read of the command line.
pub struct ArgsView {
    pub label: Option<Seq<char>>,
    pub framework_bin: Option<Seq<char>>,
    pub project_root: Option<Seq<char>>,
    pub package_roots: Seq<Seq<char>>,
    pub runtime_root: Option<Seq<char>>,
    pub durable_root: Option<Seq<char>>,
}

pub struct RenderLaunchdArgs {
    label: Option<String>,
    framework_bin: Option<String>,
    project_root: Option<String>,
    package_roots: Vec<String>,
    runtime_root: Option<String>,
    durable_root: Option<String>,
}

impl View for RenderLaunchdArgs {
    type V = ArgsView;

    closed spec fn view(&self) -> ArgsView {
        ArgsView {
            label: crate::text::text_view(self.label),
            framework_bin: crate::text::text_view(self.framework_bin),
            project_root: crate::text::text_view(self.project_root),
            package_roots: texts_view(self.package_roots@),
            runtime_root: crate::text::text_view(self.runtime_root),
            durable_root: crate::text::text_view(self.durable_root),
        }
    }
}

pub open spec fn no_args() -> ArgsView {
    ArgsView {
        label: None,
        framework_bin: None,
        project_root: None,
        package_roots: Seq::empty(),
        runtime_root: None,
        durable_root: None,
    }
}

/// The value that stands behind the flag at `i`.
pub open spec fn value_after(args: Seq<Seq<char>>, i: int) -> Result<Seq<char>, LaunchdFault> {
    if i + 1 < args.len() && args[i + 1].len() > 0 {
        Ok(args[i + 1])
    } else {
        Err(LaunchdFault::MissingValue(args[i]))
    }
}

/// What is read once the flag at `i` and its value are read. A label is taken once; a path that is
/// given again replaces the first.
pub open spec fn flag_read(args: Seq<Seq<char>>, i: int, read: ArgsView) -> Result<
    ArgsView,
    LaunchdFault,
> {
    let flag = args[i];
    if flag == "--label"@ {
        if read.label is Some {
            Err(LaunchdFault::Duplicate(flag))
        } else {
            match value_after(args, i) {
                Ok(v) => Ok(ArgsView { label: Some(v), ..read }),
                Err(e) => Err(e),
            }
        }
    } else if flag == "--framework-bin"@ {
        match value_after(args, i) {
            Ok(v) => Ok(ArgsView { framework_bin: Some(v), ..read }),
            Err(e) => Err(e),
        }
    } else if flag == "--project-root"@ {
        match value_after(args, i) {
            Ok(v) => Ok(ArgsView { project_root: Some(v), ..read }),
            Err(e) => Err(e),
        }
    } else if flag == "--package-root"@ {
        match value_after(args, i) {
            Ok(v) => Ok(ArgsView { package_roots: read.package_roots.push(v), ..read }),
            Err(e) => Err(e),
        }
    } else if flag == "--runtime-root"@ {
        match value_after(args, i) {
            Ok(v) => Ok(ArgsView { runtime_root: Some(v), ..read }),
            Err(e) => Err(e),
        }
    } else if flag == "--durable-root"@ {
        match value_after(args, i) {
            Ok(v) => Ok(ArgsView { durable_root: Some(v), ..read }),
            Err(e) => Err(e),
        }
    } else {
        Err(LaunchdFault::Unknown(flag))
    }
}

/// What is read of the command line from `i` on.
pub open spec fn args_read(args: Seq<Seq<char>>, i: int, read: ArgsView) -> Result<
    ArgsView,
    LaunchdFault,
>
    decreases args.len() - i,
{
    if i >= args.len() {
        Ok(read)
    } else {
        match flag_read(args, i, read) {
            Ok(next) => args_read(args, i + 2, next),
            Err(e) => Err(e),
        }
    }
}

/// The unit that a whole command line names.
pub open spec fn unit_of_args(read: ArgsView) -> Result<UnitView, LaunchdFault> {
    match (read.label, read.framework_bin, read.project_root, read.runtime_root, read.durable_root) {
        (None, _, _, _, _) => Err(LaunchdFault::Missing("--label"@)),
        (Some(_), None, _, _, _) => Err(LaunchdFault::Missing("--framework-bin"@)),
        (Some(_), Some(_), None, _, _) => Err(LaunchdFault::Missing("--project-root"@)),
        (Some(_), Some(_), Some(_), None, _) => Err(LaunchdFault::Missing("--runtime-root"@)),
        (Some(_), Some(_), Some(_), Some(_), None) => Err(
            LaunchdFault::Missing("--durable-root"@),
        ),
        (
            Some(label),
            Some(framework_bin),
            Some(project_root),
            Some(runtime_root),
            Some(durable_root),
        ) => {
            let unit = UnitView {
                label,
                framework_bin,
                project_root,
                package_roots: read.package_roots,
                runtime_root,
                durable_root,
            };
            match unit_fault(unit) {
                Some(fault) => Err(fault),
                None => Ok(unit),
            }
        },
    }
}

pub open spec fn unit_of_command_line(args: Seq<Seq<char>>) -> Result<UnitView, LaunchdFault> {
    match args_read(args, 0, no_args()) {
        Ok(read) => unit_of_args(read),
        Err(e) => Err(e),
    }
}

pub open spec fn is_launchd_flag(flag: Seq<char>) -> bool {
    flag == "--label"@ || flag == "--framework-bin"@ || flag == "--project-root"@ || flag
        == "--package-root"@ || flag == "--runtime-root"@ || flag == "--durable-root"@
}

/// Whether a command line is flags that are known, each with a value behind it.
pub open spec fn is_flags_and_values(args: Seq<Seq<char>>) -> bool {
    &&& args.len() % 2 == 0
    &&& forall|i: int|
        0 <= i < args.len() && i % 2 == 0 ==> is_launchd_flag(#[trigger] args[i])
    &&& forall|i: int| 0 <= i < args.len() && i % 2 == 1 ==> (#[trigger] args[i]).len() > 0
}

/// The values that a command line gives for a flag, in their order.
pub open spec fn values_given(args: Seq<Seq<char>>, flag: Seq<char>) -> Seq<Seq<char>>
    decreases args.len(),
{
    if args.len() < 2 {
        Seq::empty()
    } else {
        let before = values_given(args.take(args.len() - 2), flag);
        if args[args.len() - 2] == flag {
            before.push(args.last())
        } else {
            before
        }
    }
}

spec fn last_of(values: Seq<Seq<char>>) -> Option<Seq<char>> {
    if values.len() == 0 {
        None
    } else {
        Some(values.last())
    }
}

/// What a command line says, flag by flag.
spec fn said(args: Seq<Seq<char>>) -> ArgsView {
    ArgsView {
        label: last_of(values_given(args, "--label"@)),
        framework_bin: last_of(values_given(args, "--framework-bin"@)),
        project_root: last_of(values_given(args, "--project-root"@)),
        package_roots: values_given(args, "--package-root"@),
        runtime_root: last_of(values_given(args, "--runtime-root"@)),
        durable_root: last_of(values_given(args, "--durable-root"@)),
    }
}

proof fn lemma_said(args: Seq<Seq<char>>, n: int)
    requires
        is_flags_and_values(args),
        0 <= n <= args.len(),
        n % 2 == 0,
    ensures
        args_read(args, 0, no_args()) == if values_given(args.take(n), "--label"@).len() > 1 {
            Err(LaunchdFault::Duplicate("--label"@))
        } else {
            args_read(args, n, said(args.take(n)))
        },
    decreases n,
{
    reveal_strlit("--label");
    reveal_strlit("--framework-bin");
    reveal_strlit("--project-root");
    reveal_strlit("--package-root");
    reveal_strlit("--runtime-root");
    reveal_strlit("--durable-root");
    if n == 0 {
        assert(said(args.take(0)).package_roots =~= Seq::<Seq<char>>::empty());
        assert(said(args.take(0)) == no_args());
    } else {
        let m = n - 2;
        lemma_said(args, m);
        assert(args.take(n).take(m) =~= args.take(m));
        assert(args.take(n)[m] == args[m]);
        assert(args.take(n).last() == args[m + 1]);
        assert(is_launchd_flag(args[m]));
        assert((m + 1) % 2 == 1);
        assert(args[m + 1].len() > 0);
        let before = said(args.take(m));
        if values_given(args.take(m), "--label"@).len() <= 1 {
            assert(args[m] == "--label"@ && before.label is Some ==> values_given(
                args.take(n),
                "--label"@,
            ).len() > 1);
            if values_given(args.take(n), "--label"@).len() <= 1 {
                assert("--project-root"@[3] == 'r' && "--package-root"@[3] == 'a'
                    && "--runtime-root"@[2] == 'r' && "--durable-root"@[2] == 'd');
                assert("--label"@.len() == 7 && "--framework-bin"@.len() == 15);
                assert("--project-root"@[2] == 'p' && "--package-root"@[2] == 'p');
                assert("--project-root"@.len() == 14 && "--package-root"@.len() == 14
                    && "--runtime-root"@.len() == 14 && "--durable-root"@.len() == 14);
                assert(flag_read(args, m, before) == Ok::<ArgsView, LaunchdFault>(
                    said(args.take(n)),
                ));
            }
        }
    }
}

/// The order of the flags makes no difference: two command lines that give the same values for
/// each flag name the same unit, or are refused for the same reason.
pub proof fn law_the_order_of_flags_makes_no_difference(a: Seq<Seq<char>>, b: Seq<Seq<char>>)
    requires
        is_flags_and_values(a),
        is_flags_and_values(b),
        forall|flag: Seq<char>|
            is_launchd_flag(flag) ==> #[trigger] values_given(a, flag) == values_given(b, flag),
    ensures
        unit_of_command_line(a) == unit_of_command_line(b),
{
    lemma_said(a, a.len() as int);
    lemma_said(b, b.len() as int);
    assert(a.take(a.len() as int) =~= a);
    assert(b.take(b.len() as int) =~= b);
    assert(values_given(a, "--label"@) == values_given(b, "--label"@));
    assert(values_given(a, "--framework-bin"@) == values_given(b, "--framework-bin"@));
    assert(values_given(a, "--project-root"@) == values_given(b, "--project-root"@));
    assert(values_given(a, "--package-root"@) == values_given(b, "--package-root"@));
    assert(values_given(a, "--runtime-root"@) == values_given(b, "--runtime-root"@));
    assert(values_given(a, "--durable-root"@) == values_given(b, "--durable-root"@));
}

fn next_value(args: &Vec<String>, i: usize) -> (r: Result<String, LaunchdError>)
    requires
        i < args@.len(),
    ensures
        match r {
            Ok(v) => value_after(texts_view(args@), i as int) == Ok::<Seq<char>, LaunchdFault>(v@),
            Err(e) => value_after(texts_view(args@), i as int) == Err::<Seq<char>, LaunchdFault>(
                e@,
            ),
        },
{
    if args.len() - i > 1 && !args[i + 1].as_str().is_empty() {
        Ok(copy_text(args[i + 1].as_str()))
    } else {
        Err(LaunchdError::MissingValue(copy_text(args[i].as_str())))
    }
}

/// Reads the command line that names a unit.
pub fn parse_render_launchd_args(args: &Vec<String>) -> (r: Result<
    LaunchdDeploymentUnit,
    LaunchdError,
>)
    requires
        args@.len() < usize::MAX,
    ensures
        match r {
            Ok(unit) => unit_of_command_line(texts_view(args@)) == Ok::<UnitView, LaunchdFault>(
                unit@,
            ),
            Err(e) => unit_of_command_line(texts_view(args@)) == Err::<UnitView, LaunchdFault>(e@),
        },
{
    let ghost views = texts_view(args@);
    let mut read: RenderLaunchdArgs = RenderLaunchdArgs {
        label: None,
        framework_bin: None,
        project_root: None,
        package_roots: Vec::new(),
        runtime_root: None,
        durable_root: None,
    };
    assert(read@.package_roots =~= Seq::<Seq<char>>::empty());
    let mut i: usize = 0;
    while i < args.len()
        invariant
            views == texts_view(args@),
            args@.len() < usize::MAX,
            i <= args@.len() + 1,
            args_read(views, 0, no_args()) == args_read(views, i as int, read@),
        decreases args@.len() + 1 - i,
    {
        let ghost before = read@;
        let flag: &str = args[i].as_str();
        assert(views[i as int] == flag@);
        if same_text(flag, "--label") {
            if read.label.is_some() {
                return Err(LaunchdError::Duplicate(copy_text(flag)));
            }
            match next_value(args, i) {
                Ok(v) => {
                    read.label = Some(v);
                },
                Err(e) => return Err(e),
            }
        } else if same_text(flag, "--framework-bin") {
            match next_value(args, i) {
                Ok(v) => {
                    read.framework_bin = Some(v);
                },
                Err(e) => return Err(e),
            }
        } else if same_text(flag, "--project-root") {
            match next_value(args, i) {
                Ok(v) => {
                    read.project_root = Some(v);
                },
                Err(e) => return Err(e),
            }
        } else if same_text(flag, "--package-root") {
            match next_value(args, i) {
                Ok(v) => {
                    let ghost value = v@;
                    read.package_roots.push(v);
                    assert(read@.package_roots =~= before.package_roots.push(value));
                },
                Err(e) => return Err(e),
            }
        } else if same_text(flag, "--runtime-root") {
            match next_value(args, i) {
                Ok(v) => {
                    read.runtime_root = Some(v);
                },
                Err(e) => return Err(e),
            }
        } else if same_text(flag, "--durable-root") {
            match next_value(args, i) {
                Ok(v) => {
                    read.durable_root = Some(v);
                },
                Err(e) => return Err(e),
            }
        } else {
            return Err(LaunchdError::Unknown(copy_text(flag)));
        }
        assert(flag_read(views, i as int, before) == Ok::<ArgsView, LaunchdFault>(read@));
        i = i + 2;
    }
    let RenderLaunchdArgs {
        label,
        framework_bin,
        project_root,
        package_roots,
        runtime_root,
        durable_root,
    } = read;
    match (label, framework_bin, project_root, runtime_root, durable_root) {
        (Some(a), Some(b), Some(c), Some(d), Some(e)) => LaunchdDeploymentUnit::new(
            a,
            b,
            c,
            package_roots,
            d,
            e,
        ),
        (None, _, _, _, _) => Err(LaunchdError::Missing(copy_text("--label"))),
        (_, None, _, _, _) => Err(LaunchdError::Missing(copy_text("--framework-bin"))),
        (_, _, None, _, _) => Err(LaunchdError::Missing(copy_text("--project-root"))),
        (_, _, _, None, _) => Err(LaunchdError::Missing(copy_text("--runtime-root"))),
        _ => Err(LaunchdError::Missing(copy_text("--durable-root"))),
    }
}

} // verus!
