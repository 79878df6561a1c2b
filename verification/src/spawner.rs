//! Framework children: what they are started with, and what is captured of their output.

use vstd::prelude::*;
use vstd::string::*;
use vstd::utf8::{decode_utf8, valid_utf8};
use crate::cutting::{join, join_texts, split, split_text};
use crate::numeral::{decimal, decimal_text, push_decimal, push_padded_decimal, zero_padded};
use crate::text::{copy_text, same_text, text_view, texts_view};

verus! {

/// What came of a framework child.
pub struct SpawnResult {
    pub pid: u32,
    pub exit_code: i32,
    pub stdout: String,
    pub stderr: String,
    pub spawn_return_ms: u128,
    pub first_pipe_read_ms: Option<u128>,
    pub wait_complete_ms: u128,
    pub capture_complete_ms: u128,
    pub elapsed_ms: u128,
    pub log_path: Option<String>,
}

#[derive(Clone, Copy, Debug, PartialEq, Eq, Structural)]
pub enum FrameworkStream {
    Stdout,
    Stderr,
}

/// The text that `String::from_utf8_lossy` makes of bytes.
pub uninterp spec fn lossy_text(bytes: Seq<u8>) -> Seq<char>;

/// `String::from_utf8_lossy`: UTF-8 is read as it stands; what is put in place of other bytes is
/// named, and depends on the bytes alone.
#[verifier::external_body]
pub(crate) fn read_lossy(bytes: &[u8]) -> (r: String)
    ensures
        r@ == lossy_text(bytes@),
        valid_utf8(bytes@) ==> r@ == decode_utf8(bytes@),
{
    String::from_utf8_lossy(bytes).into_owned()
}

/// The earlier of two times, where there was one before.
pub open spec fn earlier(before: Option<u128>, now: u128) -> u128 {
    match before {
        Some(first) if first <= now => first,
        _ => now,
    }
}

/// What was captured of the output, and when the first of it was read.
pub struct FrameworkOutput {
    pub stdout: Vec<u8>,
    pub stderr: Vec<u8>,
    pub first_pipe_read_ms: Option<u128>,
}

impl FrameworkOutput {
    pub fn new() -> (r: FrameworkOutput)
        ensures
            r.stdout@.len() == 0,
            r.stderr@.len() == 0,
            r.first_pipe_read_ms is None,
    {
        FrameworkOutput { stdout: Vec::new(), stderr: Vec::new(), first_pipe_read_ms: None }
    }

    /// Takes a chunk of one stream in.
    pub fn push(&mut self, stream: FrameworkStream, bytes: &Vec<u8>, read_complete_ms: u128)
        ensures
            final(self).stdout@ == if stream == FrameworkStream::Stdout {
                old(self).stdout@ + bytes@
            } else {
                old(self).stdout@
            },
            final(self).stderr@ == if stream == FrameworkStream::Stderr {
                old(self).stderr@ + bytes@
            } else {
                old(self).stderr@
            },
            final(self).first_pipe_read_ms == Some(
                earlier(old(self).first_pipe_read_ms, read_complete_ms),
            ),
    {
        self.first_pipe_read_ms =
        match self.first_pipe_read_ms {
            Some(first) => if first <= read_complete_ms {
                Some(first)
            } else {
                Some(read_complete_ms)
            },
            None => Some(read_complete_ms),
        };
        match stream {
            FrameworkStream::Stdout => append_bytes(&mut self.stdout, bytes.as_slice()),
            FrameworkStream::Stderr => append_bytes(&mut self.stderr, bytes.as_slice()),
        }
    }
}

/// Puts bytes behind others.
pub fn append_bytes(out: &mut Vec<u8>, bytes: &[u8])
    ensures
        final(out)@ == old(out)@ + bytes@,
{
    let ghost before = out@;
    let mut i: usize = 0;
    assert(before + bytes@.take(0) =~= before);
    while i < bytes.len()
        invariant
            i <= bytes@.len(),
            out@ == before + bytes@.take(i as int),
        decreases bytes@.len() - i,
    {
        out.push(bytes[i]);
        assert(bytes@.take(i + 1) =~= bytes@.take(i as int).push(bytes@[i as int]));
        assert(out@ =~= before + bytes@.take(i + 1));
        i = i + 1;
    }
    assert(bytes@.take(bytes@.len() as int) =~= bytes@);
}

/// Where the first line end stands, or the length.
pub open spec fn line_end(bytes: Seq<u8>) -> nat
    decreases bytes.len(),
{
    if bytes.len() == 0 || bytes[0] == 10 {
        0
    } else {
        1 + line_end(bytes.drop_first())
    }
}

/// A line without the carriage return at its end.
pub open spec fn without_return(line: Seq<u8>) -> Seq<u8> {
    if line.len() > 0 && line.last() == 13 {
        line.drop_last()
    } else {
        line
    }
}

/// The whole lines in a row of bytes.
pub open spec fn whole_lines(bytes: Seq<u8>) -> Seq<Seq<char>>
    decreases bytes.len(),
{
    let end = line_end(bytes);
    if end < bytes.len() {
        seq![lossy_text(without_return(bytes.take(end as int)))] + whole_lines(
            bytes.skip(end as int + 1),
        )
    } else {
        Seq::empty()
    }
}

/// What stands behind the last line end.
pub open spec fn unfinished_line(bytes: Seq<u8>) -> Seq<u8>
    decreases bytes.len(),
{
    let end = line_end(bytes);
    if end < bytes.len() {
        unfinished_line(bytes.skip(end as int + 1))
    } else {
        bytes
    }
}

proof fn lemma_line_end(a: Seq<u8>, b: Seq<u8>)
    ensures
        line_end(a) <= a.len(),
        line_end(a) < a.len() ==> line_end(a + b) == line_end(a),
    decreases a.len(),
{
    if a.len() > 0 && a[0] != 10 {
        lemma_line_end(a.drop_first(), b);
        assert((a + b).drop_first() =~= a.drop_first() + b);
    }
}

/// Output that comes in two pieces gives the lines, and leaves the rest, that it gives and leaves
/// in one piece, wherever it is cut.
pub proof fn law_lines_do_not_depend_on_the_pieces(pending: Seq<u8>, a: Seq<u8>, b: Seq<u8>)
    ensures
        whole_lines(pending + (a + b)) == whole_lines(pending + a) + whole_lines(
            unfinished_line(pending + a) + b,
        ),
        unfinished_line(pending + (a + b)) == unfinished_line(unfinished_line(pending + a) + b),
{
    assert(pending + (a + b) =~= (pending + a) + b);
    lemma_two_pieces(pending + a, b);
}

proof fn lemma_two_pieces(a: Seq<u8>, b: Seq<u8>)
    ensures
        whole_lines(a + b) == whole_lines(a) + whole_lines(unfinished_line(a) + b),
        unfinished_line(a + b) == unfinished_line(unfinished_line(a) + b),
    decreases a.len(),
{
    lemma_line_end(a, b);
    let end = line_end(a) as int;
    if end < a.len() {
        lemma_two_pieces(a.skip(end + 1), b);
        assert((a + b).skip(end + 1) =~= a.skip(end + 1) + b);
        assert((a + b).take(end) =~= a.take(end));
        assert(whole_lines(a + b) =~= whole_lines(a) + whole_lines(unfinished_line(a) + b));
    } else {
        assert(whole_lines(a) + whole_lines(a + b) =~= whole_lines(a + b));
    }
}

/// The bytes of standard output behind the last whole line.
pub struct StdoutLineBuffer {
    pub pending: Vec<u8>,
}

impl StdoutLineBuffer {
    pub fn new() -> (r: StdoutLineBuffer)
        ensures
            r.pending@.len() == 0,
    {
        StdoutLineBuffer { pending: Vec::new() }
    }

    /// Takes bytes in, and hands out the lines that are whole now.
    pub fn push(&mut self, bytes: &[u8]) -> (lines: Vec<String>)
        ensures
            texts_view(lines@) == whole_lines(old(self).pending@ + bytes@),
            final(self).pending@ == unfinished_line(old(self).pending@ + bytes@),
    {
        append_bytes(&mut self.pending, bytes);
        let ghost all = self.pending@;
        let mut lines: Vec<String> = Vec::new();
        let len: usize = self.pending.len();
        let mut from: usize = 0;
        let mut at: usize = 0;
        proof {
            assert(all.skip(0) =~= all);
            assert(texts_view(lines@) + whole_lines(all) =~= whole_lines(all));
        }
        while at < len
            invariant
                self.pending@ == all,
                len == all.len(),
                from <= at <= len,
                line_end(all.skip(from as int)) == (at - from) + line_end(all.skip(at as int)),
                whole_lines(all) == texts_view(lines@) + whole_lines(all.skip(from as int)),
                unfinished_line(all) == unfinished_line(all.skip(from as int)),
            decreases len - at,
        {
            let ghost rest = all.skip(from as int);
            if self.pending[at] == 10 {
                let mut end: usize = at;
                assert(line_end(all.skip(at as int)) == 0);
                assert(rest.take(at - from) =~= all.subrange(from as int, at as int));
                if end > from && self.pending[end - 1] == 13 {
                    assert(rest.take(at - from).last() == 13);
                    end = end - 1;
                } else if end > from {
                    assert(rest.take(at - from).last() == all[end - 1]);
                }
                assert(without_return(rest.take(at - from)) =~= all.subrange(
                    from as int,
                    end as int,
                ));
                let ghost before = texts_view(lines@);
                let line: String = read_lossy(
                    vstd::slice::slice_subrange(self.pending.as_slice(), from, end),
                );
                let ghost text = line@;
                lines.push(line);
                proof {
                    assert(texts_view(lines@) =~= before.push(text));
                    assert(rest.skip(at - from + 1) =~= all.skip(at + 1));
                    assert(before + whole_lines(rest) =~= texts_view(lines@) + whole_lines(
                        all.skip(at + 1),
                    ));
                }
                from = at + 1;
            } else {
                assert(all.skip(at as int).drop_first() =~= all.skip(at + 1));
            }
            at = at + 1;
        }
        proof {
            assert(texts_view(lines@) + Seq::<Seq<char>>::empty() =~= texts_view(lines@));
            assert(all.skip(from as int) =~= all.subrange(from as int, len as int));
        }
        let rest: Vec<u8> = vstd::slice::slice_to_vec(
            vstd::slice::slice_subrange(self.pending.as_slice(), from, len),
        );
        self.pending = rest;
        lines
    }
}

/// What happens to a framework child.
pub enum FrameworkEvent {
    Output { stream: FrameworkStream, bytes: Vec<u8>, read_complete_ms: u128 },
    Exited { status: Result<Option<i32>, String>, wait_complete_ms: u128 },
    Closed,
}

/// How a child ended: its code where it has one, or what went wrong in waiting for it, and when.
pub struct ChildExit {
    pub status: Result<Option<i32>, String>,
    pub wait_complete_ms: Option<u128>,
}

/// What was captured of a child so far.
pub struct FrameworkCapture {
    pub output: FrameworkOutput,
    pub line_buffer: StdoutLineBuffer,
    pub exit: Option<ChildExit>,
}

/// What is done about an event of a child: the bytes for the log, and the whole lines for the
/// observer.
pub struct CaptureStep {
    pub log: Vec<u8>,
    pub lines: Vec<String>,
}

/// A chunk of output as it stands in the log: the name of the stream, the bytes, and a line end
/// where they have none.
pub open spec fn chunk_log(stream: FrameworkStream, bytes: Seq<u8>) -> Seq<u8> {
    let header = match stream {
        FrameworkStream::Stdout => seq![83u8, 84u8, 68u8, 79u8, 85u8, 84u8, 10u8],
        FrameworkStream::Stderr => seq![83u8, 84u8, 68u8, 69u8, 82u8, 82u8, 10u8],
    };
    if bytes.len() > 0 && bytes.last() == 10 {
        header + bytes
    } else {
        header + bytes + seq![10u8]
    }
}

/// The bytes that the log gets for a chunk.
pub fn log_chunk(stream: FrameworkStream, bytes: &Vec<u8>) -> (r: Vec<u8>)
    ensures
        r@ == chunk_log(stream, bytes@),
{
    let mut out: Vec<u8> = Vec::new();
    out.push(83);
    out.push(84);
    out.push(68);
    match stream {
        FrameworkStream::Stdout => {
            out.push(79);
            out.push(85);
            out.push(84);
        },
        FrameworkStream::Stderr => {
            out.push(69);
            out.push(82);
            out.push(82);
        },
    }
    out.push(10);
    let ghost header = out@;
    append_bytes(&mut out, bytes.as_slice());
    if !(bytes.len() > 0 && bytes[bytes.len() - 1] == 10) {
        out.push(10);
    }
    assert(out@ =~= chunk_log(stream, bytes@));
    out
}

impl FrameworkCapture {
    pub fn new() -> (r: FrameworkCapture)
        ensures
            r.output.stdout@.len() == 0,
            r.output.stderr@.len() == 0,
            r.output.first_pipe_read_ms is None,
            r.line_buffer.pending@.len() == 0,
            r.exit is None,
    {
        FrameworkCapture {
            output: FrameworkOutput::new(),
            line_buffer: StdoutLineBuffer::new(),
            exit: None,
        }
    }

    /// Takes an event in. Output counts before and after the exit; the first end of the child is
    /// the one that stands.
    pub fn step(&mut self, event: FrameworkEvent) -> (r: CaptureStep)
        ensures
            match event {
                FrameworkEvent::Output { stream, bytes, read_complete_ms } => {
                    &&& final(self).exit == old(self).exit
                    &&& bytes@.len() == 0 ==> {
                        &&& final(self).output == old(self).output
                        &&& final(self).line_buffer == old(self).line_buffer
                        &&& r.log@.len() == 0
                        &&& r.lines@.len() == 0
                    }
                    &&& bytes@.len() > 0 ==> {
                        &&& r.log@ == chunk_log(stream, bytes@)
                        &&& final(self).output.first_pipe_read_ms == Some(
                            earlier(old(self).output.first_pipe_read_ms, read_complete_ms),
                        )
                    }
                    &&& bytes@.len() > 0 && stream == FrameworkStream::Stdout ==> {
                        let pending = old(self).line_buffer.pending@ + bytes@;
                        &&& final(self).output.stdout@ == old(self).output.stdout@ + bytes@
                        &&& final(self).output.stderr@ == old(self).output.stderr@
                        &&& texts_view(r.lines@) == whole_lines(pending)
                        &&& final(self).line_buffer.pending@ == unfinished_line(pending)
                    }
                    &&& bytes@.len() > 0 && stream == FrameworkStream::Stderr ==> {
                        &&& final(self).output.stderr@ == old(self).output.stderr@ + bytes@
                        &&& final(self).output.stdout@ == old(self).output.stdout@
                        &&& r.lines@.len() == 0
                        &&& final(self).line_buffer == old(self).line_buffer
                    }
                },
                FrameworkEvent::Exited { status, wait_complete_ms } => {
                    &&& final(self).output == old(self).output
                    &&& final(self).line_buffer == old(self).line_buffer
                    &&& r.log@.len() == 0 && r.lines@.len() == 0
                    &&& old(self).exit is Some ==> final(self).exit == old(self).exit
                    &&& old(self).exit is None ==> final(self).exit == Some(
                        ChildExit { status, wait_complete_ms: Some(wait_complete_ms) },
                    )
                },
                FrameworkEvent::Closed => {
                    &&& final(self).output == old(self).output
                    &&& final(self).line_buffer == old(self).line_buffer
                    &&& r.log@.len() == 0 && r.lines@.len() == 0
                    &&& old(self).exit is Some ==> final(self).exit == old(self).exit
                    &&& old(self).exit is None ==> {
                        &&& final(self).exit is Some
                        &&& final(self).exit->0.wait_complete_ms is None
                        &&& final(self).exit->0.status is Err
                        &&& final(self).exit->0.status->Err_0@
                            == "framework wait channel closed before process exit"@
                    }
                },
            },
    {
        match event {
            FrameworkEvent::Output { stream, bytes, read_complete_ms } => {
                if bytes.len() == 0 {
                    return CaptureStep { log: Vec::new(), lines: Vec::new() };
                }
                let log: Vec<u8> = log_chunk(stream, &bytes);
                let lines: Vec<String> = match stream {
                    FrameworkStream::Stdout => self.line_buffer.push(bytes.as_slice()),
                    FrameworkStream::Stderr => Vec::new(),
                };
                self.output.push(stream, &bytes, read_complete_ms);
                CaptureStep { log, lines }
            },
            FrameworkEvent::Exited { status, wait_complete_ms } => {
                if self.exit.is_none() {
                    self.exit = Some(
                        ChildExit { status, wait_complete_ms: Some(wait_complete_ms) },
                    );
                }
                CaptureStep { log: Vec::new(), lines: Vec::new() }
            },
            FrameworkEvent::Closed => {
                if self.exit.is_none() {
                    self.exit = Some(
                        ChildExit {
                            status: Err(
                                copy_text("framework wait channel closed before process exit"),
                            ),
                            wait_complete_ms: None,
                        },
                    );
                }
                CaptureStep { log: Vec::new(), lines: Vec::new() }
            },
        }
    }
}

/// The result of a child from how it ended: an error where waiting failed, minus one where it was
/// ended by a signal.
pub fn spawn_result_from_status(
    pid: u32,
    exit: ChildExit,
    output: &FrameworkOutput,
    spawn_return_ms: u128,
    capture_complete_ms: u128,
    log_path: Option<String>,
) -> (r: Result<SpawnResult, String>)
    ensures
        match (exit.status, exit.wait_complete_ms) {
            (Err(message), _) => r is Err && r->Err_0@ == message@,
            (Ok(_), None) => r is Err && r->Err_0@
                == "framework wait channel closed before process exit"@,
            (Ok(code), Some(waited)) => {
                &&& r is Ok
                &&& r->Ok_0.pid == pid
                &&& r->Ok_0.exit_code == match code {
                    Some(c) => c,
                    None => -1i32,
                }
                &&& r->Ok_0.stdout@ == lossy_text(output.stdout@)
                &&& r->Ok_0.stderr@ == lossy_text(output.stderr@)
                &&& r->Ok_0.spawn_return_ms == spawn_return_ms
                &&& r->Ok_0.first_pipe_read_ms == output.first_pipe_read_ms
                &&& r->Ok_0.wait_complete_ms == waited
                &&& r->Ok_0.capture_complete_ms == capture_complete_ms
                &&& r->Ok_0.elapsed_ms == capture_complete_ms
                &&& r->Ok_0.log_path == log_path
            },
        },
{
    let code: Option<i32> = match exit.status {
        Ok(code) => code,
        Err(message) => return Err(message),
    };
    match exit.wait_complete_ms {
        None => Err(copy_text("framework wait channel closed before process exit")),
        Some(wait_complete_ms) => Ok(
            SpawnResult {
                pid,
                exit_code: match code {
                    Some(c) => c,
                    None => -1,
                },
                stdout: read_lossy(output.stdout.as_slice()),
                stderr: read_lossy(output.stderr.as_slice()),
                spawn_return_ms,
                first_pipe_read_ms: output.first_pipe_read_ms,
                wait_complete_ms,
                capture_complete_ms,
                elapsed_ms: capture_complete_ms,
                log_path,
            },
        ),
    }
}

// What a child is started with.

/// Each package root behind its flag.
pub open spec fn root_flags(roots: Seq<Seq<char>>) -> Seq<Seq<char>> {
    Seq::new(roots.len(), |i: int| "--package-root "@ + roots[i])
}

/// The package roots as they stand on the command line.
pub fn package_root_flags(package_roots: &Vec<String>) -> (r: String)
    ensures
        r@ == join(root_flags(texts_view(package_roots@)), " "@),
{
    let mut flags: Vec<String> = Vec::new();
    let mut i: usize = 0;
    while i < package_roots.len()
        invariant
            i <= package_roots@.len(),
            flags@.len() == i,
            forall|j: int|
                0 <= j < i ==> #[trigger] flags@[j]@ == "--package-root "@ + package_roots@[j]@,
        decreases package_roots@.len() - i,
    {
        flags.push(copy_text("--package-root ").concat(package_roots[i].as_str()));
        i = i + 1;
    }
    assert(texts_view(flags@) =~= root_flags(texts_view(package_roots@)));
    join_texts(&flags, " ")
}

/// The package roots with semicolons between them.
pub fn package_root_list(package_roots: &Vec<String>) -> (r: String)
    ensures
        r@ == join(texts_view(package_roots@), ";"@),
{
    join_texts(package_roots, ";")
}

/// The arguments of a child, behind which the package roots go.
pub open spec fn with_root_args(args: Seq<Seq<char>>, roots: Seq<Seq<char>>) -> Seq<Seq<char>>
    decreases roots.len(),
{
    if roots.len() == 0 {
        args
    } else {
        with_root_args(args, roots.drop_last()).push("--package-root"@).push(roots.last())
    }
}

/// The arguments that a framework child is started with.
pub open spec fn child_args(
    lua: Seq<char>,
    host_root: Seq<char>,
    roots: Seq<Seq<char>>,
    owner_namespace: Seq<char>,
    event_json: Seq<char>,
) -> Seq<Seq<char>> {
    with_root_args(seq!["run"@, lua, "--project-root"@, host_root], roots) + seq![
        "--owner-namespace"@,
        owner_namespace,
        "--event"@,
        event_json,
    ]
}

pub fn framework_args(
    lua_path: &str,
    host_root: &str,
    package_roots: &Vec<String>,
    owner_namespace: &str,
    event_json: &str,
) -> (r: Vec<String>)
    ensures
        texts_view(r@) == child_args(
            lua_path@,
            host_root@,
            texts_view(package_roots@),
            owner_namespace@,
            event_json@,
        ),
{
    let mut args: Vec<String> = Vec::new();
    args.push(copy_text("run"));
    args.push(copy_text(lua_path));
    args.push(copy_text("--project-root"));
    args.push(copy_text(host_root));
    let ghost first = texts_view(args@);
    assert(first =~= seq!["run"@, lua_path@, "--project-root"@, host_root@]);
    let ghost roots = texts_view(package_roots@);
    let mut i: usize = 0;
    while i < package_roots.len()
        invariant
            roots == texts_view(package_roots@),
            i <= package_roots@.len(),
            texts_view(args@) == with_root_args(first, roots.take(i as int)),
        decreases package_roots@.len() - i,
    {
        let ghost before = texts_view(args@);
        args.push(copy_text("--package-root"));
        args.push(copy_text(package_roots[i].as_str()));
        proof {
            assert(roots.take(i + 1).drop_last() =~= roots.take(i as int));
            assert(roots.take(i + 1).last() == package_roots@[i as int]@);
            assert(texts_view(args@) =~= before.push("--package-root"@).push(
                package_roots@[i as int]@,
            ));
        }
        i = i + 1;
    }
    assert(roots.take(roots.len() as int) =~= roots);
    let ghost before = texts_view(args@);
    args.push(copy_text("--owner-namespace"));
    args.push(copy_text(owner_namespace));
    args.push(copy_text("--event"));
    args.push(copy_text(event_json));
    assert(texts_view(args@) =~= before + seq![
        "--owner-namespace"@,
        owner_namespace@,
        "--event"@,
        event_json@,
    ]);
    args
}

/// The command line as the log shows it, with the event left out.
pub open spec fn shown_command(
    binary: Seq<char>,
    lua: Seq<char>,
    host_root: Seq<char>,
    roots: Seq<Seq<char>>,
    owner_namespace: Seq<char>,
) -> Seq<char> {
    binary + " run "@ + lua + " --project-root "@ + host_root + " "@ + join(
        root_flags(roots),
        " "@,
    ) + " --owner-namespace "@ + owner_namespace + " --event <json>"@
}

pub fn command_line(
    binary: &str,
    lua_path: &str,
    host_root: &str,
    package_roots: &Vec<String>,
    owner_namespace: &str,
) -> (r: String)
    ensures
        r@ == shown_command(
            binary@,
            lua_path@,
            host_root@,
            texts_view(package_roots@),
            owner_namespace@,
        ),
{
    let mut out: String = copy_text(binary);
    out.append(" run ");
    out.append(lua_path);
    out.append(" --project-root ");
    out.append(host_root);
    out.append(" ");
    out.append(package_root_flags(package_roots).as_str());
    out.append(" --owner-namespace ");
    out.append(owner_namespace);
    out.append(" --event <json>");
    out
}

/// What is set and what is taken out of the environment of a child.
pub struct ChildEnv {
    pub set: Vec<(String, String)>,
    pub removed: Vec<String>,
}

pub open spec fn pairs_view(v: Seq<(String, String)>) -> Seq<(Seq<char>, Seq<char>)> {
    Seq::new(v.len(), |i: int| (v[i].0@, v[i].1@))
}

/// The variables that a child gets.
pub open spec fn env_set(
    permit_slots_env: Seq<char>,
    permit_slots: u64,
    supervisor_pid: u32,
    token: Option<Seq<char>>,
    bypass: bool,
) -> Seq<(Seq<char>, Seq<char>)> {
    let base = seq![
        (permit_slots_env, decimal(permit_slots as nat)),
        ("FKST_SUPERVISOR_PID"@, decimal(supervisor_pid as nat)),
    ];
    let with_token = match token {
        Some(t) => base.push(("FKST_RAISED_AUTH_TOKEN"@, t)),
        None => base,
    };
    if bypass {
        with_token.push(("FKST_INTERNAL_CACHE_REPLAY_BYPASS"@, "1"@)).push(
            ("FKST_INTERNAL_ONCE_REPLAY_BYPASS"@, "1"@),
        )
    } else {
        with_token
    }
}

/// The variables that a child must not get: the paths of the engine's binaries, and the marks of
/// a replay where this is none.
pub open spec fn env_removed(bypass: bool) -> Seq<Seq<char>> {
    let engine = seq!["BIN"@, "FKST_FRAMEWORK_BIN"@, "FKST_CODEX_WORKER_BIN"@];
    if bypass {
        engine
    } else {
        seq!["FKST_INTERNAL_CACHE_REPLAY_BYPASS"@, "FKST_INTERNAL_ONCE_REPLAY_BYPASS"@] + engine
    }
}

pub fn framework_env(
    permit_slots_env: &str,
    permit_slots: u64,
    supervisor_pid: u32,
    raised_auth_token: &Option<String>,
    replay_scratch_bypass: bool,
) -> (r: ChildEnv)
    ensures
        pairs_view(r.set@) == env_set(
            permit_slots_env@,
            permit_slots,
            supervisor_pid,
            text_view(*raised_auth_token),
            replay_scratch_bypass,
        ),
        texts_view(r.removed@) == env_removed(replay_scratch_bypass),
{
    let mut set: Vec<(String, String)> = Vec::new();
    let mut removed: Vec<String> = Vec::new();
    set.push((copy_text(permit_slots_env), decimal_text(permit_slots)));
    set.push((copy_text("FKST_SUPERVISOR_PID"), decimal_text(supervisor_pid as u64)));
    match raised_auth_token {
        Some(t) => set.push((copy_text("FKST_RAISED_AUTH_TOKEN"), copy_text(t.as_str()))),
        None => {},
    }
    if replay_scratch_bypass {
        set.push((copy_text("FKST_INTERNAL_CACHE_REPLAY_BYPASS"), copy_text("1")));
        set.push((copy_text("FKST_INTERNAL_ONCE_REPLAY_BYPASS"), copy_text("1")));
    } else {
        removed.push(copy_text("FKST_INTERNAL_CACHE_REPLAY_BYPASS"));
        removed.push(copy_text("FKST_INTERNAL_ONCE_REPLAY_BYPASS"));
    }
    removed.push(copy_text("BIN"));
    removed.push(copy_text("FKST_FRAMEWORK_BIN"));
    removed.push(copy_text("FKST_CODEX_WORKER_BIN"));
    assert(pairs_view(set@) =~= env_set(
        permit_slots_env@,
        permit_slots,
        supervisor_pid,
        text_view(*raised_auth_token),
        replay_scratch_bypass,
    ));
    assert(texts_view(removed@) =~= env_removed(replay_scratch_bypass));
    ChildEnv { set, removed }
}

/// No child is handed the path of an engine binary.
pub proof fn law_no_engine_binary(
    permit_slots_env: Seq<char>,
    permit_slots: u64,
    pid: u32,
    token: Option<Seq<char>>,
    bypass: bool,
)
    ensures
        env_removed(bypass).contains("BIN"@),
        env_removed(bypass).contains("FKST_FRAMEWORK_BIN"@),
        env_removed(bypass).contains("FKST_CODEX_WORKER_BIN"@),
        bypass == env_set(permit_slots_env, permit_slots, pid, token, bypass).contains(
            ("FKST_INTERNAL_CACHE_REPLAY_BYPASS"@, "1"@),
        ) || permit_slots_env == "FKST_INTERNAL_CACHE_REPLAY_BYPASS"@,
{
    let n = env_removed(bypass).len();
    assert(env_removed(bypass)[n - 3] == "BIN"@);
    assert(env_removed(bypass)[n - 2] == "FKST_FRAMEWORK_BIN"@);
    assert(env_removed(bypass)[n - 1] == "FKST_CODEX_WORKER_BIN"@);
    let set = env_set(permit_slots_env, permit_slots, pid, token, bypass);
    if bypass {
        assert(set[set.len() - 2] == ("FKST_INTERNAL_CACHE_REPLAY_BYPASS"@, "1"@));
    } else {
        reveal_strlit("FKST_INTERNAL_CACHE_REPLAY_BYPASS");
        reveal_strlit("FKST_SUPERVISOR_PID");
        reveal_strlit("FKST_RAISED_AUTH_TOKEN");
        assert("FKST_INTERNAL_CACHE_REPLAY_BYPASS"@.len() == 33);
        assert("FKST_SUPERVISOR_PID"@.len() == 19);
        assert("FKST_RAISED_AUTH_TOKEN"@.len() == 22);
    }
}

// The log of a child.

/// The parts of a path that name something.
pub open spec fn named_parts(parts: Seq<Seq<char>>) -> Seq<Seq<char>>
    decreases parts.len(),
{
    if parts.len() == 0 {
        Seq::empty()
    } else if parts.last().len() == 0 || parts.last() == "."@ {
        named_parts(parts.drop_last())
    } else {
        named_parts(parts.drop_last()).push(parts.last())
    }
}

/// The name under which the log of a child goes.
pub open spec fn log_basename(label: Seq<char>) -> Seq<char> {
    let parts = named_parts(split(label, '/'));
    if parts.len() == 0 || parts.last() == ".."@ {
        "framework-child"@
    } else {
        parts.last()
    }
}

fn basename(label: &str) -> (r: String)
    ensures
        r@ == log_basename(label@),
{
    let parts: Vec<String> = split_text(label, '/');
    let ghost views = texts_view(parts@);
    let mut i: usize = parts.len();
    assert(views.take(views.len() as int) =~= views);
    while i > 0 && (parts[i - 1].as_str().is_empty() || same_text(parts[i - 1].as_str(), "."))
        invariant
            views == texts_view(parts@),
            i <= parts@.len(),
            named_parts(views) == named_parts(views.take(i as int)),
        decreases i,
    {
        assert(views.take(i as int).last() == parts@[i - 1]@);
        assert(views.take(i as int).drop_last() =~= views.take(i - 1));
        i = i - 1;
    }
    if i == 0 {
        assert(views.take(0).len() == 0);
        return copy_text("framework-child");
    }
    assert(views.take(i as int).last() == parts@[i - 1]@);
    assert(named_parts(views).last() == parts@[i - 1]@);
    if same_text(parts[i - 1].as_str(), "..") {
        copy_text("framework-child")
    } else {
        copy_text(parts[i - 1].as_str())
    }
}

/// The name of the log file of a child: its label, the time, and a number that is used once.
pub open spec fn log_file_name(label: Seq<char>, secs: u64, nanos: u32, id: u64) -> Seq<char> {
    log_basename(label) + "-"@ + decimal(secs as nat) + "-"@ + zero_padded(
        decimal(nanos as nat),
        9,
    ) + "-"@ + decimal(id as nat) + ".log"@
}

pub fn framework_child_log_name(child_label: &str, secs: u64, nanos: u32, id: u64) -> (r: String)
    ensures
        r@ == log_file_name(child_label@, secs, nanos, id),
{
    let mut out: String = basename(child_label);
    out.append("-");
    push_decimal(&mut out, secs);
    out.append("-");
    push_padded_decimal(&mut out, nanos as u64, 9);
    out.append("-");
    push_decimal(&mut out, id);
    out.append(".log");
    out
}

} // verus!
