//! What raisers put into queues, and when.

use vstd::prelude::*;
use vstd::string::*;
use crate::cutting::{trim_text, trimmed};
use crate::delivery_types::{put, SourceKind, SourceRef, SourceView};
use crate::digest::{fnv1a, fnv1a64, FNV_OFFSET};
use crate::duration::{millis, Duration};
use crate::glob::{glob_has_magic, glob_matches_path, magic_at, path_fits};
use crate::json::{Json, JsonView, Member};
use crate::numeral::{decimal, parse_unsigned, push_decimal, unsigned_value};
use crate::paths::{join_path, joined, rebase_glob, rebased};
use crate::text::{copy_text, same_text, text_of, to_chars};
use vstd::utf8::encode_utf8;

verus! {

/// Why a text is no duration.
pub enum DurationError {
    Empty,
    NotANumber(String),
    BadUnit(String),
}

pub enum DurationFault {
    Empty,
    NotANumber(Seq<char>),
    BadUnit(Seq<char>),
}

impl View for DurationError {
    type V = DurationFault;

    open spec fn view(&self) -> DurationFault {
        match self {
            DurationError::Empty => DurationFault::Empty,
            DurationError::NotANumber(s) => DurationFault::NotANumber(s@),
            DurationError::BadUnit(s) => DurationFault::BadUnit(s@),
        }
    }
}

impl DurationError {
    pub fn message(&self) -> (r: String)
        ensures
            r@ == match self@ {
                DurationFault::Empty => "empty duration"@,
                DurationFault::NotANumber(s) => "not a number: '"@ + s + "'"@,
                DurationFault::BadUnit(s) => "unit must be s/m/h, got '"@ + s + "'"@,
            },
    {
        match self {
            DurationError::Empty => copy_text("empty duration"),
            DurationError::NotANumber(s) => {
                let mut out: String = copy_text("not a number: '");
                out.append(s.as_str());
                out.append("'");
                out
            },
            DurationError::BadUnit(s) => {
                let mut out: String = copy_text("unit must be s/m/h, got '");
                out.append(s.as_str());
                out.append("'");
                out
            },
        }
    }
}

/// The seconds of a number of units.
pub open spec fn unit_secs(n: nat, unit: char) -> Option<nat> {
    if unit == 's' {
        Some(n)
    } else if unit == 'm' {
        Some(n * 60)
    } else if unit == 'h' {
        Some(n * 3600)
    } else {
        None
    }
}

/// The seconds that a duration text stands for: a number and the unit `s`, `m` or `h`.
pub open spec fn duration_secs(s: Seq<char>) -> Result<nat, DurationFault> {
    let t = trimmed(s);
    if t.len() == 0 {
        Err(DurationFault::Empty)
    } else {
        match unsigned_value(t.drop_last()) {
            None => Err(DurationFault::NotANumber(t.drop_last())),
            Some(n) => match unit_secs(n, t.last()) {
                None => Err(DurationFault::BadUnit(seq![t.last()])),
                Some(secs) => Ok(secs),
            },
        }
    }
}

/// A text whose last character is ASCII, and whose seconds, where it has any, fit.
pub open spec fn duration_in_range(s: Seq<char>) -> bool {
    let t = trimmed(s);
    &&& t.len() > 0 ==> (t.last() as u32) < 128
    &&& duration_secs(s) matches Ok(n) ==> n <= u64::MAX
}

/// Whether a text is one that `parse_duration` takes.
pub fn duration_fits(s: &str) -> (r: bool)
    ensures
        r == duration_in_range(s@),
{
    let chars: Vec<char> = to_chars(trim_text(s).as_str());
    if chars.len() == 0 {
        return true;
    }
    let len: usize = chars.len();
    let unit: char = chars[len - 1];
    if unit as u32 >= 128 {
        return false;
    }
    assert(chars@.subrange(0, len - 1) =~= chars@.drop_last());
    match parse_unsigned(text_of(&chars, 0, len - 1).as_str()) {
        None => true,
        Some(n) => {
            if unit == 'm' {
                n <= u64::MAX / 60
            } else if unit == 'h' {
                n <= u64::MAX / 3600
            } else {
                true
            }
        },
    }
}

/// Reads `Ns`, `Nm` or `Nh`.
pub fn parse_duration(s: &str) -> (r: Result<Duration, DurationError>)
    requires
        duration_in_range(s@),
    ensures
        match (r, duration_secs(s@)) {
            (Ok(d), Ok(n)) => d@ == n * 1_000_000_000,
            (Err(e), Err(fault)) => e@ == fault,
            _ => false,
        },
{
    let chars: Vec<char> = to_chars(trim_text(s).as_str());
    if chars.len() == 0 {
        return Err(DurationError::Empty);
    }
    let len: usize = chars.len();
    assert(chars@.subrange(0, len - 1) =~= chars@.drop_last());
    assert(chars@.subrange(len - 1, len as int) =~= seq![chars@.last()]);
    let number: String = text_of(&chars, 0, len - 1);
    let unit: char = chars[len - 1];
    match parse_unsigned(number.as_str()) {
        None => Err(DurationError::NotANumber(number)),
        Some(n) => {
            if unit == 's' {
                Ok(Duration::from_secs(n))
            } else if unit == 'm' {
                Ok(Duration::from_secs(n * 60))
            } else if unit == 'h' {
                Ok(Duration::from_secs(n * 3600))
            } else {
                Err(DurationError::BadUnit(text_of(&chars, len - 1, len)))
            }
        },
    }
}

/// The payload of a cron event.
pub open spec fn cron_payload_json(name: Seq<char>) -> JsonView {
    JsonView::Object(Map::empty().insert("raiser"@, JsonView::Text(name)))
}

pub fn cron_payload(name: &str) -> (r: Json)
    ensures
        r@ == cron_payload_json(name@),
{
    let mut members: Vec<Member> = Vec::new();
    put(&mut members, "raiser", Json::text(name));
    Json::Object(members)
}

/// How long the first firing of a cron raiser is put off, in milliseconds: a number below the
/// interval and below thirty seconds that the name alone decides.
pub open spec fn first_fire_millis(name: Seq<char>, interval: nat) -> nat {
    let bound = if interval < 30_000_000_000 {
        millis(interval)
    } else {
        30_000
    };
    if bound == 0 {
        0
    } else {
        fnv1a(FNV_OFFSET, encode_utf8(name)) as nat % bound
    }
}

pub fn cron_first_fire_jitter(name: &str, interval: Duration) -> (r: Duration)
    ensures
        r@ == first_fire_millis(name@, interval@) * 1_000_000,
{
    let limit: Duration = Duration::from_secs(30);
    let bound: u64 = if limit.exceeds(interval) {
        interval.millis()
    } else {
        limit.millis()
    };
    if bound == 0 {
        return Duration::from_millis(0);
    }
    Duration::from_millis(fnv1a64(FNV_OFFSET, name.as_bytes()) % bound)
}

/// A cron raiser waits less than its interval, and less than thirty seconds, before it first
/// fires.
pub proof fn law_first_fire(name: Seq<char>, interval: nat)
    ensures
        first_fire_millis(name, interval) < 30_000,
        interval >= 1_000_000 ==> first_fire_millis(name, interval) * 1_000_000 < interval,
{
}

/// The start of the interval that holds a time.
pub open spec fn cron_slot_of(now_ms: u64, interval: nat) -> nat {
    if millis(interval) == 0 {
        now_ms as nat
    } else {
        (now_ms as nat / millis(interval)) * millis(interval)
    }
}

pub fn cron_slot(now_ms: u64, interval: Duration) -> (r: u64)
    ensures
        r == cron_slot_of(now_ms, interval@),
{
    let interval_ms: u64 = interval.millis();
    if interval_ms == 0 {
        now_ms
    } else {
        assert((now_ms / interval_ms) * interval_ms <= now_ms) by (nonlinear_arith)
            requires
                interval_ms > 0,
        ;
        (now_ms / interval_ms) * interval_ms
    }
}

/// A slot starts no later than the time it holds, and is a multiple of the interval.
pub proof fn law_cron_slot(now_ms: u64, interval: nat)
    requires
        millis(interval) > 0,
    ensures
        cron_slot_of(now_ms, interval) <= now_ms < cron_slot_of(now_ms, interval) + millis(
            interval,
        ),
        cron_slot_of(now_ms, interval) % millis(interval) == 0,
{
    let m = millis(interval);
    let n = now_ms as nat;
    vstd::arithmetic::div_mod::lemma_fundamental_div_mod(n as int, m as int);
    vstd::arithmetic::div_mod::lemma_mod_multiples_basic((n / m) as int, m as int);
    assert(m * (n / m) == (n / m) * m) by (nonlinear_arith);
}

pub open spec fn cron_reference(name: Seq<char>, slot: u64) -> Seq<char> {
    name + "/slot/"@ + decimal(slot as nat)
}

pub fn cron_source_reference(name: &str, slot_unix_ms: u64) -> (r: String)
    ensures
        r@ == cron_reference(name@, slot_unix_ms),
{
    let mut out: String = copy_text(name);
    out.append("/slot/");
    push_decimal(&mut out, slot_unix_ms);
    out
}

/// When a raiser that last fired at a time fires next.
pub open spec fn next_fire_of(last_ms: u64, interval_ms: u64, now_ms: u64) -> int {
    if last_ms + interval_ms > u64::MAX {
        u64::MAX as int
    } else if last_ms + interval_ms > now_ms {
        last_ms + interval_ms
    } else {
        now_ms as int
    }
}

/// When a cron raiser fires next: one interval after the last time, or at once where that has
/// passed, so that missed firings fall together into one.
pub fn next_fire(last_ms: u64, interval_ms: u64, now_ms: u64) -> (r: u64)
    ensures
        r == next_fire_of(last_ms, interval_ms, now_ms),
        last_ms + interval_ms <= u64::MAX ==> r == if last_ms + interval_ms > now_ms {
            last_ms + interval_ms
        } else {
            now_ms as int
        },
        last_ms + interval_ms > u64::MAX ==> r == u64::MAX,
{
    let next: u64 = last_ms.saturating_add(interval_ms);
    if next > now_ms {
        next
    } else {
        now_ms
    }
}

/// What a cron raiser or a file watch emits.
pub struct SourceEmission {
    pub queue: String,
    pub payload: Json,
    pub observed_at_ms: u64,
    pub source: SourceRef,
    pub cron_payload: Option<Json>,
}

pub struct EmissionView {
    pub queue: Seq<char>,
    pub payload: JsonView,
    pub observed_at_ms: u64,
    pub source: SourceView,
    pub cron_payload: Option<JsonView>,
}

impl View for SourceEmission {
    type V = EmissionView;

    open spec fn view(&self) -> EmissionView {
        EmissionView {
            queue: self.queue@,
            payload: self.payload@,
            observed_at_ms: self.observed_at_ms,
            source: self.source@,
            cron_payload: crate::json::optional_json_view(self.cron_payload),
        }
    }
}

/// What a cron raiser emits for a slot.
pub fn cron_emission(name: &str, produces: &str, slot_ms: u64, observed_at_ms: u64) -> (r:
    SourceEmission)
    ensures
        r@ == (EmissionView {
            queue: produces@,
            payload: cron_payload_json(name@),
            observed_at_ms,
            source: SourceView { kind: SourceKind::Cron, reference: cron_reference(name@, slot_ms) },
            cron_payload: Some(cron_payload_json(name@)),
        }),
{
    SourceEmission {
        queue: copy_text(produces),
        payload: cron_payload(name),
        observed_at_ms,
        source: SourceRef {
            kind: SourceKind::Cron,
            reference: cron_source_reference(name, slot_ms),
        },
        cron_payload: Some(cron_payload(name)),
    }
}

/// What tells one state of a file from another: its length, and when it was last changed in
/// nanoseconds from the epoch, where that is known.
#[derive(Clone, Copy, Debug, PartialEq, Eq)]
pub struct FileIdentity {
    pub len: u64,
    pub modified: Option<i128>,
}

/// The reference of a file in one state.
pub open spec fn file_reference(path: Seq<char>, identity: FileIdentity) -> Seq<char> {
    let with_len = path + "/len/"@ + decimal(identity.len as nat);
    match identity.modified {
        Some(at) => if at >= 0 {
            with_len + "/mtime/"@ + decimal(millis(at as nat))
        } else {
            with_len
        },
        None => with_len,
    }
}

pub fn file_source_reference(path: &str, identity: FileIdentity) -> (r: String)
    ensures
        r@ == file_reference(path@, identity),
{
    let mut out: String = copy_text(path);
    out.append("/len/");
    push_decimal(&mut out, identity.len);
    match identity.modified {
        Some(at) => {
            if at >= 0 {
                out.append("/mtime/");
                let whole: i128 = at / 1_000_000;
                let ms: u64 = if whole <= u64::MAX as i128 {
                    whole as u64
                } else {
                    u64::MAX
                };
                push_decimal(&mut out, ms);
            }
        },
        None => {},
    }
    out
}

pub open spec fn file_payload_json(path: Seq<char>) -> JsonView {
    JsonView::Object(Map::empty().insert("path"@, JsonView::Text(path)))
}

/// What a file watch emits for a file in one state.
pub fn file_emission(path: &str, identity: FileIdentity, produces: &str, observed_at_ms: u64) -> (r:
    SourceEmission)
    ensures
        r@ == (EmissionView {
            queue: produces@,
            payload: file_payload_json(path@),
            observed_at_ms,
            source: SourceView {
                kind: SourceKind::File,
                reference: file_reference(path@, identity),
            },
            cron_payload: None,
        }),
{
    let mut members: Vec<Member> = Vec::new();
    put(&mut members, "path", Json::text(path));
    SourceEmission {
        queue: copy_text(produces),
        payload: Json::Object(members),
        observed_at_ms,
        source: SourceRef {
            kind: SourceKind::File,
            reference: file_source_reference(path, identity),
        },
        cron_payload: None,
    }
}

/// A file that was seen in some state.
pub struct SeenFile {
    pub path: String,
    pub identity: FileIdentity,
}

/// The last state in which each file was seen.
pub open spec fn seen_files(seen: Seq<SeenFile>) -> Map<Seq<char>, FileIdentity>
    decreases seen.len(),
{
    if seen.len() == 0 {
        Map::empty()
    } else {
        seen_files(seen.drop_last()).insert(seen.last().path@, seen.last().identity)
    }
}

fn same_identity(a: FileIdentity, b: FileIdentity) -> (r: bool)
    ensures
        r == (a == b),
{
    a.len == b.len && match (a.modified, b.modified) {
        (None, None) => true,
        (Some(x), Some(y)) => x == y,
        _ => false,
    }
}

proof fn lemma_seen_at(seen: Seq<SeenFile>, at: int)
    requires
        0 <= at < seen.len(),
        forall|i: int| at < i < seen.len() ==> #[trigger] seen[i].path@ != seen[at].path@,
    ensures
        seen_files(seen).contains_key(seen[at].path@),
        seen_files(seen)[seen[at].path@] == seen[at].identity,
    decreases seen.len(),
{
    if at < seen.len() - 1 {
        let rest = seen.drop_last();
        assert forall|i: int| at < i < rest.len() implies #[trigger] rest[i].path@
            != rest[at].path@ by {
            assert(seen[i].path@ != seen[at].path@);
        }
        lemma_seen_at(rest, at);
        assert(seen[seen.len() - 1].path@ != seen[at].path@);
    }
}

proof fn lemma_not_seen(seen: Seq<SeenFile>, path: Seq<char>)
    requires
        forall|i: int| 0 <= i < seen.len() ==> #[trigger] seen[i].path@ != path,
    ensures
        !seen_files(seen).contains_key(path),
    decreases seen.len(),
{
    if seen.len() > 0 {
        let rest = seen.drop_last();
        assert forall|i: int| 0 <= i < rest.len() implies #[trigger] rest[i].path@ != path by {
            assert(seen[i].path@ != path);
        }
        lemma_not_seen(rest, path);
        assert(seen[seen.len() - 1].path@ != path);
    }
}

/// Notes the state of a file, and says whether it is new: a file that is seen again in the state
/// in which it was last seen is not.
pub fn note_file(seen: &mut Vec<SeenFile>, path: &str, identity: FileIdentity) -> (changed: bool)
    ensures
        changed == !(seen_files(old(seen)@).contains_key(path@) && seen_files(old(seen)@)[path@]
            == identity),
        seen_files(final(seen)@) == seen_files(old(seen)@).insert(path@, identity),
{
    let ghost before = seen@;
    let mut i: usize = seen.len();
    while i > 0
        invariant
            before == seen@,
            before == old(seen)@,
            i <= seen@.len(),
            forall|j: int| i <= j < seen@.len() ==> #[trigger] seen@[j].path@ != path@,
        decreases i,
    {
        i = i - 1;
        if same_text(seen[i].path.as_str(), path) {
            proof {
                lemma_seen_at(seen@, i as int);
            }
            if same_identity(seen[i].identity, identity) {
                assert(seen_files(before).insert(path@, identity) =~= seen_files(before));
                return false;
            }
            seen.push(SeenFile { path: copy_text(path), identity });
            assert(seen@.drop_last() =~= before);
            return true;
        }
    }
    proof {
        lemma_not_seen(seen@, path@);
    }
    seen.push(SeenFile { path: copy_text(path), identity });
    assert(seen@.drop_last() =~= before);
    true
}

/// The pattern of a file watch with a root in front. Where it has wildcards and the directory above
/// them can be resolved, the resolved directory takes the place of that directory.
pub open spec fn absolute_glob(
    glob: Seq<char>,
    host_root: Seq<char>,
    scan_root: Seq<char>,
    resolved_root: Option<Seq<char>>,
) -> Seq<char> {
    let whole = joined(host_root, glob);
    match resolved_root {
        Some(resolved) => if magic_at(whole) < whole.len() {
            rebased(whole, scan_root, resolved)
        } else {
            whole
        },
        None => whole,
    }
}

pub fn absolutize_glob(glob: &str, host_root: &str, scan_root: &str, resolved_root: Option<&str>)
    -> (r: String)
    ensures
        r@ == absolute_glob(
            glob@,
            host_root@,
            scan_root@,
            match resolved_root {
                Some(root) => Some(root@),
                None => None,
            },
        ),
{
    let whole: String = join_path(host_root, glob);
    match resolved_root {
        Some(resolved) => {
            if glob_has_magic(whole.as_str()) {
                rebase_glob(whole.as_str(), scan_root, resolved)
            } else {
                whole
            }
        },
        None => whole,
    }
}

/// What a notification says of a file.
#[derive(Clone, Copy, Debug, PartialEq, Eq)]
pub enum FileChange {
    Create,
    Rename,
    Unknown,
    Other,
    Modify,
    Remove,
    Access,
}

/// Whether a change can have brought a file into being under a name.
pub fn is_file_creation_like(change: FileChange) -> (r: bool)
    ensures
        r == (change == FileChange::Create || change == FileChange::Rename || change
            == FileChange::Unknown || change == FileChange::Other),
{
    match change {
        FileChange::Create | FileChange::Rename | FileChange::Unknown | FileChange::Other => true,
        _ => false,
    }
}

/// What wakes a file watch.
pub enum WatchEvent {
    Changed { change: FileChange, paths: Vec<String> },
    Failed,
    Closed,
    Poll,
}

/// What a file watch does next: look at these paths, look at every match, or nothing.
pub enum WatchAction {
    Check(Vec<String>),
    Scan,
    Ignore,
}

/// What a file watch does about an event.
pub fn watch_step(event: WatchEvent) -> (r: WatchAction)
    ensures
        match event {
            WatchEvent::Changed { change, paths } => if change == FileChange::Create || change
                == FileChange::Rename || change == FileChange::Unknown || change
                == FileChange::Other {
                r == WatchAction::Check(paths)
            } else {
                r is Ignore
            },
            WatchEvent::Failed => r is Ignore,
            WatchEvent::Closed => r is Scan,
            WatchEvent::Poll => r is Scan,
        },
{
    match event {
        WatchEvent::Changed { change, paths } => {
            if is_file_creation_like(change) {
                WatchAction::Check(paths)
            } else {
                WatchAction::Ignore
            }
        },
        WatchEvent::Failed => WatchAction::Ignore,
        WatchEvent::Closed => WatchAction::Scan,
        WatchEvent::Poll => WatchAction::Scan,
    }
}

/// Whether a file was last seen as it is.
pub open spec fn is_unchanged(
    seen: Seq<SeenFile>,
    path: Seq<char>,
    identity: FileIdentity,
) -> bool {
    seen_files(seen).contains_key(path) && seen_files(seen)[path] == identity
}

/// What a file watch emits for a file.
pub open spec fn file_emitted(
    path: Seq<char>,
    identity: FileIdentity,
    produces: Seq<char>,
    observed_at_ms: u64,
) -> EmissionView {
    EmissionView {
        queue: produces,
        payload: file_payload_json(path),
        observed_at_ms,
        source: SourceView { kind: SourceKind::File, reference: file_reference(path, identity) },
        cron_payload: None,
    }
}

/// What a file watch emits for a file that a scan finds: nothing where the file is as it was seen
/// last.
pub fn emit_changed_path(
    path: &str,
    identity: FileIdentity,
    produces: &str,
    observed_at_ms: u64,
    seen: &mut Vec<SeenFile>,
) -> (r: Option<SourceEmission>)
    ensures
        seen_files(final(seen)@) == seen_files(old(seen)@).insert(path@, identity),
        match r {
            Some(emission) => !is_unchanged(old(seen)@, path@, identity) && emission@
                == file_emitted(path@, identity, produces@, observed_at_ms),
            None => is_unchanged(old(seen)@, path@, identity),
        },
{
    if note_file(seen, path, identity) {
        Some(file_emission(path, identity, produces, observed_at_ms))
    } else {
        None
    }
}

/// What a file watch emits for a file that it hears of: nothing where the path does not fit, or
/// where the file is as it was seen last.
pub fn observe_path(
    glob: &str,
    path: &str,
    identity: FileIdentity,
    produces: &str,
    observed_at_ms: u64,
    seen: &mut Vec<SeenFile>,
) -> (r: Option<SourceEmission>)
    ensures
        !path_fits(glob@, path@) ==> r is None && *final(seen) == *old(seen),
        path_fits(glob@, path@) ==> seen_files(final(seen)@) == seen_files(old(seen)@).insert(
            path@,
            identity,
        ) && match r {
            Some(emission) => !is_unchanged(old(seen)@, path@, identity) && emission@
                == file_emitted(path@, identity, produces@, observed_at_ms),
            None => is_unchanged(old(seen)@, path@, identity),
        },
{
    if !glob_matches_path(glob, path) {
        return None;
    }
    emit_changed_path(path, identity, produces, observed_at_ms, seen)
}

} // verus!
