//! The commands that a test puts in the place of real ones.

use vstd::prelude::*;
use vstd::string::*;
use crate::paths::{join_path, joined};
use crate::text::{copy_text, same_text};

verus! {

/// What a command gives in a test.
pub struct MockCommandResult {
    pub stdout: String,
    pub stderr: String,
    pub exit_code: i32,
}

/// What a command gives where a test says no more than this.
pub fn mock_result(stdout: Option<String>, stderr: Option<String>, exit_code: Option<i32>) -> (r:
    MockCommandResult)
    ensures
        r.stdout@ == match stdout {
            Some(s) => s@,
            None => Seq::empty(),
        },
        r.stderr@ == match stderr {
            Some(s) => s@,
            None => Seq::empty(),
        },
        r.exit_code == match exit_code {
            Some(n) => n,
            None => 0,
        },
{
    MockCommandResult {
        stdout: match stdout {
            Some(s) => s,
            None => String::new(),
        },
        stderr: match stderr {
            Some(s) => s,
            None => String::new(),
        },
        exit_code: match exit_code {
            Some(n) => n,
            None => 0,
        },
    }
}

#[derive(Clone, Copy, Debug, PartialEq, Eq, Structural)]
pub enum CommandCassetteMode {
    Replay,
    Record,
}

/// A text that is put in the place of another in what is recorded.
pub struct CommandCassetteRedaction {
    pub value: String,
    pub replacement: String,
}

/// A redaction as a test writes it.
pub struct RedactionEntry {
    pub value: String,
    pub replacement: Option<String>,
}

/// A file that commands are recorded in and played back from.
pub struct CommandCassetteOptions {
    pub path: String,
    pub mode: CommandCassetteMode,
    pub redactions: Vec<CommandCassetteRedaction>,
}

/// Why a cassette cannot be used.
pub enum CassetteError {
    UnsupportedMode(String),
    EmptyRedaction,
}

impl CassetteError {
    pub fn message(&self) -> (r: String)
        ensures
            r@ == match *self {
                CassetteError::UnsupportedMode(mode) => "unsupported VCR command cassette mode: "@
                    + mode@,
                CassetteError::EmptyRedaction =>
                    "VCR command cassette redaction value must not be empty"@,
            },
    {
        match self {
            CassetteError::UnsupportedMode(mode) => {
                let mut out: String = copy_text("unsupported VCR command cassette mode: ");
                out.append(mode.as_str());
                out
            },
            CassetteError::EmptyRedaction => copy_text(
                "VCR command cassette redaction value must not be empty",
            ),
        }
    }
}

/// The mode that a word stands for.
pub open spec fn mode_of(word: Seq<char>) -> Option<CommandCassetteMode> {
    if word == "replay"@ {
        Some(CommandCassetteMode::Replay)
    } else if word == "record"@ {
        Some(CommandCassetteMode::Record)
    } else {
        None
    }
}

/// What an entry puts in the place of its value.
pub open spec fn replacement_of(e: RedactionEntry) -> Seq<char> {
    match e.replacement {
        Some(text) => text@,
        None => "<REDACTED>"@,
    }
}

pub open spec fn redacts(r: CommandCassetteRedaction, e: RedactionEntry) -> bool {
    r.value@ == e.value@ && r.replacement@ == replacement_of(e)
}

/// Reads redactions. None of them may have an empty value.
pub fn parse_command_cassette_redactions(entries: &Vec<RedactionEntry>) -> (r: Result<
    Vec<CommandCassetteRedaction>,
    CassetteError,
>)
    ensures
        match r {
            Ok(redactions) => redactions@.len() == entries@.len() && forall|i: int|
                0 <= i < entries@.len() ==> entries@[i].value@.len() > 0 && redacts(
                    redactions@[i],
                    #[trigger] entries@[i],
                ),
            Err(e) => e is EmptyRedaction && exists|i: int|
                0 <= i < entries@.len() && (#[trigger] entries@[i]).value@.len() == 0,
        },
{
    let mut out: Vec<CommandCassetteRedaction> = Vec::new();
    let mut i: usize = 0;
    while i < entries.len()
        invariant
            i <= entries@.len(),
            out@.len() == i,
            forall|j: int|
                0 <= j < i ==> entries@[j].value@.len() > 0 && redacts(
                    out@[j],
                    #[trigger] entries@[j],
                ),
        decreases entries@.len() - i,
    {
        if entries[i].value.as_str().is_empty() {
            assert(entries@[i as int].value@.len() == 0);
            return Err(CassetteError::EmptyRedaction);
        }
        let replacement: String = match &entries[i].replacement {
            Some(text) => copy_text(text.as_str()),
            None => copy_text("<REDACTED>"),
        };
        out.push(
            CommandCassetteRedaction { value: copy_text(entries[i].value.as_str()), replacement },
        );
        i = i + 1;
    }
    Ok(out)
}

impl CommandCassetteOptions {
    /// Reads the options of a cassette: the mode is looked at before the redactions.
    pub fn from_parts(owner_root: &str, path: &str, mode: &str, redact: &Vec<RedactionEntry>) -> (r:
        Result<CommandCassetteOptions, CassetteError>)
        ensures
            match r {
                Ok(options) => {
                    &&& options.path@ == joined(owner_root@, path@)
                    &&& mode_of(mode@) == Some(options.mode)
                    &&& options.redactions@.len() == redact@.len()
                    &&& forall|i: int|
                        0 <= i < redact@.len() ==> redact@[i].value@.len() > 0 && redacts(
                            options.redactions@[i],
                            #[trigger] redact@[i],
                        )
                },
                Err(CassetteError::UnsupportedMode(other)) => other@ == mode@ && mode_of(mode@)
                    is None,
                Err(CassetteError::EmptyRedaction) => mode_of(mode@) is Some && exists|i: int|
                    0 <= i < redact@.len() && (#[trigger] redact@[i]).value@.len() == 0,
            },
    {
        let mode: CommandCassetteMode = if same_text(mode, "replay") {
            CommandCassetteMode::Replay
        } else if same_text(mode, "record") {
            CommandCassetteMode::Record
        } else {
            return Err(CassetteError::UnsupportedMode(copy_text(mode)));
        };
        match parse_command_cassette_redactions(redact) {
            Ok(redactions) => Ok(
                CommandCassetteOptions { path: join_path(owner_root, path), mode, redactions },
            ),
            Err(e) => Err(e),
        }
    }
}

/// What is done with a cassette when the function that uses it ends.
#[derive(Clone, Copy, Debug, PartialEq, Eq, Structural)]
pub enum CassetteEnd {
    Finish,
    Abort,
}

/// A cassette is finished where the function succeeds, and else dropped as it is.
pub fn cassette_end(succeeded: bool) -> (r: CassetteEnd)
    ensures
        r == if succeeded {
            CassetteEnd::Finish
        } else {
            CassetteEnd::Abort
        },
{
    if succeeded {
        CassetteEnd::Finish
    } else {
        CassetteEnd::Abort
    }
}

} // verus!
