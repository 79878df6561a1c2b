//! Evidence that launchd restarts this supervisor.

use vstd::prelude::*;
use crate::cutting::{trim_text, trimmed};
use crate::text::{same_text, text_view};

verus! {

/// The service name that launchd gave, and the label that the unit was rendered with.
pub struct RestartAuthorityEvidence {
    pub launchd_service_name: Option<String>,
    pub expected_launchd_label: Option<String>,
}

/// A value of an environment variable, where it says anything: neither nothing nor a lone zero.
pub open spec fn cleaned(value: Option<Seq<char>>) -> Option<Seq<char>> {
    match value {
        None => None,
        Some(v) => if trimmed(v).len() == 0 || trimmed(v) == "0"@ {
            None
        } else {
            Some(trimmed(v))
        },
    }
}

/// What an environment variable says, without the whitespace around it.
pub fn cleaned_env(value: &Option<String>) -> (r: Option<String>)
    ensures
        text_view(r) == cleaned(text_view(*value)),
{
    match value {
        None => None,
        Some(v) => {
            let text: String = trim_text(v.as_str());
            if text.as_str().is_empty() || same_text(text.as_str(), "0") {
                None
            } else {
                Some(text)
            }
        },
    }
}

impl RestartAuthorityEvidence {
    /// The evidence in the values of the two environment variables.
    pub fn from_values(service_name: &Option<String>, label: &Option<String>) -> (r:
        RestartAuthorityEvidence)
        ensures
            text_view(r.launchd_service_name) == cleaned(text_view(*service_name)),
            text_view(r.expected_launchd_label) == cleaned(text_view(*label)),
    {
        RestartAuthorityEvidence {
            launchd_service_name: cleaned_env(service_name),
            expected_launchd_label: cleaned_env(label),
        }
    }

    pub open spec fn holds(&self) -> bool {
        match (text_view(self.launchd_service_name), text_view(self.expected_launchd_label)) {
            (Some(name), Some(label)) => name == label,
            _ => false,
        }
    }

    /// Whether launchd runs this supervisor under the label of its unit.
    pub fn has_restart_authority(&self) -> (r: bool)
        ensures
            r == self.holds(),
    {
        match (&self.launchd_service_name, &self.expected_launchd_label) {
            (Some(name), Some(label)) => same_text(name.as_str(), label.as_str()),
            _ => false,
        }
    }
}

/// What is said where nothing shows that launchd restarts this supervisor.
pub const NO_RESTART_AUTHORITY: &'static str =
    "durable supervise requires launchd restart authority evidence: set non-empty `XPC_SERVICE_NAME` from launchd and `FKST_LAUNCHD_LABEL` from the rendered launchd unit";

/// The evidence, where it shows that launchd restarts this supervisor.
pub fn ensure_restart_authority(service_name: &Option<String>, label: &Option<String>) -> (r: Result<
    RestartAuthorityEvidence,
    &'static str,
>)
    ensures
        r is Ok <==> cleaned(text_view(*service_name)) is Some && cleaned(text_view(*service_name))
            == cleaned(text_view(*label)),
        match r {
            Ok(evidence) => text_view(evidence.launchd_service_name) == cleaned(
                text_view(*service_name),
            ) && text_view(evidence.expected_launchd_label) == cleaned(text_view(*label)),
            Err(e) => e@ == NO_RESTART_AUTHORITY@,
        },
{
    let evidence: RestartAuthorityEvidence = RestartAuthorityEvidence::from_values(
        service_name,
        label,
    );
    if evidence.has_restart_authority() {
        Ok(evidence)
    } else {
        Err(NO_RESTART_AUTHORITY)
    }
}

} // verus!
