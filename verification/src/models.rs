//! Models of the scenario state and of what is known about the directory's naming contexts.
use vstd::prelude::*;

use crate::config::AppConfig;
use crate::text::{owned, str_eq, to_lowercase, unicode_lowercase};

verus! {

broadcast use vstd::string::group_string_axioms;

/// The naming contexts (partitions) that the domain controller serves.
#[derive(Debug, Clone)]
pub struct LdapNamingContexts {
    pub naming_contexts: Vec<String>,
}

/// Where to find the directory, as the scenario commands search it.
#[derive(Debug, Clone)]
pub struct LdapOptions {
    pub domain: String,
    pub ldapfqdn: String,
    pub ip: Option<String>,
    pub port: Option<u16>,
    pub ldaps: bool,
    pub ldap_filter: Option<String>,
}

/// A reference to a scenario and to the snapshot file it was brought to.
#[derive(Debug, Clone)]
pub struct ScenarioRef {
    pub scenario: String,
    pub state_file: String,
}

/// Which scenario is active, and which was active before it.
#[derive(Debug, Clone)]
pub struct ScenarioState {
    pub active_scenario: Option<ScenarioRef>,
    pub previous_scenario: Option<ScenarioRef>,
}

/// The view of an optional scenario reference: its scenario and state file.
pub open spec fn ref_view(r: Option<ScenarioRef>) -> Option<(Seq<char>, Seq<char>)> {
    match r {
        Some(s) => Some((s.scenario@, s.state_file@)),
        None => None,
    }
}

impl ScenarioRef {
    /// A copy of this reference.
    pub fn copy(&self) -> (r: ScenarioRef)
        ensures
            r.scenario@ == self.scenario@,
            r.state_file@ == self.state_file@,
    {
        ScenarioRef { scenario: self.scenario.clone(), state_file: self.state_file.clone() }
    }
}

impl ScenarioState {
    /// No active and no previous scenario.
    pub fn new() -> (r: Self)
        ensures
            r.active_scenario is None,
            r.previous_scenario is None,
    {
        ScenarioState { active_scenario: None, previous_scenario: None }
    }

    /// Makes `scenario` the active scenario; the one active so far becomes the previous one.
    pub fn set_active_scenario(&mut self, scenario: ScenarioRef)
        ensures
            ref_view(final(self).active_scenario) == ref_view(Some(scenario)),
            ref_view(final(self).previous_scenario) == ref_view(old(self).active_scenario),
    {
        self.previous_scenario = match &self.active_scenario {
            Some(a) => Some(a.copy()),
            None => None,
        };
        self.active_scenario = Some(scenario);
    }

    /// The active scenario, if any.
    pub fn get_active_scenario(&self) -> (r: Option<&ScenarioRef>)
        ensures
            match r {
                Some(a) => self.active_scenario == Some(*a),
                None => self.active_scenario is None,
            },
    {
        match &self.active_scenario {
            Some(active) => Some(active),
            None => None,
        }
    }

    /// The name of the active scenario, if any.
    pub fn get_active_scenario_name(&self) -> (r: Option<String>)
        ensures
            r.deep_view() == match self.active_scenario {
                Some(a) => Some(a.scenario@),
                None => None,
            },
    {
        match &self.active_scenario {
            Some(a) => Some(a.scenario.clone()),
            None => None,
        }
    }
}

impl Default for ScenarioState {
    /// No active and no previous scenario.
    fn default() -> (r: Self)
        ensures
            r.active_scenario is None,
            r.previous_scenario is None,
    {
        ScenarioState::new()
    }
}

/// The kinds of snapshot a scenario keeps.
#[derive(Debug, Clone, Copy, PartialEq, Eq, Structural)]
pub enum ScenarioExportType {
    Baseline,
    Current,
    Working,
    Snapshot,
}

/// The name of a snapshot kind.
pub open spec fn export_type_text(t: ScenarioExportType) -> Seq<char> {
    match t {
        ScenarioExportType::Baseline => "baseline"@,
        ScenarioExportType::Current => "current"@,
        ScenarioExportType::Working => "working"@,
        ScenarioExportType::Snapshot => "snapshot"@,
    }
}

/// The snapshot kind a state name asks for: an empty name, or one that names no kind,
/// means the baseline (names compared lower-cased).
pub open spec fn export_type_of(name: Seq<char>) -> ScenarioExportType {
    let l = unicode_lowercase(name);
    if name.len() == 0 {
        ScenarioExportType::Baseline
    } else if l == "current"@ {
        ScenarioExportType::Current
    } else if l == "working"@ {
        ScenarioExportType::Working
    } else if l == "snapshot"@ {
        ScenarioExportType::Snapshot
    } else {
        ScenarioExportType::Baseline
    }
}

impl ScenarioExportType {
    /// The name of this snapshot kind (`baseline`, `current`, `working`, `snapshot`).
    pub fn to_text(&self) -> (r: String)
        ensures
            r@ == export_type_text(*self),
    {
        match self {
            ScenarioExportType::Baseline => owned("baseline"),
            ScenarioExportType::Current => owned("current"),
            ScenarioExportType::Working => owned("working"),
            ScenarioExportType::Snapshot => owned("snapshot"),
        }
    }

    /// The snapshot kind a state name asks for (see `export_type_of`).
    pub fn from_state_name(name: &str) -> (r: ScenarioExportType)
        ensures
            r == export_type_of(name@),
    {
        if name.is_empty() {
            return ScenarioExportType::Baseline;
        }
        let l = to_lowercase(name);
        if str_eq(l.as_str(), "current") {
            ScenarioExportType::Current
        } else if str_eq(l.as_str(), "working") {
            ScenarioExportType::Working
        } else if str_eq(l.as_str(), "snapshot") {
            ScenarioExportType::Snapshot
        } else {
            ScenarioExportType::Baseline
        }
    }

    /// The file a snapshot of this kind is saved in: its name and `.bin`.
    pub fn file_name(&self) -> (r: String)
        ensures
            r@ == export_type_text(*self) + ".bin"@,
    {
        let mut r = self.to_text();
        r.append(".bin");
        r
    }
}

/// The options the scenario commands search the directory with: the configured domain,
/// its controller as host and address, port 389 without TLS, filter `(objectClass=*)`.
pub fn generate_ldap_options_from_config(config: &AppConfig) -> (r: LdapOptions)
    ensures
        r.domain@ == config.domain@,
        r.ldapfqdn@ == config.hostname@,
        r.ip.deep_view() == Some(config.hostname@),
        r.port == Some(389u16),
        !r.ldaps,
        r.ldap_filter.deep_view() == Some("(objectClass=*)"@),
{
    LdapOptions {
        domain: config.domain.clone(),
        ldapfqdn: config.hostname.clone(),
        ip: Some(config.hostname.clone()),
        port: Some(389),
        ldaps: false,
        ldap_filter: Some(owned("(objectClass=*)")),
    }
}

} // verus!
