//! Requests to bring a scenario into the directory, and the state a web server keeps.
use vstd::prelude::*;

use crate::config::ScenarioConfig;
use crate::context::AppContext;
use crate::text::{ends_with, ends_with_spec, owned, to_lowercase, unicode_lowercase};

verus! {

broadcast use vstd::string::group_string_axioms;

/// A request to activate a scenario, in an optional state (a snapshot kind or file).
#[derive(Debug, Clone)]
pub struct ActivateRequest {
    pub scenario: String,
    pub state: Option<String>,
}

/// A request to reset a scenario.
#[derive(Debug, Clone)]
pub struct ResetRequest {
    pub scenario: String,
    pub state: Option<String>,
}

/// A request to list a scenario.
#[derive(Debug, Clone)]
pub struct ListRequest {
    pub scenario: String,
}

/// What a web server offers: the context and the scenarios it found.
#[derive(Debug, Clone)]
pub struct ServerState {
    pub context: AppContext,
    pub scenarios: Vec<ScenarioConfig>,
}

/// The snapshot file an activation brings the scenario to: the requested state, with `.bin`
/// added unless it already ends so (ignoring case); the baseline when no state is asked for.
pub open spec fn target_state_spec(state: Option<Seq<char>>) -> Seq<char> {
    match state {
        Some(s) => if ends_with_spec(unicode_lowercase(s), ".bin"@) { s } else { s + ".bin"@ },
        None => "baseline.bin"@,
    }
}

impl ActivateRequest {
    /// The snapshot file this activation brings the scenario to (see `target_state_spec`).
    pub fn target_state(&self) -> (r: String)
        ensures
            r@ == target_state_spec(self.state.deep_view()),
    {
        match &self.state {
            Some(s) => {
                let l = to_lowercase(s.as_str());
                if ends_with(l.as_str(), ".bin") {
                    s.clone()
                } else {
                    let mut r = s.clone();
                    r.append(".bin");
                    r
                }
            },
            None => owned("baseline.bin"),
        }
    }
}

impl ResetRequest {
    /// A reset activates the scenario in its baseline state.
    pub fn activation(&self) -> (r: ActivateRequest)
        ensures
            r.scenario@ == self.scenario@,
            r.state.deep_view() == Some("baseline"@),
    {
        ActivateRequest { scenario: self.scenario.clone(), state: Some(owned("baseline")) }
    }
}

} // verus!
