//! The application's context: its configuration and the scenario state.
use vstd::prelude::*;

use crate::config::AppConfig;
use crate::models::ScenarioState;
use crate::text::owned;

verus! {

broadcast use vstd::string::group_string_axioms;

/// The configuration the application runs with and the scenario state it keeps.
#[derive(Debug, Clone)]
pub struct AppContext {
    pub config: AppConfig,
    pub scenario_state: ScenarioState,
}

/// The error for a state that names no active scenario while scenarios exist.
pub open spec fn inconsistent_state_message() -> Seq<char> {
    "Invariant violation: No active scenario in state but scenarios directory is not empty"@
}

impl AppContext {
    /// The context for `config` and `scenario_state`. A state without an active scenario is
    /// only consistent while the scenarios directory is empty (or missing);
    /// `scenarios_present` says whether it holds anything.
    pub fn assemble(config: AppConfig, scenario_state: ScenarioState, scenarios_present: bool) -> (r: Result<AppContext, String>)
        ensures
            match r {
                Ok(c) => {
                    &&& !(scenario_state.active_scenario is None && scenarios_present)
                    &&& c.config == config
                    &&& c.scenario_state == scenario_state
                },
                Err(e) => {
                    &&& scenario_state.active_scenario is None && scenarios_present
                    &&& e@ == inconsistent_state_message()
                },
            },
    {
        if scenario_state.active_scenario.is_none() && scenarios_present {
            return Err(owned("Invariant violation: No active scenario in state but scenarios directory is not empty"));
        }
        Ok(AppContext { config, scenario_state })
    }
}

} // verus!
