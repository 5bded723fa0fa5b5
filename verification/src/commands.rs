//! The commands of the command line, their arguments, and the decisions they make before
//! they touch the directory.
use vstd::prelude::*;

use crate::cleanup::ActivateRequest;
use crate::models::ScenarioState;
use crate::text::{owned, str_eq, to_lowercase, trim, trim_spec, unicode_lowercase};

verus! {

broadcast use vstd::string::group_string_axioms;

/// Arguments of `activate`.
#[derive(Debug, Clone)]
pub struct ActivateArgs {
    pub scenario: String,
    pub state: Option<String>,
}

/// Arguments of `compare`.
#[derive(Debug, Clone)]
pub struct CompareArgs {
    pub current: String,
    pub target: String,
    pub current_state: String,
    pub target_state: String,
}

/// Arguments of `delete`.
#[derive(Debug, Clone)]
pub struct DeleteArgs {
    pub name: String,
    pub force: bool,
}

/// Arguments of `init`.
#[derive(Debug, Clone)]
pub struct InitArgs {
    pub overwrite: bool,
    pub template_configuration: Option<String>,
}

/// Arguments of `list`.
#[derive(Debug, Clone)]
pub struct ListArgs {
    pub detailed: bool,
}

/// Arguments of `new`.
#[derive(Debug, Clone)]
pub struct NewScenarioArgs {
    pub overwrite: bool,
    pub template_configuration: Option<String>,
    pub description: Option<String>,
    pub name: String,
}

/// Arguments of `reset`.
#[derive(Debug, Clone)]
pub struct ResetArgs {
    pub name: String,
}

/// Arguments of `schema`.
#[derive(Debug, Clone)]
pub struct SchemaArgs {}

/// Arguments of `serve`.
#[derive(Debug, Clone)]
pub struct ServeArgs {
    pub port: u16,
}

/// Arguments of `snapshot`.
#[derive(Debug, Clone)]
pub struct SnapshotArgs {
    pub scenario: String,
    pub description: String,
}

/// Arguments of `update`.
#[derive(Debug, Clone)]
pub struct UpdateArgs {
    pub name: String,
    pub description: Option<String>,
    pub set_playable: Option<String>,
}

/// The commands of the command line.
#[derive(Debug, Clone)]
pub enum Command {
    Serve(ServeArgs),
    Init(InitArgs),
    New(NewScenarioArgs),
    Delete(DeleteArgs),
    Activate(ActivateArgs),
    Snapshot(SnapshotArgs),
    List(ListArgs),
    Compare(CompareArgs),
    Reset(ResetArgs),
}

impl ActivateArgs {
    /// The activation these arguments ask for.
    pub fn request(self) -> (r: ActivateRequest)
        ensures
            r.scenario == self.scenario,
            r.state == self.state,
    {
        ActivateRequest { scenario: self.scenario, state: self.state }
    }
}

/// The scenario a reset targets: the one named, or else the active one, or else `default`.
pub open spec fn reset_target_spec(name: Seq<char>, active: Option<Seq<char>>) -> Seq<char> {
    if name.len() != 0 {
        name
    } else {
        match active {
            Some(a) => a,
            None => "default"@,
        }
    }
}

impl ResetArgs {
    /// The scenario this reset targets, given the scenario state (see `reset_target_spec`).
    pub fn target_name(&self, state: &ScenarioState) -> (r: String)
        ensures
            r@ == reset_target_spec(
                self.name@,
                match state.active_scenario {
                    Some(a) => Some(a.scenario@),
                    None => None,
                },
            ),
    {
        if !self.name.as_str().is_empty() {
            return self.name.clone();
        }
        match &state.active_scenario {
            Some(a) => a.scenario.clone(),
            None => owned("default"),
        }
    }
}

impl DeleteArgs {
    /// The scenario to delete is the active one, which must be switched away from first.
    pub fn deletes_active(&self, state: &ScenarioState) -> (r: bool)
        ensures
            r == (state.active_scenario matches Some(a) && a.scenario@ == self.name@),
    {
        match &state.active_scenario {
            Some(a) => str_eq(a.scenario.as_str(), self.name.as_str()),
            None => false,
        }
    }
}

/// The answer to the deletion prompt confirms it: `y` once surrounding white space is
/// dropped, in either case.
pub open spec fn confirms_spec(input: Seq<char>) -> bool {
    unicode_lowercase(trim_spec(input)) == "y"@
}

/// Whether the answer `input` to the deletion prompt confirms it (see `confirms_spec`).
pub fn confirms_deletion(input: &str) -> (r: bool)
    ensures
        r == confirms_spec(input@),
{
    let t = trim(input);
    let l = to_lowercase(t.as_str());
    str_eq(l.as_str(), "y")
}

impl UpdateArgs {
    /// An update needs a new description or a new playable state.
    pub fn has_changes(&self) -> (r: bool)
        ensures
            r == (self.description is Some || self.set_playable is Some),
    {
        self.description.is_some() || self.set_playable.is_some()
    }
}

} // verus!
