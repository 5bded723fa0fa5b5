//! Running a scenario's hook scripts and the remediation script: what to run, in which
//! order, what the runs mean, and the text of the script.
use vstd::prelude::*;

use crate::config::{ScenarioHookConfig, ScenarioHookType};
use crate::objects::{RemediationCommand, RemediationCommandView, copy_strings};
use crate::remediation::{debug_format_text, debug_text};
use crate::text::{decimal_spec, owned, u64_to_decimal};

verus! {

broadcast use vstd::string::group_string_axioms;

/// What came of running one hook.
#[derive(Debug, Clone)]
pub struct HookOutput {
    pub hook_type: ScenarioHookType,
    pub path: String,
    pub exit_code: Option<i32>,
    pub stdout: String,
    pub stderr: String,
    pub success: bool,
}

/// What the driver found when it went to run the current hook.
pub enum HookEvent {
    /// The hook's script does not exist.
    Missing,
    /// The script ran: `Ok`, or the message of a failed run.
    Ran(Result<(), String>),
}

/// A run of the hooks of one type, in the order the scenario lists them. The driver asks
/// `next` for the hook to run, runs its script, and reports with `record`; the run ends when
/// `next` finds no hook (the outputs are the result) or `record` returns an error.
#[derive(Debug)]
pub struct HookRun {
    pub hook_type: ScenarioHookType,
    pub position: usize,
    pub outputs: Vec<HookOutput>,
}

/// Every output recorded is of the hook type `t`.
pub open spec fn outputs_of_type(outputs: Seq<HookOutput>, t: ScenarioHookType) -> bool {
    forall|i: int| 0 <= i < outputs.len() ==> (#[trigger] outputs[i]).hook_type == t
}

/// The error for a hook script that does not exist.
pub open spec fn missing_script_message(path: Seq<char>) -> Seq<char> {
    "Hook script not found at path: "@ + debug_text(path)
}

impl HookRun {
    /// A run of the hooks of type `hook_type` that has not started.
    pub fn new(hook_type: ScenarioHookType) -> (r: HookRun)
        ensures
            r.hook_type == hook_type,
            r.position == 0,
            r.outputs@.len() == 0,
            outputs_of_type(r.outputs@, r.hook_type),
    {
        HookRun { hook_type, position: 0, outputs: Vec::new() }
    }

    /// The next hook of the run's type, from the current position on; the run moves to it.
    /// `None` when no hook of that type is left.
    pub fn next(&mut self, hooks: &Vec<ScenarioHookConfig>) -> (r: Option<usize>)
        ensures
            final(self).hook_type == old(self).hook_type,
            final(self).outputs == old(self).outputs,
            match r {
                Some(i) => {
                    &&& old(self).position <= i < hooks@.len()
                    &&& hooks@[i as int].hook_type == old(self).hook_type
                    &&& forall|j: int| old(self).position <= j < i ==> hooks@[j].hook_type != old(self).hook_type
                    &&& final(self).position == i
                },
                None => {
                    &&& forall|j: int| old(self).position <= j < hooks@.len() ==> hooks@[j].hook_type != old(self).hook_type
                    &&& final(self).position == old(self).position
                },
            },
    {
        let mut i = self.position;
        while i < hooks.len()
            invariant
                *self == *old(self),
                self.position <= i,
                forall|j: int| self.position <= j < i ==> hooks@[j].hook_type != self.hook_type,
            decreases hooks.len() - i,
        {
            if hooks[i].hook_type == self.hook_type {
                self.position = i;
                return Some(i);
            }
            i = i + 1;
        }
        None
    }

    /// Records what came of the current hook, whose script is at `script_path`, and moves
    /// past it. A missing script stops the run with an error. A run that succeeded is
    /// recorded with exit code 0; one that failed with exit code 1 and its message, and it
    /// stops the run (with that message) unless the hook continues on error.
    pub fn record(&mut self, hooks: &Vec<ScenarioHookConfig>, script_path: String, event: HookEvent) -> (r: Option<String>)
        requires
            old(self).position < hooks@.len(),
            hooks@[old(self).position as int].hook_type == old(self).hook_type,
        ensures
            final(self).hook_type == old(self).hook_type,
            outputs_of_type(old(self).outputs@, old(self).hook_type) ==> outputs_of_type(final(self).outputs@, final(self).hook_type),
            match event {
                HookEvent::Missing => {
                    &&& r.deep_view() == Some(missing_script_message(script_path@))
                    &&& final(self).outputs@ == old(self).outputs@
                    &&& final(self).position == old(self).position
                },
                HookEvent::Ran(outcome) => {
                    let o = final(self).outputs@.last();
                    let h = hooks@[old(self).position as int];
                    &&& final(self).position == old(self).position + 1
                    &&& final(self).outputs@.len() == old(self).outputs@.len() + 1
                    &&& final(self).outputs@.drop_last() == old(self).outputs@
                    &&& o.hook_type == h.hook_type
                    &&& o.path@ == script_path@
                    &&& o.stdout@.len() == 0
                    &&& match outcome {
                        Ok(()) => {
                            &&& o.exit_code == Some(0i32)
                            &&& o.stderr@.len() == 0
                            &&& o.success
                            &&& r is None
                        },
                        Err(e) => {
                            &&& o.exit_code == Some(1i32)
                            &&& o.stderr@ == e@
                            &&& !o.success
                            &&& r.deep_view() == if h.continue_on_error { None } else { Some(e@) }
                        },
                    }
                },
            },
    {
        match event {
            HookEvent::Missing => {
                let mut m = owned("Hook script not found at path: ");
                let d = debug_format_text(script_path.as_str());
                m.append(d.as_str());
                Some(m)
            },
            HookEvent::Ran(outcome) => {
                let pos = self.position;
                let n = hooks.len();
                assert(pos < n);
                let h = &hooks[pos];
                let ghost before = self.outputs@;
                let r = match outcome {
                    Ok(()) => {
                        self.outputs.push(HookOutput {
                            hook_type: h.hook_type,
                            path: script_path,
                            exit_code: Some(0),
                            stdout: String::new(),
                            stderr: String::new(),
                            success: true,
                        });
                        None
                    },
                    Err(e) => {
                        let stop = if h.continue_on_error { None } else { Some(e.clone()) };
                        self.outputs.push(HookOutput {
                            hook_type: h.hook_type,
                            path: script_path,
                            exit_code: Some(1),
                            stdout: String::new(),
                            stderr: e,
                            success: false,
                        });
                        stop
                    },
                };
                assert(self.outputs@.drop_last() =~= before);
                assert(outputs_of_type(before, self.hook_type) ==> outputs_of_type(self.outputs@, self.hook_type)) by {
                    if outputs_of_type(before, self.hook_type) {
                        assert forall|i: int| 0 <= i < self.outputs@.len() implies (#[trigger] self.outputs@[i]).hook_type == self.hook_type by {
                            if i < before.len() {
                                assert(self.outputs@[i] == before[i]);
                            }
                        }
                    }
                }
                self.position = pos + 1;
                r
            },
        }
    }
}

/// The arguments PowerShell is started with to run a script non-interactively, followed by
/// the script's own arguments.
pub open spec fn powershell_arguments_spec(script_path: Seq<char>, arguments: Seq<Seq<char>>) -> Seq<Seq<char>> {
    seq!["-ExecutionPolicy"@, "Bypass"@, "-NonInteractive"@, "-File"@, script_path] + arguments
}

/// The arguments for `powershell.exe` that run the script at `script_path` with `arguments`.
pub fn powershell_arguments(script_path: &str, arguments: &Vec<String>) -> (r: Vec<String>)
    ensures
        r.deep_view() == powershell_arguments_spec(script_path@, arguments.deep_view()),
{
    let mut r: Vec<String> = Vec::new();
    r.push(owned("-ExecutionPolicy"));
    r.push(owned("Bypass"));
    r.push(owned("-NonInteractive"));
    r.push(owned("-File"));
    r.push(owned(script_path));
    let rest = copy_strings(arguments);
    let ghost head = r.deep_view();
    let mut i: usize = 0;
    while i < rest.len()
        invariant
            i <= rest@.len(),
            rest.deep_view() == arguments.deep_view(),
            head == seq!["-ExecutionPolicy"@, "Bypass"@, "-NonInteractive"@, "-File"@, script_path@],
            r.deep_view() == head + rest.deep_view().take(i as int),
        decreases rest@.len() - i,
    {
        let ghost prev = r.deep_view();
        r.push(rest[i].clone());
        assert(r.deep_view() =~= prev.push(rest.deep_view()[i as int]));
        assert(rest.deep_view().take(i + 1) =~= rest.deep_view().take(i as int).push(rest.deep_view()[i as int]));
        i = i + 1;
    }
    assert(rest.deep_view().take(i as int) =~= rest.deep_view());
    r
}

/// Decimal notation of a signed number.
pub open spec fn signed_decimal(n: int) -> Seq<char> {
    if n < 0 {
        "-"@ + decimal_spec((-n) as nat)
    } else {
        decimal_spec(n as nat)
    }
}

/// Decimal notation of `n`, with a minus sign when negative.
pub fn i32_to_decimal(n: i32) -> (r: String)
    ensures
        r@ == signed_decimal(n as int),
{
    if n < 0 {
        let m: i64 = n as i64;
        let a: u64 = (-m) as u64;
        let mut r = owned("-");
        let d = u64_to_decimal(a);
        r.append(d.as_str());
        r
    } else {
        u64_to_decimal(n as u64)
    }
}

/// What a finished script run means.
#[derive(Debug)]
pub enum ScriptOutcome {
    /// The script succeeded.
    Succeeded,
    /// The script failed and the failure is only reported; the caller carries on.
    Reported(String),
    /// The script failed and the failure is the caller's error.
    Failed(String),
}

/// The report of a failed script run: its exit code (-1 when it has none) and what it wrote
/// to its error stream.
pub open spec fn failure_message(code: Option<i32>, stderr: Seq<char>) -> Seq<char> {
    "Script execution failed with code "@ + signed_decimal(
        match code {
            Some(c) => c as int,
            None => -1,
        },
    ) + ": "@ + stderr
}

/// The outcome of a script run that exited with `success`, the exit `code` and the error
/// text `stderr`: a failure is reported and passed over when the hook continues on error.
pub fn script_outcome(success: bool, code: Option<i32>, stderr: &str, continue_on_error: bool) -> (r: ScriptOutcome)
    ensures
        success ==> r is Succeeded,
        !success && continue_on_error ==> (r matches ScriptOutcome::Reported(m) && m@ == failure_message(code, stderr@)),
        !success && !continue_on_error ==> (r matches ScriptOutcome::Failed(m) && m@ == failure_message(code, stderr@)),
{
    if success {
        return ScriptOutcome::Succeeded;
    }
    let c: i32 = match code {
        Some(c) => c,
        None => -1,
    };
    let mut m = owned("Script execution failed with code ");
    let d = i32_to_decimal(c);
    m.append(d.as_str());
    m.append(": ");
    m.append(stderr);
    if continue_on_error {
        ScriptOutcome::Reported(m)
    } else {
        ScriptOutcome::Failed(m)
    }
}

/// The lines a command takes in a script: its description as a comment, if it has one,
/// then the command itself, commented out when it is a comment.
pub open spec fn command_text(c: RemediationCommandView) -> Seq<char> {
    (match c.description {
        Some(d) => "# "@ + d + "\n"@,
        None => Seq::empty(),
    }) + (if c.is_comment { "# "@ + c.command + "\n"@ } else { c.command + "\n"@ })
}

/// The lines of all the commands, in order.
pub open spec fn commands_text(cs: Seq<RemediationCommandView>) -> Seq<char>
    decreases cs.len(),
{
    if cs.len() == 0 {
        Seq::empty()
    } else {
        commands_text(cs.drop_last()) + command_text(cs.last())
    }
}

/// The views of `v`.
pub open spec fn command_views(v: Seq<RemediationCommand>) -> Seq<RemediationCommandView> {
    v.map_values(|c: RemediationCommand| c.deep_view())
}

/// Appends the lines of the commands to `out`.
fn append_commands(out: &mut String, commands: &Vec<RemediationCommand>)
    ensures
        final(out)@ == old(out)@ + commands_text(command_views(commands@)),
{
    let ghost start = out@;
    let ghost cs = command_views(commands@);
    for i in 0..commands.len()
        invariant
            cs == command_views(commands@),
            out@ == start + commands_text(cs.take(i as int)),
    {
        let c = &commands[i];
        assert(cs.take(i + 1).drop_last() =~= cs.take(i as int));
        assert(cs.take(i + 1).last() == c.deep_view());
        match &c.description {
            Some(d) => {
                out.append("# ");
                out.append(d.as_str());
                out.append("\n");
            },
            None => {},
        }
        if c.is_comment {
            out.append("# ");
        }
        out.append(c.command.as_str());
        out.append("\n");
        assert(out@ =~= start + commands_text(cs.take(i + 1)));
    }
    assert(cs.take(commands@.len() as int) =~= cs);
}

/// The remediation script for `commands`, generated at `generated`: a header, the import
/// of the ActiveDirectory module, then the lines of each command.
pub fn script_text(commands: &Vec<RemediationCommand>, generated: &str) -> (r: String)
    ensures
        r@ == "# AD Remediation Script\n# Generated: "@ + generated@ + "\n\nImport-Module ActiveDirectory\n\n"@
            + commands_text(command_views(commands@)),
{
    let mut out = owned("# AD Remediation Script\n# Generated: ");
    out.append(generated);
    out.append("\n\nImport-Module ActiveDirectory\n\n");
    append_commands(&mut out, commands);
    out
}

/// What a dry run prints for `commands`, generated at `generated`: a header, then the lines
/// of each command.
pub fn console_text(commands: &Vec<RemediationCommand>, generated: &str) -> (r: String)
    ensures
        r@ == "# AD Remediation Commands (dry run)\n# Generated: "@ + generated@ + "\n\n"@
            + commands_text(command_views(commands@)),
{
    let mut out = owned("# AD Remediation Commands (dry run)\n# Generated: ");
    out.append(generated);
    out.append("\n\n");
    append_commands(&mut out, commands);
    out
}

} // verus!
