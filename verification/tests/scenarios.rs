use altered_state::cleanup::{ActivateRequest, ResetRequest};
use altered_state::commands::{confirms_deletion, ActivateArgs, DeleteArgs, ResetArgs, UpdateArgs};
use altered_state::config::{
    AppConfig, LdapOptions, LoggingConfig, PathProbe, PathsConfig, ScenarioConfig,
    ScenarioHookConfig, ScenarioHookType,
};
use altered_state::context::AppContext;
use altered_state::hooks::{
    console_text, i32_to_decimal, powershell_arguments, script_outcome, script_text, HookEvent,
    HookRun, ScriptOutcome,
};
use altered_state::models::{
    generate_ldap_options_from_config, LdapNamingContexts, ScenarioExportType, ScenarioRef,
    ScenarioState,
};
use altered_state::objects::{ActionType, CommandType, DirectoryObject, RemediationAction, RemediationCommand};
use altered_state::remediation::{
    escape_dn_component, escape_powershell_single_quoted, extract_naming_context,
    generate_commands, generate_commands_for_action, generate_create_commands,
    generate_delete_commands, generate_modify_commands, generate_reanimate_commands,
    generate_sddl_commands, is_nt_security_descriptor_attr, is_probably_sddl_string,
};

fn s(x: &str) -> String {
    x.to_string()
}

fn texts(xs: &[&str]) -> Vec<String> {
    xs.iter().map(|x| x.to_string()).collect()
}

fn paths() -> PathsConfig {
    PathsConfig {
        actions_script_file: s("/app/temp/actions.ps1"),
        images_directory: s("/app/web/wwwroot/images"),
        scenarios_directory: s("/app/scenarios"),
        scenario_state_file: s("/app/scenarios/scenario_state.json"),
        schema_attributes_file: s("/app/scenarios/schema_attributes.json"),
        naming_contexts_file: s("/app/scenarios/naming_contexts.json"),
        working_directory: s("/app/working"),
        temp_directory: s("/app/temp"),
    }
}

fn app_config() -> AppConfig {
    AppConfig {
        domain: s("corp.local"),
        hostname: s("dc01.corp.local"),
        never_touch_these_attributes: texts(&["cn"]),
        paths: paths(),
        logging: LoggingConfig { directory: s("/app/logs"), prefix: s("log") },
        scenario_state: ScenarioState::new(),
    }
}

fn scenario_ref(name: &str, file: &str) -> ScenarioRef {
    ScenarioRef { scenario: s(name), state_file: s(file) }
}

fn object(dn: &str, name: Option<&str>, classes: &[&str], attrs: Vec<(String, Vec<String>)>) -> DirectoryObject {
    DirectoryObject {
        dn: s(dn),
        name: name.map(s),
        sddl: None,
        object_class: texts(classes),
        is_deleted: false,
        attributes: attrs,
        bin_attributes: Vec::new(),
        hash: s("H"),
    }
}

fn lines(cs: &[RemediationCommand]) -> Vec<String> {
    cs.iter().map(|c| c.command.clone()).collect()
}

fn hook(t: ScenarioHookType, path: &str, keep_going: bool) -> ScenarioHookConfig {
    ScenarioHookConfig { hook_type: t, path: s(path), arguments: texts(&["-Verbose"]), continue_on_error: keep_going }
}

#[test]
fn ldap_options_from_config() {
    let o = generate_ldap_options_from_config(&app_config());
    assert_eq!(o.domain, "corp.local");
    assert_eq!(o.ldapfqdn, "dc01.corp.local");
    assert_eq!(o.ip, Some(s("dc01.corp.local")));
    assert_eq!(o.port, Some(389));
    assert!(!o.ldaps);
    assert_eq!(o.ldap_filter, Some(s("(objectClass=*)")));
}

#[test]
fn ldap_config_debug_and_kerberos() {
    let base = LdapOptions::default();
    assert_eq!(base.domain, "example.com");
    assert!(base.kerberos);
    let debug = base.generate_ldap_config(&app_config(), true);
    assert_eq!(debug.ip, Some(s("dc01.corp.local")));
    assert_eq!(debug.username, Some(s("administrator")));
    assert!(!debug.kerberos);
    let normal = base.generate_ldap_config(&app_config(), false);
    assert_eq!(normal.ip, Some(s("127.0.0.1")));
    assert_eq!(normal.username, None);
    assert_eq!(normal.password, None);
    assert!(normal.kerberos);
    assert_eq!(normal.domain, "corp.local");
}

#[test]
fn scenario_state_keeps_previous() {
    let mut state = ScenarioState::new();
    assert!(state.get_active_scenario().is_none());
    assert_eq!(state.get_active_scenario_name(), None);
    state.set_active_scenario(scenario_ref("default", "baseline.bin"));
    state.set_active_scenario(scenario_ref("esc1", "current.bin"));
    assert_eq!(state.get_active_scenario_name(), Some(s("esc1")));
    assert_eq!(state.previous_scenario.as_ref().unwrap().scenario, "default");
    assert_eq!(state.get_active_scenario().unwrap().state_file, "current.bin");
}

#[test]
fn export_types_by_name() {
    assert!(matches!(ScenarioExportType::from_state_name("CURRENT"), ScenarioExportType::Current));
    assert!(matches!(ScenarioExportType::from_state_name("working"), ScenarioExportType::Working));
    assert!(matches!(ScenarioExportType::from_state_name("Snapshot"), ScenarioExportType::Snapshot));
    assert!(matches!(ScenarioExportType::from_state_name(""), ScenarioExportType::Baseline));
    assert!(matches!(ScenarioExportType::from_state_name("bogus"), ScenarioExportType::Baseline));
    assert_eq!(ScenarioExportType::Baseline.to_text(), "baseline");
    assert_eq!(ScenarioExportType::Current.file_name(), "current.bin");
}

#[test]
fn hook_type_names() {
    assert_eq!(ScenarioHookType::PreAction.to_text(), "preaction");
    assert_eq!(ScenarioHookType::Cleanup.to_text(), "cleanup");
    assert_eq!(ScenarioHookType::Activation.to_text(), "activation");
}

fn probe(abs: bool, exists: bool, exe: &str, exe_ok: bool, cfg: &str, cfg_ok: bool) -> PathProbe {
    PathProbe {
        is_absolute: abs,
        exists,
        exe_candidate: s(exe),
        exe_exists: exe_ok,
        config_candidate: s(cfg),
        config_exists: cfg_ok,
    }
}

fn scenario(name: &str, image: Option<&str>, hooks: Vec<ScenarioHookConfig>) -> ScenarioConfig {
    ScenarioConfig { name: s(name), description: None, image_path: image.map(s), hooks, exclusions: Vec::new() }
}

#[test]
fn validate_rejects_blank_name() {
    let mut c = scenario("  \t", None, Vec::new());
    assert_eq!(c.validate(&None, &Vec::new()), Err(s("Scenario name cannot be empty")));
}

#[test]
fn validate_resolves_relative_paths() {
    let mut c = scenario(
        "esc1",
        Some("esc1.jpg"),
        vec![hook(ScenarioHookType::Activation, "act.ps1", true), hook(ScenarioHookType::Cleanup, "/abs/clean.ps1", true)],
    );
    let image = Some(probe(false, false, "/exe/esc1.jpg", false, "/cfg/esc1.jpg", true));
    let probes = vec![
        probe(false, false, "/exe/act.ps1", true, "/cfg/act.ps1", true),
        probe(true, true, "", false, "", false),
    ];
    assert_eq!(c.validate(&image, &probes), Ok(true));
    assert_eq!(c.image_path, Some(s("/cfg/esc1.jpg")));
    assert_eq!(c.hooks[0].path, "/exe/act.ps1");
    assert_eq!(c.hooks[1].path, "/abs/clean.ps1");
    assert_eq!(c.hooks[0].arguments, texts(&["-Verbose"]));
}

#[test]
fn validate_unchanged_absolute_paths() {
    let mut c = scenario("esc1", None, vec![hook(ScenarioHookType::Activation, "/abs/act.ps1", false)]);
    assert_eq!(c.validate(&None, &vec![probe(true, true, "", false, "", false)]), Ok(false));
}

#[test]
fn validate_reports_missing_files() {
    let mut c = scenario("esc1", Some("/abs/missing.jpg"), Vec::new());
    let image = Some(probe(true, false, "", false, "", false));
    assert_eq!(c.validate(&image, &Vec::new()), Err(s("Image file not found at path: \"/abs/missing.jpg\"")));
    let mut c = scenario("esc1", None, vec![hook(ScenarioHookType::Cleanup, "c.ps1", false)]);
    let probes = vec![probe(false, false, "/exe/c.ps1", false, "/cfg/c.ps1", false)];
    assert_eq!(
        c.validate(&None, &probes),
        Err(s("Hook script not found at either path: \"/exe/c.ps1\" or \"/cfg/c.ps1\""))
    );
    assert_eq!(c.hooks[0].path, "c.ps1");
}

#[test]
fn scenario_from_template_and_messages() {
    let t = scenario("tmpl", Some("x.jpg"), vec![hook(ScenarioHookType::Activation, "a.ps1", true)]);
    let c = ScenarioConfig::from_template("esc2", None, Some(t));
    assert_eq!(c.name, "esc2");
    assert_eq!(c.description, Some(s("esc2")));
    assert_eq!(c.image_path, Some(s("x.jpg")));
    assert_eq!(c.hooks.len(), 1);
    let d = ScenarioConfig::from_template("default", Some(s("Baseline for the default scenario")), None);
    assert_eq!(d.description, Some(s("Baseline for the default scenario")));
    assert!(d.hooks.is_empty() && d.image_path.is_none());
    assert_eq!(ScenarioConfig::not_found_message("esc9"), "Scenario config not found for scenario 'esc9'");
}

#[test]
fn context_requires_active_scenario_when_scenarios_exist() {
    let e = AppContext::assemble(app_config(), ScenarioState::new(), true).unwrap_err();
    assert_eq!(e, "Invariant violation: No active scenario in state but scenarios directory is not empty");
    assert!(AppContext::assemble(app_config(), ScenarioState::new(), false).is_ok());
    let mut st = ScenarioState::new();
    st.set_active_scenario(scenario_ref("default", "baseline.bin"));
    assert!(AppContext::assemble(app_config(), st, true).is_ok());
}

#[test]
fn activation_target_states() {
    let r = |st: Option<&str>| ActivateRequest { scenario: s("esc1"), state: st.map(s) }.target_state();
    assert_eq!(r(Some("current")), "current.bin");
    assert_eq!(r(Some("Snap.BIN")), "Snap.BIN");
    assert_eq!(r(None), "baseline.bin");
    let reset = ResetRequest { scenario: s("esc1"), state: None }.activation();
    assert_eq!(reset.scenario, "esc1");
    assert_eq!(reset.state, Some(s("baseline")));
    let req = ActivateArgs { scenario: s("esc1"), state: Some(s("working")) }.request();
    assert_eq!(req.state, Some(s("working")));
}

#[test]
fn command_decisions() {
    assert!(confirms_deletion(" Y \n"));
    assert!(confirms_deletion("y"));
    assert!(!confirms_deletion("yes"));
    assert!(!confirms_deletion(""));
    let mut st = ScenarioState::new();
    assert_eq!(ResetArgs { name: s("") }.target_name(&st), "default");
    st.set_active_scenario(scenario_ref("esc1", "baseline.bin"));
    assert_eq!(ResetArgs { name: s("") }.target_name(&st), "esc1");
    assert_eq!(ResetArgs { name: s("esc2") }.target_name(&st), "esc2");
    assert!(DeleteArgs { name: s("esc1"), force: false }.deletes_active(&st));
    assert!(!DeleteArgs { name: s("esc2"), force: true }.deletes_active(&st));
    assert!(!UpdateArgs { name: s("x"), description: None, set_playable: None }.has_changes());
    assert!(UpdateArgs { name: s("x"), description: Some(s("d")), set_playable: None }.has_changes());
}

#[test]
fn hook_run_runs_matching_hooks_in_order() {
    let hooks = vec![
        hook(ScenarioHookType::Cleanup, "c1.ps1", true),
        hook(ScenarioHookType::Activation, "a1.ps1", true),
        hook(ScenarioHookType::Cleanup, "c2.ps1", false),
    ];
    let mut run = HookRun::new(ScenarioHookType::Cleanup);
    assert_eq!(run.next(&hooks), Some(0));
    assert_eq!(run.record(&hooks, s("/s/c1.ps1"), HookEvent::Ran(Err(s("bad")))), None);
    assert_eq!(run.next(&hooks), Some(2));
    assert_eq!(run.record(&hooks, s("/s/c2.ps1"), HookEvent::Ran(Ok(()))), None);
    assert_eq!(run.next(&hooks), None);
    assert_eq!(run.outputs.len(), 2);
    assert!(!run.outputs[0].success);
    assert_eq!(run.outputs[0].exit_code, Some(1));
    assert_eq!(run.outputs[0].stderr, "bad");
    assert!(run.outputs[1].success);
    assert_eq!(run.outputs[1].exit_code, Some(0));
    assert_eq!(run.outputs[1].path, "/s/c2.ps1");
}

#[test]
fn hook_run_stops_on_failure_or_missing_script() {
    let hooks = vec![hook(ScenarioHookType::Cleanup, "c1.ps1", false)];
    let mut run = HookRun::new(ScenarioHookType::Cleanup);
    assert_eq!(run.next(&hooks), Some(0));
    assert_eq!(run.record(&hooks, s("/s/c1.ps1"), HookEvent::Ran(Err(s("boom")))), Some(s("boom")));
    let mut run = HookRun::new(ScenarioHookType::Cleanup);
    run.next(&hooks);
    assert_eq!(
        run.record(&hooks, s("/s/c1.ps1"), HookEvent::Missing),
        Some(s("Hook script not found at path: \"/s/c1.ps1\""))
    );
    assert!(run.outputs.is_empty());
}

#[test]
fn script_arguments_and_outcomes() {
    assert_eq!(
        powershell_arguments("C:/s/a.ps1", &texts(&["x", "y"])),
        texts(&["-ExecutionPolicy", "Bypass", "-NonInteractive", "-File", "C:/s/a.ps1", "x", "y"])
    );
    assert_eq!(i32_to_decimal(0), "0");
    assert_eq!(i32_to_decimal(-1), "-1");
    assert_eq!(i32_to_decimal(i32::MIN), "-2147483648");
    assert_eq!(i32_to_decimal(1234), "1234");
    assert!(matches!(script_outcome(true, Some(0), "", false), ScriptOutcome::Succeeded));
    match script_outcome(false, None, "boom", true) {
        ScriptOutcome::Reported(m) => assert_eq!(m, "Script execution failed with code -1: boom"),
        _ => panic!("expected a reported failure"),
    }
    match script_outcome(false, Some(2), "bad", false) {
        ScriptOutcome::Failed(m) => assert_eq!(m, "Script execution failed with code 2: bad"),
        _ => panic!("expected a failure"),
    }
}

fn command(c: &str, d: Option<&str>, comment: bool) -> RemediationCommand {
    RemediationCommand { command_type: CommandType::PowerShell, command: s(c), description: d.map(s), object_name: None, is_comment: comment }
}

#[test]
fn script_and_console_text() {
    let cs = vec![command("Remove-ADObject x", Some("Delete the object"), false), command("note", None, true)];
    assert_eq!(
        script_text(&cs, "T"),
        "# AD Remediation Script\n# Generated: T\n\nImport-Module ActiveDirectory\n\n# Delete the object\nRemove-ADObject x\n# note\n"
    );
    assert_eq!(console_text(&cs, "T"), "# AD Remediation Commands (dry run)\n# Generated: T\n\n# Delete the object\nRemove-ADObject x\n# note\n");
}

#[test]
fn escaping_and_detection() {
    assert_eq!(escape_dn_component("a\nb\rc"), "a\\0Ab\\0Dc");
    assert_eq!(escape_powershell_single_quoted("it's"), "it''s");
    assert!(is_nt_security_descriptor_attr("nTSecurityDescriptor;binary"));
    assert!(is_nt_security_descriptor_attr("ntsecuritydescriptor"));
    assert!(!is_nt_security_descriptor_attr("objectGUID"));
    assert_eq!(is_probably_sddl_string(b"  D:(A;;GA;;;SY) "), Some(s("D:(A;;GA;;;SY)")));
    assert_eq!(is_probably_sddl_string(b"hello"), None);
    assert_eq!(is_probably_sddl_string(b"   "), None);
    assert_eq!(is_probably_sddl_string(&[0xff, 0x4f, 0x3a]), None);
}

#[test]
fn naming_context_prefers_longest_match() {
    let ncs = LdapNamingContexts { naming_contexts: texts(&["DC=corp,DC=local", "CN=Configuration,DC=corp,DC=local"]) };
    assert_eq!(extract_naming_context("CN=x,DC=corp,DC=local", &ncs), Some(s("DC=corp,DC=local")));
    assert_eq!(
        extract_naming_context("cn=y,cn=configuration,dc=corp,dc=local", &ncs),
        Some(s("CN=Configuration,DC=corp,DC=local"))
    );
    assert_eq!(extract_naming_context("DC=corp,DC=local", &ncs), Some(s("DC=corp,DC=local")));
    assert_eq!(extract_naming_context("DC=other", &ncs), None);
}

#[test]
fn sddl_commands_for_text_binary_and_missing() {
    let text = generate_sddl_commands("CN=X,DC=a", Some(b"O:BAG:BAD:(A;;RP;;;WD)"));
    assert_eq!(
        lines(&text),
        texts(&[
            "Restore security descriptor from baseline",
            "$sddl = 'O:BAG:BAD:(A;;RP;;;WD)'",
            "$acl = Get-Acl 'AD:\\CN=X,DC=a'",
            "$acl.SetSecurityDescriptorSddlForm($sddl)",
            "Set-Acl -Path 'AD:\\CN=X,DC=a' -AclObject $acl",
            "# OR use dsacls:",
            "# dsacls 'CN=X,DC=a' /S /T",
        ])
    );
    assert_eq!(text[6].command_type, CommandType::DsAcls);
    assert!(text[6].is_comment && !text[5].is_comment);
    let bin = generate_sddl_commands("CN=X,DC=a", Some(&[1, 2, 3, 255]));
    assert_eq!(bin[1].command, "$baselineSd = [Convert]::FromBase64String('AQID/w==')");
    assert_eq!(bin[1].description, Some(s("Decode baseline security descriptor")));
    assert_eq!(bin.len(), 8);
    let two = generate_sddl_commands("CN=X,DC=a", Some(&[1, 2]));
    assert_eq!(two[1].command, "$baselineSd = [Convert]::FromBase64String('AQI=')");
    let none = generate_sddl_commands("CN=X,DC=a", None);
    assert_eq!(lines(&none), texts(&["Restore security descriptor from baseline", "Manual review is required, no baseline SDDL was captured"]));
}

#[test]
fn modify_replaces_and_clears() {
    let target = object("CN=o,DC=a", Some("o"), &["top", "user"], vec![(s("description"), texts(&["new"]))]);
    let current = object("CN=o,DC=a", Some("o"), &["top", "user"], vec![(s("description"), texts(&["old"])), (s("info"), texts(&["x"]))]);
    let cs = generate_modify_commands(RemediationAction { action: ActionType::Modify, target: Some(target), current: Some(current), last_known_parent: None });
    assert_eq!(
        lines(&cs),
        texts(&["Set-ADObject -Identity 'CN=o,DC=a' -Replace @{'description'='new';}", "Set-ADObject -Identity 'CN=o,DC=a' -Clear @('info')"])
    );
    assert_eq!(cs[0].description, Some(s("Replace modified attributes")));
    assert_eq!(cs[1].description, Some(s("Clear removed attributes")));
}

#[test]
fn create_builds_object_then_attributes() {
    let target = object("CN=alice,OU=Users,DC=a", Some("alice"), &["top", "person", "user"], vec![(s("cn"), texts(&["alice"]))]);
    let cs = generate_create_commands(RemediationAction { action: ActionType::Create, target: Some(target), current: None, last_known_parent: None });
    assert_eq!(
        lines(&cs),
        texts(&[
            "Create new object of class [\"top\", \"person\", \"user\"] with attributes from baseline",
            "New-ADObject -Name 'alice' -Type 'user' -Path 'OU=Users,DC=a'",
            "Set-ADObject -Identity 'CN=alice,OU=Users,DC=a' -Replace @{'cn'='alice';}",
        ])
    );
    assert_eq!(cs[1].object_name, Some(s("alice")));
    let none = generate_create_commands(RemediationAction { action: ActionType::Create, target: None, current: None, last_known_parent: None });
    assert!(none.is_empty());
}

#[test]
fn delete_without_parent_removes_and_empties_recycle_bin() {
    let ncs = LdapNamingContexts { naming_contexts: texts(&["DC=a"]) };
    let current = object("CN=bob,DC=a", Some("bob"), &["top", "user"], Vec::new());
    let cs = generate_delete_commands(RemediationAction { action: ActionType::Delete, target: None, current: Some(current), last_known_parent: None }, &ncs);
    assert_eq!(
        lines(&cs),
        texts(&[
            "WARNING: lastKnownParent not found in baseline, deleting directly (object may not be recoverable if not moved first)",
            "Remove-ADObject -Identity 'CN=bob,DC=a' -Recursive -Confirm:$false",
            "Get-ADObject -Filter 'isDeleted -eq $true' -IncludeDeletedObjects -SearchBase 'CN=Deleted Objects,DC=a' | Where-Object { $_.DistinguishedName -ne 'CN=Deleted Objects,DC=a' } |  Remove-ADObject -Recursive -Confirm:$false",
        ])
    );
}

#[test]
fn delete_with_parent_moves_first() {
    let ncs = LdapNamingContexts { naming_contexts: texts(&["DC=a"]) };
    let current = object("CN=bob,OU=Old,DC=a", Some("bob"), &["top", "user"], Vec::new());
    let cs = generate_delete_commands(
        RemediationAction { action: ActionType::Delete, target: None, current: Some(current), last_known_parent: Some(s("OU=Home,DC=a")) },
        &ncs,
    );
    assert_eq!(
        lines(&cs)[..4].to_vec(),
        texts(&[
            "Step 1: Move object to lastKnownParent before deletion",
            "Move-ADObject -Identity 'CN=bob,OU=Old,DC=a' -TargetPath 'OU=Home,DC=a'",
            "Step 2: Delete the object",
            "Remove-ADObject -Identity 'CN=bob,OU=Home,DC=a' -Recursive -Confirm:$false",
        ])
    );
}

#[test]
fn delete_of_template_uses_ca_cmdlets() {
    let ncs = LdapNamingContexts { naming_contexts: texts(&["CN=Configuration,DC=a"]) };
    let current = object("CN=ESC1,CN=Certificate Templates,CN=Configuration,DC=a", Some("ESC1"), &["top", "pKICertificateTemplate"], Vec::new());
    let cs = generate_delete_commands(RemediationAction { action: ActionType::Delete, target: None, current: Some(current), last_known_parent: None }, &ncs);
    assert_eq!(cs[1].command, "Object 'ESC1' is a Certificate Template, using CA cmdlets to delete to avoid orphaned CN=Deleted Objects entry");
    assert_eq!(
        cs[2].command,
        "Get-CertificationAuthority | Get-CATemplate | Remove-CATemplate -Name 'ESC1' | Set-CATemplate; Remove-ADObject -Identity 'CN=ESC1,CN=Certificate Templates,CN=Configuration,DC=a' -Recursive -Confirm:$false"
    );
}

#[test]
fn reanimate_restores_to_parent() {
    let target = object("CN=t,OU=X,DC=a", Some("t"), &["top", "user"], Vec::new());
    let current = object("CN=t,CN=Deleted Objects,DC=a", Some("t"), &["top", "user"], Vec::new());
    let cs = generate_reanimate_commands(RemediationAction { action: ActionType::Reanimate, target: Some(target), current: Some(current), last_known_parent: None });
    assert_eq!(
        lines(&cs),
        texts(&["Restore-ADObject -Identity '\"CN=t,CN=Deleted Objects,DC=a\"' -TargetPath '\"OU=X,DC=a\"' -Confirm:$false"])
    );
}

#[test]
fn commands_for_all_actions_in_order() {
    let ncs = LdapNamingContexts { naming_contexts: texts(&["DC=a"]) };
    let create = RemediationAction {
        action: ActionType::Create,
        target: Some(object("CN=n,DC=a", Some("n"), &["user"], Vec::new())),
        current: None,
        last_known_parent: None,
    };
    let single = generate_commands_for_action(create.clone(), &ncs);
    assert_eq!(single.len(), 2);
    let all = generate_commands(vec![(s("CN=n,DC=a"), vec![create.clone()]), (s("CN=m,DC=a"), vec![create])], &ncs);
    assert_eq!(all.len(), 4);
    assert_eq!(all[1].command, "New-ADObject -Name 'n' -Type 'user' -Path 'DC=a'");
}

#[test]
fn restoring_an_object_onto_itself_needs_nothing() {
    let o = object("CN=o,DC=a", Some("o"), &["top", "user"], vec![(s("description"), texts(&["same"]))]);
    let cs = generate_modify_commands(RemediationAction { action: ActionType::Modify, target: Some(o.clone()), current: Some(o), last_known_parent: None });
    assert!(cs.is_empty());
}

#[test]
fn validate_keeps_paths_resolved_before_a_failure() {
    let mut c = scenario(
        "esc1",
        Some("esc1.jpg"),
        vec![
            hook(ScenarioHookType::Activation, "act.ps1", true),
            hook(ScenarioHookType::Cleanup, "gone.ps1", true),
            hook(ScenarioHookType::Cleanup, "later.ps1", true),
        ],
    );
    let image = Some(probe(false, false, "/exe/esc1.jpg", true, "/cfg/esc1.jpg", false));
    let probes = vec![
        probe(false, false, "/exe/act.ps1", false, "/cfg/act.ps1", true),
        probe(false, false, "/exe/gone.ps1", false, "/cfg/gone.ps1", false),
        probe(false, false, "/exe/later.ps1", true, "/cfg/later.ps1", false),
    ];
    assert_eq!(
        c.validate(&image, &probes),
        Err(s("Hook script not found at either path: \"/exe/gone.ps1\" or \"/cfg/gone.ps1\""))
    );
    assert_eq!(c.image_path, Some(s("/exe/esc1.jpg")));
    assert_eq!(c.hooks[0].path, "/cfg/act.ps1");
    assert_eq!(c.hooks[1].path, "gone.ps1");
    assert_eq!(c.hooks[2].path, "later.ps1");
    assert_eq!(scenario("  ", None, Vec::new()).check_name(), Err(s("Scenario name cannot be empty")));
}
