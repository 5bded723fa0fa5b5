//! The application's configuration and the configuration of a scenario.
use vstd::prelude::*;

use crate::models::ScenarioState;
use crate::objects::copy_strings;
use crate::remediation::{debug_format_text, debug_text};
use crate::text::{owned, str_eq, trim, trim_spec};

verus! {

broadcast use vstd::string::group_string_axioms;

/// Where the application keeps its files.
#[derive(Debug, Clone)]
pub struct PathsConfig {
    pub actions_script_file: String,
    pub images_directory: String,
    pub scenarios_directory: String,
    pub scenario_state_file: String,
    pub schema_attributes_file: String,
    pub naming_contexts_file: String,
    pub working_directory: String,
    pub temp_directory: String,
}

/// Where the application writes its logs, and the prefix of their names.
#[derive(Debug, Clone)]
pub struct LoggingConfig {
    pub directory: String,
    pub prefix: String,
}

/// The application's configuration: the domain and its controller, the attributes that are
/// never compared nor restored, the file layout, logging, and the scenario state.
#[derive(Debug, Clone)]
pub struct AppConfig {
    pub domain: String,
    pub hostname: String,
    pub never_touch_these_attributes: Vec<String>,
    pub paths: PathsConfig,
    pub logging: LoggingConfig,
    pub scenario_state: ScenarioState,
}

/// How an object changed between two states.
#[derive(Debug, Clone, Copy, PartialEq, Eq, Structural)]
pub enum ObjectChangeType {
    Created,
    Removed,
    Modified,
}

/// Which objects an exclusion applies to.
#[derive(Debug, Clone)]
pub struct ObjectMatch {
    pub name_exact: Option<String>,
    pub name_prefix: Option<String>,
    pub name_contains: Option<String>,
    pub ou: Option<String>,
    pub dn_contains: Option<String>,
}

/// A named exclusion: the objects it matches and the rules that apply to them.
#[derive(Debug, Clone)]
pub struct ExclusionConfig {
    pub name: String,
    pub match_: ObjectMatch,
    pub rules: Vec<ChangeRule>,
}

/// For one kind of change, the attributes that are ignored besides the usual ones.
#[derive(Debug, Clone)]
pub struct ChangeRule {
    pub change_type: ObjectChangeType,
    pub additional_ignored_attributes: Vec<String>,
}

/// How to reach and bind to the directory.
#[derive(Debug, Clone)]
pub struct LdapOptions {
    pub domain: String,
    pub password: Option<String>,
    pub username: Option<String>,
    pub ldapfqdn: String,
    pub ip: Option<String>,
    pub port: Option<u16>,
    pub ldaps: bool,
    pub ldap_filter: Option<String>,
    pub kerberos: bool,
}

impl Default for LdapOptions {
    /// A Kerberos bind to `ldap.example.com` of `example.com` at `127.0.0.1:389`, without
    /// TLS, searching `(objectClass=*)`.
    fn default() -> (r: Self)
        ensures
            r.domain@ == "example.com"@,
            r.ldapfqdn@ == "ldap.example.com"@,
            r.password is None,
            r.username is None,
            r.ip.deep_view() == Some("127.0.0.1"@),
            r.port == Some(389u16),
            !r.ldaps,
            r.ldap_filter.deep_view() == Some("(objectClass=*)"@),
            r.kerberos,
    {
        LdapOptions {
            domain: owned("example.com"),
            ldapfqdn: owned("ldap.example.com"),
            password: None,
            username: None,
            ip: Some(owned("127.0.0.1")),
            port: Some(389),
            ldaps: false,
            ldap_filter: Some(owned("(objectClass=*)")),
            kerberos: true,
        }
    }
}

impl LdapOptions {
    /// The options for the configured domain and controller. In debug mode, a simple bind
    /// as `administrator` to the controller itself; otherwise a Kerberos bind through
    /// `127.0.0.1`. Port 389 without TLS and the filter `(objectClass=*)` either way.
    pub fn generate_ldap_config(&self, config: &AppConfig, debug_mode: bool) -> (r: LdapOptions)
        ensures
            r.domain@ == config.domain@,
            r.ldapfqdn@ == config.hostname@,
            r.port == Some(389u16),
            !r.ldaps,
            r.ldap_filter.deep_view() == Some("(objectClass=*)"@),
            debug_mode ==> {
                &&& r.ip.deep_view() == Some(config.hostname@)
                &&& r.username.deep_view() == Some("administrator"@)
                &&& r.password.deep_view() == Some("P@ssword123!"@)
                &&& !r.kerberos
            },
            !debug_mode ==> {
                &&& r.ip.deep_view() == Some("127.0.0.1"@)
                &&& r.username is None
                &&& r.password is None
                &&& r.kerberos
            },
    {
        if debug_mode {
            LdapOptions {
                domain: config.domain.clone(),
                ldapfqdn: config.hostname.clone(),
                ip: Some(config.hostname.clone()),
                port: Some(389),
                ldaps: false,
                ldap_filter: Some(owned("(objectClass=*)")),
                username: Some(owned("administrator")),
                password: Some(owned("P@ssword123!")),
                kerberos: false,
            }
        } else {
            LdapOptions {
                domain: config.domain.clone(),
                ldapfqdn: config.hostname.clone(),
                ip: Some(owned("127.0.0.1")),
                port: Some(389),
                ldaps: false,
                ldap_filter: Some(owned("(objectClass=*)")),
                username: None,
                password: None,
                kerberos: true,
            }
        }
    }
}

/// When a hook runs.
#[derive(Debug, Clone, Copy, PartialEq, Eq, Structural)]
pub enum ScenarioHookType {
    PreAction,
    Cleanup,
    Activation,
}

/// The name of a hook type.
pub open spec fn hook_type_text(t: ScenarioHookType) -> Seq<char> {
    match t {
        ScenarioHookType::PreAction => "preaction"@,
        ScenarioHookType::Cleanup => "cleanup"@,
        ScenarioHookType::Activation => "activation"@,
    }
}

impl ScenarioHookType {
    /// The name of this hook type (`preaction`, `cleanup`, `activation`).
    pub fn to_text(&self) -> (r: String)
        ensures
            r@ == hook_type_text(*self),
    {
        match self {
            ScenarioHookType::PreAction => owned("preaction"),
            ScenarioHookType::Cleanup => owned("cleanup"),
            ScenarioHookType::Activation => owned("activation"),
        }
    }
}

/// A script that a scenario runs at some point, with its arguments.
#[derive(Debug, Clone)]
pub struct ScenarioHookConfig {
    pub hook_type: ScenarioHookType,
    pub path: String,
    pub arguments: Vec<String>,
    pub continue_on_error: bool,
}

/// A scenario: its name, description and image, its hooks and its exclusions.
#[derive(Debug, Clone)]
pub struct ScenarioConfig {
    pub name: String,
    pub description: Option<String>,
    pub image_path: Option<String>,
    pub hooks: Vec<ScenarioHookConfig>,
    pub exclusions: Vec<ExclusionConfig>,
}

/// What was found out about a file that a scenario configuration names: whether the path
/// is absolute and, if so, whether it exists; otherwise the two places where a relative
/// path is looked for (next to the executable, then next to the configuration file) and
/// whether each exists.
#[derive(Debug, Clone)]
pub struct PathProbe {
    pub is_absolute: bool,
    pub exists: bool,
    pub exe_candidate: String,
    pub exe_exists: bool,
    pub config_candidate: String,
    pub config_exists: bool,
}

/// Where a named file is taken from: an absolute path that exists stays as it is; a
/// relative one becomes the first of its two candidates that exists. `None`: not found.
pub open spec fn resolved_path(path: Seq<char>, p: PathProbe) -> Option<Seq<char>> {
    if p.is_absolute {
        if p.exists { Some(path) } else { None }
    } else if p.exe_exists {
        Some(p.exe_candidate@)
    } else if p.config_exists {
        Some(p.config_candidate@)
    } else {
        None
    }
}

/// The error for a file that was not found (`what` is `Image file` or `Hook script`).
pub open spec fn missing_message(what: Seq<char>, path: Seq<char>, p: PathProbe) -> Seq<char> {
    if p.is_absolute {
        what + " not found at path: "@ + debug_text(path)
    } else {
        what + " not found at either path: "@ + debug_text(p.exe_candidate@) + " or "@
            + debug_text(p.config_candidate@)
    }
}

/// The script paths of `hooks`.
pub open spec fn hook_paths(hooks: Seq<ScenarioHookConfig>) -> Seq<Seq<char>> {
    hooks.map_values(|h: ScenarioHookConfig| h.path@)
}

/// The resolved paths of the first `n` hooks, or the error for the first one not found.
pub open spec fn resolve_upto(paths: Seq<Seq<char>>, probes: Seq<PathProbe>, n: nat) -> Result<
    Seq<Seq<char>>,
    Seq<char>,
>
    decreases n,
{
    if n == 0 {
        Ok(Seq::empty())
    } else {
        match resolve_upto(paths, probes, (n - 1) as nat) {
            Err(e) => Err(e),
            Ok(prev) => match resolved_path(paths[n - 1], probes[n - 1]) {
                Some(p) => Ok(prev.push(p)),
                None => Err(missing_message("Hook script"@, paths[n - 1], probes[n - 1])),
            },
        }
    }
}

/// The image a validated configuration names, or the error when it is not found. Without
/// an image, or without what was found out about it, the image stays as it is.
pub open spec fn image_outcome(image: Option<Seq<char>>, probe: Option<PathProbe>) -> Result<
    Option<Seq<char>>,
    Seq<char>,
> {
    match (image, probe) {
        (Some(path), Some(p)) => match resolved_path(path, p) {
            Some(r) => Ok(Some(r)),
            None => Err(missing_message("Image file"@, path, p)),
        },
        _ => Ok(image),
    }
}

/// The image is named by a relative path, which validation replaces.
pub open spec fn image_moved(image: Option<Seq<char>>, probe: Option<PathProbe>) -> bool {
    image is Some && (probe matches Some(p) && !p.is_absolute)
}

/// What validation makes of a configuration: its image and hook paths, or an error. The
/// name must hold more than white space; then the image, then each hook in turn, must be
/// found.
pub open spec fn validation(
    c: ScenarioConfig,
    image: Option<PathProbe>,
    probes: Seq<PathProbe>,
) -> Result<(Option<Seq<char>>, Seq<Seq<char>>), Seq<char>> {
    if trim_spec(c.name@).len() == 0 {
        Err("Scenario name cannot be empty"@)
    } else {
        match image_outcome(c.image_path.deep_view(), image) {
            Err(e) => Err(e),
            Ok(img) => match resolve_upto(hook_paths(c.hooks@), probes, c.hooks@.len()) {
                Err(e) => Err(e),
                Ok(hp) => Ok((img, hp)),
            },
        }
    }
}

/// Once a prefix of the hooks fails, every longer prefix fails with the same error.
proof fn lemma_resolve_err_extends(paths: Seq<Seq<char>>, probes: Seq<PathProbe>, n: nat, m: nat)
    requires
        n <= m,
        resolve_upto(paths, probes, n) is Err,
    ensures
        resolve_upto(paths, probes, m) == resolve_upto(paths, probes, n),
    decreases m - n,
{
    if n < m {
        lemma_resolve_err_extends(paths, probes, n, (m - 1) as nat);
    }
}

/// The hook paths after validating the first `n` hooks in turn: each is replaced by its
/// resolved path until the first one that is not found; that one and the later ones keep
/// their paths.
pub open spec fn paths_after(paths: Seq<Seq<char>>, probes: Seq<PathProbe>, n: nat) -> Seq<Seq<char>>
    decreases n,
{
    if n == 0 {
        Seq::empty()
    } else {
        let prev = paths_after(paths, probes, (n - 1) as nat);
        match resolve_upto(paths, probes, (n - 1) as nat) {
            Ok(_) => prev.push(
                match resolved_path(paths[n - 1], probes[n - 1]) {
                    Some(p) => p,
                    None => paths[n - 1],
                },
            ),
            Err(_) => prev.push(paths[n - 1]),
        }
    }
}

/// The image and hook paths a configuration holds once validation has run, whether it
/// succeeded or not: nothing changes when the name is blank or the image is not found;
/// otherwise the image is resolved and the hooks are resolved in turn until the first one
/// that is not found.
pub open spec fn state_after(
    c: ScenarioConfig,
    image: Option<PathProbe>,
    probes: Seq<PathProbe>,
) -> (Option<Seq<char>>, Seq<Seq<char>>) {
    let paths = hook_paths(c.hooks@);
    if trim_spec(c.name@).len() == 0 {
        (c.image_path.deep_view(), paths)
    } else {
        match image_outcome(c.image_path.deep_view(), image) {
            Err(_) => (c.image_path.deep_view(), paths),
            Ok(img) => (img, paths_after(paths, probes, c.hooks@.len())),
        }
    }
}

/// While the hooks resolve, the paths after validation are the resolved ones.
proof fn lemma_paths_after_ok(paths: Seq<Seq<char>>, probes: Seq<PathProbe>, m: nat)
    requires
        resolve_upto(paths, probes, m) is Ok,
    ensures
        paths_after(paths, probes, m) == resolve_upto(paths, probes, m)->Ok_0,
    decreases m,
{
    if m > 0 {
        lemma_paths_after_ok(paths, probes, (m - 1) as nat);
    }
}

/// Once hook `i` is not found, it and the later hooks keep their paths.
proof fn lemma_paths_after_err(paths: Seq<Seq<char>>, probes: Seq<PathProbe>, i: nat, m: nat)
    requires
        i < m <= paths.len(),
        resolve_upto(paths, probes, i) is Ok,
        resolved_path(paths[i as int], probes[i as int]) is None,
    ensures
        paths_after(paths, probes, m) == resolve_upto(paths, probes, i)->Ok_0 + paths.subrange(i as int, m as int),
    decreases m,
{
    lemma_paths_after_ok(paths, probes, i);
    if m == i + 1 {
        assert(paths.subrange(i as int, m as int) =~= seq![paths[i as int]]);
    } else {
        lemma_paths_after_err(paths, probes, i, (m - 1) as nat);
        lemma_resolve_err_extends(paths, probes, i + 1, (m - 1) as nat);
        assert(paths.subrange(i as int, m as int) =~= paths.subrange(i as int, m - 1).push(paths[m - 1]));
    }
}

/// The hooks of `old` with the paths of the first hooks replaced by `resolved`.
fn rebuilt_hooks(old: &Vec<ScenarioHookConfig>, resolved: &Vec<String>) -> (r: Vec<ScenarioHookConfig>)
    requires
        resolved@.len() <= old@.len(),
    ensures
        r@.len() == old@.len(),
        forall|j: int| 0 <= j < old@.len() ==> {
            &&& (#[trigger] r@[j]).path@ == if j < resolved@.len() { resolved.deep_view()[j] } else { old@[j].path@ }
            &&& r@[j].hook_type == old@[j].hook_type
            &&& r@[j].arguments.deep_view() == old@[j].arguments.deep_view()
            &&& r@[j].continue_on_error == old@[j].continue_on_error
        },
{
    let mut hooks: Vec<ScenarioHookConfig> = Vec::new();
    for i in 0..old.len()
        invariant
            resolved@.len() <= old@.len(),
            hooks@.len() == i,
            forall|j: int| 0 <= j < i ==> {
                &&& (#[trigger] hooks@[j]).path@ == if j < resolved@.len() { resolved.deep_view()[j] } else { old@[j].path@ }
                &&& hooks@[j].hook_type == old@[j].hook_type
                &&& hooks@[j].arguments.deep_view() == old@[j].arguments.deep_view()
                &&& hooks@[j].continue_on_error == old@[j].continue_on_error
            },
    {
        let h = &old[i];
        let path = if i < resolved.len() { resolved[i].clone() } else { h.path.clone() };
        hooks.push(ScenarioHookConfig {
            hook_type: h.hook_type,
            path,
            arguments: copy_strings(&h.arguments),
            continue_on_error: h.continue_on_error,
        });
    }
    hooks
}

/// The resolved path of a named file, or the error when it is not found.
fn resolve(path: &str, p: &PathProbe, what: &str) -> (r: Result<String, String>)
    ensures
        match r {
            Ok(s) => resolved_path(path@, *p) == Some(s@),
            Err(e) => resolved_path(path@, *p) is None && e@ == missing_message(what@, path@, *p),
        },
{
    if p.is_absolute {
        if p.exists {
            Ok(owned(path))
        } else {
            let mut e = owned(what);
            e.append(" not found at path: ");
            let d = debug_format_text(path);
            e.append(d.as_str());
            Err(e)
        }
    } else if p.exe_exists {
        Ok(p.exe_candidate.clone())
    } else if p.config_exists {
        Ok(p.config_candidate.clone())
    } else {
        let mut e = owned(what);
        e.append(" not found at either path: ");
        let d1 = debug_format_text(p.exe_candidate.as_str());
        e.append(d1.as_str());
        e.append(" or ");
        let d2 = debug_format_text(p.config_candidate.as_str());
        e.append(d2.as_str());
        Err(e)
    }
}

impl ScenarioConfig {
    /// A scenario's name must hold more than white space.
    pub fn check_name(&self) -> (r: Result<(), String>)
        ensures
            match r {
                Ok(()) => trim_spec(self.name@).len() != 0,
                Err(e) => trim_spec(self.name@).len() == 0 && e@ == "Scenario name cannot be empty"@,
            },
    {
        let t = trim(self.name.as_str());
        if t.as_str().is_empty() {
            Err(owned("Scenario name cannot be empty"))
        } else {
            Ok(())
        }
    }

    /// Checks the configuration against what was found out about the files it names, and
    /// makes their paths usable: see `validation`. On success the image and hook paths are
    /// the resolved ones, and the result says whether anything changed (a relative image
    /// path, or a hook path that differs), in which case the caller saves the
    /// configuration. On error the paths resolved before the failure stay resolved (see
    /// `state_after`).
    pub fn validate(&mut self, image: &Option<PathProbe>, probes: &Vec<PathProbe>) -> (r: Result<bool, String>)
        requires
            probes@.len() == old(self).hooks@.len(),
        ensures
            final(self).image_path.deep_view() == state_after(*old(self), *image, probes@).0,
            hook_paths(final(self).hooks@) == state_after(*old(self), *image, probes@).1,
            final(self).name == old(self).name,
            final(self).description == old(self).description,
            final(self).exclusions == old(self).exclusions,
            final(self).hooks@.len() == old(self).hooks@.len(),
            forall|j: int| 0 <= j < old(self).hooks@.len() ==> {
                &&& #[trigger] final(self).hooks@[j].hook_type == old(self).hooks@[j].hook_type
                &&& final(self).hooks@[j].arguments.deep_view() == old(self).hooks@[j].arguments.deep_view()
                &&& final(self).hooks@[j].continue_on_error == old(self).hooks@[j].continue_on_error
            },
            match r {
                Err(e) => validation(*old(self), *image, probes@) == Err::<(Option<Seq<char>>, Seq<Seq<char>>), Seq<char>>(e@),
                Ok(changed) => {
                    &&& validation(*old(self), *image, probes@) == Ok::<(Option<Seq<char>>, Seq<Seq<char>>), Seq<char>>(
                        (final(self).image_path.deep_view(), hook_paths(final(self).hooks@)))
                    &&& changed == (image_moved(old(self).image_path.deep_view(), *image)
                        || exists|j: int| 0 <= j < old(self).hooks@.len()
                            && hook_paths(final(self).hooks@)[j] != hook_paths(old(self).hooks@)[j])
                },
            },
    {
        match self.check_name() {
            Err(e) => {
                return Err(e);
            },
            Ok(()) => {},
        }
        let ghost paths = hook_paths(self.hooks@);
        let mut new_image: Option<String> = None;
        let mut image_changed = false;
        match (&self.image_path, image) {
            (Some(path), Some(p)) => {
                match resolve(path.as_str(), p, "Image file") {
                    Ok(s) => {
                        if !p.is_absolute {
                            image_changed = true;
                            new_image = Some(s);
                        }
                    },
                    Err(e) => {
                        return Err(e);
                    },
                }
            },
            _ => {},
        }
        let mut resolved: Vec<String> = Vec::new();
        let mut hooks_changed = false;
        let n = self.hooks.len();
        assert(resolved.deep_view() =~= Seq::<Seq<char>>::empty());
        let ghost img_ok = image_outcome(self.image_path.deep_view(), *image);
        assert(img_ok is Ok);
        assert(image_changed == image_moved(self.image_path.deep_view(), *image));
        assert(img_ok matches Ok(img) && (if image_changed { new_image.deep_view() == img } else { self.image_path.deep_view() == img }));
        for i in 0..n
            invariant
                *self == *old(self),
                trim_spec(self.name@).len() != 0,
                img_ok == image_outcome(self.image_path.deep_view(), *image),
                img_ok matches Ok(img) && (if image_changed { new_image.deep_view() == img } else { self.image_path.deep_view() == img }),
                image_changed == image_moved(self.image_path.deep_view(), *image),
                n == self.hooks@.len(),
                probes@.len() == n,
                paths == hook_paths(self.hooks@),
                resolve_upto(paths, probes@, i as nat) == Ok::<Seq<Seq<char>>, Seq<char>>(resolved.deep_view()),
                resolved@.len() == i,
                hooks_changed == exists|j: int| 0 <= j < i && resolved.deep_view()[j] != paths[j],
        {
            let path = self.hooks[i].path.as_str();
            assert(paths[i as int] == path@);
            match resolve(path, &probes[i], "Hook script") {
                Ok(s) => {
                    let differs = !str_eq(s.as_str(), path);
                    let ghost sv = s@;
                    let ghost before = resolved.deep_view();
                    resolved.push(s);
                    assert(resolved.deep_view() =~= before.push(sv));
                    if differs {
                        hooks_changed = true;
                    }
                    assert(hooks_changed == exists|j: int| 0 <= j < i + 1 && resolved.deep_view()[j] != paths[j]) by {
                        if differs {
                            assert(resolved.deep_view()[i as int] == sv);
                            assert(resolved.deep_view()[i as int] != paths[i as int]);
                        } else {
                            assert forall|j: int| 0 <= j < i + 1 && resolved.deep_view()[j] != paths[j]
                                implies j < i by {
                                if j == i {
                                    assert(resolved.deep_view()[j] == sv);
                                }
                            }
                            assert forall|j: int| 0 <= j < i implies resolved.deep_view()[j] == before[j] by {}
                        }
                    }
                },
                Err(e) => {
                    proof {
                        lemma_resolve_err_extends(paths, probes@, (i + 1) as nat, n as nat);
                        lemma_paths_after_err(paths, probes@, i as nat, n as nat);
                    }
                    let hooks = rebuilt_hooks(&self.hooks, &resolved);
                    assert(hook_paths(hooks@) =~= resolved.deep_view() + paths.subrange(i as int, n as int));
                    if image_changed {
                        self.image_path = new_image;
                    }
                    self.hooks = hooks;
                    return Err(e);
                },
            }
        }
        assert(self.hooks@.len() == paths.len());
        let hooks = rebuilt_hooks(&self.hooks, &resolved);
        assert(hook_paths(hooks@) =~= resolved.deep_view());
        assert(resolve_upto(paths, probes@, n as nat) == Ok::<Seq<Seq<char>>, Seq<char>>(resolved.deep_view()));
        proof {
            lemma_paths_after_ok(paths, probes@, n as nat);
        }
        assert(validation(*old(self), *image, probes@) is Ok);
        if image_changed {
            self.image_path = new_image;
        }
        self.hooks = hooks;
        Ok(image_changed || hooks_changed)
    }
}

impl ScenarioConfig {
    /// A new scenario named `name`, described by `description` (by its name when no
    /// description is given). From a template it takes the template's image, hooks and
    /// exclusions; otherwise it has none.
    pub fn from_template(name: &str, description: Option<String>, template: Option<ScenarioConfig>) -> (r: ScenarioConfig)
        ensures
            r.name@ == name@,
            r.description.deep_view() == Some(
                match description {
                    Some(d) => d@,
                    None => name@,
                },
            ),
            match template {
                None => r.image_path is None && r.hooks@.len() == 0 && r.exclusions@.len() == 0,
                Some(t) => r.image_path == t.image_path && r.hooks == t.hooks && r.exclusions == t.exclusions,
            },
    {
        let d = match description {
            Some(d) => d,
            None => owned(name),
        };
        match template {
            None => ScenarioConfig {
                name: owned(name),
                description: Some(d),
                image_path: None,
                hooks: Vec::new(),
                exclusions: Vec::new(),
            },
            Some(t) => ScenarioConfig {
                name: owned(name),
                description: Some(d),
                image_path: t.image_path,
                hooks: t.hooks,
                exclusions: t.exclusions,
            },
        }
    }

    /// The error for a scenario whose configuration file is missing.
    pub fn not_found_message(scenario_name: &str) -> (r: String)
        ensures
            r@ == "Scenario config not found for scenario '"@ + scenario_name@ + "'"@,
    {
        let mut r = owned("Scenario config not found for scenario '");
        r.append(scenario_name);
        r.append("'");
        r
    }
}

} // verus!
