//! Global and per-project configuration, and the boundary that file and command access keeps.

use crate::paths;
use crate::text;
use vstd::prelude::*;

verus! {

/// What an optional text holds.
pub open spec fn optional(s: Option<String>) -> Option<Seq<char>> {
    match s {
        Some(t) => Some(t@),
        None => None,
    }
}

/// What an optional text slice holds.
pub open spec fn optional_str(s: Option<&str>) -> Option<Seq<char>> {
    match s {
        Some(t) => Some(t@),
        None => None,
    }
}

// ---------------------------------------------------------------------------
// Global configuration
// ---------------------------------------------------------------------------

/// The global configuration.
pub struct GlobalConfig {
    /// Where the database lies, if not at the default place.
    pub db_path: Option<String>,
    /// The log filter, if not the default one.
    pub log_level: Option<String>,
    /// The directories whose files agents may read and write.
    pub allowed_roots: Vec<String>,
    /// The projects whose checks may be run.
    pub trusted_projects: Vec<String>,
    /// Whether access is denied while `allowed_roots` is empty. It is, unless this is false.
    pub deny_when_unconfigured: Option<bool>,
    /// Whether commands are denied while `trusted_projects` is empty. They are, unless this is
    /// false.
    pub deny_commands_when_unconfigured: Option<bool>,
}

impl Default for GlobalConfig {
    fn default() -> (r: GlobalConfig)
        ensures
            r.db_path is None,
            r.log_level is None,
            r.allowed_roots@.len() == 0,
            r.trusted_projects@.len() == 0,
            r.deny_when_unconfigured is None,
            r.deny_commands_when_unconfigured is None,
    {
        GlobalConfig {
            db_path: None,
            log_level: None,
            allowed_roots: Vec::new(),
            trusted_projects: Vec::new(),
            deny_when_unconfigured: None,
            deny_commands_when_unconfigured: None,
        }
    }
}

/// The file of the global configuration below a directory for configuration files.
pub open spec fn config_file(config_dir: Option<Seq<char>>) -> Seq<char> {
    let dir = match config_dir {
        Some(d) => d,
        None => "~/.config"@,
    };
    paths::joined_path(paths::joined_path(dir, "klaar"@), "config.toml"@)
}

/// The default place of the database below a directory for data.
pub open spec fn default_db(data_dir: Option<Seq<char>>) -> Seq<char> {
    let dir = match data_dir {
        Some(d) => d,
        None => "~/.local/share"@,
    };
    paths::joined_path(paths::joined_path(dir, "klaar"@), "db"@)
}

/// The file of the global configuration.
pub fn global_config_path(config_dir: Option<&str>) -> (r: String)
    ensures
        r@ == config_file(optional_str(config_dir)),
{
    let dir = match config_dir {
        Some(d) => d,
        None => "~/.config",
    };
    paths::join_path(paths::join_path(dir, "klaar").as_str(), "config.toml")
}

/// The default place of the database.
pub fn default_db_path(data_local_dir: Option<&str>) -> (r: String)
    ensures
        r@ == default_db(optional_str(data_local_dir)),
{
    let dir = match data_local_dir {
        Some(d) => d,
        None => "~/.local/share",
    };
    paths::join_path(paths::join_path(dir, "klaar").as_str(), "db")
}

/// Roots with their resolved paths in place of them. A root that could not be resolved stays.
pub open spec fn resolved_views(
    roots: Seq<Seq<char>>,
    resolved: Seq<Option<Seq<char>>>,
) -> Seq<Seq<char>> {
    Seq::new(
        roots.len(),
        |i: int|
            if i < resolved.len() && resolved[i] is Some {
                resolved[i]->0
            } else {
                roots[i]
            },
    )
}

/// What a list of optional texts holds.
pub open spec fn optional_views(v: Seq<Option<String>>) -> Seq<Option<Seq<char>>> {
    Seq::new(v.len(), |i: int| optional(v[i]))
}

/// Puts resolved paths in place of configured roots.
pub fn resolve_roots(roots: &Vec<String>, resolved: &Vec<Option<String>>) -> (r: Vec<String>)
    ensures
        text::views(r@) == resolved_views(text::views(roots@), optional_views(resolved@)),
{
    let ghost goal = resolved_views(text::views(roots@), optional_views(resolved@));
    let mut r: Vec<String> = Vec::new();
    let mut i: usize = 0;
    while i < roots.len()
        invariant
            i <= roots@.len(),
            goal == resolved_views(text::views(roots@), optional_views(resolved@)),
            text::views(r@) == goal.take(i as int),
        decreases roots@.len() - i,
    {
        let ghost before = r@;
        let mut path = roots[i].clone();
        if i < resolved.len() {
            assert(optional_views(resolved@)[i as int] == optional(resolved@[i as int]));
            if let Some(p) = &resolved[i] {
                path = p.clone();
            }
        }
        r.push(path);
        proof {
            text::lemma_views_push(before, path);
            assert(goal[i as int] == path@);
            assert(goal.take(i + 1) =~= goal.take(i as int).push(path@));
        }
        i += 1;
    }
    assert(goal.take(goal.len() as int) =~= goal);
    r
}

impl GlobalConfig {
    /// Where the database lies: the configured place, or the default one.
    pub fn resolved_db_path(&self, data_local_dir: Option<&str>) -> (r: String)
        ensures
            r@ == (match self.db_path {
                Some(p) => p@,
                None => default_db(optional_str(data_local_dir)),
            }),
    {
        match &self.db_path {
            Some(p) => p.clone(),
            None => default_db_path(data_local_dir),
        }
    }
}

// ---------------------------------------------------------------------------
// The boundary
// ---------------------------------------------------------------------------

/// Why access is denied.
#[derive(Clone, Copy, PartialEq, Eq, Structural, Debug)]
pub enum Denial {
    /// No roots are configured.
    Unconfigured,
    /// The path cannot be resolved.
    Unresolvable,
    /// The path lies outside all roots.
    Outside,
}

/// A denied access, with its message.
pub struct AccessError {
    pub denial: Denial,
    pub message: String,
}

/// The message for access without configured roots.
pub open spec fn unconfigured_text(context: Seq<char>, key: Seq<char>) -> Seq<char> {
    "Access denied: no boundary roots configured for "@ + context + " ("@ + key
        + "). Configure "@ + key + " in ~/.config/klaar/config.toml."@
}

/// The message for a path that cannot be resolved.
pub open spec fn unresolvable_text(path: Seq<char>, cause: Seq<char>) -> Seq<char> {
    "Cannot resolve path "@ + path + ": "@ + cause + " (does it exist?)"@
}

/// The message for a path outside all roots. It proposes the parent as a root.
pub open spec fn outside_text(canonical: Seq<char>, key: Seq<char>) -> Seq<char> {
    "Access denied: "@ + canonical + " is outside "@ + key
        + ".\nAdd it to ~/.config/klaar/config.toml:\n\n"@ + key + " = [\""@ + (
    match paths::parent_of(canonical) {
        Some(p) => p,
        None => canonical,
    }) + "\"]"@
}

/// Whether a resolved path lies within one of the roots, as configured or as resolved.
pub open spec fn is_inside(
    canonical: Seq<char>,
    roots: Seq<Seq<char>>,
    resolved: Seq<Option<Seq<char>>>,
) -> bool {
    exists|i: int| #[trigger] root_holds(canonical, roots, resolved, i)
}

/// Whether a resolved path lies within one root.
pub open spec fn root_holds(
    canonical: Seq<char>,
    roots: Seq<Seq<char>>,
    resolved: Seq<Option<Seq<char>>>,
    i: int,
) -> bool {
    0 <= i < roots.len() && (paths::within(canonical, roots[i]) || (i < resolved.len()
        && resolved[i] is Some && paths::within(canonical, resolved[i]->0)))
}

/// Why access to a path is denied, if it is, with the message.
pub open spec fn denial(
    path: Seq<char>,
    canonical: Result<Seq<char>, Seq<char>>,
    roots: Seq<Seq<char>>,
    resolved: Seq<Option<Seq<char>>>,
    context: Seq<char>,
    key: Seq<char>,
    deny_when_unconfigured: Option<bool>,
) -> Option<(Denial, Seq<char>)> {
    if roots.len() == 0 {
        if deny_when_unconfigured == Some(false) {
            None
        } else {
            Some((Denial::Unconfigured, unconfigured_text(context, key)))
        }
    } else {
        match canonical {
            Err(cause) => Some((Denial::Unresolvable, unresolvable_text(path, cause))),
            Ok(c) => if is_inside(c, roots, resolved) {
                None
            } else {
                Some((Denial::Outside, outside_text(c, key)))
            },
        }
    }
}

/// What the outcome of resolving a path holds.
pub open spec fn resolution(r: Result<String, String>) -> Result<Seq<char>, Seq<char>> {
    match r {
        Ok(p) => Ok(p@),
        Err(e) => Err(e@),
    }
}

/// Decides whether a path may be accessed. `canonical` is the path with links and relative parts
/// resolved, or why that failed; `resolved` holds the roots resolved in the same way, where that
/// worked.
pub fn check_path_allowed(
    path: &str,
    canonical: &Result<String, String>,
    roots: &Vec<String>,
    resolved: &Vec<Option<String>>,
    context: &str,
    config_key: &str,
    deny_when_unconfigured: Option<bool>,
) -> (r: Result<(), AccessError>)
    ensures
        match denial(
            path@,
            resolution(*canonical),
            text::views(roots@),
            optional_views(resolved@),
            context@,
            config_key@,
            deny_when_unconfigured,
        ) {
            None => r is Ok,
            Some(d) => r matches Err(e) && e.denial == d.0 && e.message@ == d.1,
        },
{
    let ghost rs = text::views(roots@);
    let ghost os = optional_views(resolved@);
    if roots.len() == 0 {
        let deny = match deny_when_unconfigured {
            Some(d) => d,
            None => true,
        };
        if !deny {
            return Ok(());
        }
        let mut m = text::copy("Access denied: no boundary roots configured for ");
        m.append(context);
        m.append(" (");
        m.append(config_key);
        m.append("). Configure ");
        m.append(config_key);
        m.append(" in ~/.config/klaar/config.toml.");
        return Err(AccessError { denial: Denial::Unconfigured, message: m });
    }
    let target = match canonical {
        Err(cause) => {
            let mut m = text::copy("Cannot resolve path ");
            m.append(path);
            m.append(": ");
            m.append(cause.as_str());
            m.append(" (does it exist?)");
            return Err(AccessError { denial: Denial::Unresolvable, message: m });
        },
        Ok(c) => c,
    };
    let mut i: usize = 0;
    while i < roots.len()
        invariant
            i <= roots@.len(),
            roots@.len() > 0,
            rs == text::views(roots@),
            os == optional_views(resolved@),
            resolution(*canonical) == Ok::<Seq<char>, Seq<char>>(target@),
            forall|j: int| 0 <= j < i ==> !(#[trigger] root_holds(target@, rs, os, j)),
        decreases roots@.len() - i,
    {
        if paths::is_within(target.as_str(), roots[i].as_str()) {
            assert(root_holds(target@, rs, os, i as int));
            return Ok(());
        }
        if i < resolved.len() {
            assert(os[i as int] == optional(resolved@[i as int]));
            if let Some(p) = &resolved[i] {
                if paths::is_within(target.as_str(), p.as_str()) {
                    assert(root_holds(target@, rs, os, i as int));
                    return Ok(());
                }
            }
        }
        assert(!root_holds(target@, rs, os, i as int));
        i += 1;
    }
    let mut m = text::copy("Access denied: ");
    m.append(target.as_str());
    m.append(" is outside ");
    m.append(config_key);
    m.append(".\nAdd it to ~/.config/klaar/config.toml:\n\n");
    m.append(config_key);
    m.append(" = [\"");
    match paths::parent(target.as_str()) {
        Some(p) => m.append(p.as_str()),
        None => m.append(target.as_str()),
    }
    m.append("\"]");
    Err(AccessError { denial: Denial::Outside, message: m })
}

/// The message for a file path that cannot be resolved.
pub open spec fn uncanonical_text(path: Seq<char>) -> Seq<char> {
    "Cannot canonicalize path: "@ + path
}

/// Why access to a file is denied, if it is. The path has to resolve, whatever the roots.
pub open spec fn file_denial(
    path: Seq<char>,
    canonical: Result<Seq<char>, Seq<char>>,
    roots: Seq<Seq<char>>,
    resolved: Seq<Option<Seq<char>>>,
    context: Seq<char>,
    deny_when_unconfigured: Option<bool>,
) -> Option<(Denial, Seq<char>)> {
    match canonical {
        Err(_) => Some((Denial::Unresolvable, uncanonical_text(path))),
        Ok(c) => denial(
            c,
            canonical,
            roots,
            resolved,
            context,
            "allowed_roots"@,
            deny_when_unconfigured,
        ),
    }
}

/// Decides whether a file may be read or written, and hands out its resolved path.
pub fn authorize_file(
    file_path: &str,
    canonical: &Result<String, String>,
    config: &GlobalConfig,
    resolved: &Vec<Option<String>>,
    context: &str,
) -> (r: Result<String, AccessError>)
    ensures
        match file_denial(
            file_path@,
            resolution(*canonical),
            text::views(config.allowed_roots@),
            optional_views(resolved@),
            context@,
            config.deny_when_unconfigured,
        ) {
            None => r matches Ok(p) && resolution(*canonical) == Ok::<Seq<char>, Seq<char>>(p@),
            Some(d) => r matches Err(e) && e.denial == d.0 && e.message@ == d.1,
        },
{
    match canonical {
        Err(_) => {
            let mut m = text::copy("Cannot canonicalize path: ");
            m.append(file_path);
            Err(AccessError { denial: Denial::Unresolvable, message: m })
        },
        Ok(c) => {
            match check_path_allowed(
                c.as_str(),
                canonical,
                &config.allowed_roots,
                resolved,
                context,
                "allowed_roots",
                config.deny_when_unconfigured,
            ) {
                Ok(()) => Ok(c.clone()),
                Err(e) => Err(e),
            }
        },
    }
}

/// Without roots, access is denied unless it is switched off explicitly.
pub proof fn law_access_fails_closed(
    path: Seq<char>,
    canonical: Result<Seq<char>, Seq<char>>,
    resolved: Seq<Option<Seq<char>>>,
    context: Seq<char>,
    key: Seq<char>,
    deny_when_unconfigured: Option<bool>,
)
    ensures
        denial(path, canonical, Seq::empty(), resolved, context, key, deny_when_unconfigured)
            is None <==> deny_when_unconfigured == Some(false),
{
}

/// With roots, only a path that resolves to a place within one of them is allowed, whatever the
/// switch says.
pub proof fn law_access_stays_within_the_roots(
    path: Seq<char>,
    canonical: Result<Seq<char>, Seq<char>>,
    roots: Seq<Seq<char>>,
    resolved: Seq<Option<Seq<char>>>,
    context: Seq<char>,
    key: Seq<char>,
    deny_when_unconfigured: Option<bool>,
)
    requires
        roots.len() > 0,
    ensures
        denial(path, canonical, roots, resolved, context, key, deny_when_unconfigured) is None <==>
            (canonical matches Ok(c) && is_inside(c, roots, resolved)),
{
}

/// What lies within an accessible directory is accessible.
pub proof fn law_access_reaches_below(
    directory: Seq<char>,
    file: Seq<char>,
    roots: Seq<Seq<char>>,
    resolved: Seq<Option<Seq<char>>>,
)
    requires
        is_inside(directory, roots, resolved),
        paths::within(file, directory),
    ensures
        is_inside(file, roots, resolved),
{
    let i = choose|i: int| #[trigger] root_holds(directory, roots, resolved, i);
    if paths::within(directory, roots[i]) {
        paths::law_within_is_a_preorder(file, directory, roots[i]);
    } else {
        paths::law_within_is_a_preorder(file, directory, resolved[i]->0);
    }
    assert(root_holds(file, roots, resolved, i));
}

/// One more root takes no access away.
pub proof fn law_more_roots_allow_more(
    canonical: Seq<char>,
    roots: Seq<Seq<char>>,
    resolved: Seq<Option<Seq<char>>>,
    root: Seq<char>,
    root_resolved: Option<Seq<char>>,
)
    requires
        resolved.len() == roots.len(),
        is_inside(canonical, roots, resolved),
    ensures
        is_inside(canonical, roots.push(root), resolved.push(root_resolved)),
{
    let i = choose|i: int| #[trigger] root_holds(canonical, roots, resolved, i);
    assert(root_holds(canonical, roots.push(root), resolved.push(root_resolved), i));
}

// ---------------------------------------------------------------------------
// Project configuration
// ---------------------------------------------------------------------------

/// The configuration of a project.
pub struct ProjectConfig {
    pub project: ProjectMeta,
    pub targets: Vec<Target>,
}

/// The name and language ("rust", "typescript" or "mixed") of a project.
pub struct ProjectMeta {
    pub name: String,
    pub language: String,
}

/// A target with its checks.
pub struct Target {
    pub name: String,
    pub pre_push_checks: Vec<String>,
    pub deploy_method: Option<String>,
    pub deploy_command: Option<String>,
}

/// The file of a project's configuration.
pub open spec fn targets_file(root: Seq<char>) -> Seq<char> {
    paths::joined_path(paths::joined_path(root, ".klaar"@), "targets.toml"@)
}

/// The first target with a name, from target `i` on.
pub open spec fn first_target(targets: Seq<Target>, name: Seq<char>, i: int) -> Option<int>
    decreases targets.len() - i,
{
    if i >= targets.len() {
        None
    } else if targets[i].name@ == name {
        Some(i)
    } else {
        first_target(targets, name, i + 1)
    }
}

impl ProjectConfig {
    /// The file of a project's configuration.
    pub fn file(project_root: &str) -> (r: String)
        ensures
            r@ == targets_file(project_root@),
    {
        paths::join_path(paths::join_path(project_root, ".klaar").as_str(), "targets.toml")
    }

    /// The message where the file cannot be read.
    pub fn missing_message(project_root: &str) -> (r: String)
        ensures
            r@ == "No .klaar/targets.toml found in "@ + project_root@,
    {
        let mut m = text::copy("No .klaar/targets.toml found in ");
        m.append(project_root);
        m
    }

    /// The first target with a name.
    pub fn find_target(&self, name: &str) -> (r: Option<&Target>)
        ensures
            r is Some <==> first_target(self.targets@, name@, 0) is Some,
            r matches Some(t) ==> *t == self.targets@[first_target(self.targets@, name@, 0)->0],
    {
        let mut i: usize = 0;
        while i < self.targets.len()
            invariant
                i <= self.targets@.len(),
                first_target(self.targets@, name@, 0) == first_target(
                    self.targets@,
                    name@,
                    i as int,
                ),
            decreases self.targets@.len() - i,
        {
            if text::str_eq(self.targets[i].name.as_str(), name) {
                return Some(&self.targets[i]);
            }
            i += 1;
        }
        None
    }
}

// ---------------------------------------------------------------------------
// Templates
// ---------------------------------------------------------------------------

/// The configuration of a new Rust project.
pub open spec fn rust_config(name: Seq<char>) -> Seq<char> {
    "[project]\nname = \""@ + name
        + "\"\nlanguage = \"rust\"\n\n[[targets]]\nname = \"production\"\npre_push_checks = [\n  \"cargo check --workspace\",\n  \"cargo clippy -- -D warnings\",\n  \"cargo test --workspace\"\n]\ndeploy_method = \"custom\"\ndeploy_command = \"echo 'configure deploy_command'\"\n\n[[targets]]\nname = \"staging\"\npre_push_checks = [\n  \"cargo check --workspace\"\n]\ndeploy_method = \"custom\"\ndeploy_command = \"echo 'configure deploy_command'\"\n"@
}

/// The configuration of a new TypeScript project.
pub open spec fn typescript_config(name: Seq<char>) -> Seq<char> {
    "[project]\nname = \""@ + name
        + "\"\nlanguage = \"typescript\"\n\n[[targets]]\nname = \"production\"\npre_push_checks = [\n  \"npm run build\",\n  \"npm run lint\",\n  \"npm run test\"\n]\ndeploy_method = \"custom\"\ndeploy_command = \"npm run deploy\"\n\n[[targets]]\nname = \"staging\"\npre_push_checks = [\n  \"npm run build\"\n]\ndeploy_method = \"custom\"\ndeploy_command = \"echo 'configure deploy_command'\"\n"@
}

/// The configuration of a new project in several languages.
pub open spec fn mixed_config(name: Seq<char>) -> Seq<char> {
    "[project]\nname = \""@ + name
        + "\"\nlanguage = \"mixed\"\n\n[[targets]]\nname = \"production\"\npre_push_checks = [\n  \"cargo check --workspace\",\n  \"npm run build\",\n  \"cargo test --workspace\"\n]\ndeploy_method = \"custom\"\ndeploy_command = \"echo 'configure deploy_command'\"\n"@
}

/// Writes the configuration of a new Rust project.
pub fn rust_template(project_name: &str) -> (r: String)
    ensures
        r@ == rust_config(project_name@),
{
    let mut t = text::copy("[project]\nname = \"");
    t.append(project_name);
    t.append(
        "\"\nlanguage = \"rust\"\n\n[[targets]]\nname = \"production\"\npre_push_checks = [\n  \"cargo check --workspace\",\n  \"cargo clippy -- -D warnings\",\n  \"cargo test --workspace\"\n]\ndeploy_method = \"custom\"\ndeploy_command = \"echo 'configure deploy_command'\"\n\n[[targets]]\nname = \"staging\"\npre_push_checks = [\n  \"cargo check --workspace\"\n]\ndeploy_method = \"custom\"\ndeploy_command = \"echo 'configure deploy_command'\"\n",
    );
    t
}

/// Writes the configuration of a new TypeScript project.
pub fn typescript_template(project_name: &str) -> (r: String)
    ensures
        r@ == typescript_config(project_name@),
{
    let mut t = text::copy("[project]\nname = \"");
    t.append(project_name);
    t.append(
        "\"\nlanguage = \"typescript\"\n\n[[targets]]\nname = \"production\"\npre_push_checks = [\n  \"npm run build\",\n  \"npm run lint\",\n  \"npm run test\"\n]\ndeploy_method = \"custom\"\ndeploy_command = \"npm run deploy\"\n\n[[targets]]\nname = \"staging\"\npre_push_checks = [\n  \"npm run build\"\n]\ndeploy_method = \"custom\"\ndeploy_command = \"echo 'configure deploy_command'\"\n",
    );
    t
}

/// Writes the configuration of a new project in several languages.
pub fn mixed_template(project_name: &str) -> (r: String)
    ensures
        r@ == mixed_config(project_name@),
{
    let mut t = text::copy("[project]\nname = \"");
    t.append(project_name);
    t.append(
        "\"\nlanguage = \"mixed\"\n\n[[targets]]\nname = \"production\"\npre_push_checks = [\n  \"cargo check --workspace\",\n  \"npm run build\",\n  \"cargo test --workspace\"\n]\ndeploy_method = \"custom\"\ndeploy_command = \"echo 'configure deploy_command'\"\n",
    );
    t
}

/// The configuration of a new project, by the files that its root holds. It is named after its
/// directory.
pub open spec fn project_config(has_cargo_toml: bool, has_package_json: bool, root: Seq<char>) -> Seq<
    char,
> {
    let name = match paths::file_name_of(root) {
        Some(n) => n,
        None => "my-project"@,
    };
    if has_cargo_toml {
        rust_config(name)
    } else if has_package_json {
        typescript_config(name)
    } else {
        mixed_config(name)
    }
}

/// Writes the configuration of a new project.
pub fn project_template(has_cargo_toml: bool, has_package_json: bool, root: &str) -> (r: String)
    ensures
        r@ == project_config(has_cargo_toml, has_package_json, root@),
{
    let name = match paths::file_name(root) {
        Some(n) => n,
        None => text::copy("my-project"),
    };
    if has_cargo_toml {
        rust_template(name.as_str())
    } else if has_package_json {
        typescript_template(name.as_str())
    } else {
        mixed_template(name.as_str())
    }
}

// ---------------------------------------------------------------------------
// Laws
// ---------------------------------------------------------------------------

/// A path within a root, as configured or as resolved, may be accessed, whichever root it is and
/// whatever the switch says.
pub proof fn law_every_root_grants_access(
    path: Seq<char>,
    canonical: Seq<char>,
    roots: Seq<Seq<char>>,
    resolved: Seq<Option<Seq<char>>>,
    context: Seq<char>,
    key: Seq<char>,
    deny_when_unconfigured: Option<bool>,
    i: int,
)
    requires
        0 <= i < roots.len(),
        paths::within(canonical, roots[i]) || (i < resolved.len() && (resolved[i] matches Some(r)
            && paths::within(canonical, r))),
    ensures
        denial(path, Ok(canonical), roots, resolved, context, key, deny_when_unconfigured) is None,
        file_denial(path, Ok(canonical), roots, resolved, context, deny_when_unconfigured) is None,
{
    assert(root_holds(canonical, roots, resolved, i));
}

/// A path within none of the roots is denied, whatever the switch says, and the message names
/// the path and the setting.
pub proof fn law_nothing_outside_the_roots_is_accessed(
    path: Seq<char>,
    canonical: Seq<char>,
    roots: Seq<Seq<char>>,
    resolved: Seq<Option<Seq<char>>>,
    context: Seq<char>,
    key: Seq<char>,
    deny_when_unconfigured: Option<bool>,
)
    requires
        roots.len() > 0,
        forall|i: int| 0 <= i < roots.len() ==> !paths::within(canonical, #[trigger] roots[i]),
        forall|i: int|
            0 <= i < resolved.len() && (#[trigger] resolved[i]) is Some ==> !paths::within(
                canonical,
                resolved[i]->0,
            ),
    ensures
        denial(path, Ok(canonical), roots, resolved, context, key, deny_when_unconfigured)
            matches Some(d) && d.0 == Denial::Outside && text::begins_with(
            d.1,
            "Access denied: "@ + canonical + " is outside "@ + key,
        ),
        file_denial(path, Ok(canonical), roots, resolved, context, deny_when_unconfigured)
            matches Some(d) && d.0 == Denial::Outside && text::begins_with(
            d.1,
            "Access denied: "@ + canonical + " is outside "@ + "allowed_roots"@,
        ),
{
    if is_inside(canonical, roots, resolved) {
        let i = choose|i: int| #[trigger] root_holds(canonical, roots, resolved, i);
        assert(roots[i] == roots[i]);
    }
    lemma_outside_text_begins(canonical, key);
    lemma_outside_text_begins(canonical, "allowed_roots"@);
}

proof fn lemma_outside_text_begins(canonical: Seq<char>, key: Seq<char>)
    ensures
        text::begins_with(
            outside_text(canonical, key),
            "Access denied: "@ + canonical + " is outside "@ + key,
        ),
{
    let head = "Access denied: "@ + canonical + " is outside "@ + key;
    assert(outside_text(canonical, key).subrange(0, head.len() as int) =~= head);
}

/// The message for a path outside all roots proposes the parent of the path as a root.
pub proof fn law_the_parent_is_proposed_as_a_root(
    canonical: Seq<char>,
    key: Seq<char>,
    parent: Seq<char>,
)
    requires
        paths::parent_of(canonical) == Some(parent),
    ensures
        text::finishes_with(outside_text(canonical, key), key + " = [\""@ + parent + "\"]"@),
{
    let tail = key + " = [\""@ + parent + "\"]"@;
    let all = outside_text(canonical, key);
    assert(all.subrange(all.len() - tail.len(), all.len() as int) =~= tail);
}

/// With roots, a path that cannot be resolved is denied. A file that cannot be resolved is denied
/// in any case.
pub proof fn law_unresolvable_paths_are_denied(
    path: Seq<char>,
    cause: Seq<char>,
    roots: Seq<Seq<char>>,
    resolved: Seq<Option<Seq<char>>>,
    context: Seq<char>,
    key: Seq<char>,
    deny_when_unconfigured: Option<bool>,
)
    ensures
        roots.len() > 0 ==> denial(
            path,
            Err(cause),
            roots,
            resolved,
            context,
            key,
            deny_when_unconfigured,
        ) == Some(
            (
                Denial::Unresolvable,
                "Cannot resolve path "@ + path + ": "@ + cause + " (does it exist?)"@,
            ),
        ),
        file_denial(path, Err(cause), roots, resolved, context, deny_when_unconfigured) == Some(
            (Denial::Unresolvable, "Cannot canonicalize path: "@ + path),
        ),
{
}

/// Without roots, a file is denied unless the switch is off, and the message names what the access
/// was for and the setting.
pub proof fn law_files_fail_closed(
    path: Seq<char>,
    canonical: Seq<char>,
    resolved: Seq<Option<Seq<char>>>,
    context: Seq<char>,
    deny_when_unconfigured: Option<bool>,
)
    ensures
        deny_when_unconfigured != Some(false) ==> file_denial(
            path,
            Ok(canonical),
            Seq::empty(),
            resolved,
            context,
            deny_when_unconfigured,
        ) == Some(
            (
                Denial::Unconfigured,
                "Access denied: no boundary roots configured for "@ + context + " ("@
                    + "allowed_roots"@ + "). Configure "@ + "allowed_roots"@
                    + " in ~/.config/klaar/config.toml."@,
            ),
        ),
        file_denial(path, Ok(canonical), Seq::empty(), resolved, context, Some(false)) is None,
{
}

/// Each root is replaced by its resolved path, in its place, and stays where there is none.
pub proof fn law_roots_are_resolved_in_place(
    roots: Seq<Seq<char>>,
    resolved: Seq<Option<Seq<char>>>,
    i: int,
)
    requires
        0 <= i < roots.len(),
        resolved.len() == roots.len(),
    ensures
        resolved_views(roots, resolved).len() == roots.len(),
        resolved[i] matches Some(p) ==> resolved_views(roots, resolved)[i] == p,
        resolved[i] is None ==> resolved_views(roots, resolved)[i] == roots[i],
{
}

/// Of several targets with a name, the first is found; a name without a target finds none.
pub proof fn law_the_first_target_with_a_name_is_found(
    targets: Seq<Target>,
    name: Seq<char>,
    i: int,
)
    requires
        0 <= i <= targets.len(),
        i < targets.len() ==> targets[i].name@ == name,
        forall|j: int| 0 <= j < i ==> (#[trigger] targets[j]).name@ != name,
    ensures
        i < targets.len() ==> first_target(targets, name, 0) == Some(i),
        i == targets.len() ==> first_target(targets, name, 0) is None,
{
    lemma_first_target_at(targets, name, 0, i);
}

proof fn lemma_first_target_at(targets: Seq<Target>, name: Seq<char>, k: int, i: int)
    requires
        0 <= k <= i <= targets.len(),
        i < targets.len() ==> targets[i].name@ == name,
        forall|j: int| k <= j < i ==> (#[trigger] targets[j]).name@ != name,
    ensures
        first_target(targets, name, k) == (if i < targets.len() {
            Some(i)
        } else {
            None
        }),
    decreases i - k,
{
    if k < i {
        lemma_first_target_at(targets, name, k + 1, i);
    }
}

/// The files lie at fixed places below their directories.
pub proof fn law_files_have_their_places(dir: Seq<char>)
    requires
        dir.len() > 0,
        dir.last() != '/',
    ensures
        config_file(Some(dir)) == dir + "/klaar/config.toml"@,
        default_db(Some(dir)) == dir + "/klaar/db"@,
        targets_file(dir) == dir + "/.klaar/targets.toml"@,
{
    reveal_strlit("klaar");
    reveal_strlit("config.toml");
    reveal_strlit("/klaar/config.toml");
    reveal_strlit("db");
    reveal_strlit("/klaar/db");
    reveal_strlit(".klaar");
    reveal_strlit("targets.toml");
    reveal_strlit("/.klaar/targets.toml");
    assert(config_file(Some(dir)) =~= dir + "/klaar/config.toml"@);
    assert(default_db(Some(dir)) =~= dir + "/klaar/db"@);
    assert(targets_file(dir) =~= dir + "/.klaar/targets.toml"@);
}

/// Without a known directory the files lie below the home directory.
pub proof fn law_files_lie_below_the_home_directory_by_default()
    ensures
        config_file(None) == config_file(Some("~/.config"@)),
        default_db(None) == default_db(Some("~/.local/share"@)),
{
}

/// A new project is named after its directory. A manifest of Cargo makes it a Rust project, also
/// next to one of npm; one of npm alone makes it a TypeScript project.
pub proof fn law_templates_go_by_the_manifest(root: Seq<char>, name: Seq<char>, npm: bool)
    requires
        paths::file_name_of(root) == Some(name),
    ensures
        text::begins_with(
            project_config(true, npm, root),
            "[project]\nname = \""@ + name + "\"\nlanguage = \"rust\"\n"@,
        ),
        text::begins_with(
            project_config(false, true, root),
            "[project]\nname = \""@ + name + "\"\nlanguage = \"typescript\"\n"@,
        ),
        text::begins_with(
            project_config(false, false, root),
            "[project]\nname = \""@ + name + "\"\nlanguage = \"mixed\"\n"@,
        ),
{
    lemma_rust_config_begins(name);
    lemma_typescript_config_begins(name);
    lemma_mixed_config_begins(name);
}

proof fn lemma_rust_config_begins(name: Seq<char>)
    ensures
        text::begins_with(
            rust_config(name),
            "[project]\nname = \""@ + name + "\"\nlanguage = \"rust\"\n"@,
        ),
{
    let tail = "\"\nlanguage = \"rust\"\n\n[[targets]]\nname = \"production\"\npre_push_checks = [\n  \"cargo check --workspace\",\n  \"cargo clippy -- -D warnings\",\n  \"cargo test --workspace\"\n]\ndeploy_method = \"custom\"\ndeploy_command = \"echo 'configure deploy_command'\"\n\n[[targets]]\nname = \"staging\"\npre_push_checks = [\n  \"cargo check --workspace\"\n]\ndeploy_method = \"custom\"\ndeploy_command = \"echo 'configure deploy_command'\"\n"@;
    reveal_strlit("\"\nlanguage = \"rust\"\n\n[[targets]]\nname = \"production\"\npre_push_checks = [\n  \"cargo check --workspace\",\n  \"cargo clippy -- -D warnings\",\n  \"cargo test --workspace\"\n]\ndeploy_method = \"custom\"\ndeploy_command = \"echo 'configure deploy_command'\"\n\n[[targets]]\nname = \"staging\"\npre_push_checks = [\n  \"cargo check --workspace\"\n]\ndeploy_method = \"custom\"\ndeploy_command = \"echo 'configure deploy_command'\"\n");
    reveal_strlit("\"\nlanguage = \"rust\"\n");
    let head = "[project]\nname = \""@ + name + "\"\nlanguage = \"rust\"\n"@;
    assert(tail.subrange(0, "\"\nlanguage = \"rust\"\n"@.len() as int) =~= "\"\nlanguage = \"rust\"\n"@);
    assert(rust_config(name).subrange(0, head.len() as int) =~= head);
}

proof fn lemma_typescript_config_begins(name: Seq<char>)
    ensures
        text::begins_with(
            typescript_config(name),
            "[project]\nname = \""@ + name + "\"\nlanguage = \"typescript\"\n"@,
        ),
{
    let tail = "\"\nlanguage = \"typescript\"\n\n[[targets]]\nname = \"production\"\npre_push_checks = [\n  \"npm run build\",\n  \"npm run lint\",\n  \"npm run test\"\n]\ndeploy_method = \"custom\"\ndeploy_command = \"npm run deploy\"\n\n[[targets]]\nname = \"staging\"\npre_push_checks = [\n  \"npm run build\"\n]\ndeploy_method = \"custom\"\ndeploy_command = \"echo 'configure deploy_command'\"\n"@;
    reveal_strlit("\"\nlanguage = \"typescript\"\n\n[[targets]]\nname = \"production\"\npre_push_checks = [\n  \"npm run build\",\n  \"npm run lint\",\n  \"npm run test\"\n]\ndeploy_method = \"custom\"\ndeploy_command = \"npm run deploy\"\n\n[[targets]]\nname = \"staging\"\npre_push_checks = [\n  \"npm run build\"\n]\ndeploy_method = \"custom\"\ndeploy_command = \"echo 'configure deploy_command'\"\n");
    reveal_strlit("\"\nlanguage = \"typescript\"\n");
    let head = "[project]\nname = \""@ + name + "\"\nlanguage = \"typescript\"\n"@;
    assert(tail.subrange(0, "\"\nlanguage = \"typescript\"\n"@.len() as int)
        =~= "\"\nlanguage = \"typescript\"\n"@);
    assert(typescript_config(name).subrange(0, head.len() as int) =~= head);
}

proof fn lemma_mixed_config_begins(name: Seq<char>)
    ensures
        text::begins_with(
            mixed_config(name),
            "[project]\nname = \""@ + name + "\"\nlanguage = \"mixed\"\n"@,
        ),
{
    let tail = "\"\nlanguage = \"mixed\"\n\n[[targets]]\nname = \"production\"\npre_push_checks = [\n  \"cargo check --workspace\",\n  \"npm run build\",\n  \"cargo test --workspace\"\n]\ndeploy_method = \"custom\"\ndeploy_command = \"echo 'configure deploy_command'\"\n"@;
    reveal_strlit("\"\nlanguage = \"mixed\"\n\n[[targets]]\nname = \"production\"\npre_push_checks = [\n  \"cargo check --workspace\",\n  \"npm run build\",\n  \"cargo test --workspace\"\n]\ndeploy_method = \"custom\"\ndeploy_command = \"echo 'configure deploy_command'\"\n");
    reveal_strlit("\"\nlanguage = \"mixed\"\n");
    let head = "[project]\nname = \""@ + name + "\"\nlanguage = \"mixed\"\n"@;
    assert(tail.subrange(0, "\"\nlanguage = \"mixed\"\n"@.len() as int)
        =~= "\"\nlanguage = \"mixed\"\n"@);
    assert(mixed_config(name).subrange(0, head.len() as int) =~= head);
}

/// Optional texts are listed one by one.
pub proof fn law_optional_texts_are_listed_one_by_one(v: Seq<Option<String>>, i: int)
    requires
        0 <= i < v.len(),
    ensures
        optional_views(v).len() == v.len(),
        v[i] matches Some(t) ==> optional_views(v)[i] == Some(t@),
        v[i] is None ==> optional_views(v)[i] is None,
{
}

} // verus!
