use klaar::config::{
    authorize_file, check_path_allowed, global_config_path, mixed_template, project_template,
    resolve_roots, rust_template, typescript_template, Denial, GlobalConfig, ProjectConfig,
    ProjectMeta, Target,
};

fn ok(p: &str) -> Result<String, String> {
    Ok(p.to_string())
}

fn roots(rs: &[&str]) -> Vec<String> {
    rs.iter().map(|r| r.to_string()).collect()
}

#[test]
fn access_without_roots_fails_closed() {
    for deny in [None, Some(true)] {
        let e = check_path_allowed(
            "/p/a",
            &ok("/p/a"),
            &Vec::new(),
            &Vec::new(),
            "grep",
            "allowed_roots",
            deny,
        )
        .err()
        .expect("access is denied");
        assert_eq!(e.denial, Denial::Unconfigured);
        assert_eq!(
            e.message,
            "Access denied: no boundary roots configured for grep (allowed_roots). Configure allowed_roots in ~/.config/klaar/config.toml."
        );
    }
    assert!(check_path_allowed(
        "/p/a",
        &Err("gone".to_string()),
        &Vec::new(),
        &Vec::new(),
        "grep",
        "allowed_roots",
        Some(false)
    )
    .is_ok());
}

#[test]
fn access_stays_within_the_roots() {
    let rs = roots(&["/home/me/projects"]);
    let none = vec![None];
    let check = |canonical: Result<String, String>, resolved: &Vec<Option<String>>| {
        check_path_allowed("given", &canonical, &rs, resolved, "ls", "allowed_roots", Some(false))
    };
    assert!(check(ok("/home/me/projects/a/b.rs"), &none).is_ok());
    assert!(check(ok("/home/me/projects"), &none).is_ok());
    // A name that merely begins with the root is outside.
    let e = check(ok("/home/me/projects-evil/b.rs"), &none).err().unwrap();
    assert_eq!(e.denial, Denial::Outside);
    assert_eq!(
        e.message,
        "Access denied: /home/me/projects-evil/b.rs is outside allowed_roots.\nAdd it to ~/.config/klaar/config.toml:\n\nallowed_roots = [\"/home/me/projects-evil\"]"
    );
    let e = check(ok("/"), &none).err().unwrap();
    assert!(e.message.ends_with("allowed_roots = [\"/\"]"));
    let e = check(Err("No such file".to_string()), &none).err().unwrap();
    assert_eq!(e.denial, Denial::Unresolvable);
    assert_eq!(e.message, "Cannot resolve path given: No such file (does it exist?)");
    // A root that was a link counts as resolved.
    assert!(check(ok("/data/projects/a"), &vec![Some("/data/projects".to_string())]).is_ok());
    assert!(check(ok("/data/projects/a"), &Vec::new()).is_err());
}

#[test]
fn files_have_to_resolve() {
    let mut config = GlobalConfig::default();
    config.deny_when_unconfigured = Some(false);
    let e = authorize_file("x.rs", &Err("gone".to_string()), &config, &Vec::new(), "fast_apply")
        .err()
        .unwrap();
    assert_eq!(e.message, "Cannot canonicalize path: x.rs");
    assert_eq!(
        authorize_file("x.rs", &ok("/p/x.rs"), &config, &Vec::new(), "fast_apply").ok(),
        Some("/p/x.rs".to_string())
    );
    config.allowed_roots = roots(&["/q"]);
    let e = authorize_file("x.rs", &ok("/p/x.rs"), &config, &vec![None], "fast_apply").err().unwrap();
    assert_eq!(e.denial, Denial::Outside);
}

#[test]
fn the_default_configuration_is_closed() {
    let config = GlobalConfig::default();
    assert!(config.allowed_roots.is_empty() && config.trusted_projects.is_empty());
    assert!(authorize_file("x", &ok("/x"), &config, &Vec::new(), "surgical_read").is_err());
}

#[test]
fn places_have_defaults() {
    let mut config = GlobalConfig::default();
    assert_eq!(config.resolved_db_path(Some("/home/me/.local/share")), "/home/me/.local/share/klaar/db");
    assert_eq!(config.resolved_db_path(None), "~/.local/share/klaar/db");
    config.db_path = Some("/data/db".to_string());
    assert_eq!(config.resolved_db_path(Some("/home/me/.local/share")), "/data/db");
    assert_eq!(global_config_path(Some("/home/me/.config")), "/home/me/.config/klaar/config.toml");
    assert_eq!(global_config_path(None), "~/.config/klaar/config.toml");
    assert_eq!(ProjectConfig::file("/p"), "/p/.klaar/targets.toml");
    assert_eq!(ProjectConfig::missing_message("/p"), "No .klaar/targets.toml found in /p");
}

#[test]
fn roots_are_resolved_where_possible() {
    assert_eq!(
        resolve_roots(&roots(&["/a", "/b", "/c"]), &vec![Some("/x".to_string()), None]),
        roots(&["/x", "/b", "/c"])
    );
}

#[test]
fn the_first_target_with_a_name_counts() {
    let target = |name: &str, check: &str| Target {
        name: name.to_string(),
        pre_push_checks: vec![check.to_string()],
        deploy_method: None,
        deploy_command: None,
    };
    let config = ProjectConfig {
        project: ProjectMeta { name: "p".to_string(), language: "mixed".to_string() },
        targets: vec![target("a", "1"), target("b", "2"), target("b", "3")],
    };
    assert_eq!(config.find_target("b").unwrap().pre_push_checks, vec!["2".to_string()]);
    assert!(config.find_target("c").is_none());
}

#[test]
fn templates_are_valid_configurations() {
    assert_eq!(
        rust_template("demo"),
        r#"[project]
name = "demo"
language = "rust"

[[targets]]
name = "production"
pre_push_checks = [
  "cargo check --workspace",
  "cargo clippy -- -D warnings",
  "cargo test --workspace"
]
deploy_method = "custom"
deploy_command = "echo 'configure deploy_command'"

[[targets]]
name = "staging"
pre_push_checks = [
  "cargo check --workspace"
]
deploy_method = "custom"
deploy_command = "echo 'configure deploy_command'"
"#
    );
    assert_eq!(
        typescript_template("demo"),
        r#"[project]
name = "demo"
language = "typescript"

[[targets]]
name = "production"
pre_push_checks = [
  "npm run build",
  "npm run lint",
  "npm run test"
]
deploy_method = "custom"
deploy_command = "npm run deploy"

[[targets]]
name = "staging"
pre_push_checks = [
  "npm run build"
]
deploy_method = "custom"
deploy_command = "echo 'configure deploy_command'"
"#
    );
    assert_eq!(
        mixed_template("demo"),
        r#"[project]
name = "demo"
language = "mixed"

[[targets]]
name = "production"
pre_push_checks = [
  "cargo check --workspace",
  "npm run build",
  "cargo test --workspace"
]
deploy_method = "custom"
deploy_command = "echo 'configure deploy_command'"
"#
    );
    for t in [rust_template("x"), typescript_template("x"), mixed_template("x")] {
        let value: toml::Value = toml::from_str(&t).expect("a template parses");
        assert_eq!(value["project"]["name"].as_str(), Some("x"));
    }
}

#[test]
fn new_projects_get_a_template_by_their_files() {
    assert_eq!(project_template(true, true, "/work/app"), rust_template("app"));
    assert_eq!(project_template(false, true, "/work/app"), typescript_template("app"));
    assert_eq!(project_template(false, false, "/work/app"), mixed_template("app"));
    assert_eq!(project_template(false, false, "/"), mixed_template("my-project"));
}
