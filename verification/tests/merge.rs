use crush_tether::config::merge::{default_precedence_vec, merge, DeclScope, Layers, MergedRules, MergedScope};
use crush_tether::config::schema::RulesFile;
use crush_tether::model::Decision;

fn f(src: &str) -> RulesFile {
    RulesFile::parse_toml(src).expect("fixture parses")
}

/// global / user / project TOML texts (None = layer absent).
fn merged(global: Option<&str>, user: Option<&str>, project: Option<&str>) -> MergedRules {
    let g = global.map(f);
    let u = user.map(f);
    let p = project.map(f);
    merge(Layers {
        global: g.as_ref(),
        user: u.as_ref(),
        project: p.as_ref(),
    })
}

#[test]
fn inherit_when_higher_layers_undefined() {
    let m = merged(Some("version = 1\n[local]\nallow = [\"a\"]"), None, None);
    assert_eq!(m.local.allow, ["a"]);
}

#[test]
fn array_override_replaces_lower_completely_not_sticky() {
    let m = merged(
        Some("version = 1\n[local]\nallow = [\"a\", \"b\"]"),
        None,
        Some("version = 1\n[local]\nallow = [\"c\"]"),
    );
    assert_eq!(m.local.allow, ["c"], "an array redefines the list; nothing of the lower layer sticks");
}

#[test]
fn buckets_merge_per_field_not_whole_table() {
    let m = merged(
        Some("version = 1\n[local]\nallow = [\"a\"]\nconfirm = [\"c\"]"),
        None,
        Some("version = 1\n[local]\ndeny = [\"d\"]"),
    );
    assert_eq!(m.local.allow, ["a"]);
    assert_eq!(m.local.confirm, ["c"]);
    assert_eq!(m.local.deny, ["d"]);
}

#[test]
fn delta_add_remove_over_lower_set() {
    let m = merged(
        None,
        Some("version = 1\n[local]\nallow = [\"curl\", \"cat\", \"grep\"]"),
        Some("version = 1\n[local]\nallow = { add = [\"jq\"], remove = [\"curl\"] }"),
    );
    assert_eq!(m.local.allow, ["cat", "grep", "jq"]);
}

#[test]
fn flag_bucket_supports_remove() {
    let m = merged(
        None,
        Some("version = 1\n[local.git]\nconfirm.flag = [\"--force\", \"-h\"]"),
        Some("version = 1\n[local.git]\nconfirm.flag = { remove = [\"-h\"] }"),
    );
    assert_eq!(m.local.commands.get("git").unwrap().confirm.flag, ["--force"]);
}

#[test]
fn delta_over_delta_appends_with_dedup() {
    let m = merged(
        Some("version = 1\n[local]\nallow = { add = [\"a\", \"b\"] }"),
        Some("version = 1\n[local]\nallow = { add = [\"b\", \"c\"] }"),
        None,
    );
    assert_eq!(m.local.allow, ["a", "b", "c"]);
}

#[test]
fn delta_with_no_lower_base_starts_from_empty() {
    let m = merged(
        None,
        None,
        Some("version = 1\n[local]\nallow = { add = [\"x\"], remove = [\"y\"] }"),
    );
    assert_eq!(m.local.allow, ["x"]);
}

#[test]
fn scalar_default_walks_project_user_global() {
    let m = merged(
        Some("version = 1\ndefault = \"deny\""),
        Some("version = 1\ndefault = \"confirm\""),
        Some("version = 1\ndefault = \"allow\""),
    );
    assert_eq!(m.default, Some(Decision::Allow));

    let m = merged(Some("version = 1\ndefault = \"deny\""), None, None);
    assert_eq!(m.default, Some(Decision::Deny));

    let m = merged(None, None, None);
    assert_eq!(m.default, None, "no layer defines it: None (the lookup falls to fail-safe)");
}

#[test]
fn precedence_high_layer_definition_wins() {
    let m = merged(
        Some("version = 1\nprecedence = [\"allow\", \"confirm\", \"deny\"]"),
        Some("version = 1\nprecedence = [\"confirm\", \"deny\", \"allow\"]"),
        None,
    );
    assert_eq!(m.precedence, [Decision::Confirm, Decision::Deny, Decision::Allow]);
}

#[test]
fn precedence_falls_back_to_default_when_undefined_everywhere() {
    let m = merged(None, None, None);
    assert_eq!(m.precedence, default_precedence_vec());
}

#[test]
fn command_section_default_inherits_across_layers() {
    let m = merged(
        None,
        Some("version = 1\n[local.npm]\ndefault = \"allow\""),
        Some("version = 1\n[local.npm]\nconfirm.sub = [\"install\"]"),
    );
    let npm = m.local.commands.get("npm").unwrap();
    assert_eq!(npm.default, Some(Decision::Allow));
    assert_eq!(npm.confirm.sub, ["install"]);
}

#[test]
fn command_sections_union_across_layers() {
    let m = merged(
        None,
        Some("version = 1\n[local.npm]\ndefault = \"allow\""),
        Some("version = 1\n[local.cargo]\nallow.sub = [\"build\"]"),
    );
    assert!(m.local.commands.contains_key("npm"));
    assert!(m.local.commands.contains_key("cargo"));
}

#[test]
fn command_fields_merge_per_dimension() {
    let m = merged(
        None,
        Some("version = 1\n[local.git]\nconfirm.flag = [\"--force\"]"),
        Some("version = 1\n[local.git]\ndeny.sub = [\"push\"]"),
    );
    let git = m.local.commands.get("git").unwrap();
    assert_eq!(git.confirm.flag, ["--force"], "lower-layer dimensions are inherited");
    assert_eq!(git.deny.sub, ["push"]);
    assert!(git.allow.sub.is_empty());
}

#[test]
fn command_default_three_layer_chain() {
    let m = merged(
        Some("version = 1\n[local.npm]\ndefault = \"deny\""),
        Some("version = 1\n[local.npm]\ndefault = \"confirm\""),
        Some("version = 1\n[local.npm]\ndefault = \"allow\""),
    );
    assert_eq!(m.local.commands.get("npm").unwrap().default, Some(Decision::Allow));
}

#[test]
fn empty_merge_yields_empty_rules_with_default_precedence() {
    let m = merged(None, None, None);
    assert_eq!(m.default, None);
    assert_eq!(m.precedence, default_precedence_vec());
    assert_eq!(m.local, MergedScope::empty());
    assert_eq!(m.global, MergedScope::empty());
}

#[test]
fn global_scope_merges_independently_of_local() {
    let m = merged(
        Some("version = 1\n[global]\nallow = [\"docker\"]"),
        None,
        Some("version = 1\n[global]\nallow = { add = [\"kubectl\"] }"),
    );
    assert_eq!(m.global.allow, ["docker", "kubectl"]);
    assert!(m.local.allow.is_empty());
}

#[test]
fn provenance_tracks_effective_layer() {
    let m = merged(
        Some("version = 1\n[local]\nallow = [\"a\", \"b\"]"),
        None,
        Some("version = 1\n[local]\nallow = { add = [\"c\"] }"),
    );
    assert_eq!(*m.local.prov.allow.get("a").unwrap(), "global");
    assert_eq!(*m.local.prov.allow.get("b").unwrap(), "global");
    assert_eq!(*m.local.prov.allow.get("c").unwrap(), "project");
    let m = merged(
        Some("version = 1\n[local]\nallow = [\"a\"]"),
        None,
        Some("version = 1\n[local]\nallow = [\"b\"]"),
    );
    assert_eq!(m.local.prov.allow.get("a"), None);
    assert_eq!(*m.local.prov.allow.get("b").unwrap(), "project");
    let m = merged(
        None,
        Some("version = 1\n[local.git]\ndeny.sub = [\"push\"]"),
        Some("version = 1\n[local.git]\nallow.sub = [\"status\"]"),
    );
    assert_eq!(*m.local.commands.get("git").unwrap().deny.sub_prov.get("push").unwrap(), "user");
    assert_eq!(*m.local.commands.get("git").unwrap().allow.sub_prov.get("status").unwrap(), "project");
    let m = merged(
        Some("version = 1\ndefault = \"deny\""),
        None,
        Some("version = 1\n[local]\nallow = [\"x\"]"),
    );
    assert_eq!(m.default_layer, Some("global"));
}

#[test]
fn script_allow_top_list_merges_with_d02_semantics() {
    let m = merged(
        Some("version = 1\n[local]\nscript_allow = [\"a\", \"b\"]"),
        None,
        Some("version = 1\n[local]\nscript_allow = { remove = [\"b\"], add = [\"c\"] }"),
    );
    assert_eq!(m.local.script_allow, ["a", "c"]);
    let m = merged(
        Some("version = 1\n[local]\nscript_allow = [\"a\"]"),
        None,
        Some("version = 1\n[local]\nscript_allow = [\"x\"]"),
    );
    assert_eq!(m.local.script_allow, ["x"]);
}

#[test]
fn script_allow_section_flag_inherits_and_revokes_across_layers() {
    let m = merged(
        None,
        Some("version = 1\n[local.ls]\nscript_allow = true"),
        Some("version = 1\n[local.ls]\nallow.sub = [\"x\"]"),
    );
    assert_eq!(m.local.commands.get("ls").unwrap().script_allow, Some(true));
    let m = merged(
        None,
        Some("version = 1\n[local.ls]\nscript_allow = true"),
        Some("version = 1\n[local.ls]\nscript_allow = false"),
    );
    assert_eq!(m.local.commands.get("ls").unwrap().script_allow, Some(false));
}

#[test]
fn script_allow_decls_union_two_forms_per_scope() {
    let m = merged(
        None,
        None,
        Some("version = 1\n[local]\nscript_allow = [\"ls\", \"docker\"]\n[local.git]\nscript_allow = true\n"),
    );
    assert_eq!(m.script_allow.scope_of("ls"), Some(DeclScope::Local));
    assert_eq!(m.script_allow.scope_of("docker"), Some(DeclScope::Local));
    assert_eq!(m.script_allow.scope_of("git"), Some(DeclScope::Local));
    assert_eq!(m.script_allow.scope_of("curl"), None);
}

#[test]
fn script_allow_declared_in_both_scopes_global_wins() {
    let m = merged(
        Some("version = 1\n[local]\nscript_allow = [\"ls\"]"),
        None,
        Some("version = 1\n[global]\nscript_allow = [\"ls\"]"),
    );
    assert_eq!(
        m.script_allow.scope_of("ls"),
        Some(DeclScope::Global),
        "declared in both tables: global wins"
    );
}

#[test]
fn script_allow_scopes_stay_independent() {
    let m = merged(
        Some("version = 1\n[global]\nscript_allow = [\"docker\"]"),
        None,
        Some("version = 1\n[local]\nscript_allow = [\"ls\"]"),
    );
    assert_eq!(m.script_allow.scope_of("docker"), Some(DeclScope::Global));
    assert_eq!(m.script_allow.scope_of("ls"), Some(DeclScope::Local));
    assert!(!m.script_allow.is_empty());
}
