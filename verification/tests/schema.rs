use crush_tether::config::schema::{CommandSection, ConfigError, ListField, RulesFile, ScopeTable};
use crush_tether::model::Decision;

fn parse(s: &str) -> Result<RulesFile, ConfigError> {
    RulesFile::parse_toml(s)
}

fn err_of(s: &str) -> String {
    parse(s).expect_err("should fail").to_string()
}

fn list(v: &[&str]) -> ListField {
    ListField::List(v.iter().map(|s| (*s).to_string()).collect())
}

#[test]
fn minimal_file_with_version_only_parses_empty() {
    let f = parse("version = 1").unwrap();
    assert_eq!(f.version, 1);
    assert_eq!(f.default, None);
    assert_eq!(f.precedence, None);
    assert_eq!(f.local, ScopeTable::empty());
    assert_eq!(f.global, ScopeTable::empty());
}

#[test]
fn missing_version_is_an_error_not_an_implicit_v1() {
    let msg = err_of("default = \"confirm\"");
    assert!(msg.contains("missing field `version`"), "{msg}");
}

#[test]
fn newer_schema_version_is_rejected_explicitly() {
    let msg = err_of("version = 2");
    assert!(msg.contains("version 2 is not supported"), "{msg}");
}

#[test]
fn version_zero_is_rejected() {
    let msg = err_of("version = 0");
    assert!(msg.contains("version 0 is not supported"), "{msg}");
}

#[test]
fn unknown_top_level_key_is_locatable() {
    let msg = err_of("version = 1\nfoo = 1");
    assert!(msg.contains("unknown field `foo`"), "{msg}");
}

#[test]
fn head_buckets_accept_array_form() {
    let f = parse("version = 1\n[local]\nallow = [\"ls\", \"cat\"]").unwrap();
    assert_eq!(f.local.buckets.allow, Some(list(&["ls", "cat"])));
    assert_eq!(f.local.buckets.confirm, None);
    assert_eq!(f.global.buckets.allow, None);
}

#[test]
fn head_buckets_accept_delta_form() {
    let src = "version = 1\n[local]\nallow = { add = [\"jq\"], remove = [\"curl\"] }";
    let f = parse(src).unwrap();
    assert_eq!(
        f.local.buckets.allow,
        Some(ListField::Delta {
            add: Some(vec!["jq".into()]),
            remove: Some(vec!["curl".into()]),
        })
    );
}

#[test]
fn delta_form_rejects_unknown_keys() {
    let msg = err_of("version = 1\n[local]\nallow = { add = [], foo = [] }");
    assert!(msg.contains("unknown field `foo`"), "{msg}");
    assert!(msg.contains("add"), "{msg}");
}

#[test]
fn head_bucket_rejects_non_list_values() {
    let msg = err_of("version = 1\n[local]\nallow = \"ls\"");
    assert!(msg.contains("invalid type: string"), "{msg}");
}

#[test]
fn head_level_bucket_cannot_open_sub_dimension() {
    let msg = err_of("version = 1\n[local]\nallow.sub = [\"x\"]");
    assert!(msg.contains("unknown field `sub`"), "{msg}");
}

#[test]
fn head_level_typo_bucket_is_not_silently_a_command() {
    let msg = err_of("version = 1\n[local]\nalow = [\"ls\"]");
    assert!(msg.contains("alow"), "{msg}");
    assert!(msg.contains("command section"), "{msg}");
}

#[test]
fn command_section_sub_and_flag_dimensions_parse() {
    let src = "version = 1\n[local.git]\nallow.sub = [\"status\", \"log\"]\nconfirm.flag = [\"--output\", \"-o\"]\ndeny.flag = [\"--hard\"]\n";
    let f = parse(src).unwrap();
    let git = f.local.commands.get("git").unwrap();
    assert_eq!(git.allow.as_ref().unwrap().sub, Some(list(&["status", "log"])));
    assert_eq!(git.confirm.as_ref().unwrap().flag, Some(list(&["--output", "-o"])));
    assert_eq!(git.deny.as_ref().unwrap().flag, Some(list(&["--hard"])));
    assert_eq!(git.default, None);
}

#[test]
fn command_section_inline_default_parses() {
    let src = "version = 1\n[local.npm]\nconfirm.sub = [\"install\"]\ndefault = \"allow\"";
    let f = parse(src).unwrap();
    let npm = f.local.commands.get("npm").unwrap();
    assert_eq!(npm.default, Some(Decision::Allow));
    assert_eq!(npm.confirm.as_ref().unwrap().sub, Some(list(&["install"])));
}

#[test]
fn command_section_rejects_typo_bucket_key() {
    let msg = err_of("version = 1\n[local.git]\nalow = [\"x\"]");
    assert!(msg.contains("unknown field `alow`"), "{msg}");
}

#[test]
fn bucket_rejects_unknown_dimension_key() {
    let msg = err_of("version = 1\n[local.git]\nallow.subs = [\"x\"]");
    assert!(msg.contains("unknown field `subs`"), "{msg}");
}

#[test]
fn empty_command_section_is_valid() {
    let f = parse("version = 1\n[local.git]").unwrap();
    assert_eq!(f.local.commands.get("git"), Some(&CommandSection::default()));
}

#[test]
fn global_table_structurally_identical_to_local() {
    let src = "version = 1\n[global]\nallow = []\n[global.docker]\nallow.sub = [\"ps\"]";
    let f = parse(src).unwrap();
    assert_eq!(f.global.buckets.allow, Some(list(&[])));
    let docker = f.global.commands.get("docker").unwrap();
    assert_eq!(docker.allow.as_ref().unwrap().sub, Some(list(&["ps"])));
}

#[test]
fn quoted_command_names_parse() {
    let f = parse("version = 1\n[local.\"google-chrome\"]\ndefault = \"deny\"").unwrap();
    assert_eq!(f.local.commands.get("google-chrome").unwrap().default, Some(Decision::Deny));
}

#[test]
fn misplaced_bare_key_after_header_is_locatable() {
    let msg = err_of("version = 1\n[global]\nversion = 2");
    assert!(msg.contains("command section"), "{msg}");
}

#[test]
fn precedence_accepts_any_permutation_of_three_buckets() {
    let f = parse("version = 1\nprecedence = [\"allow\", \"deny\", \"confirm\"]").unwrap();
    assert_eq!(f.precedence, Some(vec![Decision::Allow, Decision::Deny, Decision::Confirm]));
}

#[test]
fn precedence_rejects_missing_bucket() {
    let msg = err_of("version = 1\nprecedence = [\"deny\", \"confirm\"]");
    assert!(msg.contains("precedence"), "{msg}");
}

#[test]
fn precedence_rejects_duplicate_bucket() {
    let msg = err_of("version = 1\nprecedence = [\"deny\", \"deny\", \"allow\"]");
    assert!(msg.contains("precedence"), "{msg}");
}

#[test]
fn precedence_rejects_unknown_bucket_name() {
    let msg = err_of("version = 1\nprecedence = [\"deny\", \"confirm\", \"read\"]");
    assert!(msg.contains("unknown variant `read`"), "{msg}");
}

#[test]
fn default_accepts_three_decisions_and_rejects_others() {
    for (s, want) in [
        ("allow", Decision::Allow),
        ("confirm", Decision::Confirm),
        ("deny", Decision::Deny),
    ] {
        let f = parse(&format!("version = 1\ndefault = \"{s}\"")).unwrap();
        assert_eq!(f.default, Some(want));
    }
    let msg = err_of("version = 1\ndefault = \"Allow\"");
    assert!(msg.contains("unknown variant `Allow`"), "{msg}");
}

#[test]
fn rules_decode_errors_name_the_nested_key() {
    let msg = |s: &str| RulesFile::parse_toml(s).unwrap_err().to_string();
    assert_eq!(
        msg("version = 1\n[local.git]\nallow.sub = [\"x\", 3]"),
        "invalid type: integer `3`, expected a string for key `local.git.allow.sub`"
    );
    assert_eq!(
        msg("version = 1\n[global.git]\ndefault = \"maybe\""),
        "unknown variant `maybe`, expected one of `allow`, `confirm`, `deny` for key `global.git.default`"
    );
    assert_eq!(
        msg("version = 1\nprecedence = [\"deny\", \"never\"]"),
        "unknown variant `never`, expected one of `allow`, `confirm`, `deny` for key `precedence`"
    );
}
