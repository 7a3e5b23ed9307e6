use crush_tether::lookup::EntrySource;
use crush_tether::model::Decision;
use crush_tether::service::CommandExplain;
use crush_tether::suggest::{
    build_suggestion, cause_of, hard_skip, parse_rfc3339, plausible_sub, suggestion_line, SkipReason, Suggestion,
};

/// A minimal explanation (the hint reads source, script rule, raw text,
/// final decision, write escape and bin).
fn cx(
    raw: &str,
    bin: &str,
    source: Option<EntrySource>,
    script_rule: Option<&str>,
    final_decision: Decision,
    write_escape: bool,
) -> CommandExplain {
    CommandExplain {
        raw: raw.to_string(),
        bin: bin.to_string(),
        table_decision: Decision::Confirm,
        table_source: source,
        normalized: None,
        writes_redirect: false,
        redirect_targets: Vec::new(),
        write_scan: Vec::new(),
        write_escape,
        script_changed: false,
        script_layer: None,
        script_rule: script_rule.map(String::from),
        final_decision,
        reason: None,
    }
}

/// The hard list only (no file system).
fn hard_list_skip(bin: &str) -> bool {
    hard_skip(bin)
}

fn src(layer: &'static str, entry: &str, token: &str) -> Option<EntrySource> {
    Some(EntrySource {
        layer,
        entry: entry.to_string(),
        token: token.to_string(),
    })
}

#[test]
fn default_confirm_with_safe_narrowing_suggests_allow_sub() {
    let c = cx("terraform plan", "terraform", None, None, Decision::Confirm, false);
    let line = suggestion_line(&c, &hard_list_skip).expect("a confirm always gets a line");
    assert!(line.contains("suggestion: [local.terraform] allow.sub = [\"plan\"]"), "{line}");
    assert!(line.contains("(paste into rules.toml; review first)"), "{line}");
}

#[test]
fn dangerous_bin_suggests_nothing_with_reason() {
    let c = cx("rm tmp.txt", "rm", src("project", "confirm", "rm"), None, Decision::Confirm, false);
    let line = suggestion_line(&c, &hard_list_skip).expect("a confirm always gets a line");
    assert!(
        line.contains("suggestion: none — `rm` is in the dangerous skip list (may_write/network/irreversible)"),
        "{line}"
    );
}

#[test]
fn free_args_skip_when_no_safe_narrowing() {
    let c = cx("jq .", "jq", src("project", "default", "jq"), None, Decision::Confirm, false);
    let line = suggestion_line(&c, &hard_list_skip).expect("a confirm always gets a line");
    assert!(line.contains("suggestion: none — no safe bin+sub narrowing (free-form args)"), "{line}");
}

#[test]
fn script_rule_trigger_prints_script_reason() {
    let c = cx(
        "git branch -d x",
        "git",
        src("script", "script", "git"),
        Some("two_state:-d"),
        Decision::Confirm,
        false,
    );
    let line = suggestion_line(&c, &hard_list_skip).expect("a confirm always gets a line");
    assert!(
        line.contains("suggestion: none — script rule triggered (edit the script; no TOML counterpart)"),
        "{line}"
    );
}

#[test]
fn escape_downgrade_points_to_global_allow() {
    let c = cx("touch ../outside.txt", "touch", src("project", "allow", "touch"), None, Decision::Confirm, true);
    let line = suggestion_line(&c, &hard_list_skip).expect("a confirm always gets a line");
    assert!(
        line.contains(
            "suggestion: none — write target is outside the project; if intended, move `touch` to [global] allow (escape-exempt)"
        ),
        "{line}"
    );
}

#[test]
fn allow_and_denial_have_no_suggestion_line() {
    let ok = cx("cp a b", "cp", src("project", "allow", "cp"), None, Decision::Allow, false);
    assert!(suggestion_line(&ok, &hard_list_skip).is_none());
    let no = cx("git push", "git", src("project", "git.deny.sub", "push"), None, Decision::Deny, false);
    assert!(suggestion_line(&no, &hard_list_skip).is_none());
}

#[test]
fn confirm_flag_entry_suggests_allow_flag() {
    let c = cx(
        "git log --output=x",
        "git",
        src("project", "git.confirm.flag", "--output"),
        None,
        Decision::Confirm,
        false,
    );
    let line = suggestion_line(&c, &hard_list_skip).expect("a confirm always gets a line");
    assert!(line.contains("suggestion: [local.git] allow.flag = [\"--output\"]"), "{line}");
}

#[test]
fn head_list_confirm_suggests_local_section_entry() {
    let c = cx("jq --args x", "jq", src("project", "confirm", "jq"), None, Decision::Confirm, false);
    let line = suggestion_line(&c, &hard_list_skip).expect("a confirm always gets a line");
    assert!(line.contains("suggestion: [local] allow = [\"jq\"]"), "{line}");
}

#[test]
fn kb_irreversible_fact_participates_in_skip() {
    let c = cx("mytool do-x", "mytool", None, None, Decision::Confirm, false);
    let line = suggestion_line(&c, &|b: &str| b == "mytool").expect("a confirm always gets a line");
    assert!(
        line.contains("suggestion: none — `mytool` is in the dangerous skip list (may_write/network/irreversible)"),
        "{line}"
    );
}

#[test]
fn confirm_sub_entry_suggests_allow_sub_of_its_section() {
    let key = "project\u{1f}git.confirm.sub\u{1f}reset";
    assert_eq!(
        build_suggestion("entry", key, "git reset", false),
        Suggestion::Allow { section: "local.git".into(), entry: "allow.sub = [\"reset\"]".into() }
    );
    assert_eq!(
        build_suggestion("entry", key, "git reset", true),
        Suggestion::Skip(SkipReason::Dangerous("git".into()))
    );
    assert_eq!(build_suggestion("entry", "a\u{1f}b", "x", false), Suggestion::Skip(SkipReason::Malformed));
    assert_eq!(
        build_suggestion("entry", "project\u{1f}git.deny.sub\u{1f}push", "git push", false),
        Suggestion::Skip(SkipReason::NotConfirmEntry)
    );
    assert_eq!(build_suggestion("other", "", "", false), Suggestion::Skip(SkipReason::Malformed));
}

#[test]
fn cause_keys_entries_and_falls_back_to_whole_command() {
    let (k, key) = cause_of(&None, &Some(("project".into(), "confirm".into(), "jq".into())), "jq x");
    assert_eq!(k, "entry");
    assert_eq!(key, "project\u{1f}confirm\u{1f}jq");
    let (k, key) = cause_of(&None, &Some(("project".into(), "npm.default".into(), "npm".into())), "npm x");
    assert_eq!((k.as_str(), key.as_str()), ("whole", "npm x"));
    let (k, key) = cause_of(&Some("r1".into()), &None, "x");
    assert_eq!((k.as_str(), key.as_str()), ("script", "r1"));
}

#[test]
fn subcommand_shapes() {
    assert!(plausible_sub("plan"));
    assert!(plausible_sub("a-b_c9"));
    assert!(!plausible_sub("."));
    assert!(!plausible_sub("--x"));
    assert!(!plausible_sub(""));
}

#[test]
fn log_timestamps_parse_to_epoch_seconds() {
    assert_eq!(parse_rfc3339("1970-01-01T00:00:00Z"), Some(0));
    assert_eq!(parse_rfc3339("2000-03-01T00:00:01Z"), Some(951868801));
    assert_eq!(parse_rfc3339("2024-02-29 12:34:56Z"), Some(1709210096));
    assert_eq!(parse_rfc3339("2024-02-29T12:34:56"), None);
    assert_eq!(parse_rfc3339("2024-0x-29T12:34:56Z"), None);
}
