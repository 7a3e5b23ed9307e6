use crush_tether::config::schema::RulesFile;
use crush_tether::knowledge::KnowledgeBase;
use crush_tether::lint::{edit_distance, lint_file, LintSeverity};

fn file(src: &str) -> RulesFile {
    RulesFile::parse_toml(src).unwrap()
}

fn codes(src: &str, kb: Option<&KnowledgeBase>) -> Vec<&'static str> {
    lint_file(&file(src), kb).iter().map(|l| l.code).collect()
}

#[test]
fn multi_bucket_warns_with_effective_and_dead_entries() {
    let lints = lint_file(&file("version = 1\n[local]\nallow = [\"rm\"]\ndeny = [\"rm\"]"), None);
    let multi: Vec<_> = lints.iter().filter(|l| l.code == "multi-bucket").collect();
    assert_eq!(multi.len(), 1);
    assert!(multi[0].message.contains("effective: deny"), "{}", multi[0].message);
    let dead: Vec<_> = lints.iter().filter(|l| l.code == "dead-entry").collect();
    assert_eq!(dead.len(), 1);
    assert!(dead[0].message.contains("of allow is dead"), "{}", dead[0].message);
}

#[test]
fn clean_file_has_no_structural_warnings() {
    assert!(codes("version = 1\n[local]\nallow = [\"ls\"]\n[local.git]\nallow.sub = [\"status\"]", None).is_empty());
}

#[test]
fn head_list_and_section_coexistence_warns() {
    let lints = lint_file(&file("version = 1\n[local]\nconfirm = [\"git\"]\n[local.git]\nallow.sub = [\"status\"]"), None);
    assert!(lints.iter().any(|l| l.code == "head-list-and-section"
        && l.message == "`git` appears both in [local] bare lists and as a command section; the section shadows the bare-list entry"));
}

#[test]
fn allow_may_write_suggests_with_kb_only() {
    let src = "version = 1\n[local]\nallow = [\"npx\"]";
    assert!(codes(src, None).is_empty());
    let kb = KnowledgeBase::parse_toml("version = 1\n[npx]\nmay_write = true").unwrap();
    let lints = lint_file(&file(src), Some(&kb));
    assert!(lints.iter().any(|l| l.code == "allow-may-write" && l.severity == LintSeverity::Suggestion));
}

#[test]
fn subcommand_typo_hint_from_config_internal_pairing() {
    let src = "version = 1\n[local.git]\nallow.sub = [\"status\", \"stauts\"]";
    assert!(codes(src, None).contains(&"subcommand-typo"));
}

#[test]
fn same_flag_cross_bucket_conflict_warns() {
    let kb = KnowledgeBase::parse_toml("version = 1\n[git]\nflag.\"--force\" = { same_flag = \"-f\" }").unwrap();
    let src = "version = 1\n[local.git]\nallow.flag = [\"--force\"]\ndeny.flag = [\"-f\"]";
    assert!(codes(src, Some(&kb)).contains(&"same-flag-cross-bucket"));
}

#[test]
fn edit_distance_is_levenshtein() {
    assert_eq!(edit_distance("status", "stauts"), 2);
    assert_eq!(edit_distance("", "abc"), 3);
    assert_eq!(edit_distance("kitten", "sitting"), 3);
    assert_eq!(edit_distance("same", "same"), 0);
}

#[test]
fn subcommand_typo_message_names_both_words() {
    let lints = lint_file(&file("version = 1\n[local.git]\nallow.sub = [\"status\", \"stauts\"]"), None);
    let typos: Vec<_> = lints.iter().filter(|l| l.code == "subcommand-typo").collect();
    assert_eq!(typos.len(), 1);
    assert_eq!(typos[0].message, "`status` in [local].git looks like a typo of `stauts`");
    assert_eq!(typos[0].severity, LintSeverity::Suggestion);
}

#[test]
fn same_flag_conflict_message_lists_buckets_in_name_order() {
    let kb = KnowledgeBase::parse_toml("version = 1\n[git]\nflag.\"--force\" = { same_flag = \"-f\" }").unwrap();
    let lints = lint_file(&file("version = 1\n[local.git]\ndeny.flag = [\"--force\"]\nallow.flag = [\"-f\"]"), Some(&kb));
    let conflicts: Vec<_> = lints.iter().filter(|l| l.code == "same-flag-cross-bucket").collect();
    assert_eq!(conflicts.len(), 1);
    assert_eq!(
        conflicts[0].message,
        "same_flag class of `-f` in [git] spans multiple buckets (allow/deny); only the effective one can ever match after normalization"
    );
}
