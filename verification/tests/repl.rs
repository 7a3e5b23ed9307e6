use crush_tether::config::declared::RulesConfig;
use crush_tether::knowledge::{kb_irreversible, kb_known, kb_may_write, kb_write_arg_count, kb_write_tokens, KnowledgeBase};
use crush_tether::lint::{Lint, LintSeverity};
use crush_tether::repl::{render_history, render_lint, repl_help_text, repl_step, resolve_project, ReplAction};

#[test]
fn repl_commands_leave_history_alone() {
    let mut h = vec!["ls".to_string()];
    assert_eq!(repl_step(&mut h, " :q "), ReplAction::Quit);
    assert_eq!(repl_step(&mut h, ":exit"), ReplAction::Quit);
    assert_eq!(repl_step(&mut h, ":help"), ReplAction::Help);
    assert_eq!(repl_step(&mut h, ":hist"), ReplAction::History);
    assert_eq!(repl_step(&mut h, ":lint"), ReplAction::Lint);
    assert_eq!(h, vec!["ls".to_string()]);
    assert!(repl_help_text().contains("!N (rerun #N)"));
}

#[test]
fn repl_repeats_and_reruns() {
    let mut h: Vec<String> = Vec::new();
    assert_eq!(repl_step(&mut h, "\n"), ReplAction::Nothing);
    assert_eq!(repl_step(&mut h, "git status\n"), ReplAction::Eval("git status".into()));
    assert_eq!(repl_step(&mut h, "ls"), ReplAction::Eval("ls".into()));
    assert_eq!(repl_step(&mut h, ""), ReplAction::Eval("ls".into()));
    assert_eq!(h, vec!["git status".to_string(), "ls".to_string()]);
    assert_eq!(repl_step(&mut h, "!1"), ReplAction::Eval("git status".into()));
    assert_eq!(h.len(), 3);
    assert_eq!(repl_step(&mut h, "!0"), ReplAction::NoSuchEntry("0".into()));
    assert_eq!(repl_step(&mut h, "!9"), ReplAction::NoSuchEntry("9".into()));
    assert_eq!(repl_step(&mut h, "!x"), ReplAction::NoSuchEntry("x".into()));
    assert_eq!(repl_step(&mut h, "!99999999999999999999999"), ReplAction::NoSuchEntry("99999999999999999999999".into()));
    assert_eq!(repl_step(&mut h, "!+2"), ReplAction::Eval("ls".into()));
    assert_eq!(h.len(), 4);
}

#[test]
fn history_and_lint_listings() {
    let h = vec!["ls".to_string(), "git push".to_string()];
    assert_eq!(render_history(&h), "  1  ls\n  2  git push\n");
    assert_eq!(render_lint(&Vec::new()), "lint: no warnings\n");
    let l = vec![Lint { severity: LintSeverity::Warning, code: "multi-bucket", message: "git in two buckets".into() }];
    assert_eq!(render_lint(&l), "lint: Warning git in two buckets (multi-bucket)\n");
}

#[test]
fn project_root_resolution() {
    let marker = |p: &str| p == "/a/b";
    assert_eq!(resolve_project(Some("/x"), "/a/b/c", &marker), "/x");
    assert_eq!(resolve_project(None, "/a/b/c", &marker), "/a/b");
    assert_eq!(resolve_project(None, "/q/r", &marker), "/q/r");
}

#[test]
fn declared_rules_decode() {
    let c = RulesConfig::parse_toml(
        "[[rule]]\nbin = \"git\"\nsubcommand = \"push\"\nthen = \"confirm\"\n[[rule]]\nbin = \"ls\"\nthen = \"allow\"\n",
    )
    .unwrap();
    assert_eq!(c.rules.len(), 2);
    assert_eq!(c.rules[0].subcommand.as_deref(), Some("push"));
    assert_eq!(c.rules[0].decision, "confirm");
    assert_eq!(c.rules[1].subcommand, None);
    assert!(RulesConfig::parse_toml("").unwrap().rules.is_empty());
    assert!(RulesConfig::parse_toml("[[rule]]\nbin = \"git\"\n").is_err());
    assert!(RulesConfig::parse_toml("rule = 3\n").is_err());
}

const KB: &str = "version = 1\n[terraform]\nmay_write = true\nsub.apply = { write_tokens = [\"-out\"], write_arg_count = 2 }\n[git]\nflag.\"--force\" = { irreversible = true }\n";

#[test]
fn knowledge_queries_for_scripts() {
    let kb = Some(KnowledgeBase::parse_toml(KB).unwrap());
    assert_eq!(kb_write_tokens(&kb, "terraform", "apply"), vec!["-out".to_string()]);
    assert!(kb_write_tokens(&kb, "terraform", "plan").is_empty());
    assert_eq!(kb_write_arg_count(&kb, "terraform", "apply"), 2);
    assert_eq!(kb_write_arg_count(&kb, "git", "apply"), 0);
    assert!(kb_may_write(&kb, "terraform"));
    assert!(!kb_may_write(&kb, "git"));
    assert!(kb_known(&kb, "git"));
    assert!(!kb_known(&kb, "npm"));
    assert!(kb_irreversible(&kb, "git", "--force"));
    assert!(!kb_irreversible(&kb, "git", "-f"));
    assert!(!kb_known(&None, "git"));
    assert!(kb_write_tokens(&None, "terraform", "apply").is_empty());
}
