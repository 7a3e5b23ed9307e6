use crush_tether::report::{render_repl_eval, render_report};
use crush_tether::service::ExplainReport;
use crush_tether::model::{Decision, Verdict};
use crush_tether::report::{render_batch_line, render_case_line, render_command};
use crush_tether::service::CommandExplain;

#[test]
fn batch_lines_pad_the_tag() {
    assert_eq!(render_batch_line("ls", &Verdict::allow()), "ALLOW    ls");
    assert_eq!(render_batch_line("sudo x", &Verdict::deny("no")), "DENY     sudo x  ; no");
    assert_eq!(render_batch_line("x", &Verdict::confirm("")), "CONFIRM  x");
}

#[test]
fn case_lines_report_expectation() {
    assert_eq!(render_case_line(true, "ls", Decision::Allow, Decision::Allow), "PASS  ALLOW    ls");
    assert_eq!(
        render_case_line(false, "rm x", Decision::Deny, Decision::Confirm),
        "FAIL  CONFIRM  rm x  (expected deny)"
    );
}

#[test]
fn command_block_starts_with_the_verdict_line() {
    let c = CommandExplain {
        raw: "git push".into(),
        bin: "git".into(),
        table_decision: Decision::Deny,
        table_source: None,
        normalized: None,
        writes_redirect: false,
        redirect_targets: Vec::new(),
        write_scan: Vec::new(),
        write_escape: false,
        script_changed: false,
        script_layer: None,
        script_rule: None,
        final_decision: Decision::Deny,
        reason: Some("git push blocked".into()),
    };
    let s = render_command(1, &c);
    assert!(s.starts_with("[1] git push => deny\n    lookup: deny <- (no hit)\n"), "{s}");
    assert!(s.contains("    reason: git push blocked\n"));
}

fn explained(raw: &str, scan: Vec<String>) -> CommandExplain {
    CommandExplain {
        raw: raw.into(),
        bin: "cp".into(),
        table_decision: Decision::Allow,
        table_source: Some(crush_tether::lookup::EntrySource { layer: "project", entry: "allow".into(), token: "cp".into() }),
        normalized: Some("cp".into()),
        writes_redirect: false,
        redirect_targets: Vec::new(),
        write_scan: scan,
        write_escape: true,
        script_changed: true,
        script_layer: Some("user"),
        script_rule: None,
        final_decision: Decision::Confirm,
        reason: None,
    }
}

#[test]
fn command_block_in_full() {
    let s = render_command(2, &explained("cp a ../b", vec!["a".into(), "../b".into()]));
    assert_eq!(
        s,
        "[2] cp a ../b => confirm\n    lookup: allow <- project.allow (token: cp)\n    normal: cp\n    write:  scan = [a, ../b] (escape check: ESCAPES)\n    script: changed (layer: user)\n"
    );
}

#[test]
fn explain_report_and_repl_answer() {
    let r = ExplainReport {
        engine: "rhai".into(),
        kb_present: false,
        lint: Vec::new(),
        parse_error: None,
        commands: vec![explained("cp a b", Vec::new())],
        combined: Verdict::confirm("escapes"),
    };
    let text = render_report(&r);
    assert!(text.starts_with("engine: rhai  kb: absent  lint: 0 warning(s)\n[1] cp a b => confirm\n"), "{text}");
    assert!(text.contains("    write:  no write-effect paths (escape check: ESCAPES)\n"));
    assert!(text.ends_with("combined: confirm\ncombined reason: escapes\n"));
    let repl = render_repl_eval(&r);
    assert!(repl.starts_with("[1] cp a b => confirm\n"));
    assert!(repl.ends_with("    script: changed (layer: user)\ncombined: confirm\n"));
    let empty = ExplainReport { commands: Vec::new(), ..r.clone() };
    assert_eq!(render_report(&empty), "engine: rhai  kb: absent  lint: 0 warning(s)\n(empty command)\n");
    let bad = ExplainReport { parse_error: Some("unterminated quote".into()), ..r };
    assert_eq!(
        render_report(&bad),
        "engine: rhai  kb: absent  lint: 0 warning(s)\nparse error: unterminated quote\ncombined: confirm\n"
    );
}
