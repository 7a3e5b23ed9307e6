use crush_tether::approvals::{
    approval_causes, approval_is_matched, approval_of_log_line, approvals, cutoff_of, exec_record_of_line, exec_records,
    lines_of, rank_candidates, render_suggest_report, sorted_sections, suggest_report, tally_causes, Approval, CauseCount,
    ExecRecord,
};
use crush_tether::knowledge::KnowledgeBase;
use crush_tether::suggest::{kb_skip_fact, SkipReason, SuggestOptions, Suggestion};

const TS: &str = "2026-09-12T00:00:0";
const NOW: u64 = 1_789_300_000;

fn dec_line(id: u32, decision: &str, command: &str, layer: &str, entry: &str, token: &str) -> String {
    format!(
        r#"{{"ts":"{TS}{id}Z","mode":"serve","agent":"claudecode","decision":"{decision}","command":"{command}","source":{{"layer":"{layer}","entry":"{entry}","match":"{token}"}},"session_id":"s{id}","tool_use_id":"t{id}","script":{{"file":null,"rule":null}}}}"#
    )
}

fn dec_line_script_rule(id: u32, command: &str, rule: &str) -> String {
    format!(
        r#"{{"ts":"{TS}{id}Z","mode":"serve","agent":"claudecode","decision":"confirm","command":"{command}","source":{{"layer":"script","entry":"script","match":"git"}},"session_id":"s{id}","tool_use_id":"t{id}","script":{{"file":"rules.rhai","rule":"{rule}"}}}}"#
    )
}

fn exec_line(id: u32, command: &str, success: bool) -> String {
    format!(
        r#"{{"ts":"{TS}{id}Z","agent":"claudecode","session_id":"s{id}","tool_use_id":"t{id}","command":"{command}","success":{success}}}"#
    )
}

fn opts(threshold: usize, window_days: u64) -> SuggestOptions {
    SuggestOptions { threshold, window_days, format: "toml".to_string() }
}

fn report(decisions: &[String], execs: &[String], o: &SuggestOptions) -> String {
    let d = decisions.join("\n") + "\n";
    let e = execs.join("\n") + "\n";
    suggest_report(Some(e.as_str()), d.as_str(), NOW, o, &None)
}

fn entry_case(cmds: &[&str]) -> (Vec<String>, Vec<String>) {
    let decisions = cmds
        .iter()
        .enumerate()
        .map(|(i, c)| dec_line(i as u32, "confirm", c, "project", "git.confirm.sub", "push"))
        .collect();
    let execs = cmds.iter().enumerate().map(|(i, c)| exec_line(i as u32, c, true)).collect();
    (decisions, execs)
}

#[test]
fn entry_cause_reaches_threshold_and_suggests_allow_sub() {
    let (decisions, execs) = entry_case(&["git push origin a", "git push origin b", "git push upstream"]);
    let out = report(&decisions, &execs, &opts(3, 36500));
    assert!(out.contains("[local.git]"), "got:\n{out}");
    assert!(out.contains("allow.sub = [\"push\"]"), "got:\n{out}");
}

#[test]
fn below_threshold_yields_no_suggestions() {
    let (decisions, execs) = entry_case(&["git push a", "git push b"]);
    let out = report(&decisions, &execs, &opts(3, 36500));
    assert!(out.contains("no suggestions"), "got:\n{out}");
    let out = report(&decisions, &execs, &opts(2, 36500));
    assert!(out.contains("allow.sub = [\"push\"]"), "got:\n{out}");
}

#[test]
fn failed_or_null_executions_do_not_count() {
    let (decisions, _) = entry_case(&["git push a", "git push b", "git push c"]);
    let execs = vec![
        exec_line(0, "git push a", false),
        exec_line(1, "git push b", false),
        format!(
            r#"{{"ts":"{TS}2Z","agent":"claudecode","session_id":"s2","tool_use_id":"t2","command":"git push b","success":null}}"#
        ),
    ];
    let out = report(&decisions, &execs, &opts(3, 36500));
    assert!(out.contains("no suggestions"), "got:\n{out}");
}

#[test]
fn dangerous_bins_land_in_skip_list() {
    let cmds = ["curl example.com", "curl mirror.org", "curl mirror2.org"];
    let decisions: Vec<String> =
        cmds.iter().enumerate().map(|(i, c)| dec_line(i as u32, "confirm", c, "project", "confirm", "curl")).collect();
    let execs: Vec<String> = cmds.iter().enumerate().map(|(i, c)| exec_line(i as u32, c, true)).collect();
    let out = report(&decisions, &execs, &opts(3, 36500));
    assert!(out.contains("skip list"), "got:\n{out}");
    assert!(out.contains("危险类别"), "got:\n{out}");
    assert!(!out.contains("allow = [\"curl\"]"), "got:\n{out}");
}

#[test]
fn script_cause_skipped_and_deny_never_learned() {
    let mut decisions = vec![
        dec_line_script_rule(0, "git branch -d x", "two_state:-d"),
        dec_line_script_rule(1, "git branch -d y", "two_state:-d"),
        dec_line_script_rule(2, "git branch -d z", "two_state:-d"),
    ];
    decisions.push(dec_line(3, "deny", "sudo x", "project", "deny", "sudo"));
    decisions.push(dec_line(4, "deny", "sudo y", "project", "deny", "sudo"));
    decisions.push(dec_line(5, "deny", "sudo z", "project", "deny", "sudo"));
    let cmds = ["git branch -d x", "git branch -d y", "git branch -d z", "sudo x", "sudo y", "sudo z"];
    let execs: Vec<String> = cmds.iter().enumerate().map(|(i, c)| exec_line(i as u32, c, true)).collect();
    let out = report(&decisions, &execs, &opts(3, 36500));
    assert!(out.contains("脚本规则"), "got:\n{out}");
    assert!(!out.contains("allow.sub = [\"push\"]"));
    assert!(!out.contains("allow = [\"sudo\"]"), "got:\n{out}");
}

#[test]
fn no_executions_file_prints_guidance_and_exits_zero() {
    let out = suggest_report(None, "", NOW, &opts(3, 30), &None);
    assert!(out.contains("no execution records"), "got:\n{out}");
    assert!(out.ends_with("nothing to suggest.\n"));
}

#[test]
fn full_report_text_for_one_candidate() {
    let (decisions, execs) = entry_case(&["git push a", "git push b", "git push c"]);
    let out = report(&decisions, &execs, &opts(3, 36500));
    let expected = "# crush-tether suggest: rules derived from 1 repeated approvals\n\
# paste into .crush-tether/rules.toml (git diff = rollback & audit);\n\
# review each entry: repeated approval does not always mean safe to allow.\n\
\n[local.git]\nallow.sub = [\"push\"]\n\n\
count   kind     bin     cause / suggestion\n\
3       entry    git     [local.git] allow.sub = [\"push\"]\n";
    assert_eq!(out, expected);
}

#[test]
fn table_format_has_no_paste_block() {
    let (decisions, execs) = entry_case(&["git push a", "git push b", "git push c"]);
    let o = SuggestOptions { threshold: 3, window_days: 36500, format: "table".to_string() };
    let out = report(&decisions, &execs, &o);
    assert!(out.starts_with("count   kind"), "got:\n{out}");
}

#[test]
fn lines_follow_str_lines() {
    let l = lines_of("a\r\nb\n\nc\r");
    assert_eq!(l, vec!["a".to_string(), "b".to_string(), "".to_string(), "c\r".to_string()]);
    assert_eq!(lines_of("x\n"), vec!["x".to_string()]);
    assert!(lines_of("").is_empty());
}

#[test]
fn log_lines_parse_into_records() {
    let e = exec_record_of_line(&exec_line(1, "ls", true)).unwrap();
    assert_eq!(e.command, "ls");
    assert_eq!(e.session_id.as_deref(), Some("s1"));
    assert_eq!(e.success, Some(true));
    assert_eq!(e.ts, parse_ts("2026-09-12T00:00:01Z"));
    assert!(exec_record_of_line("not json").is_none());
    assert!(approval_of_log_line(&dec_line(1, "deny", "x", "project", "deny", "x")).is_none());
    let a = approval_of_log_line(&dec_line(1, "confirm", "git push", "project", "git.confirm.sub", "push")).unwrap();
    assert_eq!(a.source, Some(("project".to_string(), "git.confirm.sub".to_string(), "push".to_string())));
    assert_eq!(a.script_rule, None);
    let recs = exec_records(&(exec_line(1, "a", true) + "\ngarbage\n" + &exec_line(2, "b", false)));
    assert_eq!(recs.len(), 2);
    assert_eq!(approvals("").len(), 0);
}

fn parse_ts(s: &str) -> u64 {
    crush_tether::suggest::parse_rfc3339(s).unwrap()
}

fn approval(ts: u64, ids: Option<(&str, &str)>, command: &str) -> Approval {
    Approval {
        ts,
        session_id: ids.map(|(s, _)| s.to_string()),
        tool_use_id: ids.map(|(_, t)| t.to_string()),
        command: command.to_string(),
        script_rule: None,
        source: None,
    }
}

fn exec(ts: u64, ids: Option<(&str, &str)>, command: &str, success: Option<bool>) -> ExecRecord {
    ExecRecord {
        ts,
        session_id: ids.map(|(s, _)| s.to_string()),
        tool_use_id: ids.map(|(_, t)| t.to_string()),
        command: command.to_string(),
        success,
    }
}

#[test]
fn matching_by_ids_or_by_command_within_ten_minutes() {
    let execs = vec![exec(1000, Some(("s", "t")), "ls", Some(true)), exec(2000, None, "make", Some(true))];
    assert!(approval_is_matched(&execs, &approval(10, Some(("s", "t")), "other"), 0));
    assert!(!approval_is_matched(&execs, &approval(10, Some(("s", "u")), "ls"), 0));
    assert!(approval_is_matched(&execs, &approval(1400, None, "make"), 0));
    assert!(approval_is_matched(&execs, &approval(2000, None, "make"), 0));
    assert!(!approval_is_matched(&execs, &approval(1399, None, "make"), 0));
    assert!(!approval_is_matched(&execs, &approval(2001, None, "make"), 0));
    // Executions before the window do not count.
    assert!(!approval_is_matched(&execs, &approval(1400, None, "make"), 2001));
}

#[test]
fn counting_and_ranking() {
    let execs = vec![exec(100, None, "a", Some(true)), exec(100, None, "b", Some(true))];
    let aps = vec![approval(50, None, "b"), approval(60, None, "a"), approval(70, None, "b"), approval(80, None, "c")];
    let causes = approval_causes(&execs, &aps, 0);
    assert_eq!(causes.len(), 3);
    let counts = tally_causes(&causes);
    assert_eq!(counts.len(), 2);
    assert_eq!((counts[0].key.as_str(), counts[0].count), ("b", 2));
    assert_eq!((counts[1].key.as_str(), counts[1].count), ("a", 1));
    let ranked = rank_candidates(&counts, 1);
    assert_eq!(ranked[0].key, "b");
    let ties = vec![
        CauseCount { kind: "whole".into(), key: "z".into(), count: 2, sample: "z".into() },
        CauseCount { kind: "entry".into(), key: "y".into(), count: 2, sample: "y".into() },
        CauseCount { kind: "whole".into(), key: "a".into(), count: 2, sample: "a".into() },
        CauseCount { kind: "whole".into(), key: "q".into(), count: 5, sample: "q".into() },
        CauseCount { kind: "whole".into(), key: "low".into(), count: 1, sample: "low".into() },
    ];
    let r: Vec<String> = rank_candidates(&ties, 2).into_iter().map(|c| c.key).collect();
    assert_eq!(r, vec!["q", "y", "a", "z"]);
}

#[test]
fn sections_sorted_once_each() {
    let s = vec![
        Suggestion::Allow { section: "local.git".into(), entry: "x".into() },
        Suggestion::Skip(SkipReason::FreeArgs),
        Suggestion::Allow { section: "local".into(), entry: "y".into() },
        Suggestion::Allow { section: "local.git".into(), entry: "z".into() },
    ];
    assert_eq!(sorted_sections(&s), vec!["local".to_string(), "local.git".to_string()]);
    let c: Vec<CauseCount> = (0..4)
        .map(|i| CauseCount { kind: "whole".into(), key: format!("k{i}"), count: 4, sample: format!("cmd{i} arg") })
        .collect();
    let out = render_suggest_report(&c, &s, 3, 30, "toml");
    assert!(out.contains("\n[local]\ny\n\n[local.git]\nx\nz\n\n"), "got:\n{out}");
    assert!(out.contains("\nskip list (repeatedly approved, but not suggested):\n  cmd1 arg  (x4)  含自由参数且无安全子命令可收窄\n"));
}

#[test]
fn window_start() {
    assert_eq!(cutoff_of(1000, 0), 1000);
    assert_eq!(cutoff_of(100_000, 1), 100_000 - 86_400);
    assert_eq!(cutoff_of(10, 1), 0);
}

#[test]
fn skip_fact_uses_hard_list_and_may_write() {
    assert!(kb_skip_fact(&None, "curl"));
    assert!(!kb_skip_fact(&None, "terraform"));
    let kb = KnowledgeBase::parse_toml("version = 1\n[terraform]\nmay_write = true\n").unwrap();
    assert!(kb_skip_fact(&Some(kb), "terraform"));
}
