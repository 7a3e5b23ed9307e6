use crush_tether::channel::{emit_plan, hook_input_from, Agent};
use crush_tether::model::Verdict;

#[test]
fn agents_parse_case_insensitively() {
    assert_eq!(Agent::parse("Crush"), Some(Agent::Crush));
    assert_eq!(Agent::parse("ClaudeCode"), Some(Agent::ClaudeCode));
    assert_eq!(Agent::parse("CLAUDECODE"), Some(Agent::ClaudeCode));
    assert_eq!(Agent::parse("zcode-code"), Some(Agent::Zcode));
    assert_eq!(Agent::parse("vim"), None);
    assert_eq!(Agent::ClaudeCode.slug(), "claudecode");
    assert_eq!(Agent::Zcode.project_env_keys(), ["ZCODE_PROJECT_DIR", "CLAUDE_PROJECT_DIR"]);
}

#[test]
fn hook_input_takes_command_and_project_dir() {
    let stdin = r#"{"tool_input":{"command":"ls -la"},"cwd":"/from/stdin"}"#;
    let env = vec![None, Some("/from/env".to_string())];
    let h = hook_input_from(Agent::ClaudeCode, stdin, &env).unwrap();
    assert_eq!(h.command, "ls -la");
    assert_eq!(h.project_dir.as_deref(), Some("/from/stdin"));
    let h = hook_input_from(Agent::Zcode, stdin, &env).unwrap();
    assert_eq!(h.project_dir.as_deref(), Some("/from/env"));
    let h = hook_input_from(Agent::Crush, stdin, &vec![None]).unwrap();
    assert_eq!(h.project_dir, None);
    assert!(hook_input_from(Agent::Crush, "{}", &vec![]).is_none());
    assert!(hook_input_from(Agent::Crush, "not json", &vec![]).is_none());
}

#[test]
fn verdicts_are_answered_per_agent_contract() {
    let a = emit_plan(&Verdict::allow(), Agent::Crush);
    assert_eq!(a.stdout_line.as_deref(), Some("{\"decision\":\"allow\"}"));
    assert_eq!(a.exit_code, 0);
    let a = emit_plan(&Verdict::allow(), Agent::ClaudeCode);
    assert_eq!(
        a.stdout_line.as_deref(),
        Some("{\"hookSpecificOutput\":{\"hookEventName\":\"PreToolUse\",\"permissionDecision\":\"allow\"}}")
    );
    let c = emit_plan(&Verdict::confirm("x"), Agent::Crush);
    assert!(c.stdout_line.is_none() && c.exit_code == 0);
    let c = emit_plan(&Verdict::confirm("x"), Agent::Zcode);
    assert!(c.stdout_line.unwrap().contains("\"ask\""));
    let d = emit_plan(&Verdict::deny("blocked"), Agent::ClaudeCode);
    assert_eq!(d.exit_code, 2);
    assert_eq!(d.stderr_line.as_deref(), Some("blocked"));
}
