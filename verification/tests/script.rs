use crush_tether::cmd_parse::{flatten_commands, SimpleCommand};
use crush_tether::config::merge::{DeclScope, ScriptAllowDecls};
use crush_tether::model::Decision;
use crush_tether::script::{
    allow_primitive, check_entry_points, check_rule_registration, collect_allow_literals, engine_supported, finalize, parse_return,
    reconcile_allow_literals, rule_order, script_file_name, trim_ws, ReturnValue, RuleEngine, ScriptChain,
    ScriptDecision, ScriptError, ScriptOutcome,
};

const PROJ: &str = "D:/code/tmp/proj";

fn cmd(s: &str) -> SimpleCommand {
    flatten_commands(s).expect("parses").into_iter().next().unwrap()
}

fn decls(local: &[&str], global: &[&str]) -> ScriptAllowDecls {
    let mut d = ScriptAllowDecls::new();
    for b in local {
        d.declare_local(b);
    }
    for b in global {
        d.declare_global(b);
    }
    d
}

#[test]
fn deny_is_final_over_script_outcomes() {
    let cmd_deny = cmd("sudo x");
    let d = ScriptAllowDecls::new();
    let (v, reason) = finalize(Decision::Deny, ScriptOutcome::Adjust(Decision::Confirm, None), &d, &cmd_deny, PROJ, None);
    assert_eq!(v, Decision::Deny);
    assert!(reason.unwrap().contains("deny is final"));
    let (v, reason) = finalize(
        Decision::Deny,
        ScriptOutcome::Activate("ls".into()),
        &decls(&["ls"], &[]),
        &cmd_deny,
        PROJ,
        None,
    );
    assert_eq!(v, Decision::Deny);
    assert!(reason.unwrap().contains("deny is final"));
}

#[test]
fn activation_scope_decides_escape_check() {
    let (v, _) = finalize(
        Decision::Confirm,
        ScriptOutcome::Activate("ls".into()),
        &decls(&["ls"], &[]),
        &cmd("ls > out.txt"),
        PROJ,
        None,
    );
    assert_eq!(v, Decision::Allow);
    let (v, reason) = finalize(
        Decision::Confirm,
        ScriptOutcome::Activate("ls".into()),
        &decls(&["ls"], &[]),
        &cmd("ls ../../outside.txt"),
        PROJ,
        None,
    );
    assert_eq!(v, Decision::Confirm);
    assert!(reason.unwrap().contains("escapes"));
    let (v, reason) = finalize(
        Decision::Confirm,
        ScriptOutcome::Activate("docker".into()),
        &decls(&[], &["docker"]),
        &cmd("docker > /outside.txt"),
        PROJ,
        None,
    );
    assert_eq!(v, Decision::Allow);
    assert!(reason.unwrap().contains("global"));
    let d = decls(&["ls"], &["ls"]);
    assert_eq!(d.scope_of("ls"), Some(DeclScope::Global));
    let (v, _) = finalize(Decision::Confirm, ScriptOutcome::Activate("curl".into()), &d, &cmd("curl x"), PROJ, None);
    assert_eq!(v, Decision::Confirm, "an undeclared activation is a fail-safe confirm");
}

#[test]
fn pass_keeps_the_table_decision() {
    let d = ScriptAllowDecls::new();
    assert_eq!(finalize(Decision::Allow, ScriptOutcome::Pass, &d, &cmd("ls"), PROJ, None), (Decision::Allow, None));
}

#[test]
fn return_values_map_to_outcomes() {
    assert_eq!(parse_return(ReturnValue::Nil, "check", false), Ok(ScriptOutcome::Pass));
    assert_eq!(parse_return(ReturnValue::Text(String::new()), "check", false), Ok(ScriptOutcome::Pass));
    assert_eq!(
        parse_return(ReturnValue::Text("deny".into()), "r1", true),
        Ok(ScriptOutcome::Adjust(Decision::Deny, Some("r1".into())))
    );
    assert_eq!(
        parse_return(ReturnValue::Vocabulary(ScriptDecision::Confirm), "check", false),
        Ok(ScriptOutcome::Adjust(Decision::Confirm, None))
    );
    assert_eq!(
        parse_return(ReturnValue::ConfirmAs("big".into()), "r2", true),
        Ok(ScriptOutcome::Adjust(Decision::Confirm, Some("r2:big".into())))
    );
    assert_eq!(parse_return(ReturnValue::Activation("ls".into()), "check", false), Ok(ScriptOutcome::Activate("ls".into())));
    assert!(matches!(parse_return(ReturnValue::Text("allow".into()), "check", false), Err(ScriptError::Contract(_))));
    assert!(matches!(parse_return(ReturnValue::Text("maybe".into()), "check", false), Err(ScriptError::Contract(_))));
    assert!(matches!(parse_return(ReturnValue::Other, "check", false), Err(ScriptError::Contract(_))));
}

#[test]
fn allow_names_must_be_declared() {
    let d = decls(&["ls"], &[]);
    assert!(allow_primitive(&d, "ls").is_ok());
    assert!(allow_primitive(&d, "curl").is_err());
    assert!(reconcile_allow_literals(&vec!["ls".to_string()], &d).is_ok());
    assert!(matches!(
        reconcile_allow_literals(&vec!["ls".to_string(), "curl".to_string()], &d),
        Err(ScriptError::Rejected(_))
    ));
}

#[test]
fn syntax_tree_calls_give_literals_or_reject() {
    let calls = vec![
        ("allow".to_string(), Some("ls".to_string())),
        ("print".to_string(), None),
        ("allow".to_string(), Some("docker".to_string())),
    ];
    assert_eq!(collect_allow_literals(&calls).unwrap(), ["ls", "docker"]);
    let bad = vec![("allow".to_string(), None)];
    assert!(matches!(collect_allow_literals(&bad), Err(ScriptError::Rejected(_))));
}

#[test]
fn declarative_rules_register_and_order() {
    let names = vec!["a".to_string()];
    assert_eq!(check_rule_registration(&names, "  b ", 1), Ok("b".to_string()));
    assert!(check_rule_registration(&names, "   ", 1).is_err());
    assert!(check_rule_registration(&names, "b", -1).is_err());
    assert!(check_rule_registration(&names, "a", 0).is_err());
    assert_eq!(rule_order(&vec![5, 1, 5, 0]), [3, 1, 0, 2]);
    assert_eq!(trim_ws("\t x y \n"), "x y");
}

#[test]
fn engines_and_script_files() {
    assert!(engine_supported("rhai"));
    assert!(engine_supported("lua"));
    assert!(!engine_supported("python"));
    assert_eq!(script_file_name("lua"), "rules.lua");
    assert_eq!(script_file_name("rhai"), "rules.rhai");
}

struct Fixed {
    outcome: ScriptOutcome,
    decls: ScriptAllowDecls,
    literals: Vec<String>,
}

impl RuleEngine for Fixed {
    fn allow_literals(&self) -> &Vec<String> {
        &self.literals
    }

    fn decls(&self) -> &ScriptAllowDecls {
        &self.decls
    }

    fn evaluate(&self, _cmd: &SimpleCommand, _verdict: Decision, _project: &str, _pipe: bool) -> Result<ScriptOutcome, ScriptError> {
        Ok(self.outcome.clone())
    }
}

#[test]
fn chain_runs_layers_in_order_and_keeps_deny_final() {
    let user = Fixed { outcome: ScriptOutcome::Adjust(Decision::Confirm, None), decls: ScriptAllowDecls::new(), literals: vec!["x".into()] };
    let project = Fixed { outcome: ScriptOutcome::Activate("ls".into()), decls: decls(&["ls"], &[]), literals: vec!["ls".into(), "x".into()] };
    let chain = ScriptChain::new(vec![("user", user), ("project", project)]);
    let (d, layer, _) = chain.evaluate(&cmd("ls"), Decision::Allow, PROJ, None, false).unwrap();
    assert_eq!(d, Decision::Allow);
    assert_eq!(layer, Some("project"));
    let (d, _, _) = chain.evaluate(&cmd("ls"), Decision::Deny, PROJ, None, false).unwrap();
    assert_eq!(d, Decision::Deny);
    assert_eq!(chain.allow_literals(), ["x", "ls"]);
}

#[test]
fn a_script_needs_check_or_a_rule() {
    assert!(check_entry_points(true, 0, true).is_ok());
    assert!(check_entry_points(false, 2, true).is_ok());
    match check_entry_points(false, 0, true) {
        Err(ScriptError::Compile(m)) => {
            assert_eq!(m, "rules.lua must define `check(ctx)` or register rules via `rule(name, priority, fn)`")
        },
        _ => panic!("expected a compile error"),
    }
    match check_entry_points(false, 0, false) {
        Err(ScriptError::Rejected(m)) => {
            assert_eq!(m, "rules.rhai must define `check(ctx)` or register rules via `rule(name, priority, fn)`")
        },
        _ => panic!("expected a rejection"),
    }
}

#[test]
fn adjustment_reason_names_the_rule_script() {
    let c = cmd("ls");
    let d = ScriptAllowDecls::new();
    let (v, reason) = finalize(Decision::Allow, ScriptOutcome::Adjust(Decision::Confirm, None), &d, &c, PROJ, None);
    assert_eq!(v, Decision::Confirm);
    assert_eq!(reason.as_deref(), Some("adjusted by rules.rhai"));
    let (_, reason) = finalize(Decision::Allow, ScriptOutcome::Adjust(Decision::Deny, Some("r1".into())), &d, &c, PROJ, None);
    assert_eq!(reason.as_deref(), Some("adjusted by rules.rhai (r1)"));
}

#[test]
fn declared_bins_are_listed_once() {
    let d = decls(&["a", "b"], &["a"]);
    assert_eq!(d.bins(), vec!["a".to_string(), "b".to_string()]);
}
