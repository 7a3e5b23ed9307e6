use crush_tether::config::discover::{load_file, FileRead, FoundLayers, LoadError};
use crush_tether::config::schema::ConfigError;
use crush_tether::service::{finish_load, lookup_of_load};
use crush_tether::service::{after_reload, fingerprint_changed, idle_expired};
use crush_tether::cmd_parse::SimpleCommand;
use crush_tether::config::merge::{merge, Layers, ScriptAllowDecls};
use crush_tether::config::schema::RulesFile;
use crush_tether::lookup::RuleLookup;
use crush_tether::model::{Decision, Verdict};
use crush_tether::script::{RuleEngine, ScriptChain, ScriptError, ScriptOutcome};
use crush_tether::service::{
    command_verdict, config_files, endpoint_name, endpoint_name_of, hex16, parse_decision, request_action,
    rfc3339_utc, source_file, verdict_of_response, verdict_response, RequestAction, RequestLine, RuleSet,
};

const PROJ: &str = "/work/proj";

struct Fixed(ScriptOutcome, ScriptAllowDecls, Vec<String>);

impl RuleEngine for Fixed {
    fn allow_literals(&self) -> &Vec<String> {
        &self.2
    }
    fn decls(&self) -> &ScriptAllowDecls {
        &self.1
    }
    fn evaluate(&self, _c: &SimpleCommand, _v: Decision, _p: &str, _pipe: bool) -> Result<ScriptOutcome, ScriptError> {
        Ok(self.0.clone())
    }
}

fn lookup(src: &str) -> RuleLookup {
    let f = RulesFile::parse_toml(src).unwrap();
    RuleLookup::new(merge(Layers { global: None, user: None, project: Some(&f) }), None)
}

const RULES: &str = "version = 1\ndefault = \"confirm\"\n[local]\nallow = [\"ls\"]\ndeny = [\"sudo\"]";

#[test]
fn rule_set_without_script_combines_table_verdicts() {
    let rs: RuleSet<Fixed> = RuleSet::new(lookup(RULES), None, false, Vec::new(), None, "rhai".into());
    assert_eq!(rs.decide("ls", PROJ).decision, Decision::Allow);
    assert_eq!(rs.decide("ls && sudo x", PROJ).decision, Decision::Deny);
    assert_eq!(rs.decide("ls; whoami", PROJ).decision, Decision::Confirm);
    assert_eq!(rs.decide("", PROJ).decision, Decision::Confirm);
    assert_eq!(rs.decide("ls 'unterminated", PROJ).decision, Decision::Confirm);
    let (_, trace) = rs.decide_trace("sudo x", PROJ);
    assert_eq!(trace.source.unwrap().entry, "deny");
    assert!(!trace.script_changed);
}

#[test]
fn rule_set_script_can_raise_but_not_lower_deny() {
    let raise = Fixed(ScriptOutcome::Adjust(Decision::Deny, None), ScriptAllowDecls::new(), Vec::new());
    let chain = ScriptChain::new(vec![("project", raise)]);
    let rs = RuleSet::new(lookup(RULES), Some(chain), false, Vec::new(), None, "rhai".into());
    let (v, trace) = rs.decide_trace("ls", PROJ);
    assert_eq!(v.decision, Decision::Deny);
    assert!(trace.script_changed);
    let report = rs.explain("ls", PROJ);
    assert_eq!(report.commands.len(), 1);
    assert_eq!(report.commands[0].table_decision, Decision::Allow);
    assert_eq!(report.commands[0].final_decision, Decision::Deny);
}

#[test]
fn script_failure_is_a_fail_safe_confirm() {
    let (v, changed) = command_verdict(Verdict::deny("x"), Some(Err(ScriptError::Runtime("boom".into()))), false);
    assert_eq!(v.decision, Decision::Confirm);
    assert!(!changed);
    let (v, _) = command_verdict(Verdict::allow(), None, false);
    assert_eq!(v.decision, Decision::Allow);
    let (v, changed) = command_verdict(Verdict::allow(), Some(Ok((Decision::Confirm, Some("user"), Some("r".into())))), false);
    assert_eq!(v, Verdict { decision: Decision::Confirm, reason: Some("r".into()) });
    assert!(changed);
}

#[test]
fn endpoint_names_are_hex_digests() {
    assert_eq!(hex16(0), "0000000000000000");
    assert_eq!(hex16(0xdead_beef), "00000000deadbeef");
    assert_eq!(endpoint_name_of(255), "crush-tether-00000000000000ff");
    let a = endpoint_name("/work/proj", "rhai");
    let b = endpoint_name("/work/proj", "rhai");
    let c = endpoint_name("/work/proj", "lua");
    assert_eq!(a, b);
    assert_ne!(a, c);
    assert!(a.starts_with("crush-tether-") && a.len() == 13 + 16);
    assert_ne!(a, "/work/proj");
}

#[test]
fn timestamps_are_rfc3339_utc() {
    assert_eq!(rfc3339_utc(0), "1970-01-01T00:00:00Z");
    assert_eq!(rfc3339_utc(951868801), "2000-03-01T00:00:01Z");
    assert_eq!(rfc3339_utc(1709210096), "2024-02-29T12:34:56Z");
    assert_eq!(rfc3339_utc(253402300799), "9999-12-31T23:59:59Z");
}

#[test]
fn protocol_answers() {
    let ping = Some(RequestLine { id: 7, op: "ping".into(), command: String::new(), agent: String::new() });
    match request_action(&ping, true) {
        RequestAction::Respond(r) => assert!(r.id == 7 && r.verdict.is_none() && r.error.is_none()),
        RequestAction::Decide => panic!("a ping is answered at once"),
    }
    let check = Some(RequestLine { id: 8, op: "check".into(), command: "ls".into(), agent: String::new() });
    assert!(matches!(request_action(&check, true), RequestAction::Decide));
    match request_action(&check, false) {
        RequestAction::Respond(r) => assert_eq!(r.verdict.unwrap().decision, "confirm"),
        RequestAction::Decide => panic!("no rule set: confirm at once"),
    }
    let other = Some(RequestLine { id: 9, op: "stop".into(), command: String::new(), agent: String::new() });
    match request_action(&other, true) {
        RequestAction::Respond(r) => assert_eq!(r.error.unwrap(), "unknown op `stop`"),
        RequestAction::Decide => panic!("unknown op"),
    }
    match request_action(&None, true) {
        RequestAction::Respond(r) => assert!(r.id == 0 && r.error.is_some()),
        RequestAction::Decide => panic!("malformed"),
    }
    let resp = verdict_response(3, &Verdict::deny("no"));
    assert_eq!(resp.verdict.as_ref().unwrap().decision, "deny");
    assert_eq!(verdict_of_response(&resp), Some(Verdict::deny("no")));
    assert_eq!(parse_decision("confirm"), Some(Decision::Confirm));
    assert_eq!(parse_decision("ask"), None);
}

#[test]
fn log_sources_and_config_files() {
    assert_eq!(source_file("project"), Some(".crush-tether/rules.toml"));
    assert_eq!(source_file("user"), Some("~/.config/crush-tether/rules.toml"));
    assert_eq!(source_file("global"), None);
    assert_eq!(
        config_files("/p", Some("/h"), "lua"),
        [
            "/h/.config/crush-tether/rules.toml",
            "/p/.crush-tether/rules.toml",
            "/p/.crush-tether/rules.lua",
            "/p/.crush-tether/knowledge.toml"
        ]
    );
}

#[test]
fn load_assembly_messages_and_layers() {
    let explicit_bad = Some(("/etc/x.toml".to_string(), load_file(FileRead::Failed("denied".into()))));
    let found_ok: Result<FoundLayers, LoadError> = Ok(FoundLayers {
        global: None,
        user: None,
        project: Some(RulesFile::parse_toml(RULES).unwrap()),
        knowledge: None,
        warnings: Vec::new(),
    });
    match lookup_of_load(&found_ok, &explicit_bad) {
        Err(m) => assert_eq!(m, "crush-tether: explicit config /etc/x.toml failed to load: io error: denied; fail-safe confirm"),
        Ok(_) => panic!("explicit failure must not load"),
    }
    let found_bad: Result<FoundLayers, LoadError> = Err(LoadError::Parse(ConfigError::Parse("line 1".into())));
    match lookup_of_load(&found_bad, &None) {
        Err(m) => assert_eq!(m, "crush-tether: config failed to load: parse error: line 1; fail-safe confirm"),
        Ok(_) => panic!("damaged layer must not load"),
    }
    let lookup = lookup_of_load(&found_ok, &None).unwrap();
    let rs: RuleSet<Fixed> = finish_load(lookup, Ok(None), None, None, None, "rhai".into()).unwrap();
    assert_eq!(rs.decide("ls", PROJ).decision, Decision::Allow);
    assert!(!rs.kb_present);
    let lookup = lookup_of_load(&found_ok, &None).unwrap();
    match finish_load::<Fixed>(lookup, Err(ScriptError::Compile("x".into())), None, None, None, "lua".into()) {
        Err(m) => assert_eq!(m, "crush-tether: rules.lua failed to load: compile error: x; fail-safe confirm"),
        Ok(_) => panic!("script failure must not load"),
    }
    // An explicit file that loads replaces the layers.
    let explicit_ok = Some(("/etc/x.toml".to_string(), Ok(RulesFile::parse_toml("version = 1\ndefault = \"deny\"").unwrap())));
    let lookup = lookup_of_load(&found_bad, &explicit_ok).unwrap();
    let rs: RuleSet<Fixed> = finish_load(lookup, Ok(None), None, None, None, "rhai".into()).unwrap();
    assert_eq!(rs.decide("ls", PROJ).decision, Decision::Deny);
}

#[test]
fn serve_loop_decisions() {
    let old: RuleSet<Fixed> = RuleSet::new(lookup(RULES), None, false, Vec::new(), None, "rhai".into());
    let (kept, warning) = after_reload(Some(old), Err("bad".to_string()));
    assert!(kept.is_some());
    assert_eq!(warning.unwrap(), "crush-tether: hot reload failed; keeping previous snapshot: bad");
    let fresh: RuleSet<Fixed> = RuleSet::new(lookup(RULES), None, true, Vec::new(), None, "rhai".into());
    let (now, warning) = after_reload(None, Ok(fresh));
    assert!(now.unwrap().kb_present);
    assert!(warning.is_none());
    assert!(!fingerprint_changed(0, 5));
    assert!(!fingerprint_changed(5, 5));
    assert!(fingerprint_changed(4, 5));
    assert!(idle_expired(10_000, 1_000, 9_000));
    assert!(!idle_expired(10_000, 1_001, 9_000));
    assert!(!idle_expired(5, 10, 1));
}
