use crush_tether::cases::{batch_report, cases_report, check_cases, parse_cases, CaseEntry, CasesError};
use crush_tether::cmd_parse::SimpleCommand;
use crush_tether::config::merge::{merge, Layers, ScriptAllowDecls};
use crush_tether::config::schema::RulesFile;
use crush_tether::lookup::RuleLookup;
use crush_tether::model::Decision;
use crush_tether::script::{RuleEngine, ScriptError, ScriptOutcome};
use crush_tether::service::RuleSet;

const PROJ: &str = "/work/proj";

struct NoScript(ScriptAllowDecls, Vec<String>);

impl RuleEngine for NoScript {
    fn allow_literals(&self) -> &Vec<String> {
        &self.1
    }
    fn decls(&self) -> &ScriptAllowDecls {
        &self.0
    }
    fn evaluate(&self, _c: &SimpleCommand, _v: Decision, _p: &str, _pipe: bool) -> Result<ScriptOutcome, ScriptError> {
        Ok(ScriptOutcome::Pass)
    }
}

fn rules() -> RuleSet<NoScript> {
    let f = RulesFile::parse_toml("version = 1\ndefault = \"confirm\"\n[local]\nallow = [\"ls\"]\ndeny = [\"sudo\"]").unwrap();
    let lookup = RuleLookup::new(merge(Layers { global: None, user: None, project: Some(&f) }), None);
    RuleSet::new(lookup, None, false, Vec::new(), None, "rhai".into())
}

fn case(cmd: &str, expect: &str) -> CaseEntry {
    CaseEntry { cmd: cmd.into(), expect: expect.into() }
}

#[test]
fn cases_file_parses() {
    let cs = parse_cases("version = 1\n[[case]]\ncmd = \"ls\"\nexpect = \"allow\"\n[[case]]\ncmd = \"sudo x\"\nexpect = \"deny\"\nnote = \"x\"\n")
        .unwrap();
    assert_eq!(cs, vec![case("ls", "allow"), case("sudo x", "deny")]);
}

#[test]
fn cases_file_errors() {
    assert_eq!(parse_cases("version = 2\ncase = []\n"), Err(CasesError::Version(2)));
    assert!(matches!(parse_cases("case = []\n"), Err(CasesError::Parse(_))));
    assert!(matches!(parse_cases("version = 1\n"), Err(CasesError::Parse(_))));
    assert!(matches!(parse_cases("version = 1\n[[case]]\ncmd = \"ls\"\n"), Err(CasesError::Parse(_))));
    assert!(matches!(parse_cases("version = = 1"), Err(CasesError::Parse(_))));
    assert_eq!(
        CasesError::Version(2).message("c.toml"),
        "crush-tether: cases file `c.toml` version 2 unsupported (expected 1)"
    );
    assert_eq!(CasesError::Parse("bad".into()).message("c.toml"), "crush-tether: cases file `c.toml` parse error: bad");
}

#[test]
fn cases_report_lines_and_exit_code() {
    let cs = vec![case("ls", "allow"), case("sudo x", "allow"), case("rm -rf /", "maybe")];
    let actual = vec![Some(Decision::Allow), Some(Decision::Deny), None];
    let (out, code) = cases_report(&cs, &actual);
    assert_eq!(
        out,
        "PASS  ALLOW    ls\nFAIL  DENY     sudo x  (expected allow)\nFAIL  (bad expect `maybe`) rm -rf /\n1/3 passed\n"
    );
    assert_eq!(code, 1);
    let (out, code) = cases_report(&cs[..1].to_vec(), &actual[..1].to_vec());
    assert_eq!(out, "PASS  ALLOW    ls\n1/1 passed\n");
    assert_eq!(code, 0);
}

#[test]
fn check_cases_decides_with_the_rules() {
    let rs = rules();
    let (out, code) = check_cases(&rs, &vec![case("ls", "allow"), case("sudo rm x", "deny"), case("whoami", "confirm")], PROJ);
    assert_eq!(code, 0, "{out}");
    assert!(out.ends_with("3/3 passed\n"));
    let (_, code) = check_cases(&rs, &vec![case("ls", "deny")], PROJ);
    assert_eq!(code, 1);
}

#[test]
fn batch_lines_per_command() {
    let rs = rules();
    let out = batch_report(&rs, "ls\n\n   \n  sudo x  \r\n", PROJ);
    let lines: Vec<&str> = out.lines().collect();
    assert_eq!(lines.len(), 2);
    assert!(lines[0].starts_with("ALLOW    ls"), "{out}");
    assert!(lines[1].starts_with("DENY     sudo x"), "{out}");
    assert_eq!(batch_report(&rs, "", PROJ), "");
}
