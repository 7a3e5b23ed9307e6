//! Rule cases and batch checks: a cases file (`version = 1` and `[[case]]`
//! tables of `cmd` and `expect`) is checked against the rules, one PASS or
//! FAIL line per case and a summary; a batch of command lines gets one
//! verdict line each.
use vstd::prelude::*;
use crate::approvals::{lines_of, text_lines};
use crate::config::schema::{entry_value, find_entry};
use crate::model::{Decision, parse_decision_spec};
use crate::report::{batch_line_spec, case_line_spec, render_batch_line, render_case_line};
use crate::script::{RuleEngine, trim_spec, trim_ws};
use crate::service::{RuleSet, rule_set_verdict};
use crate::text::{cat, cat3, decimal, owned, u64_decimal};
use crate::toml_doc::{TomlNode, entries_view, parse_toml_document, toml_doc_spec};

verus! {

/// One case: a command and the expected decision (as written).
#[derive(Debug, Clone, PartialEq, Eq)]
pub struct CaseEntry {
    pub cmd: String,
    pub expect: String,
}

/// Why a cases file was refused.
#[derive(Debug, Clone, PartialEq, Eq)]
pub enum CasesError {
    /// Not TOML, or not the expected shape (the message).
    Parse(String),
    /// A version other than 1.
    Version(u64),
}

/// The message of a refused cases file.
pub open spec fn cases_error_text(file: Seq<char>, e: CasesError) -> Seq<char> {
    match e {
        CasesError::Parse(m) => "crush-tether: cases file `"@ + file + "` parse error: "@ + m@,
        CasesError::Version(v) => "crush-tether: cases file `"@ + file + "` version "@ + decimal(v as nat) + " unsupported (expected 1)"@,
    }
}

impl CasesError {
    /// The message, naming the file.
    pub fn message(&self, file: &str) -> (r: String)
        ensures
            r@ == cases_error_text(file@, *self),
    {
        match self {
            CasesError::Parse(m) => {
                let mut t = cat3("crush-tether: cases file `", file, "` parse error: ");
                t.append(m.as_str());
                t
            },
            CasesError::Version(v) => {
                let mut t = cat3("crush-tether: cases file `", file, "` version ");
                t.append(u64_decimal(*v).as_str());
                t.append(" unsupported (expected 1)");
                t
            },
        }
    }
}

/// A case table: the strings `cmd` and `expect` (other keys are ignored).
pub open spec fn case_of_node(n: TomlNode) -> Option<(Seq<char>, Seq<char>)> {
    match n {
        TomlNode::Table(es) => match (entry_value(es@, "cmd"@), entry_value(es@, "expect"@)) {
            (Some(TomlNode::Str(c)), Some(TomlNode::Str(e))) => Some((c@, e@)),
            _ => None,
        },
        _ => None,
    }
}

/// The version of a cases file: a non-negative integer.
pub open spec fn cases_version(entries: Seq<(String, TomlNode)>) -> Option<u64> {
    match entry_value(entries, "version"@) {
        Some(TomlNode::Int(i)) => if i >= 0 { Some(i as u64) } else { None },
        _ => None,
    }
}

/// The case tables of a cases file, if each has the two strings.
pub open spec fn cases_items(entries: Seq<(String, TomlNode)>) -> Option<Seq<TomlNode>> {
    match entry_value(entries, "case"@) {
        Some(TomlNode::Array(items)) => if forall|i: int| 0 <= i < items@.len() ==> (#[trigger] case_of_node(items@[i])) is Some {
            Some(items@)
        } else {
            None
        },
        _ => None,
    }
}

/// `cs` are the cases of a version 1 cases file, in order.
pub open spec fn cases_file(entries: Seq<(String, TomlNode)>, cs: Seq<CaseEntry>) -> bool {
    &&& cases_version(entries) == Some(1u64)
    &&& cases_items(entries) matches Some(items)
    &&& cs.len() == items.len()
    &&& forall|i: int| 0 <= i < cs.len() ==> case_of_node(items[i]) == Some(((#[trigger] cs[i]).cmd@, cs[i].expect@))
}

/// `r` is what decoding a cases file's entries gives: a parse error for a
/// missing or ill-typed version or case list; a version error for a version
/// other than 1; else the cases, in order.
pub open spec fn cases_decoded(es: Seq<(String, TomlNode)>, r: Result<Vec<CaseEntry>, CasesError>) -> bool {
    &&& (cases_version(es) is None ==> r matches Err(CasesError::Parse(_)))
    &&& (cases_version(es) is Some && cases_items(es) is None ==> r matches Err(CasesError::Parse(_)))
    &&& (cases_items(es) is Some ==> (cases_version(es) matches Some(v) ==> (v != 1 ==> r == Err::<Vec<CaseEntry>, CasesError>(CasesError::Version(v)))))
    &&& (cases_version(es) == Some(1u64) && cases_items(es) is Some ==> r is Ok)
    &&& (r matches Ok(cs) ==> cases_file(es, cs@))
}

fn case_of(n: &TomlNode) -> (r: Option<CaseEntry>)
    ensures
        match r {
            Some(c) => case_of_node(*n) == Some((c.cmd@, c.expect@)),
            None => case_of_node(*n) is None,
        },
{
    match n {
        TomlNode::Table(es) => match (find_entry(es, "cmd"), find_entry(es, "expect")) {
            (Some(TomlNode::Str(c)), Some(TomlNode::Str(e))) => Some(CaseEntry { cmd: c.clone(), expect: e.clone() }),
            _ => None,
        },
        _ => None,
    }
}

/// The cases of a decoded cases file. A missing or ill-typed `version` or
/// `case`, or a case without the two strings, is a parse error; a version
/// other than 1 is refused.
pub fn decode_cases(entries: &Vec<(String, TomlNode)>) -> (r: Result<Vec<CaseEntry>, CasesError>)
    ensures
        cases_version(entries@) is None ==> r matches Err(CasesError::Parse(_)),
        cases_version(entries@) is Some && cases_items(entries@) is None ==> r matches Err(CasesError::Parse(_)),
        cases_items(entries@) is Some ==> (cases_version(entries@) matches Some(v) ==> (v != 1 ==> r == Err::<Vec<CaseEntry>, CasesError>(
            CasesError::Version(v)))),
        cases_version(entries@) == Some(1u64) ==> (cases_items(entries@) matches Some(items) ==> (r matches Ok(cs) && cs@.len()
            == items.len() && forall|i: int| 0 <= i < cs@.len() ==> case_of_node(items[i]) == Some(((#[trigger] cs@[i]).cmd@, cs@[i].expect@)))),
        r matches Ok(cs) ==> cases_file(entries@, cs@),
        r matches Err(CasesError::Version(v)) ==> cases_version(entries@) == Some(v) && v != 1 && cases_items(entries@) is Some,
{
    let version: u64 = match find_entry(entries, "version") {
        Some(TomlNode::Int(i)) => {
            if *i >= 0 {
                *i as u64
            } else {
                return Err(CasesError::Parse(owned("invalid value for `version`: expected a non-negative integer")));
            }
        },
        Some(_) => {
            return Err(CasesError::Parse(owned("invalid type for `version`: expected an integer")));
        },
        None => {
            return Err(CasesError::Parse(owned("missing field `version`")));
        },
    };
    let items = match find_entry(entries, "case") {
        Some(TomlNode::Array(items)) => items,
        Some(_) => {
            return Err(CasesError::Parse(owned("invalid type for `case`: expected an array of tables")));
        },
        None => {
            return Err(CasesError::Parse(owned("missing field `case`")));
        },
    };
    let mut out: Vec<CaseEntry> = Vec::new();
    let mut i: usize = 0;
    while i < items.len()
        invariant
            i <= items@.len(),
            out@.len() == i,
            forall|k: int| 0 <= k < i ==> case_of_node(items@[k]) == Some(((#[trigger] out@[k]).cmd@, out@[k].expect@)),
            forall|k: int| 0 <= k < i ==> (#[trigger] case_of_node(items@[k])) is Some,
            entry_value(entries@, "case"@) == Some(TomlNode::Array(*items)),
            cases_version(entries@) == Some(version),
        decreases items@.len() - i,
    {
        match case_of(&items[i]) {
            Some(c) => out.push(c),
            None => {
                return Err(CasesError::Parse(owned("each case needs the strings `cmd` and `expect`")));
            },
        }
        i = i + 1;
    }
    if version != 1 {
        return Err(CasesError::Version(version));
    }
    Ok(out)
}

/// The cases of a cases file text (see [`decode_cases`]; text that is not
/// TOML is a parse error with the parser's message).
pub fn parse_cases(text: &str) -> (r: Result<Vec<CaseEntry>, CasesError>)
    ensures
        toml_doc_spec(text@) is None ==> r matches Err(CasesError::Parse(_)),
        toml_doc_spec(text@) matches Some(d) ==> exists|es: Seq<(String, TomlNode)>| #[trigger] entries_view(es) == d
            && cases_decoded(es, r),
{
    match parse_toml_document(text) {
        Ok(entries) => {
            let r = decode_cases(&entries);
            proof {
                assert(cases_decoded(entries@, r));
            }
            r
        },
        Err(m) => Err(CasesError::Parse(m)),
    }
}

/// The line of one case: PASS or FAIL against the actual decision, or a
/// FAIL for an expectation that is not a decision.
pub open spec fn case_report_line(c: (Seq<char>, Seq<char>), actual: Option<Decision>) -> Seq<char> {
    match (parse_decision_spec(c.1), actual) {
        (Some(e), Some(a)) => case_line_spec(a == e, c.0, e, a),
        _ => "FAIL  (bad expect `"@ + c.1 + "`) "@ + c.0,
    }
}

pub open spec fn case_passes(c: (Seq<char>, Seq<char>), actual: Option<Decision>) -> bool {
    parse_decision_spec(c.1) matches Some(e) && actual == Some(e)
}

/// The lines of the first `n` cases.
pub open spec fn case_lines(cs: Seq<(Seq<char>, Seq<char>)>, actual: Seq<Option<Decision>>, n: nat) -> Seq<char>
    decreases n,
{
    if n == 0 {
        Seq::empty()
    } else {
        case_lines(cs, actual, (n - 1) as nat) + case_report_line(cs[n - 1], actual[n - 1]) + "\n"@
    }
}

/// How many of the first `n` cases pass.
pub open spec fn passed_count(cs: Seq<(Seq<char>, Seq<char>)>, actual: Seq<Option<Decision>>, n: nat) -> nat
    decreases n,
{
    if n == 0 {
        0
    } else {
        passed_count(cs, actual, (n - 1) as nat) + (if case_passes(cs[n - 1], actual[n - 1]) { 1nat } else { 0nat })
    }
}

pub open spec fn case_views(cs: Seq<CaseEntry>) -> Seq<(Seq<char>, Seq<char>)> {
    cs.map_values(|c: CaseEntry| (c.cmd@, c.expect@))
}

proof fn lemma_passed_le(cs: Seq<(Seq<char>, Seq<char>)>, actual: Seq<Option<Decision>>, n: nat)
    ensures
        passed_count(cs, actual, n) <= n,
    decreases n,
{
    if n > 0 {
        lemma_passed_le(cs, actual, (n - 1) as nat);
    }
}

/// The report of a cases run: a line per case, then `passed/total passed`;
/// the exit code is 0 when every case passed and 1 otherwise.
pub fn cases_report(cases: &Vec<CaseEntry>, actual: &Vec<Option<Decision>>) -> (r: (String, u8))
    requires
        cases@.len() == actual@.len(),
    ensures
        r.0@ == case_lines(case_views(cases@), actual@, cases@.len() as nat) + decimal(
            passed_count(case_views(cases@), actual@, cases@.len() as nat),
        ) + "/"@ + decimal(cases@.len() as nat) + " passed\n"@,
        r.1 == (if passed_count(case_views(cases@), actual@, cases@.len() as nat) == cases@.len() { 0u8 } else { 1u8 }),
{
    let ghost cv = case_views(cases@);
    proof {
        reveal_strlit("");
    }
    let mut out = owned("");
    let mut passed: usize = 0;
    let mut i: usize = 0;
    while i < cases.len()
        invariant
            cv == case_views(cases@),
            cases@.len() == actual@.len(),
            i <= cases@.len(),
            out@ == case_lines(cv, actual@, i as nat),
            passed == passed_count(cv, actual@, i as nat),
            passed <= i,
        decreases cases@.len() - i,
    {
        let c = &cases[i];
        proof {
            assert(cv[i as int] == (c.cmd@, c.expect@));
        }
        let line = match (Decision::parse(c.expect.as_str()), actual[i]) {
            (Some(e), Some(a)) => {
                let pass = a == e;
                if pass {
                    passed = passed + 1;
                }
                render_case_line(pass, c.cmd.as_str(), e, a)
            },
            _ => {
                let mut t = cat3("FAIL  (bad expect `", c.expect.as_str(), "`) ");
                t.append(c.cmd.as_str());
                t
            },
        };
        out.append(line.as_str());
        out.append("\n");
        i = i + 1;
    }
    out.append(u64_decimal(passed as u64).as_str());
    out.append("/");
    out.append(u64_decimal(cases.len() as u64).as_str());
    out.append(" passed\n");
    let code: u8 = if passed == cases.len() { 0 } else { 1 };
    (out, code)
}

/// Checks the cases against a rule set: each case whose expectation is a
/// decision is decided (the others are reported as bad expectations).
pub fn check_cases<E: RuleEngine>(rs: &RuleSet<E>, cases: &Vec<CaseEntry>, project: &str) -> (r: (String, u8))
    requires
        rs.wf(),
    ensures
        exists|actual: Seq<Option<Decision>>| actual.len() == cases@.len()
            && (forall|i: int| 0 <= i < actual.len() ==> (#[trigger] actual[i] is Some) == (parse_decision_spec(cases@[i].expect@) is Some))
            && r.0@ == case_lines(case_views(cases@), actual, cases@.len() as nat) + decimal(
                passed_count(case_views(cases@), actual, cases@.len() as nat),
            ) + "/"@ + decimal(cases@.len() as nat) + " passed\n"@
            && r.1 == (if passed_count(case_views(cases@), actual, cases@.len() as nat) == cases@.len() { 0u8 } else { 1u8 })
            && (forall|i: int| 0 <= i < actual.len() ==> (#[trigger] actual[i] matches Some(d) ==> exists|v: crate::model::Verdict|
                rule_set_verdict(*rs, cases@[i].cmd@, project, v) && v.decision == d)),
{
    let mut actual: Vec<Option<Decision>> = Vec::new();
    let mut i: usize = 0;
    while i < cases.len()
        invariant
            rs.wf(),
            i <= cases@.len(),
            actual@.len() == i,
            forall|k: int| 0 <= k < i ==> (#[trigger] actual@[k] is Some) == (parse_decision_spec(cases@[k].expect@) is Some),
            forall|k: int| 0 <= k < i ==> (#[trigger] actual@[k] matches Some(d) ==> exists|v: crate::model::Verdict|
                rule_set_verdict(*rs, cases@[k].cmd@, project, v) && v.decision == d),
        decreases cases@.len() - i,
    {
        let c = &cases[i];
        match Decision::parse(c.expect.as_str()) {
            Some(_) => {
                let v = rs.decide(c.cmd.as_str(), project);
                let ghost before = actual@;
                actual.push(Some(v.decision));
                proof {
                    assert(rule_set_verdict(*rs, cases@[i as int].cmd@, project, v));
                    assert forall|k: int| 0 <= k < i + 1 implies (#[trigger] actual@[k] matches Some(d) ==> exists|w: crate::model::Verdict|
                        rule_set_verdict(*rs, cases@[k].cmd@, project, w) && w.decision == d) by {
                        if k < i {
                            assert(actual@[k] == before[k]);
                        }
                    }
                }
            },
            None => actual.push(None),
        }
        i = i + 1;
    }
    cases_report(cases, &actual)
}

/// The commands of a batch: its lines trimmed, empty ones left out.
pub open spec fn batch_commands(ls: Seq<Seq<char>>) -> Seq<Seq<char>>
    decreases ls.len(),
{
    if ls.len() == 0 {
        Seq::empty()
    } else {
        let p = batch_commands(ls.drop_last());
        let t = trim_spec(ls.last());
        if t.len() == 0 { p } else { p.push(t) }
    }
}

/// The lines of a batch report for the given commands and verdicts.
pub open spec fn batch_lines(cmds: Seq<Seq<char>>, vs: Seq<crate::model::Verdict>, n: nat) -> Seq<char>
    decreases n,
{
    if n == 0 {
        Seq::empty()
    } else {
        batch_lines(cmds, vs, (n - 1) as nat) + batch_line_spec(cmds[n - 1], vs[n - 1].decision, crate::model::reason_of(vs[n - 1]))
            + "\n"@
    }
}

/// A batch check: one verdict line per non-empty (trimmed) input line.
pub fn batch_report<E: RuleEngine>(rs: &RuleSet<E>, input: &str, project: &str) -> (r: String)
    requires
        rs.wf(),
    ensures
        exists|vs: Seq<crate::model::Verdict>| vs.len() == batch_commands(text_lines(input@)).len() && r@ == batch_lines(
            batch_commands(text_lines(input@)),
            vs,
            vs.len(),
        ) && (forall|k: int| 0 <= k < vs.len() ==> rule_set_verdict(*rs, batch_commands(text_lines(input@))[k], project, #[trigger] vs[k])),
{
    let lines = lines_of(input);
    let ghost ls = text_lines(input@);
    proof {
        reveal_strlit("");
    }
    let mut out = owned("");
    let ghost mut vs: Seq<crate::model::Verdict> = Seq::empty();
    let mut i: usize = 0;
    proof {
        assert(ls.take(0) =~= Seq::<Seq<char>>::empty());
    }
    while i < lines.len()
        invariant
            rs.wf(),
            lines@.len() == ls.len(),
            forall|k: int| 0 <= k < ls.len() ==> (#[trigger] lines@[k])@ == ls[k],
            i <= ls.len(),
            vs.len() == batch_commands(ls.take(i as int)).len(),
            out@ == batch_lines(batch_commands(ls.take(i as int)), vs, vs.len()),
            forall|k: int| 0 <= k < vs.len() ==> rule_set_verdict(*rs, batch_commands(ls.take(i as int))[k], project, #[trigger] vs[k]),
        decreases ls.len() - i,
    {
        let t = trim_ws(lines[i].as_str());
        let ghost prev = batch_commands(ls.take(i as int));
        proof {
            assert(ls.take(i + 1).drop_last() =~= ls.take(i as int));
            assert(ls.take(i + 1).last() == ls[i as int]);
        }
        if t.unicode_len() > 0 {
            let v = rs.decide(t.as_str(), project);
            let line = render_batch_line(t.as_str(), &v);
            out.append(line.as_str());
            out.append("\n");
            proof {
                let next = batch_commands(ls.take(i + 1));
                assert(next == prev.push(t@));
                let nvs = vs.push(v);
                assert forall|k: int| 0 <= k < vs.len() implies prev[k] == #[trigger] next[k] && vs[k] == nvs[k] by {}
                lemma_batch_lines_prefix(prev, vs, next, nvs, vs.len());
                assert(rule_set_verdict(*rs, t@, project, v));
                assert forall|k: int| 0 <= k < nvs.len() implies rule_set_verdict(*rs, next[k], project, #[trigger] nvs[k]) by {
                    if k < vs.len() {
                        assert(prev[k] == next[k] && vs[k] == nvs[k]);
                    }
                }
                vs = nvs;
            }
        } else {
            proof {
                assert(batch_commands(ls.take(i + 1)) == prev);
            }
        }
        i = i + 1;
    }
    proof {
        assert(ls.take(ls.len() as int) =~= ls);
    }
    out
}

proof fn lemma_batch_lines_prefix(
    c1: Seq<Seq<char>>,
    v1: Seq<crate::model::Verdict>,
    c2: Seq<Seq<char>>,
    v2: Seq<crate::model::Verdict>,
    n: nat,
)
    requires
        n <= c1.len(),
        n <= v1.len(),
        n <= c2.len(),
        n <= v2.len(),
        forall|k: int| 0 <= k < n ==> c1[k] == #[trigger] c2[k] && v1[k] == v2[k],
    ensures
        batch_lines(c1, v1, n) == batch_lines(c2, v2, n),
    decreases n,
{
    if n > 0 {
        lemma_batch_lines_prefix(c1, v1, c2, v2, (n - 1) as nat);
    }
}

} // verus!
