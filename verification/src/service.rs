//! The assembled rule set (table lookup, script layers, finalisation) and
//! the decisions of the serve protocol.
//!
//! - Endpoint name: `crush-tether-<16 hex digits>` of a hash of the
//!   canonical project directory and the engine label; one serve per
//!   project.
//! - Protocol: one JSON request line per connection (a check or a ping)
//!   and one response line with the verdict or an error; a missing rule set
//!   gives confirm, never allow.
//! - The transport, the file watching and the process handling live in the
//!   application; what is decided here is decided the same way there.
use std::hash::{Hash, Hasher};
use vstd::prelude::*;
use crate::cmd_parse::{SimpleCommand, flatten_commands, join_path, line_commands, line_unparseable, parse_error_text, path_escapes, path_escapes_spec};
use crate::config::discover::{FoundLayers, LoadError, load_error_text};
use crate::config::merge::{Layers, MergedRules, default_precedence, layer_files, merge, merged_from, top_default, top_precedence};
use crate::config::schema::{RulesFile, rules_file_wf};
use crate::knowledge::{KnowledgeBase, canon_agrees, kb_wf};
use crate::engine::{pipe_to_shell, pipe_to_shell_spec};
use crate::lint::{Lint, file_lints, kb_view, lint_views};
use crate::knowledge::CanonMaps;
use crate::lookup::{EntrySource, RuleLookup, built_from, classify_outcome, classify_spec, first_arg, norm_step, opt_view, source_view};
use crate::model::{Decision, Verdict, combined_decision, combined_view, decision_name, decisions, parse_decision_spec, reason_of, unparseable};
use crate::script::{RuleEngine, ScriptChain, ScriptError, ScriptOutcome, chain_evaluated, script_error_text};
use crate::config::merge::ScriptAllowDecls;
use crate::lookup::{args_escape, cmd_args};
use crate::text::{cat, cat3, owned, str_eq};

verus! {

// ---------------------------------------------------------------------------
// Endpoint
// ---------------------------------------------------------------------------

/// The hexadecimal digit of `d < 16` (lower case).
pub open spec fn hex_char(d: nat) -> char {
    if d < 10 { crate::text::digit_char(d) } else if d == 10 { 'a' } else if d == 11 { 'b' }
    else if d == 12 { 'c' } else if d == 13 { 'd' } else if d == 14 { 'e' } else { 'f' }
}

/// The `k` low hexadecimal digits of `n`, most significant first.
pub open spec fn hex_digits(n: nat, k: nat) -> Seq<char>
    decreases k,
{
    if k == 0 {
        Seq::empty()
    } else {
        hex_digits(n / 16, (k - 1) as nat).push(hex_char(n % 16))
    }
}

fn hex_char_exec(d: u64) -> (r: char)
    requires
        d < 16,
    ensures
        r == hex_char(d as nat),
{
    if d == 0 { '0' } else if d == 1 { '1' } else if d == 2 { '2' } else if d == 3 { '3' }
    else if d == 4 { '4' } else if d == 5 { '5' } else if d == 6 { '6' } else if d == 7 { '7' }
    else if d == 8 { '8' } else if d == 9 { '9' } else if d == 10 { 'a' } else if d == 11 { 'b' }
    else if d == 12 { 'c' } else if d == 13 { 'd' } else if d == 14 { 'e' } else { 'f' }
}

/// `n` as 16 lower-case hexadecimal digits (`{:016x}`).
pub fn hex16(n: u64) -> (r: String)
    ensures
        r@ == hex_digits(n as nat, 16),
{
    let mut digits: Vec<char> = Vec::new();
    let mut k: u64 = 16;
    let mut m: u64 = n;
    // digits are produced least significant first, then reversed
    while k > 0
        invariant
            k <= 16,
            digits@.len() == 16 - k,
            hex_digits(n as nat, 16) == hex_digits(m as nat, k as nat) + digits@.reverse(),
        decreases k,
    {
        let d = m % 16;
        let c = hex_char_exec(d);
        proof {
            assert(hex_digits(m as nat, k as nat) == hex_digits((m / 16) as nat, (k - 1) as nat).push(c));
            assert(digits@.push(c).reverse() =~= seq![c] + digits@.reverse());
            assert(hex_digits((m / 16) as nat, (k - 1) as nat).push(c) + digits@.reverse()
                =~= hex_digits((m / 16) as nat, (k - 1) as nat) + digits@.push(c).reverse());
        }
        digits.push(c);
        m = m / 16;
        k = k - 1;
    }
    let mut out: Vec<char> = Vec::new();
    let mut i: usize = digits.len();
    while i > 0
        invariant
            i <= digits@.len(),
            out@ == digits@.subrange(i as int, digits@.len() as int).reverse(),
        decreases i,
    {
        i = i - 1;
        out.push(digits[i]);
        proof {
            assert(out@ =~= digits@.subrange(i as int, digits@.len() as int).reverse());
        }
    }
    proof {
        assert(digits@.subrange(0, digits@.len() as int) =~= digits@);
        assert(hex_digits(m as nat, 0) =~= Seq::<char>::empty());
        assert(Seq::<char>::empty() + digits@.reverse() =~= digits@.reverse());
    }
    crate::text::string_of_chars(&out)
}

/// The hash of a canonical project path and an engine label.
pub uninterp spec fn endpoint_hash_spec(canonical_project: Seq<char>, engine: Seq<char>) -> u64;

/// Hash of the canonical project path and the engine label by
/// `std::collections::hash_map::DefaultHasher::new()`, which std documents
/// as giving the same result as every other `DefaultHasher` made by `new`:
/// the value is a function of the two strings. Which value it is, is the
/// hasher's.
#[verifier::external_body]
fn endpoint_hash(canonical_project: &str, engine: &str) -> (r: u64)
    ensures
        r == endpoint_hash_spec(canonical_project@, engine@),
{
    let mut h = std::collections::hash_map::DefaultHasher::new();
    Hash::hash(canonical_project, &mut h);
    Hash::hash(engine, &mut h);
    Hasher::finish(&h)
}

/// The endpoint name of a hash value.
pub fn endpoint_name_of(hash: u64) -> (r: String)
    ensures
        r@ == "crush-tether-"@ + hex_digits(hash as nat, 16),
{
    let h = hex16(hash);
    cat("crush-tether-", h.as_str())
}

/// The endpoint name of a project (its canonical path) and engine label:
/// one endpoint, hence one serve, per project and engine.
pub fn endpoint_name(canonical_project: &str, engine: &str) -> (r: String)
    ensures
        r@ == "crush-tether-"@ + hex_digits(endpoint_hash_spec(canonical_project@, engine@) as nat, 16),
{
    endpoint_name_of(endpoint_hash(canonical_project, engine))
}

// ---------------------------------------------------------------------------
// Timestamps
// ---------------------------------------------------------------------------

/// Civil date of a day count since 1970-01-01 (proleptic Gregorian calendar,
/// the era-based conversion): (year, month, day).
pub open spec fn civil_from_days(days: int) -> (int, int, int) {
    let z = days + 719468;
    let era = (if z >= 0 { z } else { z - 146096 }) / 146097;
    let doe = z - era * 146097;
    let yoe = (doe - doe / 1460 + doe / 36524 - doe / 146096) / 365;
    let y = yoe + era * 400;
    let doy = doe - (365 * yoe + yoe / 4 - yoe / 100);
    let mp = (5 * doy + 2) / 153;
    let d = doy - (153 * mp + 2) / 5 + 1;
    let m = if mp < 10 { mp + 3 } else { mp - 9 };
    (if m <= 2 { y + 1 } else { y }, m, d)
}

/// `n` with at least `w` digits (zero padded).
pub open spec fn padded(n: nat, w: nat) -> Seq<char> {
    let d = crate::text::decimal(n);
    if d.len() >= w { d } else { Seq::new((w - d.len()) as nat, |i: int| '0') + d }
}

fn padded_exec(n: u64, w: usize) -> (r: String)
    requires
        w <= 4,
    ensures
        r@ == padded(n as nat, w as nat),
{
    let d = crate::text::u64_decimal(n);
    let len = d.unicode_len();
    if len >= w {
        return d;
    }
    let mut zeros: Vec<char> = Vec::new();
    while zeros.len() < w - len
        invariant
            zeros@.len() <= w - len,
            forall|i: int| 0 <= i < zeros@.len() ==> zeros@[i] == '0',
        decreases w - len - zeros@.len(),
    {
        zeros.push('0');
    }
    let z = crate::text::string_of_chars(&zeros);
    proof {
        assert(z@ =~= Seq::new((w - d@.len()) as nat, |i: int| '0'));
    }
    cat(z.as_str(), d.as_str())
}

/// `YYYY-MM-DDTHH:MM:SSZ` of a second count since the epoch.
pub open spec fn rfc3339_spec(secs: nat) -> Seq<char> {
    let days = secs / 86400;
    let rem = secs % 86400;
    let c = civil_from_days(days as int);
    padded(c.0 as nat, 4) + "-"@ + padded(c.1 as nat, 2) + "-"@ + padded(c.2 as nat, 2) + "T"@
        + padded(rem / 3600, 2) + ":"@ + padded(rem % 3600 / 60, 2) + ":"@ + padded(rem % 60, 2) + "Z"@
}

/// UTC RFC 3339 timestamp of a second count since the epoch (the log `ts`).
pub fn rfc3339_utc(secs: u64) -> (r: String)
    requires
        secs < 253402300800,
    ensures
        r@ == rfc3339_spec(secs as nat),
{
    let days = secs / 86400;
    let rem = secs % 86400;
    let z: i64 = days as i64 + 719468;
    let era: i64 = z / 146097;
    let doe: i64 = z - era * 146097;
    let yoe: i64 = (doe - doe / 1460 + doe / 36524 - doe / 146096) / 365;
    let y: i64 = yoe + era * 400;
    let doy: i64 = doe - (365 * yoe + yoe / 4 - yoe / 100);
    let mp: i64 = (5 * doy + 2) / 153;
    let d: i64 = doy - (153 * mp + 2) / 5 + 1;
    let m: i64 = if mp < 10 { mp + 3 } else { mp - 9 };
    let year: i64 = if m <= 2 { y + 1 } else { y };
    proof {
        assert(z >= 0);
        assert(0 <= doe < 146097) by (nonlinear_arith)
            requires
                z >= 0,
                era == z / 146097,
                doe == z - era * 146097,
        ;
        assert(0 <= yoe <= 399) by (nonlinear_arith)
            requires
                0 <= doe < 146097,
                yoe == (doe - doe / 1460 + doe / 36524 - doe / 146096) / 365,
        ;
        assert(days <= 2932897) by (nonlinear_arith)
            requires
                secs < 253402300800,
                days == secs / 86400,
        ;
        assert(era <= 30) by (nonlinear_arith)
            requires
                z >= 0,
                z <= 3652400int,
                era == z / 146097,
        ;
        assert(0 <= doy <= 365) by (nonlinear_arith)
            requires
                0 <= doe < 146097,
                0 <= yoe <= 399,
                yoe == (doe - doe / 1460 + doe / 36524 - doe / 146096) / 365,
                doy == doe - (365 * yoe + yoe / 4 - yoe / 100),
        ;
        assert(0 <= mp <= 11) by (nonlinear_arith)
            requires
                0 <= doy <= 365,
                mp == (5 * doy + 2) / 153,
        ;
        assert(1 <= d <= 31) by (nonlinear_arith)
            requires
                0 <= doy <= 365,
                0 <= mp <= 11,
                mp == (5 * doy + 2) / 153,
                d == doy - (153 * mp + 2) / 5 + 1,
        ;
        assert(0 <= year <= 12000);
    }
    let mut s = padded_exec(year as u64, 4);
    s.append("-");
    s.append(padded_exec(m as u64, 2).as_str());
    s.append("-");
    s.append(padded_exec(d as u64, 2).as_str());
    s.append("T");
    s.append(padded_exec(rem / 3600, 2).as_str());
    s.append(":");
    s.append(padded_exec(rem % 3600 / 60, 2).as_str());
    s.append(":");
    s.append(padded_exec(rem % 60, 2).as_str());
    s.append("Z");
    proof {
        reveal_strlit("-");
        reveal_strlit("T");
        reveal_strlit(":");
        reveal_strlit("Z");
        let c = civil_from_days(days as int);
        assert(c.0 == year && c.1 == m && c.2 == d);
    }
    s
}

// ---------------------------------------------------------------------------
// Protocol
// ---------------------------------------------------------------------------

/// `allow` / `confirm` / `deny` of a response.
pub fn parse_decision(s: &str) -> (r: Option<Decision>)
    ensures
        r == parse_decision_spec(s@),
{
    Decision::parse(s)
}

/// A request line: `{id, op:"check", command, agent}` or `{id, op:"ping"}`.
#[derive(Debug, Clone, PartialEq, Eq)]
pub struct RequestLine {
    pub id: u64,
    pub op: String,
    pub command: String,
    pub agent: String,
}

/// The transport form of a verdict.
#[derive(Debug, Clone, PartialEq, Eq)]
pub struct VerdictDto {
    pub decision: String,
    pub reason: Option<String>,
}

/// A response line (`verdict = None` for a ping).
#[derive(Debug, Clone, PartialEq, Eq)]
pub struct ResponseLine {
    pub id: u64,
    pub verdict: Option<VerdictDto>,
    pub error: Option<String>,
}

/// What the serve loop does with one request line.
pub enum RequestAction {
    /// Answer at once with this response.
    Respond(ResponseLine),
    /// Decide the command with the rule set, then answer.
    Decide,
}

/// The answer to a request: a malformed line gets id 0 and an error; a ping
/// gets no verdict; a check is decided (or, without a rule set, answered
/// confirm); an unknown op gets an error.
pub fn request_action(req: &Option<RequestLine>, has_rules: bool) -> (r: RequestAction)
    ensures
        req is None ==> (r matches RequestAction::Respond(resp) && resp.id == 0 && resp.verdict is None
            && (resp.error matches Some(e) && e@ == "malformed request"@)),
        req matches Some(q) ==> (q.op@ == "ping"@ ==> (r matches RequestAction::Respond(resp) && resp.id == q.id && resp.verdict is None && resp.error is None)),
        req matches Some(q) ==> (q.op@ == "check"@ && has_rules ==> r is Decide),
        req matches Some(q) ==> (q.op@ == "check"@ && !has_rules ==> (r matches RequestAction::Respond(resp) && resp.id == q.id
            && (resp.verdict matches Some(v) && v.decision@ == "confirm"@
                && (v.reason matches Some(m) && m@ == "serve rule set unavailable; fail-safe"@)) && resp.error is None)),
        req matches Some(q) ==> (q.op@ != "ping"@ && q.op@ != "check"@ ==> (r matches RequestAction::Respond(resp) && resp.id == q.id
            && resp.verdict is None && (resp.error matches Some(e) && e@ == "unknown op `"@ + q.op@ + "`"@))),
{
    proof {
        reveal_strlit("ping");
        reveal_strlit("check");
        assert("ping"@.len() == 4 && "check"@.len() == 5);
        assert("ping"@ != "check"@);
    }
    match req {
        None => RequestAction::Respond(ResponseLine { id: 0, verdict: None, error: Some(owned("malformed request")) }),
        Some(q) => {
            if str_eq(q.op.as_str(), "ping") {
                RequestAction::Respond(ResponseLine { id: q.id, verdict: None, error: None })
            } else if str_eq(q.op.as_str(), "check") {
                if has_rules {
                    RequestAction::Decide
                } else {
                    RequestAction::Respond(ResponseLine {
                        id: q.id,
                        verdict: Some(VerdictDto { decision: owned("confirm"), reason: Some(owned("serve rule set unavailable; fail-safe")) }),
                        error: None,
                    })
                }
            } else {
                RequestAction::Respond(ResponseLine { id: q.id, verdict: None, error: Some(cat3("unknown op `", q.op.as_str(), "`")) })
            }
        },
    }
}

/// The response carrying a decided verdict.
pub fn verdict_response(id: u64, v: &Verdict) -> (r: ResponseLine)
    ensures
        r.id == id,
        r.error is None,
        r.verdict matches Some(d) && d.decision@ == decision_name(v.decision) && opt_view(d.reason) == reason_of(*v),
{
    let reason = match &v.reason {
        Some(s) => Some(s.clone()),
        None => None,
    };
    ResponseLine { id, verdict: Some(VerdictDto { decision: v.decision.to_string(), reason }), error: None }
}

/// The verdict a client reads from a response: `None` without a verdict or
/// with an unknown decision word.
pub fn verdict_of_response(resp: &ResponseLine) -> (r: Option<Verdict>)
    ensures
        match r {
            Some(v) => resp.verdict matches Some(d) && parse_decision_spec(d.decision@) == Some(v.decision)
                && reason_of(v) == opt_view(d.reason),
            None => resp.verdict is None || parse_decision_spec(resp.verdict->0.decision@) is None,
        },
{
    match &resp.verdict {
        Some(d) => match parse_decision(d.decision.as_str()) {
            Some(decision) => Some(Verdict {
                decision,
                reason: match &d.reason {
                    Some(s) => Some(s.clone()),
                    None => None,
                },
            }),
            None => None,
        },
        None => None,
    }
}

/// The log file label of a source layer (`None` when it has no file of its
/// own).
pub fn source_file(layer: &str) -> (r: Option<&'static str>)
    ensures
        layer@ == "project"@ ==> (r matches Some(f) && f@ == ".crush-tether/rules.toml"@),
        layer@ == "user"@ ==> (r matches Some(f) && f@ == "~/.config/crush-tether/rules.toml"@),
        layer@ != "project"@ && layer@ != "user"@ ==> r is None,
{
    proof {
        reveal_strlit("project");
        reveal_strlit("user");
        assert("project"@.len() == 7 && "user"@.len() == 4);
        assert("project"@ != "user"@);
    }
    if str_eq(layer, "project") {
        Some(".crush-tether/rules.toml")
    } else if str_eq(layer, "user") {
        Some("~/.config/crush-tether/rules.toml")
    } else {
        None
    }
}

/// The configuration files a serve depends on (hot reload and fingerprint
/// use the same list): the user rules, then the project's rules, script and
/// knowledge files.
pub fn config_files(project: &str, home: Option<&str>, engine: &str) -> (r: Vec<String>)
    ensures
        crate::text::views(r@) == (match home {
            Some(h) => seq![join_path(h@, ".config/crush-tether/rules.toml"@)],
            None => Seq::<Seq<char>>::empty(),
        }) + seq![
            join_path(join_path(project@, ".crush-tether"@), "rules.toml"@),
            join_path(join_path(project@, ".crush-tether"@), if engine@ == "lua"@ { "rules.lua"@ } else { "rules.rhai"@ }),
            join_path(join_path(project@, ".crush-tether"@), "knowledge.toml"@),
        ],
{
    let mut files: Vec<String> = Vec::new();
    match home {
        Some(h) => {
            files.push(crate::cmd_parse::join_exec(h, ".config/crush-tether/rules.toml"));
        },
        None => {},
    }
    let dir = crate::cmd_parse::join_exec(project, ".crush-tether");
    files.push(crate::cmd_parse::join_exec(dir.as_str(), "rules.toml"));
    files.push(crate::cmd_parse::join_exec(dir.as_str(), crate::script::script_file_name(engine)));
    files.push(crate::cmd_parse::join_exec(dir.as_str(), "knowledge.toml"));
    proof {
        assert(crate::text::views(files@) =~= (match home {
            Some(h) => seq![join_path(h@, ".config/crush-tether/rules.toml"@)],
            None => Seq::<Seq<char>>::empty(),
        }) + seq![
            join_path(join_path(project@, ".crush-tether"@), "rules.toml"@),
            join_path(join_path(project@, ".crush-tether"@), if engine@ == "lua"@ { "rules.lua"@ } else { "rules.rhai"@ }),
            join_path(join_path(project@, ".crush-tether"@), "knowledge.toml"@),
        ]);
    }
    files
}

// ---------------------------------------------------------------------------
// Rule set
// ---------------------------------------------------------------------------

/// Trace of one decision (the log's source / normalized / script fields).
#[derive(Debug, Clone)]
pub struct DecisionTrace {
    pub source: Option<EntrySource>,
    pub normalized: Option<String>,
    pub script_changed: bool,
}

/// The whole explanation of one simple command (explain and the REPL).
#[derive(Debug, Clone)]
pub struct CommandExplain {
    pub raw: String,
    pub bin: String,
    pub table_decision: Decision,
    pub table_source: Option<EntrySource>,
    pub normalized: Option<String>,
    pub writes_redirect: bool,
    pub redirect_targets: Vec<String>,
    pub write_scan: Vec<String>,
    pub write_escape: bool,
    pub script_changed: bool,
    pub script_layer: Option<&'static str>,
    pub script_rule: Option<String>,
    pub final_decision: Decision,
    pub reason: Option<String>,
}

/// The explanation of a command line.
#[derive(Debug, Clone)]
pub struct ExplainReport {
    pub engine: String,
    pub kb_present: bool,
    pub lint: Vec<Lint>,
    pub parse_error: Option<String>,
    pub commands: Vec<CommandExplain>,
    pub combined: Verdict,
}

/// The cause of a confirm, as the suggestion logic keys it: a script rule,
/// a table entry (layer, entry and token joined by U+001F), or the whole
/// command.
pub open spec fn cause_spec(script_rule: Option<Seq<char>>, source: Option<(Seq<char>, Seq<char>, Seq<char>)>, command: Seq<char>) -> (Seq<char>, Seq<char>) {
    match script_rule {
        Some(r) => ("script"@, r),
        None => match source {
            Some(s) => {
                if s.0 != "script"@ && s.0 != "default"@ && s.1 != "default"@ && !crate::text::is_suffix(".default"@, s.1) {
                    ("entry"@, s.0 + seq!['\u{1f}'] + s.1 + seq!['\u{1f}'] + s.2)
                } else {
                    ("whole"@, command)
                }
            },
            None => ("whole"@, command),
        },
    }
}

/// The cause of an explained command (see [`cause_spec`]).
pub fn cause_of_explain(c: &CommandExplain) -> (r: (&'static str, String))
    ensures
        (r.0@, r.1@) == cause_spec(match c.script_rule { Some(s) => Some(s@), None => None }, source_view(c.table_source), c.raw@),
{
    match &c.script_rule {
        Some(r) => {
            return ("script", r.clone());
        },
        None => {},
    }
    match &c.table_source {
        Some(s) => {
            if !str_eq(s.layer, "script") && !str_eq(s.layer, "default") && !str_eq(s.entry.as_str(), "default")
                && !crate::text::ends_with(s.entry.as_str(), ".default") {
                let sep = crate::text::string_of_chars(&vec!['\u{1f}']);
                let mut k = cat3(s.layer, sep.as_str(), s.entry.as_str());
                k.append(sep.as_str());
                k.append(s.token.as_str());
                return ("entry", k);
            }
        },
        None => {},
    }
    ("whole", c.raw.clone())
}

/// The reason of a command verdict after the script layers: a script
/// reason stands when the decision changed, else the table reason comes
/// first; without a script reason, a change by the chain is named,
/// otherwise the table reason stays.
pub open spec fn script_reason(v0: Verdict, decision: Decision, reason: Option<Seq<char>>, changed: bool) -> Option<Seq<char>> {
    match reason {
        Some(x) => if decision != v0.decision {
            Some(x)
        } else {
            match crate::model::reason_of(v0) {
                Some(r0) => Some(r0),
                None => Some(x),
            }
        },
        None => if changed { Some("adjusted by rules.rhai"@) } else { crate::model::reason_of(v0) },
    }
}

/// The verdict of one command after the script layers: no script keeps the
/// table verdict; a script error is a fail-safe confirm; otherwise the
/// chain's decision, with its reason when it changed the decision (else the
/// table reason, else the script's). `changed` accumulates whether any
/// script changed or activated something.
pub fn command_verdict(
    v0: Verdict,
    script: Option<Result<(Decision, Option<&'static str>, Option<String>), ScriptError>>,
    changed_before: bool,
) -> (r: (Verdict, bool))
    ensures
        r.0.decision == (match script {
            None => v0.decision,
            Some(Err(_)) => Decision::Confirm,
            Some(Ok(t)) => t.0,
        }),
        r.1 == (changed_before || (script matches Some(Ok(t)) && t.1 is Some)),
        crate::model::reason_of(r.0) == script_reason(v0, r.0.decision, match script {
            None => None,
            Some(Err(_)) => Some("script evaluation failed; fail-safe"@),
            Some(Ok(t)) => match t.2 {
                Some(x) => Some(x@),
                None => None,
            },
        }, r.1),
{
    let (decision, reason, changed) = match script {
        None => (v0.decision, None, changed_before),
        Some(Err(_)) => (Decision::Confirm, Some(owned("script evaluation failed; fail-safe")), changed_before),
        Some(Ok((d, layer, r))) => (d, r, changed_before || layer.is_some()),
    };
    let v = match reason {
        Some(reason) => {
            if decision != v0.decision {
                Verdict { decision, reason: Some(reason) }
            } else {
                Verdict {
                    decision,
                    reason: match v0.reason {
                        Some(r0) => Some(r0),
                        None => Some(reason),
                    },
                }
            }
        },
        None => Verdict {
            decision,
            reason: if changed { Some(owned("adjusted by rules.rhai")) } else { v0.reason },
        },
    };
    (v, changed)
}

/// The rules files of a load, low to high: an explicit file stands alone
/// as the project layer; otherwise the discovered layers.
pub open spec fn load_files(found: Result<FoundLayers, LoadError>, explicit: Option<(String, Result<RulesFile, LoadError>)>) -> Seq<Option<RulesFile>> {
    match explicit {
        Some((_, Ok(f))) => seq![None, None, Some(f)],
        _ => match found {
            Ok(l) => seq![l.global, l.user, l.project],
            Err(_) => Seq::empty(),
        },
    }
}

/// The knowledge base of a load: the project's, when discovery succeeded.
pub open spec fn load_kb(found: Result<FoundLayers, LoadError>) -> Option<KnowledgeBase> {
    match found {
        Ok(l) => l.knowledge,
        Err(_) => None,
    }
}

/// The lookup of a load. An explicit configuration file replaces the layers
/// (a file that does not load is an error: damaged is not missing);
/// otherwise the discovered layers are merged, and a layer that did not
/// load is an error. Either error is the whole warning, ending in
/// "fail-safe confirm".
pub fn lookup_of_load(found: &Result<FoundLayers, LoadError>, explicit: &Option<(String, Result<RulesFile, LoadError>)>) -> (r: Result<RuleLookup, String>)
    requires
        found matches Ok(l) ==> l.wf(),
        explicit matches Some((_, Ok(f))) ==> rules_file_wf(*f),
    ensures
        explicit matches Some((p, Err(e))) ==> r matches Err(m)
            && m@ == "crush-tether: explicit config "@ + p@ + " failed to load: "@ + load_error_text(*e) + "; fail-safe confirm"@,
        explicit is None ==> (found matches Err(e) ==> r matches Err(m)
            && m@ == "crush-tether: config failed to load: "@ + load_error_text(*e) + "; fail-safe confirm"@),
        (explicit matches Some((_, Ok(_))) || (explicit is None && found is Ok)) ==> (r matches Ok(l) && l.wf()
            && l.rules_view().default == top_default(load_files(*found, *explicit))
            && l.precedence_view() == match top_precedence(load_files(*found, *explicit)) {
                Some(p) => p,
                None => default_precedence(),
            }
            && canon_agrees(load_kb(*found), l.canon_view())),
        r matches Ok(l) ==> exists|m: MergedRules| #[trigger] merged_from(load_files(*found, *explicit), m)
            && built_from(l, m, load_kb(*found)),
{
    let kb = match found {
        Ok(l) => match &l.knowledge {
            Some(k) => Some(k),
            None => None,
        },
        Err(_) => None,
    };
    match explicit {
        Some((path, Ok(f))) => {
            let layers = Layers { global: None, user: None, project: Some(f) };
            let merged = merge(layers);
            proof {
                assert(layer_files(layers) =~= load_files(*found, *explicit));
            }
            let l = RuleLookup::new(merged, kb);
            proof {
                assert(merged_from(load_files(*found, *explicit), merged));
            }
            Ok(l)
        },
        Some((path, Err(e))) => {
            let es = e.to_string();
            let mut m = cat3("crush-tether: explicit config ", path.as_str(), " failed to load: ");
            m.append(es.as_str());
            m.append("; fail-safe confirm");
            Err(m)
        },
        None => match found {
            Ok(l) => {
                let layers = Layers::from_found(l);
                let merged = merge(layers);
                proof {
                    assert(layer_files(layers) =~= load_files(*found, *explicit));
                }
                let l = RuleLookup::new(merged, kb);
                proof {
                    assert(merged_from(load_files(*found, *explicit), merged));
                }
                Ok(l)
            },
            Err(e) => {
                let es = e.to_string();
                let mut m = owned("crush-tether: config failed to load: ");
                m.append(es.as_str());
                m.append("; fail-safe confirm");
                Err(m)
            },
        },
    }
}

/// After a reload: the new snapshot, or, when loading failed, the previous
/// one kept, with the warning to print.
pub fn after_reload<E: RuleEngine>(current: Option<RuleSet<E>>, load: Result<RuleSet<E>, String>) -> (r: (Option<RuleSet<E>>, Option<String>))
    ensures
        load matches Ok(rs) ==> r.0 == Some(rs) && r.1 is None,
        load matches Err(m) ==> r.0 == current && (r.1 matches Some(w)
            && w@ == "crush-tether: hot reload failed; keeping previous snapshot: "@ + m@),
{
    match load {
        Ok(rs) => (Some(rs), None),
        Err(m) => (current, Some(cat("crush-tether: hot reload failed; keeping previous snapshot: ", m.as_str()))),
    }
}

/// Without file watching, the configuration is reloaded when its
/// fingerprint differs from a recorded one (0 = none recorded yet).
pub fn fingerprint_changed(last: u64, fp: u64) -> (r: bool)
    ensures
        r == (last != 0 && last != fp),
{
    last != 0 && last != fp
}

/// The serve process ends when it has been idle for `idle_ms` or longer.
pub fn idle_expired(now_ms: u64, last_ms: u64, idle_ms: u64) -> (r: bool)
    ensures
        r == ((if now_ms >= last_ms { now_ms - last_ms } else { 0 }) >= idle_ms),
{
    let idle = if now_ms >= last_ms { now_ms - last_ms } else { 0 };
    idle >= idle_ms
}

/// The message of a rule script that failed to load.
pub open spec fn script_load_message(engine: Seq<char>, e: Seq<char>) -> Seq<char> {
    "crush-tether: "@ + (if engine == "lua"@ { "rules.lua"@ } else { "rules.rhai"@ }) + " failed to load: "@ + e
        + "; fail-safe confirm"@
}

/// Finishes a load: a script layer that failed to load is an error (the
/// whole warning); otherwise the rule set, with the lint findings of the
/// project file (none without one).
pub fn finish_load<E: RuleEngine>(
    lookup: RuleLookup,
    script: Result<Option<ScriptChain<E>>, ScriptError>,
    project_file: Option<&RulesFile>,
    kb: Option<&KnowledgeBase>,
    home: Option<String>,
    engine: String,
) -> (r: Result<RuleSet<E>, String>)
    requires
        lookup.wf(),
        project_file matches Some(f) ==> rules_file_wf(*f),
        kb_wf(match kb { Some(k) => Some(*k), None => None }),
    ensures
        script matches Err(e) ==> r matches Err(m) && m@ == script_load_message(engine@, script_error_text(e)),
        script matches Ok(s) ==> (r matches Ok(rs) && rs.wf() && rs.lookup.rules_view() == lookup.rules_view()
            && rs.lookup.precedence_view() == lookup.precedence_view() && rs.lookup.canon_view() == lookup.canon_view()
            && (rs.script is None <==> s is None) && rs.kb_present == (kb is Some) && rs.home == home && rs.engine == engine
            && (project_file is None ==> rs.lint_warnings@.len() == 0)
            && (project_file matches Some(f) ==> exists|canon: CanonMaps| #[trigger] file_lints(*f, kb_view(kb), canon) == lint_views(rs.lint_warnings@)
                && canon_agrees(kb_view(kb), canon))),
{
    match script {
        Err(e) => {
            let file = crate::script::script_file_name(engine.as_str());
            let es = e.to_string();
            let mut m = cat3("crush-tether: ", file, " failed to load: ");
            m.append(es.as_str());
            m.append("; fail-safe confirm");
            Err(m)
        },
        Ok(s) => {
            let lint_warnings = match project_file {
                Some(f) => crate::lint::lint_file(f, kb),
                None => Vec::new(),
            };
            let kb_present = kb.is_some();
            Ok(RuleSet::new(lookup, s, kb_present, lint_warnings, home, engine))
        },
    }
}

/// One explained command against the command it explains: the table
/// decision, the words, the redirect targets and whether one escapes the
/// project; without script layers the final decision is the table's; a
/// command the table denies is never allowed.
pub open spec fn explains_one(e: CommandExplain, cmd: SimpleCommand, l: RuleLookup, project: Seq<char>, no_script: bool) -> bool {
    &&& e.table_decision == classify_spec(l.rules_view(), l.precedence_view(), l.canon_view(), cmd, project, l.home_view())
    &&& e.raw@ == crate::text::join_spec(crate::text::views(cmd.words@), " "@)
    &&& e.bin@ == (if cmd.words@.len() > 0 { cmd.words@[0]@ } else { Seq::empty() })
    &&& e.writes_redirect == cmd.writes_redirect
    &&& e.redirect_targets@ == cmd.redirect_targets@
    &&& e.write_scan@ == cmd.redirect_targets@
    &&& e.write_escape == exists|u: int| 0 <= u < cmd.redirect_targets@.len() && path_escapes_spec(#[trigger] cmd.redirect_targets@[u]@, project, l.home_view())
    &&& e.script_rule is None
    &&& source_view(e.table_source) == classify_outcome(l.rules_view(), l.precedence_view(), l.canon_view(), cmd, project, l.home_view()).2
    &&& (e.normalized is None) == (cmd.words@.len() == 0 || norm_step(l.canon_view(), cmd.words@[0]@, first_arg(cmd)) is None)
    &&& (no_script ==> e.final_decision == e.table_decision && !e.script_changed && e.script_layer is None)
    &&& (no_script ==> opt_view(e.reason) == classify_outcome(l.rules_view(), l.precedence_view(), l.canon_view(), cmd, project, l.home_view()).1)
    &&& (e.table_decision == Decision::Deny ==> e.final_decision != Decision::Allow)
}

/// The explanations of a sequence of commands, one each, in order.
pub open spec fn explains(es: Seq<CommandExplain>, cmds: Seq<SimpleCommand>, l: RuleLookup, project: Seq<char>, no_script: bool) -> bool {
    es.len() == cmds.len() && forall|k: int| 0 <= k < es.len() ==> #[trigger] explains_one(es[k], cmds[k], l, project, no_script)
}

/// The final decisions of explained commands are their table decisions
/// after the script layers of `rs`.
pub open spec fn explains_scripts<E: RuleEngine>(es: Seq<CommandExplain>, cmds: Seq<SimpleCommand>, rs: RuleSet<E>, command: Seq<char>, project: &str) -> bool {
    forall|k: int| 0 <= k < es.len() && k < cmds.len() ==> #[trigger] script_explained(es[k], cmds[k], rs, command, project)
}

/// The final decision of one explained command is its table decision after
/// the script layers of `rs`.
pub open spec fn script_explained<E: RuleEngine>(e: CommandExplain, cmd: SimpleCommand, rs: RuleSet<E>, command: Seq<char>, project: &str) -> bool {
    exists|s: Option<Option<Decision>>| #[trigger] script_ran(rs, cmd, command, project, e.table_decision, s)
        && e.final_decision == after_script(e.table_decision, s)
}

/// The final decisions of explained commands.
pub open spec fn final_decisions(es: Seq<CommandExplain>) -> Seq<Decision> {
    es.map_values(|e: CommandExplain| e.final_decision)
}

/// A loaded rule snapshot: the lookup, the script layers (if any), whether
/// the knowledge base is present, and the lint findings of the project file.
pub struct RuleSet<E: RuleEngine> {
    pub lookup: RuleLookup,
    pub script: Option<ScriptChain<E>>,
    pub kb_present: bool,
    pub lint_warnings: Vec<Lint>,
    pub home: Option<String>,
    pub engine: String,
}

/// The table decisions of a sequence of commands.
pub open spec fn table_decisions(l: RuleLookup, cmds: Seq<SimpleCommand>, project: Seq<char>) -> Seq<Decision> {
    cmds.map_values(|c: SimpleCommand| classify_spec(l.rules_view(), l.precedence_view(), l.canon_view(), c, project, l.home_view()))
}

/// A command's decision after the script layers: the table's without a
/// script; confirm when the script failed; else the chain's decision.
pub open spec fn after_script(t: Decision, sr: Option<Option<Decision>>) -> Decision {
    match sr {
        None => t,
        Some(None) => Decision::Confirm,
        Some(Some(d)) => d,
    }
}

/// The decision a chain's evaluation result gives a command: confirm for a
/// failed script, else the chain's decision.
pub open spec fn script_result(rk: Result<(Decision, Option<&'static str>, Option<String>), ScriptError>) -> Option<Option<Decision>> {
    match rk {
        Ok(t) => Some(Some(t.0)),
        Err(_) => Some(None),
    }
}

/// `s` is what the script layers of `rs` gave command `cmd` of line
/// `command` whose table decision is `t`: nothing without script layers,
/// else the result of evaluating the chain (see [`chain_evaluated`]).
pub open spec fn script_ran<E: RuleEngine>(rs: RuleSet<E>, cmd: SimpleCommand, command: Seq<char>, project: &str, t: Decision, s: Option<Option<Decision>>) -> bool {
    match rs.script {
        None => s is None,
        Some(c) => exists|rk: Result<(Decision, Option<&'static str>, Option<String>), ScriptError>, os: Seq<ScriptOutcome>, ds: Seq<ScriptAllowDecls>|
            #[trigger] chain_evaluated(c, cmd, t, project, pipe_to_shell_spec(command), args_escape(cmd_args(cmd), project@, opt_view(rs.home)), os, ds, rk)
            && s == script_result(rk),
    }
}

/// `r` is the verdict of rule set `rs` on the commands `cmds` of line
/// `command`: no command is confirm (`empty command`); otherwise the
/// combination of one verdict per command, whose decision is the table
/// decision after the script layers (`sr`: no script, a failed script, or
/// the chain's decision, which never lifts a table deny); without scripts
/// each verdict carries the table's reason.
pub open spec fn rule_set_decides<E: RuleEngine>(rs: RuleSet<E>, cmds: Seq<SimpleCommand>, command: Seq<char>, project: &str, r: Verdict) -> bool {
    let l = rs.lookup;
    let no_script = rs.script is None;
    &&& cmds.len() == 0 ==> r.decision == Decision::Confirm && reason_of(r) == Some("empty command"@)
    &&& cmds.len() > 0 ==> exists|vs: Seq<Verdict>, sr: Seq<Option<Option<Decision>>>| #![trigger combined_view(vs), sr.len()]
        vs.len() == cmds.len() && sr.len() == cmds.len()
            && (r.decision, reason_of(r)) == combined_view(vs)
            && r.decision == combined_decision(decisions(vs))
            && screened(table_decisions(l, cmds, project@), decisions(vs))
            && (forall|k: int| 0 <= k < vs.len() ==> (#[trigger] vs[k]).decision == after_script(table_decisions(l, cmds, project@)[k], sr[k]))
            && (forall|k: int| 0 <= k < sr.len() ==> ((#[trigger] sr[k]) is None) == no_script)
            && (forall|k: int| 0 <= k < sr.len() ==> script_ran(rs, cmds[k], command, project, table_decisions(l, cmds, project@)[k], #[trigger] sr[k]))
            && (forall|k: int| 0 <= k < sr.len() && table_decisions(l, cmds, project@)[k] == Decision::Deny
                ==> !(#[trigger] sr[k] matches Some(Some(d)) && d != Decision::Deny))
            && (no_script ==> forall|k: int| 0 <= k < vs.len() ==> reason_of(#[trigger] vs[k])
                == classify_outcome(l.rules_view(), l.precedence_view(), l.canon_view(), cmds[k], project@, l.home_view()).1)
}

/// `v` is what the rule set decides for command line `command`: a line
/// that does not parse is confirm with the parse error; otherwise the
/// decision of its simple commands (see [`rule_set_decides`]).
pub open spec fn rule_set_verdict<E: RuleEngine>(rs: RuleSet<E>, command: Seq<char>, project: &str, v: Verdict) -> bool {
    &&& line_unparseable(command) ==> v.decision == Decision::Confirm && reason_of(v) == Some("unparseable: "@ + parse_error_text(command))
    &&& !line_unparseable(command) ==> exists|cmds: Seq<SimpleCommand>| #[trigger] line_commands(command, cmds)
        && rule_set_decides(rs, cmds, command, project, v)
}

/// The decisions `ds` after the script layers of commands whose table
/// decisions are `ts`: a command the table denies is never allowed.
pub open spec fn screened(ts: Seq<Decision>, ds: Seq<Decision>) -> bool {
    ts.len() == ds.len() && forall|k: int| 0 <= k < ts.len() && ts[k] == Decision::Deny ==> #[trigger] ds[k] != Decision::Allow
}

/// Whatever the script layers do, a command line with a command that the
/// table denies is never allowed as a whole.
pub proof fn law_table_deny_never_allowed(ts: Seq<Decision>, ds: Seq<Decision>, k: int)
    requires
        screened(ts, ds),
        0 <= k < ts.len(),
        ts[k] == Decision::Deny,
    ensures
        combined_decision(ds) != Decision::Allow,
{
    if ds[k] == Decision::Deny {
        assert(ds.contains(Decision::Deny));
    } else {
        assert(ds[k] == Decision::Confirm);
        assert(ds.contains(Decision::Confirm));
    }
}

impl<E: RuleEngine> RuleSet<E> {
    pub open spec fn wf(&self) -> bool {
        self.lookup.wf() && self.lookup.home_view() == crate::lookup::opt_view(self.home)
    }

    /// Assembles a rule set; the lookup's home directory is set from `home`.
    pub fn new(
        lookup: RuleLookup,
        script: Option<ScriptChain<E>>,
        kb_present: bool,
        lint_warnings: Vec<Lint>,
        home: Option<String>,
        engine: String,
    ) -> (r: RuleSet<E>)
        requires
            lookup.wf(),
        ensures
            r.wf(),
            r.lookup.rules_view() == lookup.rules_view(),
            r.lookup.precedence_view() == lookup.precedence_view(),
            r.lookup.canon_view() == lookup.canon_view(),
            r.script is None <==> script is None,
            r.kb_present == kb_present,
            r.lint_warnings == lint_warnings,
            r.home == home,
            r.engine == engine,
    {
        let mut lookup = lookup;
        let h = match &home {
            Some(s) => Some(s.clone()),
            None => None,
        };
        lookup.set_home(h);
        RuleSet { lookup, script, kb_present, lint_warnings, home, engine }
    }

    /// The whole pipeline for a command line: parse and flatten, table
    /// lookup, script layers, finalisation, combination.
    pub fn decide(&self, command: &str, project: &str) -> (r: Verdict)
        requires
            self.wf(),
        ensures
            line_unparseable(command@) ==> r.decision == Decision::Confirm && reason_of(r) == Some("unparseable: "@ + parse_error_text(command@)),
            !line_unparseable(command@) ==> exists|cmds: Seq<SimpleCommand>| #[trigger] line_commands(command@, cmds)
                && rule_set_decides(*self, cmds, command@, project, r),
            rule_set_verdict(*self, command@, project, r),
    {
        self.decide_trace(command, project).0
    }

    /// Verdict and trace.
    pub fn decide_trace(&self, command: &str, project: &str) -> (r: (Verdict, DecisionTrace))
        requires
            self.wf(),
        ensures
            line_unparseable(command@) ==> r.0.decision == Decision::Confirm && reason_of(r.0) == Some("unparseable: "@ + parse_error_text(command@)),
            !line_unparseable(command@) ==> exists|cmds: Seq<SimpleCommand>| #[trigger] line_commands(command@, cmds)
                && rule_set_decides(*self, cmds, command@, project, r.0),
            self.script is None ==> !r.1.script_changed,
    {
        let mut trace = DecisionTrace { source: None, normalized: None, script_changed: false };
        let commands = match flatten_commands(command) {
            Ok(c) => c,
            Err(e) => {
                return (unparseable(e.to_string().as_str()), trace);
            },
        };
        proof {
            assert(line_commands(command@, commands@));
        }
        if commands.len() == 0 {
            return (Verdict::confirm("empty command"), trace);
        }
        let ghost ts = table_decisions(self.lookup, commands@, project@);
        let ghost mut sr: Seq<Option<Option<Decision>>> = Seq::empty();
        let home: Option<&str> = match &self.home {
            Some(h) => Some(h.as_str()),
            None => None,
        };
        let pipe = pipe_to_shell(command);
        let mut verdicts: Vec<Verdict> = Vec::new();
        let mut i: usize = 0;
        while i < commands.len()
            invariant
                self.wf(),
                i <= commands@.len(),
                verdicts@.len() == i,
                self.script is None ==> forall|k: int| 0 <= k < i ==> (#[trigger] verdicts@[k]).decision
                    == classify_spec(self.lookup.rules_view(), self.lookup.precedence_view(), self.lookup.canon_view(), commands@[k], project@, self.lookup.home_view()),
                self.script is None ==> !trace.script_changed,
                forall|k: int| 0 <= k < i ==> classify_spec(self.lookup.rules_view(), self.lookup.precedence_view(), self.lookup.canon_view(), commands@[k], project@, self.lookup.home_view()) == Decision::Deny
                    ==> (#[trigger] verdicts@[k]).decision != Decision::Allow,
                ts == table_decisions(self.lookup, commands@, project@),
                sr.len() == i,
                forall|k: int| 0 <= k < i ==> (#[trigger] verdicts@[k]).decision == after_script(ts[k], sr[k]),
                forall|k: int| 0 <= k < i ==> ((#[trigger] sr[k]) is None) == (self.script is None),
                forall|k: int| 0 <= k < i ==> script_ran(*self, commands@[k], command@, project, ts[k], #[trigger] sr[k]),
                pipe == pipe_to_shell_spec(command@),
                crate::config::discover::opt_text(home) == opt_view(self.home),
                forall|k: int| 0 <= k < i && ts[k] == Decision::Deny ==> !(#[trigger] sr[k] matches Some(Some(d)) && d != Decision::Deny),
                self.script is None ==> forall|k: int| 0 <= k < i ==> reason_of(#[trigger] verdicts@[k])
                    == classify_outcome(self.lookup.rules_view(), self.lookup.precedence_view(), self.lookup.canon_view(), commands@[k], project@, self.lookup.home_view()).1,
            decreases commands@.len() - i,
        {
            let cmd = &commands[i];
            let c0 = self.lookup.classify_traced(cmd, project);
            if trace.source.is_none() {
                trace.source = c0.source;
            }
            if trace.normalized.is_none() && c0.kb_chain.len() > 0 {
                trace.normalized = Some(join_chain(&c0.kb_chain));
            }
            let script = match &self.script {
                Some(chain) => Some(chain.evaluate(cmd, c0.verdict.decision, project, home, pipe)),
                None => None,
            };
            let ghost srk: Option<Option<Decision>> = match &script {
                None => None,
                Some(Err(_)) => Some(None),
                Some(Ok(t)) => Some(Some(t.0)),
            };
            proof {
                assert(ts[i as int] == c0.verdict.decision);
                assert(script_ran(*self, commands@[i as int], command@, project, ts[i as int], srk));
            }
            let (v, changed) = command_verdict(c0.verdict, script, trace.script_changed);
            trace.script_changed = changed;
            let ghost before = verdicts@;
            verdicts.push(v);
            proof {
                sr = sr.push(srk);
                assert(verdicts@[i as int] == v);
                assert forall|k: int| 0 <= k < i + 1 implies (#[trigger] verdicts@[k]).decision == after_script(ts[k], sr[k]) by {
                    if k < i { assert(verdicts@[k] == before[k]); }
                }
            }
            i = i + 1;
        }
        let ghost vs = verdicts@;
        let r = Verdict::combine(verdicts);
        proof {
            let ds = decisions(vs);
            assert(screened(ts, ds));
            assert(vs.len() == commands@.len() && sr.len() == commands@.len());
            assert((r.decision, reason_of(r)) == combined_view(vs));
            assert(r.decision == combined_decision(decisions(vs)));
            assert(forall|k: int| 0 <= k < vs.len() ==> (#[trigger] vs[k]).decision == after_script(ts[k], sr[k]));
            assert(rule_set_decides(*self, commands@, command@, project, r));
        }
        (r, trace)
    }

    /// Explanation of every simple command of a command line.
    pub fn explain(&self, command: &str, project: &str) -> (r: ExplainReport)
        requires
            self.wf(),
        ensures
            r.engine == self.engine,
            r.kb_present == self.kb_present,
            r.lint@.len() == self.lint_warnings@.len(),
            (r.parse_error is Some) == line_unparseable(command@),
            r.parse_error matches Some(m) ==> m@ == parse_error_text(command@) && r.commands@.len() == 0
                && r.combined.decision == Decision::Confirm && reason_of(r.combined) == Some("unparseable: "@ + parse_error_text(command@)),
            r.parse_error is None ==> exists|cmds: Seq<SimpleCommand>| #[trigger] explains(r.commands@, cmds, self.lookup, project@, self.script is None)
                && line_commands(command@, cmds) && explains_scripts(r.commands@, cmds, *self, command@, project),
            r.parse_error is None ==> r.combined.decision == (if r.commands@.len() == 0 {
                Decision::Confirm
            } else {
                combined_decision(final_decisions(r.commands@))
            }),
    {
        let lint = copy_lints(&self.lint_warnings);
        let commands = match flatten_commands(command) {
            Ok(c) => c,
            Err(e) => {
                let msg = e.to_string();
                return ExplainReport {
                    engine: self.engine.clone(),
                    kb_present: self.kb_present,
                    lint,
                    parse_error: Some(msg.clone()),
                    commands: Vec::new(),
                    combined: unparseable(msg.as_str()),
                };
            },
        };
        let home: Option<&str> = match &self.home {
            Some(h) => Some(h.as_str()),
            None => None,
        };
        let pipe = pipe_to_shell(command);
        let mut out: Vec<CommandExplain> = Vec::new();
        let mut verdicts: Vec<Verdict> = Vec::new();
        let mut i: usize = 0;
        while i < commands.len()
            invariant
                self.wf(),
                (match home { Some(h) => Some(h@), None => None }) == self.lookup.home_view(),
                i <= commands@.len(),
                out@.len() == i,
                verdicts@.len() == i,
                forall|k: int| 0 <= k < i ==> #[trigger] explains_one(out@[k], commands@[k], self.lookup, project@, self.script is None),
                forall|k: int| 0 <= k < i ==> (#[trigger] verdicts@[k]).decision == out@[k].final_decision,
                explains_scripts(out@, commands@, *self, command@, project),
                pipe == pipe_to_shell_spec(command@),
                crate::config::discover::opt_text(home) == opt_view(self.home),
            decreases commands@.len() - i,
        {
            let cmd = &commands[i];
            let c0 = self.lookup.classify_traced(cmd, project);
            let table_decision = c0.verdict.decision;
            let (script, layer) = match &self.script {
                Some(chain) => {
                    let res = chain.evaluate(cmd, table_decision, project, home, pipe);
                    let layer = match &res {
                        Ok(t) => t.1,
                        Err(_) => None,
                    };
                    (Some(res), layer)
                },
                None => (None, None),
            };
            let ghost srk: Option<Option<Decision>> = match &script {
                None => None,
                Some(Err(_)) => Some(None),
                Some(Ok(t)) => Some(Some(t.0)),
            };
            proof {
                assert(script_ran(*self, commands@[i as int], command@, project, table_decision, srk));
            }
            let (v, changed) = command_verdict(c0.verdict, script, false);
            proof {
                assert(v.decision == after_script(table_decision, srk));
            }
            let mut escape = false;
            let mut t: usize = 0;
            while t < cmd.redirect_targets.len()
                invariant
                    t <= cmd.redirect_targets@.len(),
                    self.wf(),
                    (match home { Some(h) => Some(h@), None => None }) == self.lookup.home_view(),
                    escape == exists|u: int| 0 <= u < t && path_escapes_spec(#[trigger] cmd.redirect_targets@[u]@, project@, self.lookup.home_view()),
                decreases cmd.redirect_targets@.len() - t,
            {
                if path_escapes(cmd.redirect_targets[t].as_str(), project, home) {
                    escape = true;
                }
                t = t + 1;
            }
            let bin = match cmd.bin() {
                Some(b) => b.clone(),
                None => String::new(),
            };
            let normalized = if c0.kb_chain.len() > 0 { Some(join_chain(&c0.kb_chain)) } else { None };
            out.push(CommandExplain {
                raw: join_words(&cmd.words),
                bin,
                table_decision,
                table_source: c0.source,
                normalized,
                writes_redirect: cmd.writes_redirect,
                redirect_targets: crate::text::copy_vec(&cmd.redirect_targets),
                write_scan: crate::text::copy_vec(&cmd.redirect_targets),
                write_escape: escape,
                script_changed: changed,
                script_layer: layer,
                script_rule: None,
                final_decision: v.decision,
                reason: match &v.reason {
                    Some(r) => Some(r.clone()),
                    None => None,
                },
            });
            verdicts.push(v);
            i = i + 1;
        }
        proof {
            assert(crate::model::decisions(verdicts@) =~= final_decisions(out@));
            assert(explains(out@, commands@, self.lookup, project@, self.script is None));
        }
        let combined = if commands.len() == 0 { Verdict::confirm("empty command") } else { Verdict::combine(verdicts) };
        ExplainReport {
            engine: self.engine.clone(),
            kb_present: self.kb_present,
            lint,
            parse_error: None,
            commands: out,
            combined,
        }
    }
}

fn copy_lints(v: &Vec<Lint>) -> (r: Vec<Lint>)
    ensures
        r@.len() == v@.len(),
{
    let mut out: Vec<Lint> = Vec::new();
    let mut i: usize = 0;
    while i < v.len()
        invariant
            i <= v@.len(),
            out@.len() == i,
        decreases v@.len() - i,
    {
        out.push(Lint { severity: v[i].severity, code: v[i].code, message: v[i].message.clone() });
        i = i + 1;
    }
    out
}

/// The words of a command joined by single spaces.
pub fn join_words(words: &Vec<String>) -> (r: String)
    ensures
        r@ == crate::text::join_spec(crate::text::views(words@), " "@),
{
    crate::text::join_with(words, " ")
}

/// A normalisation chain as the log writes it (`pip3 -> pip`).
pub fn join_chain(chain: &Vec<String>) -> (r: String)
    ensures
        r@ == crate::text::join_spec(crate::text::views(chain@), " -> "@),
{
    crate::text::join_with(chain, " -> ")
}

} // verus!
