//! The script layer: conditions that the declarative tables cannot express.
//!
//! - An engine (Rhai or Lua) evaluates one command into a [`ScriptOutcome`];
//!   whatever it returns goes through [`finalize`], the only place where a
//!   verdict can become allow.
//! - Script contract: `check(ctx)` returns PASS (no opinion, the table
//!   verdict stands), confirm, deny, or an activation `allow("bin")`; any
//!   other value, a compile error, a runtime error or a limit hit is mapped
//!   by the caller to a fail-safe confirm.
//! - `script_allow`: a script can only activate bins that the user declared
//!   in `rules.toml`: literals are extracted at load time, reconciled with the
//!   declarations, checked again at run time, and the escape check of a local
//!   declaration runs in [`finalize`]. A bare `"allow"` is a contract breach.
//! - Deny is final: nothing a script returns turns a table deny around.
pub mod lua;

use vstd::prelude::*;
use crate::cmd_parse::{SimpleCommand, path_escapes};
use crate::config::merge::{DeclScope, ScriptAllowDecls};
use crate::lookup::{args_escape, cmd_args, dedup, push_unique};
use crate::model::Decision;
use crate::text::{cat, cat3, owned, str_eq, vec_has, views};

verus! {

/// Rule-script engines that this build supports (`--engine`).
pub open spec fn supported_engine(name: Seq<char>) -> bool {
    name == "rhai"@ || name == "lua"@
}

/// Whether `name` is a supported engine.
pub fn engine_supported(name: &str) -> (r: bool)
    ensures
        r == supported_engine(name@),
{
    str_eq(name, "rhai") || str_eq(name, "lua")
}

/// The supported engine names, for messages.
pub fn supported_engines() -> (r: Vec<&'static str>)
    ensures
        r@.len() == 2,
        r@[0]@ == "rhai"@,
        r@[1]@ == "lua"@,
{
    vec!["rhai", "lua"]
}

/// File name of the rule script of an engine (`rules.rhai`, `rules.lua`).
pub fn script_file_name(engine: &str) -> (r: &'static str)
    ensures
        engine@ == "lua"@ ==> r@ == "rules.lua"@,
        engine@ != "lua"@ ==> r@ == "rules.rhai"@,
{
    if str_eq(engine, "lua") { "rules.lua" } else { "rules.rhai" }
}

/// The engine label: the `--engine` argument, `rhai` by default.
pub fn engine_label(arg: Option<&str>) -> (r: String)
    ensures
        arg matches Some(a) ==> r@ == a@,
        arg is None ==> r@ == "rhai"@,
{
    match arg {
        Some(a) => owned(a),
        None => owned("rhai"),
    }
}

/// Upper bound on the declarative rules a script may register.
pub const MAX_RULES: usize = 256;

/// Why the script layer failed (every variant gives a fail-safe confirm).
#[derive(Debug, Clone, PartialEq, Eq)]
pub enum ScriptError {
    /// The script file could not be read.
    Io(String),
    /// The script does not compile.
    Compile(String),
    /// Rejected at load time (non-literal `allow()` argument, undeclared name).
    Rejected(String),
    /// Runtime error, limits included.
    Runtime(String),
    /// The script returned a value outside the contract.
    Contract(String),
}

/// The message of a script error with its kind.
pub open spec fn script_error_text(e: ScriptError) -> Seq<char> {
    match e {
        ScriptError::Io(e) => "io error: "@ + e@,
        ScriptError::Compile(e) => "compile error: "@ + e@,
        ScriptError::Rejected(e) => "script rejected: "@ + e@,
        ScriptError::Runtime(e) => "runtime error: "@ + e@,
        ScriptError::Contract(e) => "contract violation: "@ + e@,
    }
}

impl ScriptError {
    /// Message of the error with its kind.
    pub fn to_string(&self) -> (r: String)
        ensures
            r@ == script_error_text(*self),
    {
        match self {
            ScriptError::Io(e) => cat("io error: ", e.as_str()),
            ScriptError::Compile(e) => cat("compile error: ", e.as_str()),
            ScriptError::Rejected(e) => cat("script rejected: ", e.as_str()),
            ScriptError::Runtime(e) => cat("runtime error: ", e.as_str()),
            ScriptError::Contract(e) => cat("contract violation: ", e.as_str()),
        }
    }
}

/// The decision vocabulary of scripts: the four read-only `decision`
/// constants. PASS is "no opinion" (the empty string in Rhai, nil in Lua).
#[derive(Debug, Clone, Copy, PartialEq, Eq, Structural)]
pub enum ScriptDecision {
    Allow,
    Confirm,
    Deny,
    Pass,
}

/// The string form of each vocabulary value.
pub open spec fn script_decision_text(d: ScriptDecision) -> Seq<char> {
    match d {
        ScriptDecision::Allow => "allow"@,
        ScriptDecision::Confirm => "confirm"@,
        ScriptDecision::Deny => "deny"@,
        ScriptDecision::Pass => ""@,
    }
}

/// The vocabulary value of a table decision.
pub open spec fn script_decision_of(d: Decision) -> ScriptDecision {
    match d {
        Decision::Allow => ScriptDecision::Allow,
        Decision::Confirm => ScriptDecision::Confirm,
        Decision::Deny => ScriptDecision::Deny,
    }
}

impl ScriptDecision {
    /// The vocabulary value of an equivalent bare string.
    pub fn parse(s: &str) -> (r: Option<ScriptDecision>)
        ensures
            match r {
                Some(d) => s@ == script_decision_text(d),
                None => forall|d: ScriptDecision| s@ != script_decision_text(d),
            },
    {
        proof {
            reveal_strlit("");
            reveal_strlit("allow");
            reveal_strlit("confirm");
            reveal_strlit("deny");
        }
        if str_eq(s, "allow") {
            Some(ScriptDecision::Allow)
        } else if str_eq(s, "confirm") {
            Some(ScriptDecision::Confirm)
        } else if str_eq(s, "deny") {
            Some(ScriptDecision::Deny)
        } else if str_eq(s, "") {
            Some(ScriptDecision::Pass)
        } else {
            proof {
                assert forall|d: ScriptDecision| s@ != script_decision_text(d) by {
                    match d {
                        ScriptDecision::Allow => {},
                        ScriptDecision::Confirm => {},
                        ScriptDecision::Deny => {},
                        ScriptDecision::Pass => {},
                    }
                }
            }
            None
        }
    }

    /// The vocabulary value of a table decision.
    pub fn of_decision(d: Decision) -> (r: ScriptDecision)
        ensures
            r == script_decision_of(d),
    {
        match d {
            Decision::Allow => ScriptDecision::Allow,
            Decision::Confirm => ScriptDecision::Confirm,
            Decision::Deny => ScriptDecision::Deny,
        }
    }
}

/// The activation token of `allow("bin")`: only the `allow` primitive
/// builds one, so a script cannot forge it.
#[derive(Debug, Clone, PartialEq, Eq)]
pub struct AllowActivation(pub String);

/// `confirm_as("sub")`: confirm with a sub-name for the audit trail.
#[derive(Debug, Clone, PartialEq, Eq)]
pub struct ConfirmAs(pub String);

/// The read-only command context a script sees (raw words; no
/// normalisation at this layer). Missing optional fields are empty strings.
#[derive(Debug, Clone, PartialEq, Eq)]
pub struct ScriptCtx {
    pub bin: String,
    pub sub: String,
    pub words: Vec<String>,
    pub args: Vec<String>,
    pub verdict: ScriptDecision,
    pub writes_redirect: bool,
    pub pipe_to_shell: bool,
    pub project: String,
}

impl ScriptCtx {
    /// The context of one command with its table verdict.
    pub fn new(cmd: &SimpleCommand, verdict: Decision, project: &str, pipe_to_shell: bool) -> (r: ScriptCtx)
        ensures
            r.bin@ == (if cmd.words@.len() > 0 { cmd.words@[0]@ } else { Seq::empty() }),
            r.sub@ == (if cmd.words@.len() > 1 { cmd.words@[1]@ } else { Seq::empty() }),
            r.words@ == cmd.words@,
            r.args@ == cmd_args(*cmd),
            r.verdict == script_decision_of(verdict),
            r.writes_redirect == cmd.writes_redirect,
            r.pipe_to_shell == pipe_to_shell,
            r.project@ == project@,
    {
        let bin = match cmd.bin() {
            Some(b) => b.clone(),
            None => String::new(),
        };
        let args = cmd.args();
        let sub = if args.len() > 0 { args[0].clone() } else { String::new() };
        let words = crate::text::copy_vec(&cmd.words);
        ScriptCtx {
            bin,
            sub,
            words,
            args,
            verdict: ScriptDecision::of_decision(verdict),
            writes_redirect: cmd.writes_redirect,
            pipe_to_shell,
            project: owned(project),
        }
    }
}

/// What a script said about one command.
#[derive(Debug, Clone, PartialEq, Eq)]
pub enum ScriptOutcome {
    /// No opinion: the table verdict stands.
    Pass,
    /// Raised to confirm or deny, with the name of the rule that said so.
    Adjust(Decision, Option<String>),
    /// `allow(name)`: allowed only after [`finalize`] checks the declaration.
    Activate(String),
}

/// A script engine (one per layer; Rhai and Lua implement it).
pub trait RuleEngine {
    /// Literal names of the `allow("…")` calls found at load time.
    fn allow_literals(&self) -> &Vec<String>;

    /// The `script_allow` declarations the engine was loaded with.
    fn decls(&self) -> &ScriptAllowDecls;

    /// Evaluates one command. An activation is only a proposal: whether it
    /// allows is decided by [`finalize`].
    fn evaluate(&self, cmd: &SimpleCommand, verdict: Decision, project: &str, pipe_to_shell: bool) -> Result<ScriptOutcome, ScriptError>;
}

// ---------------------------------------------------------------------------
// Return values
// ---------------------------------------------------------------------------

/// A script's return value, taken apart by the engine.
#[derive(Debug, Clone, PartialEq, Eq)]
pub enum ReturnValue {
    /// Lua `nil`.
    Nil,
    /// An `allow(name)` activation token.
    Activation(String),
    /// A `confirm_as(sub)` token.
    ConfirmAs(String),
    /// A `decision` vocabulary constant.
    Vocabulary(ScriptDecision),
    /// A string.
    Text(String),
    /// A string that is not valid UTF-8.
    BadText,
    /// Anything else.
    Other,
}

/// [`ScriptOutcome`] with its strings as character sequences.
pub enum ScriptOutcomeV {
    Pass,
    Adjust(Decision, Option<Seq<char>>),
    Activate(Seq<char>),
}

pub open spec fn outcome_view(o: ScriptOutcome) -> ScriptOutcomeV {
    match o {
        ScriptOutcome::Pass => ScriptOutcomeV::Pass,
        ScriptOutcome::Adjust(d, u) => ScriptOutcomeV::Adjust(d, match u { Some(s) => Some(s@), None => None }),
        ScriptOutcome::Activate(n) => ScriptOutcomeV::Activate(n@),
    }
}

/// The outcome of a decision word returned by the unit `unit` (`named`:
/// the unit carries a name for the audit trail); `None` for a bare allow.
pub open spec fn decision_outcome(d: ScriptDecision, unit: Seq<char>, named: bool) -> Option<ScriptOutcomeV> {
    match d {
        ScriptDecision::Pass => Some(ScriptOutcomeV::Pass),
        ScriptDecision::Allow => None,
        ScriptDecision::Confirm => Some(ScriptOutcomeV::Adjust(Decision::Confirm, if named { Some(unit) } else { None })),
        ScriptDecision::Deny => Some(ScriptOutcomeV::Adjust(Decision::Deny, if named { Some(unit) } else { None })),
    }
}

/// The outcome a return value stands for (`None`: a contract breach).
pub open spec fn return_outcome(v: ReturnValue, unit: Seq<char>, named: bool) -> Option<ScriptOutcomeV> {
    match v {
        ReturnValue::Nil => Some(ScriptOutcomeV::Pass),
        ReturnValue::Activation(n) => Some(ScriptOutcomeV::Activate(n@)),
        ReturnValue::ConfirmAs(s) => Some(ScriptOutcomeV::Adjust(Decision::Confirm, Some(unit + ":"@ + s@))),
        ReturnValue::Vocabulary(d) => decision_outcome(d, unit, named),
        ReturnValue::Text(s) => {
            if exists|d: ScriptDecision| s@ == script_decision_text(d) {
                decision_outcome(choose|d: ScriptDecision| s@ == script_decision_text(d), unit, named)
            } else {
                None
            }
        },
        ReturnValue::BadText => None,
        ReturnValue::Other => None,
    }
}

proof fn lemma_text_injective(a: ScriptDecision, b: ScriptDecision)
    requires
        script_decision_text(a) == script_decision_text(b),
    ensures
        a == b,
{
    reveal_strlit("");
    reveal_strlit("allow");
    reveal_strlit("confirm");
    reveal_strlit("deny");
    assert(script_decision_text(a).len() == script_decision_text(b).len());
    match a {
        ScriptDecision::Allow => { assert(script_decision_text(a).len() == 5); },
        ScriptDecision::Confirm => { assert(script_decision_text(a).len() == 7); },
        ScriptDecision::Deny => { assert(script_decision_text(a).len() == 4); },
        ScriptDecision::Pass => { assert(script_decision_text(a).len() == 0); },
    }
    match b {
        ScriptDecision::Allow => { assert(script_decision_text(b).len() == 5); },
        ScriptDecision::Confirm => { assert(script_decision_text(b).len() == 7); },
        ScriptDecision::Deny => { assert(script_decision_text(b).len() == 4); },
        ScriptDecision::Pass => { assert(script_decision_text(b).len() == 0); },
    }
}

fn bare_allow_error() -> (r: ScriptError)
    ensures
        r is Contract,
{
    ScriptError::Contract(owned("scripts cannot return a bare `allow` (use the declared allow(\"bin\") channel; bare values cannot be reconciled)"))
}

fn decision_result(d: ScriptDecision, unit: &str, named: bool) -> (r: Result<ScriptOutcome, ScriptError>)
    ensures
        match r {
            Ok(o) => decision_outcome(d, unit@, named) == Some(outcome_view(o)),
            Err(e) => decision_outcome(d, unit@, named) is None && e is Contract,
        },
{
    let tag = if named { Some(owned(unit)) } else { None };
    match d {
        ScriptDecision::Pass => Ok(ScriptOutcome::Pass),
        ScriptDecision::Allow => Err(bare_allow_error()),
        ScriptDecision::Confirm => Ok(ScriptOutcome::Adjust(Decision::Confirm, tag)),
        ScriptDecision::Deny => Ok(ScriptOutcome::Adjust(Decision::Deny, tag)),
    }
}

/// Maps a script's return value to its outcome: nil and PASS are no
/// opinion; an activation token proposes `allow(name)`; `confirm_as(sub)`
/// is a named confirm; confirm and deny (constant or equivalent string)
/// raise the verdict; a bare allow and any other value break the contract.
pub fn parse_return(result: ReturnValue, unit: &str, named: bool) -> (r: Result<ScriptOutcome, ScriptError>)
    ensures
        match r {
            Ok(o) => return_outcome(result, unit@, named) == Some(outcome_view(o)),
            Err(e) => return_outcome(result, unit@, named) is None && e is Contract,
        },
{
    match result {
        ReturnValue::Nil => Ok(ScriptOutcome::Pass),
        ReturnValue::Activation(n) => Ok(ScriptOutcome::Activate(n)),
        ReturnValue::ConfirmAs(s) => {
            let tag = cat3(unit, ":", s.as_str());
            Ok(ScriptOutcome::Adjust(Decision::Confirm, Some(tag)))
        },
        ReturnValue::Vocabulary(d) => decision_result(d, unit, named),
        ReturnValue::Text(s) => {
            match ScriptDecision::parse(s.as_str()) {
                Some(d) => {
                    proof {
                        assert(exists|d: ScriptDecision| s@ == script_decision_text(d));
                        let d2 = choose|d: ScriptDecision| s@ == script_decision_text(d);
                        lemma_text_injective(d, d2);
                    }
                    decision_result(d, unit, named)
                },
                None => {
                    let mut m = cat3("check() returned `", s.as_str(), "`; expected one of nil, \"\", confirm, deny, ");
                    m.append("allow(\"bin\")");
                    Err(ScriptError::Contract(m))
                },
            }
        },
        ReturnValue::BadText => Err(ScriptError::Contract(owned("check() returned invalid UTF-8"))),
        ReturnValue::Other => Err(ScriptError::Contract(owned("check() must return a decision value"))),
    }
}

// ---------------------------------------------------------------------------
// script_allow: load-time extraction, reconciliation, run-time check
// ---------------------------------------------------------------------------

/// Run-time check of the `allow(name)` primitive: the name must be declared.
pub fn allow_primitive(decls: &ScriptAllowDecls, name: &str) -> (r: Result<AllowActivation, String>)
    ensures
        match r {
            Ok(a) => decls.scope_spec(name@) is Some && a.0@ == name@,
            Err(_) => decls.scope_spec(name@) is None,
        },
{
    match decls.scope_of(name) {
        Some(_) => Ok(AllowActivation(owned(name))),
        None => {
            let mut m = cat3("allow(\"", name, "\") rejected: `");
            m.append(name);
            m.append("` is not declared in rules.toml `script_allow`");
            Err(m)
        },
    }
}

/// Load-time reconciliation: every extracted `allow("…")` name must be
/// declared; the first undeclared one rejects the script.
pub fn reconcile_allow_literals(extracted: &Vec<String>, decls: &ScriptAllowDecls) -> (r: Result<(), ScriptError>)
    ensures
        r is Ok <==> forall|i: int| 0 <= i < extracted@.len() ==> decls.scope_spec(#[trigger] extracted@[i]@) is Some,
        r matches Err(e) ==> e is Rejected,
{
    let mut i: usize = 0;
    while i < extracted.len()
        invariant
            i <= extracted@.len(),
            forall|k: int| 0 <= k < i ==> decls.scope_spec(#[trigger] extracted@[k]@) is Some,
        decreases extracted@.len() - i,
    {
        let name = extracted[i].as_str();
        if decls.scope_of(name).is_none() {
            let mut m = cat3("script calls allow(\"", name, "\") but `");
            m.append(name);
            m.append("` is not declared in rules.toml `script_allow`; declarations are the only source of allow activations");
            return Err(ScriptError::Rejected(m));
        }
        i = i + 1;
    }
    Ok(())
}

/// Load-time extraction from the calls found in a script's syntax tree
/// (name, literal first argument if any): the literal arguments of the
/// `allow` calls, in order; an `allow` call without a literal argument
/// rejects the script.
pub fn collect_allow_literals(calls: &Vec<(String, Option<String>)>) -> (r: Result<Vec<String>, ScriptError>)
    ensures
        match r {
            Ok(v) => views(v@) == allow_literal_spec(calls@),
            Err(e) => allow_call_without_literal(calls@) && e is Rejected,
        },
{
    let mut out: Vec<String> = Vec::new();
    let mut i: usize = 0;
    proof {
        assert(calls@.take(0) =~= Seq::<(String, Option<String>)>::empty());
    }
    while i < calls.len()
        invariant
            i <= calls@.len(),
            views(out@) == allow_literal_spec(calls@.take(i as int)),
            !allow_call_without_literal(calls@.take(i as int)),
        decreases calls@.len() - i,
    {
        proof {
            assert(calls@.take(i + 1).drop_last() =~= calls@.take(i as int));
        }
        if str_eq(calls[i].0.as_str(), "allow") {
            match &calls[i].1 {
                Some(s) => {
                    let ghost before = views(out@);
                    out.push(s.clone());
                    proof {
                        assert(views(out@) =~= before.push(s@));
                    }
                },
                None => {
                    proof {
                        assert(calls@.take(i + 1)[i as int] == calls@[i as int]);
                        assert(allow_call_without_literal(calls@.take(i + 1)));
                        lemma_without_literal_extends(calls@, i + 1);
                    }
                    return Err(ScriptError::Rejected(owned("`allow()` must be called with a string literal bin name (dynamic names are not statically reconcilable)")));
                },
            }
        }
        i = i + 1;
    }
    proof {
        assert(calls@.take(calls@.len() as int) =~= calls@);
    }
    Ok(out)
}

/// The literal arguments of the `allow` calls.
pub open spec fn allow_literal_spec(calls: Seq<(String, Option<String>)>) -> Seq<Seq<char>>
    decreases calls.len(),
{
    if calls.len() == 0 {
        Seq::empty()
    } else {
        let prev = allow_literal_spec(calls.drop_last());
        let c = calls.last();
        if c.0@ == "allow"@ && c.1 is Some {
            prev.push(c.1->0@)
        } else {
            prev
        }
    }
}

/// Some `allow` call has no literal argument.
pub open spec fn allow_call_without_literal(calls: Seq<(String, Option<String>)>) -> bool {
    exists|i: int| 0 <= i < calls.len() && (#[trigger] calls[i]).0@ == "allow"@ && calls[i].1 is None
}

proof fn lemma_without_literal_extends(calls: Seq<(String, Option<String>)>, n: int)
    requires
        0 <= n <= calls.len(),
        allow_call_without_literal(calls.take(n)),
    ensures
        allow_call_without_literal(calls),
{
    let i = choose|i: int| 0 <= i < calls.take(n).len() && (#[trigger] calls.take(n)[i]).0@ == "allow"@ && calls.take(n)[i].1 is None;
    assert(calls[i] == calls.take(n)[i]);
}

// ---------------------------------------------------------------------------
// Finalisation
// ---------------------------------------------------------------------------

/// The final decision of a command after the script: deny is final; PASS
/// keeps the table decision; an adjustment replaces it; an activation is
/// allowed for a global declaration, for a local one only when no argument
/// escapes the project (else confirm), and is confirm without declaration.
pub open spec fn finalize_decision(initial: Decision, outcome: ScriptOutcomeV, scope: Option<DeclScope>, escapes: bool) -> Decision {
    match outcome {
        ScriptOutcomeV::Pass => initial,
        ScriptOutcomeV::Adjust(d, _) => if initial == Decision::Deny { Decision::Deny } else { d },
        ScriptOutcomeV::Activate(_) => {
            if initial == Decision::Deny {
                Decision::Deny
            } else {
                match scope {
                    Some(DeclScope::Global) => Decision::Allow,
                    Some(DeclScope::Local) => if escapes { Decision::Confirm } else { Decision::Allow },
                    None => Decision::Confirm,
                }
            }
        },
    }
}

/// The reason that [`finalize`] gives with its decision.
pub open spec fn finalize_reason(initial: Decision, outcome: ScriptOutcomeV, scope: Option<DeclScope>, escapes: bool) -> Option<Seq<char>> {
    match outcome {
        ScriptOutcomeV::Pass => None,
        ScriptOutcomeV::Adjust(_, unit) => if initial == Decision::Deny {
            Some("script outcome discarded: deny is final"@)
        } else {
            match unit {
                Some(u) => Some("adjusted by rules.rhai ("@ + u + ")"@),
                None => Some("adjusted by rules.rhai"@),
            }
        },
        ScriptOutcomeV::Activate(n) => if initial == Decision::Deny {
            Some("allow(\""@ + n + "\") activation discarded: deny is final"@)
        } else {
            match scope {
                Some(DeclScope::Global) => Some("allow(\""@ + n + "\") activated (global declaration)"@),
                Some(DeclScope::Local) => if escapes {
                    Some("allow(\""@ + n + "\") activation downgraded: path escapes repository"@)
                } else {
                    Some("allow(\""@ + n + "\") activated (local declaration; args inside repo)"@)
                },
                None => Some("allow activation without declaration; fail-safe"@),
            }
        },
    }
}

/// The declaration scope that an outcome's activation refers to.
pub open spec fn activation_scope(decls: ScriptAllowDecls, outcome: ScriptOutcomeV) -> Option<DeclScope> {
    match outcome {
        ScriptOutcomeV::Activate(n) => decls.scope_spec(n),
        _ => None,
    }
}

/// The finalisation point: the only place where a verdict can become allow.
/// Returns the final decision and the reason for the log.
pub fn finalize(
    initial: Decision,
    outcome: ScriptOutcome,
    decls: &ScriptAllowDecls,
    cmd: &SimpleCommand,
    project: &str,
    home: Option<&str>,
) -> (r: (Decision, Option<String>))
    ensures
        r.0 == finalize_decision(
            initial,
            outcome_view(outcome),
            activation_scope(*decls, outcome_view(outcome)),
            args_escape(cmd_args(*cmd), project@, match home { Some(h) => Some(h@), None => None }),
        ),
        outcome is Pass ==> r.1 is None,
        match r.1 {
            Some(m) => Some(m@),
            None => None,
        } == finalize_reason(
            initial,
            outcome_view(outcome),
            activation_scope(*decls, outcome_view(outcome)),
            args_escape(cmd_args(*cmd), project@, match home { Some(h) => Some(h@), None => None }),
        ),
{
    match outcome {
        ScriptOutcome::Pass => (initial, None),
        ScriptOutcome::Adjust(d, unit) => {
            if initial == Decision::Deny {
                (Decision::Deny, Some(owned("script outcome discarded: deny is final")))
            } else {
                let reason = match unit {
                    Some(u) => cat3("adjusted by rules.rhai (", u.as_str(), ")"),
                    None => owned("adjusted by rules.rhai"),
                };
                (d, Some(reason))
            }
        },
        ScriptOutcome::Activate(name) => {
            if initial == Decision::Deny {
                return (Decision::Deny, Some(cat3("allow(\"", name.as_str(), "\") activation discarded: deny is final")));
            }
            match decls.scope_of(name.as_str()) {
                Some(DeclScope::Global) => (Decision::Allow, Some(cat3("allow(\"", name.as_str(), "\") activated (global declaration)"))),
                Some(DeclScope::Local) => {
                    let args = cmd.args();
                    let mut escapes = false;
                    let mut i: usize = 0;
                    while i < args.len()
                        invariant
                            i <= args@.len(),
                            args@ == cmd_args(*cmd),
                            escapes == exists|k: int| 0 <= k < i && crate::cmd_parse::path_escapes_spec(#[trigger] args@[k]@, project@, match home { Some(h) => Some(h@), None => None }),
                        decreases args@.len() - i,
                    {
                        if path_escapes(args[i].as_str(), project, home) {
                            escapes = true;
                        }
                        i = i + 1;
                    }
                    if escapes {
                        (Decision::Confirm, Some(cat3("allow(\"", name.as_str(), "\") activation downgraded: path escapes repository")))
                    } else {
                        (Decision::Allow, Some(cat3("allow(\"", name.as_str(), "\") activated (local declaration; args inside repo)")))
                    }
                },
                None => (Decision::Confirm, Some(owned("allow activation without declaration; fail-safe"))),
            }
        },
    }
}

// ---------------------------------------------------------------------------
// The chain of script layers
// ---------------------------------------------------------------------------

/// The script layers in run order (user, then project); each layer's output
/// is the next layer's input.
pub struct ScriptChain<E: RuleEngine> {
    pub engines: Vec<(&'static str, E)>,
}

/// The state of a chain after one more layer (tag `tag`): the finalised
/// decision; the layer is recorded when it activated or changed the
/// decision; its reason replaces the earlier one when it gives one.
pub open spec fn chain_step(
    st: (Decision, Option<&'static str>, Option<Seq<char>>),
    tag: &'static str,
    o: ScriptOutcomeV,
    scope: Option<DeclScope>,
    escapes: bool,
) -> (Decision, Option<&'static str>, Option<Seq<char>>) {
    let d = finalize_decision(st.0, o, scope, escapes);
    let rr = finalize_reason(st.0, o, scope, escapes);
    (d, if o is Activate || d != st.0 { Some(tag) } else { st.1 }, if rr is Some { rr } else { st.2 })
}

/// The state after the first `n` layers, whose tags, outcomes and
/// activation scopes are given.
pub open spec fn chain_state(
    tags: Seq<&'static str>,
    os: Seq<ScriptOutcomeV>,
    scopes: Seq<Option<DeclScope>>,
    initial: Decision,
    escapes: bool,
    n: nat,
) -> (Decision, Option<&'static str>, Option<Seq<char>>)
    decreases n,
{
    if n == 0 {
        (initial, None, None)
    } else {
        chain_step(chain_state(tags, os, scopes, initial, escapes, (n - 1) as nat), tags[n - 1], os[n - 1], scopes[n - 1], escapes)
    }
}

/// The state after `n` layers depends only on the first `n` outcomes.
proof fn lemma_chain_state_prefix(
    tags: Seq<&'static str>,
    o1: Seq<ScriptOutcomeV>,
    s1: Seq<Option<DeclScope>>,
    o2: Seq<ScriptOutcomeV>,
    s2: Seq<Option<DeclScope>>,
    initial: Decision,
    escapes: bool,
    n: nat,
)
    requires
        n <= o1.len() && n <= s1.len() && o1.len() <= o2.len() && s1.len() <= s2.len(),
        forall|i: int| 0 <= i < o1.len() ==> o1[i] == o2[i],
        forall|i: int| 0 <= i < s1.len() ==> s1[i] == s2[i],
    ensures
        chain_state(tags, o2, s2, initial, escapes, n) == chain_state(tags, o1, s1, initial, escapes, n),
    decreases n,
{
    if n > 0 {
        lemma_chain_state_prefix(tags, o1, s1, o2, s2, initial, escapes, (n - 1) as nat);
    }
}

/// The activation scopes of outcomes under the declarations of their layers.
pub open spec fn outcome_scopes(os: Seq<ScriptOutcome>, ds: Seq<ScriptAllowDecls>) -> Seq<Option<DeclScope>> {
    Seq::new(os.len(), |i: int| activation_scope(ds[i], outcome_view(os[i])))
}

pub open spec fn outcome_views(os: Seq<ScriptOutcome>) -> Seq<ScriptOutcomeV> {
    os.map_values(|o: ScriptOutcome| outcome_view(o))
}

/// `r` is the evaluation of the chain: the layers ran in order, each on the
/// decision the earlier ones left, giving outcomes `os` with declarations
/// `ds`; the result is the state after all of them, or the error of the
/// first layer that failed.
pub open spec fn chain_evaluated<E: RuleEngine>(
    c: ScriptChain<E>,
    cmd: SimpleCommand,
    initial: Decision,
    project: &str,
    pipe: bool,
    escapes: bool,
    os: Seq<ScriptOutcome>,
    ds: Seq<ScriptAllowDecls>,
    r: Result<(Decision, Option<&'static str>, Option<String>), ScriptError>,
) -> bool {
    let tags = c.engines@.map_values(|e: (&'static str, E)| e.0);
    let n = os.len();
    &&& ds.len() == n && n <= c.engines@.len()
    &&& forall|i: int| 0 <= i < n ==> call_ensures(E::evaluate, (&c.engines@[i].1, &cmd,
        chain_state(tags, outcome_views(os), outcome_scopes(os, ds), initial, escapes, i as nat).0, project, pipe), Ok(#[trigger] os[i]))
    &&& forall|i: int| 0 <= i < n ==> call_ensures(E::decls, (&c.engines@[i].1,), &#[trigger] ds[i])
    &&& (r matches Ok(t) ==> n == c.engines@.len()
        && (t.0, t.1, match t.2 { Some(x) => Some(x@), None => None }) == chain_state(tags, outcome_views(os), outcome_scopes(os, ds), initial, escapes, n))
    &&& (r matches Err(e) ==> n < c.engines@.len() && call_ensures(E::evaluate, (&c.engines@[n as int].1, &cmd,
        chain_state(tags, outcome_views(os), outcome_scopes(os, ds), initial, escapes, n).0, project, pipe), Err(e)))
}

impl<E: RuleEngine> ScriptChain<E> {
    pub fn new(engines: Vec<(&'static str, E)>) -> (r: ScriptChain<E>)
        ensures
            r.engines@ == engines@,
    {
        ScriptChain { engines }
    }

    /// Runs every layer in order; an error of any layer is an error of the
    /// chain. Returns the final decision, the label of the last layer that
    /// activated or changed the decision, and the last reason given.
    pub fn evaluate(&self, cmd: &SimpleCommand, initial: Decision, project: &str, home: Option<&str>, pipe_to_shell: bool) -> (r: Result<(Decision, Option<&'static str>, Option<String>), ScriptError>)
        ensures
            initial == Decision::Deny ==> (r matches Ok(t) ==> t.0 == Decision::Deny),
            r matches Ok(t) ==> (t.1 is None ==> t.0 == initial),
            self.engines@.len() == 0 ==> (r matches Ok(t) && t.0 == initial && t.1 is None && t.2 is None),
            exists|os: Seq<ScriptOutcome>, ds: Seq<ScriptAllowDecls>| #[trigger] chain_evaluated(*self, *cmd, initial, project, pipe_to_shell,
                args_escape(cmd_args(*cmd), project@, crate::config::discover::opt_text(home)), os, ds, r),
    {
        let ghost escapes = args_escape(cmd_args(*cmd), project@, match home { Some(h) => Some(h@), None => None });
        let ghost tags = self.engines@.map_values(|e: (&'static str, E)| e.0);
        let ghost mut os: Seq<ScriptOutcome> = Seq::empty();
        let ghost mut ds: Seq<ScriptAllowDecls> = Seq::empty();
        let mut current = initial;
        let mut layer: Option<&'static str> = None;
        let mut reason: Option<String> = None;
        let mut i: usize = 0;
        while i < self.engines.len()
            invariant
                i <= self.engines@.len(),
                initial == Decision::Deny ==> current == Decision::Deny,
                layer is None ==> current == initial,
                i == 0 ==> layer is None && reason is None,
                os.len() == i && ds.len() == i,
                escapes == args_escape(cmd_args(*cmd), project@, match home { Some(h) => Some(h@), None => None }),
                tags == self.engines@.map_values(|e: (&'static str, E)| e.0),
                (current, layer, match reason { Some(x) => Some(x@), None => None })
                    == chain_state(tags, outcome_views(os), outcome_scopes(os, ds), initial, escapes, i as nat),
                forall|k: int| 0 <= k < i ==> call_ensures(E::evaluate, (&self.engines@[k].1, cmd,
                    chain_state(tags, outcome_views(os), outcome_scopes(os, ds), initial, escapes, k as nat).0, project, pipe_to_shell), Ok(#[trigger] os[k])),
                forall|k: int| 0 <= k < i ==> call_ensures(E::decls, (&self.engines@[k].1,), &#[trigger] ds[k]),
            decreases self.engines@.len() - i,
        {
            let tag = self.engines[i].0;
            let engine = &self.engines[i].1;
            let res = engine.evaluate(cmd, current, project, pipe_to_shell);
            proof {
                assert(call_ensures(E::evaluate, (engine, cmd, current, project, pipe_to_shell), res));
            }
            let outcome = match res {
                Ok(o) => o,
                Err(e) => {
                    proof {
                        assert(chain_evaluated(*self, *cmd, initial, project, pipe_to_shell, escapes, os, ds, Err(e)));
                    }
                    return Err(e);
                },
            };
            let activate = match &outcome {
                ScriptOutcome::Activate(_) => true,
                _ => false,
            };
            let ghost ov = outcome;
            let dl = engine.decls();
            proof {
                assert(call_ensures(E::decls, (engine,), dl));
            }
            let ghost old_os = os;
            let ghost old_ds = ds;
            let ghost st = chain_state(tags, outcome_views(os), outcome_scopes(os, ds), initial, escapes, i as nat);
            let (d, r) = finalize(current, outcome, dl, cmd, project, home);
            if activate || d != current {
                layer = Some(tag);
            }
            if r.is_some() {
                reason = r;
            }
            current = d;
            proof {
                os = os.push(ov);
                ds = ds.push(*dl);
                assert(outcome_views(os) =~= outcome_views(old_os).push(outcome_view(ov)));
                assert(outcome_scopes(os, ds) =~= outcome_scopes(old_os, old_ds).push(activation_scope(*dl, outcome_view(ov))));
                assert forall|n: nat| n <= i implies chain_state(tags, outcome_views(os), outcome_scopes(os, ds), initial, escapes, n)
                    == chain_state(tags, outcome_views(old_os), outcome_scopes(old_os, old_ds), initial, escapes, n) by {
                    lemma_chain_state_prefix(tags, outcome_views(old_os), outcome_scopes(old_os, old_ds), outcome_views(os), outcome_scopes(os, ds), initial, escapes, n);
                }
                assert(tags[i as int] == tag);
                assert(outcome_views(os)[i as int] == outcome_view(ov));
                assert(outcome_scopes(os, ds)[i as int] == activation_scope(*dl, outcome_view(ov)));
            }
            i = i + 1;
        }
        let r = Ok((current, layer, reason));
        proof {
            assert(chain_evaluated(*self, *cmd, initial, project, pipe_to_shell, escapes, os, ds, r));
        }
        r
    }

    /// Union of the `allow("…")` literals of every layer, first occurrence
    /// first (the data source of the dead-declaration lint).
    pub fn allow_literals(&self) -> (r: Vec<String>)
        ensures
            forall|a: int, b: int| 0 <= a < b < r@.len() ==> (#[trigger] r@[a])@ != (#[trigger] r@[b])@,
            exists|ls: Seq<Vec<String>>| #![trigger literals_of(ls)] ls.len() == self.engines@.len()
                && (forall|i: int| 0 <= i < ls.len() ==> call_ensures(E::allow_literals, (&self.engines@[i].1,), &#[trigger] ls[i]))
                && views(r@) == dedup(literals_of(ls)),
    {
        let mut out: Vec<String> = Vec::new();
        let ghost mut ls: Seq<Vec<String>> = Seq::empty();
        let mut i: usize = 0;
        while i < self.engines.len()
            invariant
                i <= self.engines@.len(),
                ls.len() == i,
                forall|j: int| 0 <= j < ls.len() ==> call_ensures(E::allow_literals, (&self.engines@[j].1,), &#[trigger] ls[j]),
                views(out@) == dedup(literals_of(ls)),
                forall|a: int, b: int| 0 <= a < b < out@.len() ==> (#[trigger] out@[a])@ != (#[trigger] out@[b])@,
            decreases self.engines@.len() - i,
        {
            let lits = self.engines[i].1.allow_literals();
            let ghost base = literals_of(ls);
            let mut k: usize = 0;
            proof {
                assert(views(lits@.take(0)) =~= Seq::<Seq<char>>::empty());
                assert(base + views(lits@.take(0)) =~= base);
            }
            while k < lits.len()
                invariant
                    k <= lits@.len(),
                    views(out@) == dedup(base + views(lits@.take(k as int))),
                    forall|a: int, b: int| 0 <= a < b < out@.len() ==> (#[trigger] out@[a])@ != (#[trigger] out@[b])@,
                decreases lits@.len() - k,
            {
                let ghost s1 = base + views(lits@.take(k + 1));
                proof {
                    assert(s1.drop_last() =~= base + views(lits@.take(k as int)));
                    assert(s1.last() == lits@[k as int]@);
                }
                if !vec_has(&out, lits[k].as_str()) {
                    let ghost before = out@;
                    out.push(lits[k].clone());
                    proof {
                        assert(views(out@) =~= views(before).push(lits@[k as int]@));
                        assert forall|a: int, b: int| 0 <= a < b < out@.len() implies (#[trigger] out@[a])@ != (#[trigger] out@[b])@ by {
                            if b == out@.len() - 1 {
                                assert(views(before)[a] == before[a]@);
                            }
                        }
                    }
                }
                k = k + 1;
            }
            proof {
                assert(lits@.take(lits@.len() as int) =~= lits@);
                let ghost old_ls = ls;
                ls = ls.push(*lits);
                assert(ls.drop_last() =~= old_ls);
                assert(literals_of(ls) == base + views(lits@));
            }
            i = i + 1;
        }
        out
    }
}

/// The literals of each layer, one layer after the other.
pub open spec fn literals_of(ls: Seq<Vec<String>>) -> Seq<Seq<char>>
    decreases ls.len(),
{
    if ls.len() == 0 {
        Seq::empty()
    } else {
        literals_of(ls.drop_last()) + views(ls.last()@)
    }
}

// ---------------------------------------------------------------------------
// Declarative rules: `rule(name, priority, fn)`
// ---------------------------------------------------------------------------

/// `s` without trailing white space.
pub open spec fn drop_ws_end(s: Seq<char>) -> Seq<char>
    decreases s.len(),
{
    if s.len() > 0 && crate::engine::is_ws(s.last()) { drop_ws_end(s.drop_last()) } else { s }
}

/// `str::trim`: leading and trailing white space removed.
pub open spec fn trim_spec(s: Seq<char>) -> Seq<char> {
    drop_ws_end(crate::engine::drop_ws(s))
}

/// `s` trimmed of white space at both ends.
pub fn trim_ws(s: &str) -> (r: String)
    ensures
        r@ == trim_spec(s@),
{
    let n = s.unicode_len();
    let mut lo: usize = 0;
    proof {
        assert(s@.subrange(0, n as int) =~= s@);
    }
    while lo < n && crate::engine::is_ws_exec(s.get_char(lo))
        invariant
            n == s@.len(),
            lo <= n,
            crate::engine::drop_ws(s@) == crate::engine::drop_ws(s@.subrange(lo as int, n as int)),
        decreases n - lo,
    {
        proof {
            assert(s@.subrange(lo as int, n as int).drop_first() =~= s@.subrange(lo + 1, n as int));
        }
        lo = lo + 1;
    }
    let mut hi: usize = n;
    while hi > lo && crate::engine::is_ws_exec(s.get_char(hi - 1))
        invariant
            n == s@.len(),
            lo <= hi <= n,
            trim_spec(s@) == drop_ws_end(s@.subrange(lo as int, hi as int)),
        decreases hi - lo,
    {
        proof {
            assert(s@.subrange(lo as int, hi as int).drop_last() =~= s@.subrange(lo as int, hi - 1));
        }
        hi = hi - 1;
    }
    crate::text::substring(s, lo, hi)
}

/// Why `rule(name, priority, fn)` is refused, if it is: an empty (trimmed)
/// name, a negative priority, a name already registered, or too many rules.
pub open spec fn rule_refusal(names: Seq<Seq<char>>, name: Seq<char>, priority: i64) -> Option<int> {
    let n = trim_spec(name);
    if n.len() == 0 {
        Some(0)
    } else if priority < 0 {
        Some(1)
    } else if names.contains(n) {
        Some(2)
    } else if names.len() >= MAX_RULES {
        Some(3)
    } else {
        None
    }
}

/// The refusal of a script without an entry point.
pub open spec fn no_entry_point_text(file: Seq<char>) -> Seq<char> {
    file + " must define `check(ctx)` or register rules via `rule(name, priority, fn)`"@
}

/// A compiled script needs an entry point: a `check(ctx)` function or at
/// least one registered rule. Without one, a Lua script (`rules.lua`) fails
/// to compile; a Rhai script (`rules.rhai`) is rejected.
pub fn check_entry_points(has_check: bool, rule_count: usize, lua: bool) -> (r: Result<(), ScriptError>)
    ensures
        r is Ok <==> (has_check || rule_count > 0),
        !(has_check || rule_count > 0) && lua ==> (r matches Err(ScriptError::Compile(m))
            && m@ == no_entry_point_text("rules.lua"@)),
        !(has_check || rule_count > 0) && !lua ==> (r matches Err(ScriptError::Rejected(m))
            && m@ == no_entry_point_text("rules.rhai"@)),
{
    if has_check || rule_count > 0 {
        Ok(())
    } else if lua {
        Err(ScriptError::Compile(cat("rules.lua", " must define `check(ctx)` or register rules via `rule(name, priority, fn)`")))
    } else {
        Err(ScriptError::Rejected(cat("rules.rhai", " must define `check(ctx)` or register rules via `rule(name, priority, fn)`")))
    }
}

/// Checks a rule registration against the names registered so far; on
/// success returns the trimmed name to register.
pub fn check_rule_registration(names: &Vec<String>, name: &str, priority: i64) -> (r: Result<String, String>)
    ensures
        match r {
            Ok(n) => rule_refusal(views(names@), name@, priority) is None && n@ == trim_spec(name@),
            Err(_) => rule_refusal(views(names@), name@, priority) is Some,
        },
{
    let n = trim_ws(name);
    if n.unicode_len() == 0 {
        return Err(owned("rule() name must not be empty"));
    }
    if priority < 0 {
        return Err(cat3("rule(\"", n.as_str(), "\") priority must be >= 0"));
    }
    if vec_has(names, n.as_str()) {
        return Err(cat3("duplicate rule name `", n.as_str(), "`"));
    }
    if names.len() >= MAX_RULES {
        return Err(owned("too many rules"));
    }
    Ok(n)
}

/// Positions of the rules in run order: ascending priority, registration
/// order among equal priorities (a stable sort).
pub fn rule_order(priorities: &Vec<i64>) -> (r: Vec<usize>)
    ensures
        r@.len() == priorities@.len(),
        forall|i: int| 0 <= i < r@.len() ==> (#[trigger] r@[i]) < priorities@.len(),
        forall|i: int, j: int| 0 <= i < j < r@.len() ==> r@[i] != r@[j],
        forall|i: int, j: int| 0 <= i < j < r@.len() ==> priorities@[r@[i] as int] < priorities@[r@[j] as int]
            || (priorities@[r@[i] as int] == priorities@[r@[j] as int] && r@[i] < r@[j]),
{
    let mut out: Vec<usize> = Vec::new();
    let mut k: usize = 0;
    while k < priorities.len()
        invariant
            k <= priorities@.len(),
            out@.len() == k,
            forall|i: int| 0 <= i < out@.len() ==> (#[trigger] out@[i]) < k,
            forall|i: int, j: int| 0 <= i < j < out@.len() ==> out@[i] != out@[j],
            forall|i: int, j: int| 0 <= i < j < out@.len() ==> priorities@[out@[i] as int] < priorities@[out@[j] as int]
                || (priorities@[out@[i] as int] == priorities@[out@[j] as int] && out@[i] < out@[j]),
        decreases priorities@.len() - k,
    {
        // insert k after every entry with priority <= its own
        let p = priorities[k];
        let mut at: usize = out.len();
        while at > 0 && priorities[out[at - 1]] > p
            invariant
                at <= out@.len(),
                out@.len() == k,
                forall|i: int| 0 <= i < out@.len() ==> (#[trigger] out@[i]) < k,
                k < priorities@.len(),
                p == priorities@[k as int],
                forall|i: int| at <= i < out@.len() ==> priorities@[(#[trigger] out@[i]) as int] > p,
            decreases at,
        {
            at = at - 1;
        }
        proof {
            if at > 0 {
                assert(priorities@[out@[at - 1] as int] <= p);
            }
        }
        let ghost before = out@;
        out.insert(at, k);
        proof {
            assert forall|i: int| 0 <= i < out@.len() implies (#[trigger] out@[i]) < k + 1 by {
                if i < at { assert(out@[i] == before[i]); } else if i > at { assert(out@[i] == before[i - 1]); }
            }
            assert forall|i: int, j: int| 0 <= i < j < out@.len() implies out@[i] != out@[j] by {
                if i < at { assert(out@[i] == before[i]); } else if i > at { assert(out@[i] == before[i - 1]); }
                if j < at { assert(out@[j] == before[j]); } else if j > at { assert(out@[j] == before[j - 1]); }
            }
            assert forall|i: int, j: int| 0 <= i < j < out@.len() implies priorities@[out@[i] as int] < priorities@[out@[j] as int]
                || (priorities@[out@[i] as int] == priorities@[out@[j] as int] && out@[i] < out@[j]) by {
                if i < at && j < at {
                    assert(out@[i] == before[i] && out@[j] == before[j]);
                } else if i < at && j == at {
                    assert(out@[i] == before[i]);
                    if i < at - 1 {
                        let q = at - 1;
                        assert(before[q] == out@[q]);
                    }
                } else if i < at && j > at {
                    assert(out@[i] == before[i] && out@[j] == before[j - 1]);
                } else if i == at && j > at {
                    assert(out@[j] == before[j - 1]);
                } else {
                    assert(out@[i] == before[i - 1] && out@[j] == before[j - 1]);
                }
            }
        }
        k = k + 1;
    }
    out
}

// ---------------------------------------------------------------------------
// Laws
// ---------------------------------------------------------------------------

/// Deny is final: whatever a script returns, a table deny stays deny.
pub proof fn law_deny_is_final(outcome: ScriptOutcomeV, scope: Option<DeclScope>, escapes: bool)
    ensures
        finalize_decision(Decision::Deny, outcome, scope, escapes) == Decision::Deny,
{
}

/// A script cannot allow on its own: a decision that becomes allow after
/// the script comes from an activation of a declared name, and for a local
/// declaration only when no argument escapes the project.
pub proof fn law_allow_needs_declaration(initial: Decision, outcome: ScriptOutcomeV, scope: Option<DeclScope>, escapes: bool)
    requires
        initial != Decision::Allow,
        outcome !is Adjust || outcome->Adjust_0 != Decision::Allow,
        finalize_decision(initial, outcome, scope, escapes) == Decision::Allow,
    ensures
        outcome is Activate,
        scope is Some,
        scope == Some(DeclScope::Local) ==> !escapes,
{
}

/// No return value of a script maps to an adjustment to allow: allowing
/// goes through the declared `allow(name)` channel only.
pub proof fn law_no_return_adjusts_to_allow(v: ReturnValue, unit: Seq<char>, named: bool)
    ensures
        !(return_outcome(v, unit, named) matches Some(ScriptOutcomeV::Adjust(d, _)) && d == Decision::Allow),
{
    match v {
        ReturnValue::Text(s) => {
            if exists|d: ScriptDecision| s@ == script_decision_text(d) {
                let d = choose|d: ScriptDecision| s@ == script_decision_text(d);
                match d {
                    ScriptDecision::Allow => {},
                    ScriptDecision::Confirm => {},
                    ScriptDecision::Deny => {},
                    ScriptDecision::Pass => {},
                }
            }
        },
        _ => {},
    }
}

} // verus!
