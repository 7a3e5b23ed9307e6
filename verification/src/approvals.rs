//! The learning side of the suggest command. The execution log and the
//! decision log are read line by line; a confirmed decision counts when a
//! successful execution of the same call follows it (same session and tool
//! use, or else the same command within ten minutes); the counts per cause
//! that reach the threshold become candidates, ranked by count, and each
//! candidate becomes a paste-ready entry or a line of the skip list.
use vstd::prelude::*;
use crate::knowledge::KnowledgeBase;
use crate::json::{json_bool_at, json_bool_at_spec, json_string_at, json_string_at_spec};
use crate::service::cause_spec;
use crate::report::{pad_right, pad_right_exec};
use crate::suggest::{
    build_suggestion, cause_of, kb_skip_fact, parse_rfc3339, parse_rfc3339_spec, skip_fact_spec, skip_subject, skip_subject_spec,
    split_at_char, split_char, suggestion_spec, suggestion_view, words_of, ws_words, SkipReason, SuggestOptions, Suggestion,
    SuggestionV,
};
use crate::text::{cat, cat3, decimal, lemma_insert_sorted, lemma_seq_lt_order, lemma_seq_lt_trans, owned, seq_lt, str_eq, str_lt, substring, u64_decimal};

verus! {

/// An approval followed by an execution this many seconds later or less is
/// the same call (when the logs carry no call ids).
pub const FALLBACK_WINDOW_SECS: u64 = 600;

// ---------------------------------------------------------------------------
// Lines of a log
// ---------------------------------------------------------------------------

/// A line without the `\r` of a `\r\n` ending.
pub open spec fn strip_cr(l: Seq<char>) -> Seq<char> {
    if l.len() > 0 && l.last() == '\r' { l.drop_last() } else { l }
}

/// The lines of a text as `str::lines` gives them: split at `\n`, a `\r`
/// before the `\n` dropped, no empty line after a final `\n`.
pub open spec fn text_lines(s: Seq<char>) -> Seq<Seq<char>> {
    let p = split_char(s, '\n');
    let ended = p.drop_last().map_values(|l: Seq<char>| strip_cr(l));
    if p.last().len() == 0 { ended } else { ended.push(p.last()) }
}

proof fn lemma_split_char_nonempty(s: Seq<char>, c: char)
    ensures
        split_char(s, c).len() >= 1,
    decreases s.len(),
{
    if s.len() > 0 {
        lemma_split_char_nonempty(s.drop_last(), c);
    }
}

fn strip_cr_exec(l: &str) -> (r: String)
    ensures
        r@ == strip_cr(l@),
{
    let n = l.unicode_len();
    if n > 0 && l.get_char(n - 1) == '\r' {
        substring(l, 0, n - 1)
    } else {
        owned(l)
    }
}

/// The lines of a text (see [`text_lines`]).
pub fn lines_of(text: &str) -> (r: Vec<String>)
    ensures
        r@.len() == text_lines(text@).len(),
        forall|i: int| 0 <= i < r@.len() ==> (#[trigger] r@[i])@ == text_lines(text@)[i],
{
    let pieces = split_at_char(text, '\n');
    proof {
        lemma_split_char_nonempty(text@, '\n');
    }
    let ghost p = split_char(text@, '\n');
    let n = pieces.len();
    let mut out: Vec<String> = Vec::new();
    let mut i: usize = 0;
    while i + 1 < n
        invariant
            n == pieces@.len(),
            n == p.len(),
            n >= 1,
            i + 1 <= n,
            forall|k: int| 0 <= k < n ==> (#[trigger] pieces@[k])@ == p[k],
            out@.len() == i,
            forall|k: int| 0 <= k < i ==> (#[trigger] out@[k])@ == strip_cr(p[k]),
        decreases n - i,
    {
        let l = strip_cr_exec(pieces[i].as_str());
        out.push(l);
        i = i + 1;
    }
    let last = &pieces[n - 1];
    if last.unicode_len() > 0 {
        out.push(owned(last.as_str()));
    }
    proof {
        let ended = p.drop_last().map_values(|l: Seq<char>| strip_cr(l));
        assert(ended.len() == n - 1);
        assert forall|k: int| 0 <= k < n - 1 implies (#[trigger] out@[k])@ == ended[k] by {}
    }
    out
}

/// The values of the `Some` entries, in order.
pub open spec fn somes<T>(s: Seq<Option<T>>) -> Seq<T>
    decreases s.len(),
{
    if s.len() == 0 {
        Seq::empty()
    } else {
        let p = somes(s.drop_last());
        match s.last() {
            Some(x) => p.push(x),
            None => p,
        }
    }
}

pub open spec fn opt_view(o: Option<String>) -> Option<Seq<char>> {
    match o {
        Some(s) => Some(s@),
        None => None,
    }
}

pub open spec fn or_empty(o: Option<Seq<char>>) -> Seq<char> {
    match o {
        Some(s) => s,
        None => Seq::empty(),
    }
}

/// The timestamp of a log line: the `ts` string read as RFC 3339.
pub open spec fn line_ts(line: Seq<char>) -> Option<u64> {
    match json_string_at_spec(line, "/ts"@) {
        Some(t) => parse_rfc3339_spec(t),
        None => None,
    }
}

fn line_ts_exec(line: &str) -> (r: Option<u64>)
    ensures
        r == line_ts(line@),
{
    match json_string_at(line, "/ts") {
        Some(t) => parse_rfc3339(t.as_str()),
        None => None,
    }
}

fn string_or_empty(line: &str, pointer: &str) -> (r: String)
    ensures
        r@ == or_empty(json_string_at_spec(line@, pointer@)),
{
    match json_string_at(line, pointer) {
        Some(s) => s,
        None => {
            proof {
                reveal_strlit("");
            }
            owned("")
        },
    }
}

// ---------------------------------------------------------------------------
// Execution records
// ---------------------------------------------------------------------------

/// One line of the execution log.
#[derive(Debug, Clone, PartialEq, Eq)]
pub struct ExecRecord {
    /// Seconds since the epoch.
    pub ts: u64,
    pub session_id: Option<String>,
    pub tool_use_id: Option<String>,
    pub command: String,
    /// `None` when the agent could not tell.
    pub success: Option<bool>,
}

pub struct ExecV {
    pub ts: u64,
    pub session_id: Option<Seq<char>>,
    pub tool_use_id: Option<Seq<char>>,
    pub command: Seq<char>,
    pub success: Option<bool>,
}

impl View for ExecRecord {
    type V = ExecV;

    open spec fn view(&self) -> ExecV {
        ExecV {
            ts: self.ts,
            session_id: opt_view(self.session_id),
            tool_use_id: opt_view(self.tool_use_id),
            command: self.command@,
            success: self.success,
        }
    }
}

/// The execution record of a log line: `None` without a readable `ts`.
pub open spec fn exec_of_line(line: Seq<char>) -> Option<ExecV> {
    match line_ts(line) {
        Some(ts) => Some(ExecV {
            ts,
            session_id: json_string_at_spec(line, "/session_id"@),
            tool_use_id: json_string_at_spec(line, "/tool_use_id"@),
            command: or_empty(json_string_at_spec(line, "/command"@)),
            success: json_bool_at_spec(line, "/success"@),
        }),
        None => None,
    }
}

/// The execution record of one log line (see [`exec_of_line`]).
pub fn exec_record_of_line(line: &str) -> (r: Option<ExecRecord>)
    ensures
        match r {
            Some(e) => exec_of_line(line@) == Some(e@),
            None => exec_of_line(line@) is None,
        },
{
    let ts = match line_ts_exec(line) {
        Some(t) => t,
        None => {
            return None;
        },
    };
    Some(ExecRecord {
        ts,
        session_id: json_string_at(line, "/session_id"),
        tool_use_id: json_string_at(line, "/tool_use_id"),
        command: string_or_empty(line, "/command"),
        success: json_bool_at(line, "/success"),
    })
}

pub open spec fn exec_views(v: Seq<ExecRecord>) -> Seq<ExecV> {
    v.map_values(|e: ExecRecord| e@)
}

/// The records of the readable lines of an execution log, in order.
pub fn exec_records(text: &str) -> (r: Vec<ExecRecord>)
    ensures
        exec_views(r@) == somes(text_lines(text@).map_values(|l: Seq<char>| exec_of_line(l))),
{
    let lines = lines_of(text);
    let ghost ls = text_lines(text@);
    let mut out: Vec<ExecRecord> = Vec::new();
    let mut i: usize = 0;
    proof {
        assert(ls.take(0).map_values(|l: Seq<char>| exec_of_line(l)) =~= Seq::<Option<ExecV>>::empty());
        assert(exec_views(out@) =~= Seq::<ExecV>::empty());
    }
    while i < lines.len()
        invariant
            lines@.len() == ls.len(),
            forall|k: int| 0 <= k < ls.len() ==> (#[trigger] lines@[k])@ == ls[k],
            i <= ls.len(),
            exec_views(out@) == somes(ls.take(i as int).map_values(|l: Seq<char>| exec_of_line(l))),
        decreases ls.len() - i,
    {
        let rec = exec_record_of_line(lines[i].as_str());
        proof {
            let prev = ls.take(i as int).map_values(|l: Seq<char>| exec_of_line(l));
            let next = ls.take(i + 1).map_values(|l: Seq<char>| exec_of_line(l));
            assert(next.drop_last() =~= prev);
            assert(next.last() == exec_of_line(ls[i as int]));
        }
        match rec {
            Some(e) => {
                let ghost before = out@;
                out.push(e);
                proof {
                    assert(exec_views(out@) =~= exec_views(before).push(e@));
                }
            },
            None => {},
        }
        i = i + 1;
    }
    proof {
        assert(ls.take(ls.len() as int) =~= ls);
    }
    out
}

// ---------------------------------------------------------------------------
// Approvals (confirmed decisions)
// ---------------------------------------------------------------------------

/// A confirmed decision of the decision log.
#[derive(Debug, Clone, PartialEq, Eq)]
pub struct Approval {
    /// Seconds since the epoch.
    pub ts: u64,
    pub session_id: Option<String>,
    pub tool_use_id: Option<String>,
    pub command: String,
    /// The script rule that decided, if any.
    pub script_rule: Option<String>,
    /// The table entry that decided: layer, entry, matched token.
    pub source: Option<(String, String, String)>,
}

pub struct ApprovalV {
    pub ts: u64,
    pub session_id: Option<Seq<char>>,
    pub tool_use_id: Option<Seq<char>>,
    pub command: Seq<char>,
    pub script_rule: Option<Seq<char>>,
    pub source: Option<(Seq<char>, Seq<char>, Seq<char>)>,
}

pub open spec fn source_triple(o: Option<(String, String, String)>) -> Option<(Seq<char>, Seq<char>, Seq<char>)> {
    match o {
        Some(t) => Some((t.0@, t.1@, t.2@)),
        None => None,
    }
}

impl View for Approval {
    type V = ApprovalV;

    open spec fn view(&self) -> ApprovalV {
        ApprovalV {
            ts: self.ts,
            session_id: opt_view(self.session_id),
            tool_use_id: opt_view(self.tool_use_id),
            command: self.command@,
            script_rule: opt_view(self.script_rule),
            source: source_triple(self.source),
        }
    }
}

/// The source of a logged decision: all three of layer, entry and match.
pub open spec fn line_source(line: Seq<char>) -> Option<(Seq<char>, Seq<char>, Seq<char>)> {
    match (json_string_at_spec(line, "/source/layer"@), json_string_at_spec(line, "/source/entry"@),
        json_string_at_spec(line, "/source/match"@)) {
        (Some(l), Some(e), Some(m)) => Some((l, e, m)),
        _ => None,
    }
}

/// The approval of a decision log line: only a `confirm` with a readable
/// `ts` is one (allow and deny are never learned from).
pub open spec fn approval_of_line(line: Seq<char>) -> Option<ApprovalV> {
    if json_string_at_spec(line, "/decision"@) != Some("confirm"@) {
        None
    } else {
        match line_ts(line) {
            Some(ts) => Some(ApprovalV {
                ts,
                session_id: json_string_at_spec(line, "/session_id"@),
                tool_use_id: json_string_at_spec(line, "/tool_use_id"@),
                command: or_empty(json_string_at_spec(line, "/command"@)),
                script_rule: json_string_at_spec(line, "/script/rule"@),
                source: line_source(line),
            }),
            None => None,
        }
    }
}

fn line_source_exec(line: &str) -> (r: Option<(String, String, String)>)
    ensures
        source_triple(r) == line_source(line@),
{
    match (json_string_at(line, "/source/layer"), json_string_at(line, "/source/entry"), json_string_at(line, "/source/match")) {
        (Some(l), Some(e), Some(m)) => Some((l, e, m)),
        _ => None,
    }
}

/// The approval of one decision log line (see [`approval_of_line`]).
pub fn approval_of_log_line(line: &str) -> (r: Option<Approval>)
    ensures
        match r {
            Some(a) => approval_of_line(line@) == Some(a@),
            None => approval_of_line(line@) is None,
        },
{
    let confirmed = match json_string_at(line, "/decision") {
        Some(d) => str_eq(d.as_str(), "confirm"),
        None => false,
    };
    if !confirmed {
        return None;
    }
    let ts = match line_ts_exec(line) {
        Some(t) => t,
        None => {
            return None;
        },
    };
    Some(Approval {
        ts,
        session_id: json_string_at(line, "/session_id"),
        tool_use_id: json_string_at(line, "/tool_use_id"),
        command: string_or_empty(line, "/command"),
        script_rule: json_string_at(line, "/script/rule"),
        source: line_source_exec(line),
    })
}

pub open spec fn approval_views(v: Seq<Approval>) -> Seq<ApprovalV> {
    v.map_values(|a: Approval| a@)
}

/// The approvals of a decision log, in order.
pub fn approvals(text: &str) -> (r: Vec<Approval>)
    ensures
        approval_views(r@) == somes(text_lines(text@).map_values(|l: Seq<char>| approval_of_line(l))),
{
    let lines = lines_of(text);
    let ghost ls = text_lines(text@);
    let mut out: Vec<Approval> = Vec::new();
    let mut i: usize = 0;
    proof {
        assert(ls.take(0).map_values(|l: Seq<char>| approval_of_line(l)) =~= Seq::<Option<ApprovalV>>::empty());
        assert(approval_views(out@) =~= Seq::<ApprovalV>::empty());
    }
    while i < lines.len()
        invariant
            lines@.len() == ls.len(),
            forall|k: int| 0 <= k < ls.len() ==> (#[trigger] lines@[k])@ == ls[k],
            i <= ls.len(),
            approval_views(out@) == somes(ls.take(i as int).map_values(|l: Seq<char>| approval_of_line(l))),
        decreases ls.len() - i,
    {
        let rec = approval_of_log_line(lines[i].as_str());
        proof {
            let prev = ls.take(i as int).map_values(|l: Seq<char>| approval_of_line(l));
            let next = ls.take(i + 1).map_values(|l: Seq<char>| approval_of_line(l));
            assert(next.drop_last() =~= prev);
            assert(next.last() == approval_of_line(ls[i as int]));
        }
        match rec {
            Some(a) => {
                let ghost before = out@;
                out.push(a);
                proof {
                    assert(approval_views(out@) =~= approval_views(before).push(a@));
                }
            },
            None => {},
        }
        i = i + 1;
    }
    proof {
        assert(ls.take(ls.len() as int) =~= ls);
    }
    out
}


// ---------------------------------------------------------------------------
// Matching approvals to successful executions
// ---------------------------------------------------------------------------

/// An execution in the window that is known to have succeeded.
pub open spec fn exec_ok(e: ExecV, cutoff: u64) -> bool {
    e.ts >= cutoff && e.success == Some(true)
}

/// A successful execution in the window follows the approval: the same
/// session and tool use when the approval carries both ids; otherwise the
/// same command at most [`FALLBACK_WINDOW_SECS`] later.
pub open spec fn approval_matched(execs: Seq<ExecV>, a: ApprovalV, cutoff: u64) -> bool {
    match (a.session_id, a.tool_use_id) {
        (Some(s), Some(t)) => exists|i: int|
            0 <= i < execs.len() && exec_ok(#[trigger] execs[i], cutoff) && execs[i].session_id == Some(s)
                && execs[i].tool_use_id == Some(t),
        _ => exists|i: int|
            0 <= i < execs.len() && exec_ok(#[trigger] execs[i], cutoff) && execs[i].command == a.command
                && a.ts <= execs[i].ts && execs[i].ts <= a.ts + FALLBACK_WINDOW_SECS,
    }
}

/// The approval is in the window and matched.
pub open spec fn approval_counts(execs: Seq<ExecV>, a: ApprovalV, cutoff: u64) -> bool {
    a.ts >= cutoff && approval_matched(execs, a, cutoff)
}

fn opt_str_eq(a: &Option<String>, b: &Option<String>) -> (r: bool)
    ensures
        r == (opt_view(*a) == opt_view(*b)),
{
    match (a, b) {
        (Some(x), Some(y)) => str_eq(x.as_str(), y.as_str()),
        (None, None) => true,
        _ => false,
    }
}

/// Whether a successful execution follows the approval (see
/// [`approval_matched`]).
pub fn approval_is_matched(execs: &Vec<ExecRecord>, a: &Approval, cutoff: u64) -> (r: bool)
    ensures
        r == approval_matched(exec_views(execs@), a@, cutoff),
{
    let ghost ev = exec_views(execs@);
    let by_ids = a.session_id.is_some() && a.tool_use_id.is_some();
    let mut i: usize = 0;
    while i < execs.len()
        invariant
            ev == exec_views(execs@),
            by_ids == (a@.session_id is Some && a@.tool_use_id is Some),
            i <= execs@.len(),
            by_ids ==> forall|k: int| 0 <= k < i ==> !(exec_ok(#[trigger] ev[k], cutoff)
                && ev[k].session_id == a@.session_id && ev[k].tool_use_id == a@.tool_use_id),
            !by_ids ==> forall|k: int| 0 <= k < i ==> !(exec_ok(#[trigger] ev[k], cutoff) && ev[k].command == a@.command
                && a@.ts <= ev[k].ts && ev[k].ts <= a@.ts + FALLBACK_WINDOW_SECS),
        decreases execs@.len() - i,
    {
        let e = &execs[i];
        proof {
            assert(ev[i as int] == e@);
        }
        if e.ts >= cutoff && e.success == Some(true) {
            if by_ids {
                if opt_str_eq(&e.session_id, &a.session_id) && opt_str_eq(&e.tool_use_id, &a.tool_use_id) {
                    return true;
                }
            } else if str_eq(e.command.as_str(), a.command.as_str()) && a.ts <= e.ts && e.ts - a.ts <= FALLBACK_WINDOW_SECS {
                return true;
            }
        }
        i = i + 1;
    }
    false
}

/// The cause of an approval (kind and key, see [`cause_spec`]) and its
/// command.
pub open spec fn approval_cause(a: ApprovalV) -> (Seq<char>, Seq<char>, Seq<char>) {
    let c = cause_spec(a.script_rule, a.source, a.command);
    (c.0, c.1, a.command)
}

/// The causes of the approvals that count, in order.
pub open spec fn counted_causes(execs: Seq<ExecV>, aps: Seq<ApprovalV>, cutoff: u64) -> Seq<(Seq<char>, Seq<char>, Seq<char>)>
    decreases aps.len(),
{
    if aps.len() == 0 {
        Seq::empty()
    } else {
        let p = counted_causes(execs, aps.drop_last(), cutoff);
        if approval_counts(execs, aps.last(), cutoff) { p.push(approval_cause(aps.last())) } else { p }
    }
}

pub open spec fn cause_views(v: Seq<(String, String, String)>) -> Seq<(Seq<char>, Seq<char>, Seq<char>)> {
    v.map_values(|t: (String, String, String)| (t.0@, t.1@, t.2@))
}

/// The causes (kind, key, command) of the approvals that count.
pub fn approval_causes(execs: &Vec<ExecRecord>, aps: &Vec<Approval>, cutoff: u64) -> (r: Vec<(String, String, String)>)
    ensures
        cause_views(r@) == counted_causes(exec_views(execs@), approval_views(aps@), cutoff),
{
    let ghost ev = exec_views(execs@);
    let ghost av = approval_views(aps@);
    let mut out: Vec<(String, String, String)> = Vec::new();
    let mut i: usize = 0;
    proof {
        assert(av.take(0) =~= Seq::<ApprovalV>::empty());
        assert(cause_views(out@) =~= Seq::<(Seq<char>, Seq<char>, Seq<char>)>::empty());
    }
    while i < aps.len()
        invariant
            ev == exec_views(execs@),
            av == approval_views(aps@),
            i <= aps@.len(),
            cause_views(out@) == counted_causes(ev, av.take(i as int), cutoff),
        decreases aps@.len() - i,
    {
        let a = &aps[i];
        proof {
            assert(av.take(i + 1).drop_last() =~= av.take(i as int));
            assert(av.take(i + 1).last() == a@);
        }
        if a.ts >= cutoff && approval_is_matched(execs, a, cutoff) {
            let (kind, key) = cause_of(&a.script_rule, &a.source, a.command.as_str());
            let ghost before = out@;
            out.push((kind, key, a.command.clone()));
            proof {
                assert(cause_views(out@) =~= cause_views(before).push(approval_cause(a@)));
            }
        }
        i = i + 1;
    }
    proof {
        assert(av.take(aps@.len() as int) =~= av);
    }
    out
}

// ---------------------------------------------------------------------------
// Counting per cause
// ---------------------------------------------------------------------------

/// How often a cause occurs.
pub open spec fn occurrences(cs: Seq<(Seq<char>, Seq<char>, Seq<char>)>, kind: Seq<char>, key: Seq<char>) -> nat
    decreases cs.len(),
{
    if cs.len() == 0 {
        0
    } else {
        occurrences(cs.drop_last(), kind, key) + (if cs.last().0 == kind && cs.last().1 == key { 1nat } else { 0nat })
    }
}

/// The command of the first occurrence of a cause.
pub open spec fn first_sample(cs: Seq<(Seq<char>, Seq<char>, Seq<char>)>, kind: Seq<char>, key: Seq<char>) -> Option<Seq<char>>
    decreases cs.len(),
{
    if cs.len() == 0 {
        None
    } else {
        match first_sample(cs.drop_last(), kind, key) {
            Some(s) => Some(s),
            None => if cs.last().0 == kind && cs.last().1 == key { Some(cs.last().2) } else { None },
        }
    }
}

/// The count of one cause: kind, key, how often, and the first command.
#[derive(Debug, Clone, PartialEq, Eq)]
pub struct CauseCount {
    pub kind: String,
    pub key: String,
    pub count: usize,
    pub sample: String,
}

pub open spec fn same_cause(a: CauseCount, b: CauseCount) -> bool {
    a.kind@ == b.kind@ && a.key@ == b.key@
}

pub open spec fn same_count(a: CauseCount, b: CauseCount) -> bool {
    same_cause(a, b) && a.count == b.count && a.sample@ == b.sample@
}

pub open spec fn distinct_causes(t: Seq<CauseCount>) -> bool {
    forall|i: int, j: int| 0 <= i < j < t.len() ==> !same_cause(#[trigger] t[i], #[trigger] t[j])
}

/// `t` counts the causes `cs`: one entry per cause that occurs, with the
/// number of occurrences and the command of the first.
pub open spec fn is_tally(t: Seq<CauseCount>, cs: Seq<(Seq<char>, Seq<char>, Seq<char>)>) -> bool {
    &&& distinct_causes(t)
    &&& forall|i: int| 0 <= i < t.len() ==> (#[trigger] t[i]).count == occurrences(cs, t[i].kind@, t[i].key@)
            && first_sample(cs, t[i].kind@, t[i].key@) == Some(t[i].sample@)
    &&& forall|j: int| 0 <= j < cs.len() ==> exists|i: int| 0 <= i < t.len() && (#[trigger] t[i]).kind@ == (#[trigger] cs[j]).0
            && t[i].key@ == cs[j].1
}

proof fn lemma_absent(cs: Seq<(Seq<char>, Seq<char>, Seq<char>)>, kind: Seq<char>, key: Seq<char>)
    requires
        forall|j: int| 0 <= j < cs.len() ==> !((#[trigger] cs[j]).0 == kind && cs[j].1 == key),
    ensures
        occurrences(cs, kind, key) == 0,
        first_sample(cs, kind, key) is None,
    decreases cs.len(),
{
    if cs.len() > 0 {
        let d = cs.drop_last();
        assert forall|j: int| 0 <= j < d.len() implies !((#[trigger] d[j]).0 == kind && d[j].1 == key) by {
            assert(d[j] == cs[j]);
        }
        lemma_absent(d, kind, key);
        assert(!(cs[cs.len() - 1].0 == kind && cs[cs.len() - 1].1 == key));
    }
}

proof fn lemma_occurrences_le(cs: Seq<(Seq<char>, Seq<char>, Seq<char>)>, kind: Seq<char>, key: Seq<char>)
    ensures
        occurrences(cs, kind, key) <= cs.len(),
    decreases cs.len(),
{
    if cs.len() > 0 {
        lemma_occurrences_le(cs.drop_last(), kind, key);
    }
}

/// Counts the causes (see [`is_tally`]).
pub fn tally_causes(causes: &Vec<(String, String, String)>) -> (r: Vec<CauseCount>)
    ensures
        is_tally(r@, cause_views(causes@)),
{
    let ghost cs = cause_views(causes@);
    let mut out: Vec<CauseCount> = Vec::new();
    let mut n: usize = 0;
    proof {
        assert(cs.take(0) =~= Seq::<(Seq<char>, Seq<char>, Seq<char>)>::empty());
    }
    while n < causes.len()
        invariant
            cs == cause_views(causes@),
            n <= causes@.len(),
            is_tally(out@, cs.take(n as int)),
            forall|i: int| 0 <= i < out@.len() ==> (#[trigger] out@[i]).count <= n,
        decreases causes@.len() - n,
    {
        let ghost pre = cs.take(n as int);
        let ghost cur = cs.take(n + 1);
        let x = &causes[n];
        proof {
            assert(cur.drop_last() =~= pre);
            assert(cur.last() == cs[n as int]);
            assert(cs[n as int] == (x.0@, x.1@, x.2@));
            assert forall|j: int| 0 <= j < pre.len() implies pre[j] == #[trigger] cur[j] by {}
        }
        let mut p: usize = 0;
        let mut found = false;
        while p < out.len()
            invariant_except_break
                p <= out@.len(),
                !found,
                forall|q: int| 0 <= q < p ==> !((#[trigger] out@[q]).kind@ == x.0@ && out@[q].key@ == x.1@),
            ensures
                found ==> p < out@.len() && out@[p as int].kind@ == x.0@ && out@[p as int].key@ == x.1@,
                !found ==> forall|q: int| 0 <= q < out@.len() ==> !((#[trigger] out@[q]).kind@ == x.0@ && out@[q].key@ == x.1@),
            decreases out@.len() - p,
        {
            if str_eq(out[p].kind.as_str(), x.0.as_str()) && str_eq(out[p].key.as_str(), x.1.as_str()) {
                found = true;
                break;
            }
            p = p + 1;
        }
        let ghost old_out = out@;
        if found {
            let c = out[p].count + 1;
            let updated = CauseCount { kind: out[p].kind.clone(), key: out[p].key.clone(), count: c, sample: out[p].sample.clone() };
            out.set(p, updated);
            proof {
                assert forall|i: int| 0 <= i < out@.len() implies (#[trigger] out@[i]).count == occurrences(cur, out@[i].kind@, out@[i].key@)
                    && first_sample(cur, out@[i].kind@, out@[i].key@) == Some(out@[i].sample@) by {
                    if i != p {
                        assert(!same_cause(old_out[i], old_out[p as int]));
                    }
                }
                assert forall|j: int| 0 <= j < cur.len() implies exists|i: int| 0 <= i < out@.len() && (#[trigger] out@[i]).kind@ == (#[trigger] cur[j]).0
                    && out@[i].key@ == cur[j].1 by {
                    if j < n {
                        assert(pre[j] == cur[j]);
                        let i0 = choose|i: int| 0 <= i < old_out.len() && (#[trigger] old_out[i]).kind@ == (#[trigger] pre[j]).0
                            && old_out[i].key@ == pre[j].1;
                        assert(out@[i0].kind@ == cur[j].0);
                    } else {
                        assert(out@[p as int].kind@ == cur[j].0);
                    }
                }
                assert(distinct_causes(out@)) by {
                    assert forall|i: int, j: int| 0 <= i < j < out@.len() implies !same_cause(#[trigger] out@[i], #[trigger] out@[j]) by {
                        assert(!same_cause(old_out[i], old_out[j]));
                    }
                }
            }
        } else {
            proof {
                assert forall|j: int| 0 <= j < pre.len() implies !((#[trigger] pre[j]).0 == x.0@ && pre[j].1 == x.1@) by {
                    if pre[j].0 == x.0@ && pre[j].1 == x.1@ {
                        let i0 = choose|i: int| 0 <= i < old_out.len() && (#[trigger] old_out[i]).kind@ == (#[trigger] pre[j]).0
                            && old_out[i].key@ == pre[j].1;
                        assert(old_out[i0].kind@ == x.0@);
                    }
                }
                lemma_absent(pre, x.0@, x.1@);
            }
            out.push(CauseCount { kind: x.0.clone(), key: x.1.clone(), count: 1, sample: x.2.clone() });
            proof {
                assert forall|i: int| 0 <= i < out@.len() implies (#[trigger] out@[i]).count == occurrences(cur, out@[i].kind@, out@[i].key@)
                    && first_sample(cur, out@[i].kind@, out@[i].key@) == Some(out@[i].sample@) by {
                    if i < old_out.len() {
                        assert(out@[i] == old_out[i]);
                    }
                }
                assert forall|j: int| 0 <= j < cur.len() implies exists|i: int| 0 <= i < out@.len() && (#[trigger] out@[i]).kind@ == (#[trigger] cur[j]).0
                    && out@[i].key@ == cur[j].1 by {
                    if j < n {
                        assert(pre[j] == cur[j]);
                        let i0 = choose|i: int| 0 <= i < old_out.len() && (#[trigger] old_out[i]).kind@ == (#[trigger] pre[j]).0
                            && old_out[i].key@ == pre[j].1;
                        assert(out@[i0] == old_out[i0]);
                    } else {
                        assert(out@[old_out.len() as int].kind@ == cur[j].0);
                    }
                }
                assert(distinct_causes(out@)) by {
                    assert forall|i: int, j: int| 0 <= i < j < out@.len() implies !same_cause(#[trigger] out@[i], #[trigger] out@[j]) by {
                        if j < old_out.len() {
                            assert(!same_cause(old_out[i], old_out[j]));
                        } else {
                            assert(out@[i] == old_out[i]);
                        }
                    }
                }
            }
        }
        n = n + 1;
    }
    proof {
        assert(cs.take(causes@.len() as int) =~= cs);
    }
    out
}


// ---------------------------------------------------------------------------
// Ranking the candidates
// ---------------------------------------------------------------------------

/// The ranking order: more occurrences first, then by kind and key.
pub open spec fn ranks_before(a: CauseCount, b: CauseCount) -> bool {
    ||| a.count > b.count
    ||| a.count == b.count && seq_lt(a.kind@, b.kind@)
    ||| a.count == b.count && a.kind@ == b.kind@ && seq_lt(a.key@, b.key@)
}

proof fn lemma_rank_order(a: CauseCount, b: CauseCount, c: CauseCount)
    ensures
        !same_cause(a, b) ==> ranks_before(a, b) || ranks_before(b, a),
        ranks_before(a, b) && ranks_before(b, c) ==> ranks_before(a, c),
{
    lemma_seq_lt_order(a.kind@, b.kind@);
    lemma_seq_lt_order(a.key@, b.key@);
    if ranks_before(a, b) && ranks_before(b, c) {
        if seq_lt(a.kind@, b.kind@) && seq_lt(b.kind@, c.kind@) {
            lemma_seq_lt_trans(a.kind@, b.kind@, c.kind@);
        }
        if seq_lt(a.key@, b.key@) && seq_lt(b.key@, c.key@) {
            lemma_seq_lt_trans(a.key@, b.key@, c.key@);
        }
    }
}

fn ranks_before_exec(a: &CauseCount, b: &CauseCount) -> (r: bool)
    ensures
        r == ranks_before(*a, *b),
{
    if a.count != b.count {
        return a.count > b.count;
    }
    if str_lt(a.kind.as_str(), b.kind.as_str()) {
        return true;
    }
    str_eq(a.kind.as_str(), b.kind.as_str()) && str_lt(a.key.as_str(), b.key.as_str())
}

/// `r` holds the counts of `t` that reach the threshold, in ranking order.
pub open spec fn is_ranking(r: Seq<CauseCount>, t: Seq<CauseCount>, threshold: usize) -> bool {
    &&& ranked(r)
    &&& drawn_from(r, t, t.len() as int, threshold)
    &&& covers(r, t, t.len() as int, threshold)
}

fn copy_count(c: &CauseCount) -> (r: CauseCount)
    ensures
        same_count(r, *c),
{
    CauseCount { kind: c.kind.clone(), key: c.key.clone(), count: c.count, sample: c.sample.clone() }
}

pub open spec fn ranked(r: Seq<CauseCount>) -> bool {
    forall|i: int, j: int| 0 <= i < j < r.len() ==> ranks_before(#[trigger] r[i], #[trigger] r[j])
}

/// `x` is one of the counts of `t[..k]` that reach the threshold.
pub open spec fn drawn(x: CauseCount, t: Seq<CauseCount>, k: int, threshold: usize) -> bool {
    exists|m: int| 0 <= m < k && t[m].count >= threshold && same_count(x, #[trigger] t[m])
}

/// `x` is in `r`.
pub open spec fn listed(x: CauseCount, r: Seq<CauseCount>) -> bool {
    exists|i: int| 0 <= i < r.len() && same_count(#[trigger] r[i], x)
}

/// Every entry of `r` is a count of `t[..k]` that reaches the threshold.
pub open spec fn drawn_from(r: Seq<CauseCount>, t: Seq<CauseCount>, k: int, threshold: usize) -> bool {
    forall|i: int| 0 <= i < r.len() ==> #[trigger] drawn(r[i], t, k, threshold)
}

/// Every count of `t[..k]` that reaches the threshold is in `r`.
pub open spec fn covers(r: Seq<CauseCount>, t: Seq<CauseCount>, k: int, threshold: usize) -> bool {
    forall|m: int| 0 <= m < k && t[m].count >= threshold ==> #[trigger] listed(t[m], r)
}

/// Inserting the next count before the first entry it ranks before keeps
/// the candidates ranked.
proof fn lemma_insert_ranked(old_out: Seq<CauseCount>, item: CauseCount, p: int, t: Seq<CauseCount>, k: int, threshold: usize)
    requires
        0 <= k < t.len(),
        0 <= p <= old_out.len(),
        distinct_causes(t),
        same_count(item, t[k]),
        ranked(old_out),
        drawn_from(old_out, t, k, threshold),
        forall|q: int| 0 <= q < p ==> !ranks_before(item, #[trigger] old_out[q]),
        p < old_out.len() ==> ranks_before(item, old_out[p]),
    ensures
        ranked(old_out.insert(p, item)),
{
    let out = old_out.insert(p, item);
    assert forall|q: int| 0 <= q < p implies ranks_before(#[trigger] old_out[q], item) by {
        assert(drawn(old_out[q], t, k, threshold));
        let m = choose|m: int| 0 <= m < k && t[m].count >= threshold && same_count(old_out[q], #[trigger] t[m]);
        assert(!same_cause(t[m], t[k]));
        lemma_rank_order(item, old_out[q], item);
    }
    assert forall|i: int, j: int| 0 <= i < j < out.len() implies ranks_before(#[trigger] out[i], #[trigger] out[j]) by {
        if j < p {
            assert(out[i] == old_out[i]);
            assert(out[j] == old_out[j]);
        } else if j == p {
            assert(out[i] == old_out[i]);
        } else if i < p {
            assert(out[j] == old_out[j - 1]);
            assert(out[i] == old_out[i]);
        } else if i == p {
            assert(out[j] == old_out[j - 1]);
            if j - 1 > p {
                assert(ranks_before(old_out[p], old_out[j - 1]));
                lemma_rank_order(item, old_out[p], old_out[j - 1]);
            }
        } else {
            assert(out[j] == old_out[j - 1]);
            assert(out[i] == old_out[i - 1]);
        }
    }
}

/// Inserting the next count keeps the candidates drawn from the counts and
/// complete.
proof fn lemma_insert_members(old_out: Seq<CauseCount>, item: CauseCount, p: int, t: Seq<CauseCount>, k: int, threshold: usize)
    requires
        0 <= k < t.len(),
        0 <= p <= old_out.len(),
        same_count(item, t[k]),
        t[k].count >= threshold,
        drawn_from(old_out, t, k, threshold),
        covers(old_out, t, k, threshold),
    ensures
        drawn_from(old_out.insert(p, item), t, k + 1, threshold),
        covers(old_out.insert(p, item), t, k + 1, threshold),
{
    let out = old_out.insert(p, item);
    assert forall|i: int| 0 <= i < out.len() implies #[trigger] drawn(out[i], t, k + 1, threshold) by {
        if i == p {
            assert(same_count(out[i], t[k]));
        } else {
            let x = if i < p { old_out[i] } else { old_out[i - 1] };
            assert(out[i] == x);
            assert(drawn(x, t, k, threshold));
            let m = choose|m: int| 0 <= m < k && t[m].count >= threshold && same_count(x, #[trigger] t[m]);
            assert(same_count(out[i], t[m]));
        }
    }
    assert forall|m: int| 0 <= m < k + 1 && t[m].count >= threshold implies #[trigger] listed(t[m], out) by {
        if m < k {
            assert(listed(t[m], old_out));
            let i = choose|i: int| 0 <= i < old_out.len() && same_count(#[trigger] old_out[i], t[m]);
            if i < p {
                assert(out[i] == old_out[i]);
                assert(same_count(out[i], t[m]));
            } else {
                assert(out[i + 1] == old_out[i]);
                assert(same_count(out[i + 1], t[m]));
            }
        } else {
            assert(same_count(out[p], t[m]));
        }
    }
}

/// A count below the threshold changes nothing.
proof fn lemma_skip_member(out: Seq<CauseCount>, t: Seq<CauseCount>, k: int, threshold: usize)
    requires
        0 <= k < t.len(),
        t[k].count < threshold,
        drawn_from(out, t, k, threshold),
        covers(out, t, k, threshold),
    ensures
        drawn_from(out, t, k + 1, threshold),
        covers(out, t, k + 1, threshold),
{
    assert forall|i: int| 0 <= i < out.len() implies #[trigger] drawn(out[i], t, k + 1, threshold) by {
        assert(drawn(out[i], t, k, threshold));
        let m = choose|m: int| 0 <= m < k && t[m].count >= threshold && same_count(out[i], #[trigger] t[m]);
        assert(same_count(out[i], t[m]));
    }
    assert forall|m: int| 0 <= m < k + 1 && t[m].count >= threshold implies #[trigger] listed(t[m], out) by {
        assert(m < k);
    }
}

/// The candidates: the counts that reach the threshold, most frequent first
/// (ties by kind, then key).
pub fn rank_candidates(counts: &Vec<CauseCount>, threshold: usize) -> (r: Vec<CauseCount>)
    requires
        distinct_causes(counts@),
    ensures
        is_ranking(r@, counts@, threshold),
{
    let ghost t = counts@;
    let mut out: Vec<CauseCount> = Vec::new();
    let mut k: usize = 0;
    while k < counts.len()
        invariant
            t == counts@,
            distinct_causes(t),
            k <= t.len(),
            ranked(out@),
            drawn_from(out@, t, k as int, threshold),
            covers(out@, t, k as int, threshold),
        decreases t.len() - k,
    {
        let c = &counts[k];
        if c.count >= threshold {
            let mut p: usize = 0;
            while p < out.len()
                invariant_except_break
                    p <= out@.len(),
                    forall|q: int| 0 <= q < p ==> !ranks_before(*c, #[trigger] out@[q]),
                ensures
                    p <= out@.len(),
                    forall|q: int| 0 <= q < p ==> !ranks_before(*c, #[trigger] out@[q]),
                    p < out@.len() ==> ranks_before(*c, out@[p as int]),
                decreases out@.len() - p,
            {
                if ranks_before_exec(c, &out[p]) {
                    break;
                }
                p = p + 1;
            }
            let ghost old_out = out@;
            let item = copy_count(c);
            out.insert(p, item);
            proof {
                lemma_insert_ranked(old_out, item, p as int, t, k as int, threshold);
                lemma_insert_members(old_out, item, p as int, t, k as int, threshold);
            }
        } else {
            proof {
                lemma_skip_member(out@, t, k as int, threshold);
            }
        }
        k = k + 1;
    }
    out
}


// ---------------------------------------------------------------------------
// The report
// ---------------------------------------------------------------------------

/// The wording of a skip reason in the report.
pub open spec fn report_reason(v: SuggestionV) -> Seq<char> {
    match v {
        SuggestionV::Dangerous(b) => "`"@ + b + "` 属危险类别（may_write/网络/不可逆）"@,
        SuggestionV::ScriptRule => "脚本规则触发（无 TOML 对应物；如需放行请改脚本/规则）"@,
        SuggestionV::FreeArgs => "含自由参数且无安全子命令可收窄"@,
        SuggestionV::NotConfirmEntry => "溯源条目非 confirm 桶（不值得放行）"@,
        SuggestionV::EscapedWrite => "allow 命中被写逃逸降级（如确属有意，移入 [global] 豁免逃逸检查）"@,
        _ => "溯源键不完整或未知类别"@,
    }
}

fn report_reason_exec(r: &SkipReason) -> (t: String)
    ensures
        t@ == report_reason(suggestion_view(Suggestion::Skip(*r))),
{
    match r {
        SkipReason::Dangerous(b) => cat3("`", b.as_str(), "` 属危险类别（may_write/网络/不可逆）"),
        SkipReason::ScriptRule => owned("脚本规则触发（无 TOML 对应物；如需放行请改脚本/规则）"),
        SkipReason::FreeArgs => owned("含自由参数且无安全子命令可收窄"),
        SkipReason::NotConfirmEntry => owned("溯源条目非 confirm 桶（不值得放行）"),
        SkipReason::EscapedWrite => owned("allow 命中被写逃逸降级（如确属有意，移入 [global] 豁免逃逸检查）"),
        SkipReason::Malformed => owned("溯源键不完整或未知类别"),
    }
}

/// The section of an allow suggestion.
pub open spec fn allow_section(v: SuggestionV) -> Option<Seq<char>> {
    match v {
        SuggestionV::Allow(sec, _) => Some(sec),
        _ => None,
    }
}

pub open spec fn sec_at(s: Seq<Suggestion>, i: int) -> Option<Seq<char>> {
    allow_section(suggestion_view(s[i]))
}

/// The last column of a table row.
pub open spec fn row_cell(v: SuggestionV) -> Seq<char> {
    match v {
        SuggestionV::Allow(sec, e) => "["@ + sec + "] "@ + e,
        _ => "SKIP: "@ + report_reason(v),
    }
}

/// The bin column: the first word of the sample, `?` without one.
pub open spec fn bin_cell(sample: Seq<char>) -> Seq<char> {
    if ws_words(sample).len() > 0 { ws_words(sample)[0] } else { "?"@ }
}

pub open spec fn table_header() -> Seq<char> {
    pad_right("count"@, 6) + "  "@ + pad_right("kind"@, 7) + "  "@ + pad_right("bin"@, 6) + "  "@ + "cause / suggestion\n"@
}

pub open spec fn table_row(c: CauseCount, v: SuggestionV) -> Seq<char> {
    pad_right(decimal(c.count as nat), 6) + "  "@ + pad_right(c.kind@, 7) + "  "@ + pad_right(bin_cell(c.sample@), 6) + "  "@
        + row_cell(v) + "\n"@
}

pub open spec fn table_rows(c: Seq<CauseCount>, s: Seq<Suggestion>, n: nat) -> Seq<char>
    decreases n,
{
    if n == 0 { Seq::empty() } else { table_rows(c, s, (n - 1) as nat) + table_row(c[n - 1], suggestion_view(s[n - 1])) }
}

pub open spec fn skip_row(c: CauseCount, v: SuggestionV) -> Seq<char> {
    match v {
        SuggestionV::Allow(_, _) => Seq::empty(),
        _ => "  "@ + c.sample@ + "  (x"@ + decimal(c.count as nat) + ")  "@ + report_reason(v) + "\n"@,
    }
}

pub open spec fn skip_rows(c: Seq<CauseCount>, s: Seq<Suggestion>, n: nat) -> Seq<char>
    decreases n,
{
    if n == 0 { Seq::empty() } else { skip_rows(c, s, (n - 1) as nat) + skip_row(c[n - 1], suggestion_view(s[n - 1])) }
}

/// How many of the first `n` suggestions are allow entries.
pub open spec fn allow_count(s: Seq<Suggestion>, n: nat) -> nat
    decreases n,
{
    if n == 0 { 0 } else { allow_count(s, (n - 1) as nat) + (if sec_at(s, n - 1) is Some { 1nat } else { 0nat }) }
}

/// The entry lines of one section, in candidate order.
pub open spec fn section_entries(s: Seq<Suggestion>, sec: Seq<char>, n: nat) -> Seq<char>
    decreases n,
{
    if n == 0 {
        Seq::empty()
    } else {
        section_entries(s, sec, (n - 1) as nat) + match suggestion_view(s[n - 1]) {
            SuggestionV::Allow(x, e) => if x == sec { e + "\n"@ } else { Seq::empty() },
            _ => Seq::empty(),
        }
    }
}

/// The blocks of the given sections.
pub open spec fn section_blocks(s: Seq<Suggestion>, secs: Seq<Seq<char>>) -> Seq<char>
    decreases secs.len(),
{
    if secs.len() == 0 {
        Seq::empty()
    } else {
        section_blocks(s, secs.drop_last()) + "\n["@ + secs.last() + "]\n"@ + section_entries(s, secs.last(), s.len())
    }
}

/// Some of the first `n` suggestions is an allow entry of section `sec`.
pub open spec fn has_section(s: Seq<Suggestion>, sec: Seq<char>, n: int) -> bool {
    exists|i: int| 0 <= i < n && #[trigger] sec_at(s, i) == Some(sec)
}

pub open spec fn in_list(secs: Seq<Seq<char>>, x: Seq<char>) -> bool {
    exists|j: int| 0 <= j < secs.len() && #[trigger] secs[j] == x
}

/// `secs` are the sections of the first `n` suggestions, in ascending order.
pub open spec fn sections_of(secs: Seq<Seq<char>>, s: Seq<Suggestion>, n: int) -> bool {
    &&& forall|i: int, j: int| 0 <= i < j < secs.len() ==> seq_lt(#[trigger] secs[i], #[trigger] secs[j])
    &&& forall|i: int| 0 <= i < secs.len() ==> has_section(s, #[trigger] secs[i], n)
    &&& forall|i: int| 0 <= i < n && (#[trigger] sec_at(s, i)) is Some ==> in_list(secs, sec_at(s, i)->0)
}

/// The report of the suggest command over ranked candidates and their
/// suggestions: a paste-ready block grouped by section (sections in
/// ascending order) or a note that there is none, the table of candidates,
/// and the skip list.
pub open spec fn report_text(c: Seq<CauseCount>, s: Seq<Suggestion>, secs: Seq<Seq<char>>, threshold: usize, window_days: u64,
    format: Seq<char>) -> Seq<char> {
    let n = s.len();
    let skipped = allow_count(s, n) < n;
    let head = if allow_count(s, n) == 0 {
        "no suggestions (threshold = "@ + decimal(threshold as nat) + " in the last "@ + decimal(window_days as nat) + " day(s));\n"@
            + (if skipped { "some repeated approvals were skipped (see below).\n"@ } else { Seq::empty() })
    } else if format == "toml"@ {
        "# crush-tether suggest: rules derived from "@ + decimal(allow_count(s, n)) + " repeated approvals\n"@
            + "# paste into .crush-tether/rules.toml (git diff = rollback & audit);\n"@
            + "# review each entry: repeated approval does not always mean safe to allow.\n"@ + section_blocks(s, secs) + "\n"@
    } else {
        Seq::empty()
    };
    let table = if n > 0 { table_header() + table_rows(c, s, n) } else { Seq::empty() };
    let skips = if skipped { "\nskip list (repeatedly approved, but not suggested):\n"@ + skip_rows(c, s, n) } else { Seq::empty() };
    head + table + skips
}


fn row_cell_exec(s: &Suggestion) -> (r: String)
    ensures
        r@ == row_cell(suggestion_view(*s)),
{
    match s {
        Suggestion::Allow { section, entry } => {
            let mut t = cat3("[", section.as_str(), "] ");
            t.append(entry.as_str());
            t
        },
        Suggestion::Skip(reason) => {
            let why = report_reason_exec(reason);
            cat("SKIP: ", why.as_str())
        },
    }
}

fn bin_cell_exec(sample: &str) -> (r: String)
    ensures
        r@ == bin_cell(sample@),
{
    let words = words_of(sample);
    if words.len() > 0 {
        owned(words[0].as_str())
    } else {
        owned("?")
    }
}

fn table_header_exec() -> (r: String)
    ensures
        r@ == table_header(),
{
    let mut t = pad_right_exec("count", 6);
    t.append("  ");
    t.append(pad_right_exec("kind", 7).as_str());
    t.append("  ");
    t.append(pad_right_exec("bin", 6).as_str());
    t.append("  ");
    t.append("cause / suggestion\n");
    t
}

fn table_row_exec(c: &CauseCount, s: &Suggestion) -> (r: String)
    ensures
        r@ == table_row(*c, suggestion_view(*s)),
{
    let n = u64_decimal(c.count as u64);
    let mut t = pad_right_exec(n.as_str(), 6);
    t.append("  ");
    t.append(pad_right_exec(c.kind.as_str(), 7).as_str());
    t.append("  ");
    let bin = bin_cell_exec(c.sample.as_str());
    t.append(pad_right_exec(bin.as_str(), 6).as_str());
    t.append("  ");
    t.append(row_cell_exec(s).as_str());
    t.append("\n");
    t
}

fn skip_row_exec(c: &CauseCount, s: &Suggestion) -> (r: String)
    ensures
        r@ == skip_row(*c, suggestion_view(*s)),
{
    match s {
        Suggestion::Allow { .. } => {
            proof {
                reveal_strlit("");
            }
            owned("")
        },
        Suggestion::Skip(reason) => {
            let mut t = cat3("  ", c.sample.as_str(), "  (x");
            t.append(u64_decimal(c.count as u64).as_str());
            t.append(")  ");
            t.append(report_reason_exec(reason).as_str());
            t.append("\n");
            t
        },
    }
}

fn section_of(s: &Suggestion) -> (r: Option<&String>)
    ensures
        match r {
            Some(x) => allow_section(suggestion_view(*s)) == Some(x@),
            None => allow_section(suggestion_view(*s)) is None,
        },
{
    match s {
        Suggestion::Allow { section, .. } => Some(section),
        _ => None,
    }
}

fn section_entries_exec(s: &Vec<Suggestion>, sec: &str) -> (r: String)
    ensures
        r@ == section_entries(s@, sec@, s@.len()),
{
    proof {
        reveal_strlit("");
    }
    let mut out = owned("");
    let mut i: usize = 0;
    while i < s.len()
        invariant
            i <= s@.len(),
            out@ == section_entries(s@, sec@, i as nat),
        decreases s@.len() - i,
    {
        match &s[i] {
            Suggestion::Allow { section, entry } => {
                if str_eq(section.as_str(), sec) {
                    out.append(entry.as_str());
                    out.append("\n");
                }
            },
            _ => {},
        }
        i = i + 1;
    }
    out
}

/// The sections of the allow suggestions, each once, in ascending order.
pub fn sorted_sections(s: &Vec<Suggestion>) -> (r: Vec<String>)
    ensures
        sections_of(crate::text::views(r@), s@, s@.len() as int),
{
    let mut secs: Vec<String> = Vec::new();
    let mut i: usize = 0;
    while i < s.len()
        invariant
            i <= s@.len(),
            sections_of(crate::text::views(secs@), s@, i as int),
        decreases s@.len() - i,
    {
        let ghost old_v = crate::text::views(secs@);
        match section_of(&s[i]) {
            Some(sec) => {
                let mut p: usize = 0;
                while p < secs.len() && str_lt(secs[p].as_str(), sec.as_str())
                    invariant
                        p <= secs@.len(),
                        old_v == crate::text::views(secs@),
                        forall|q: int| 0 <= q < p ==> seq_lt(#[trigger] old_v[q], sec@),
                    decreases secs@.len() - p,
                {
                    p = p + 1;
                }
                if p < secs.len() && str_eq(secs[p].as_str(), sec.as_str()) {
                    proof {
                        assert(old_v[p as int] == sec@);
                        assert forall|k: int| 0 <= k < i + 1 && (#[trigger] sec_at(s@, k)) is Some implies in_list(old_v, sec_at(s@, k)->0) by {
                            if k == i {
                                assert(old_v[p as int] == sec_at(s@, k)->0);
                            }
                        }
                        assert forall|k: int| 0 <= k < old_v.len() implies has_section(s@, #[trigger] old_v[k], i + 1) by {
                            assert(has_section(s@, old_v[k], i as int));
                            let w = choose|w: int| 0 <= w < i && #[trigger] sec_at(s@, w) == Some(old_v[k]);
                            assert(sec_at(s@, w) == Some(old_v[k]));
                        }
                    }
                } else {
                    proof {
                        if p < old_v.len() {
                            lemma_seq_lt_order(old_v[p as int], sec@);
                        }
                        lemma_insert_sorted(old_v, sec@, p as int);
                    }
                    secs.insert(p, owned(sec.as_str()));
                    proof {
                        let nv = crate::text::views(secs@);
                        assert(nv =~= old_v.insert(p as int, sec@));
                        assert forall|k: int| 0 <= k < i + 1 && (#[trigger] sec_at(s@, k)) is Some implies in_list(nv, sec_at(s@, k)->0) by {
                            if k == i {
                                assert(nv[p as int] == sec_at(s@, k)->0);
                            } else {
                                assert(in_list(old_v, sec_at(s@, k)->0));
                                let j = choose|j: int| 0 <= j < old_v.len() && #[trigger] old_v[j] == sec_at(s@, k)->0;
                                if j < p {
                                    assert(nv[j] == old_v[j]);
                                } else {
                                    assert(nv[j + 1] == old_v[j]);
                                }
                            }
                        }
                        assert forall|k: int| 0 <= k < nv.len() implies has_section(s@, #[trigger] nv[k], i + 1) by {
                            if k == p {
                                assert(sec_at(s@, i as int) == Some(nv[k]));
                            } else {
                                let x = if k < p { old_v[k] } else { old_v[k - 1] };
                                assert(nv[k] == x);
                                assert(has_section(s@, x, i as int));
                                let w = choose|w: int| 0 <= w < i && #[trigger] sec_at(s@, w) == Some(x);
                                assert(sec_at(s@, w) == Some(x));
                            }
                        }
                    }
                }
            },
            None => {
                proof {
                    assert forall|k: int| 0 <= k < i + 1 && (#[trigger] sec_at(s@, k)) is Some implies in_list(old_v, sec_at(s@, k)->0) by {
                        assert(k < i);
                    }
                    assert forall|k: int| 0 <= k < old_v.len() implies has_section(s@, #[trigger] old_v[k], i + 1) by {
                        assert(has_section(s@, old_v[k], i as int));
                        let w = choose|w: int| 0 <= w < i && #[trigger] sec_at(s@, w) == Some(old_v[k]);
                        assert(sec_at(s@, w) == Some(old_v[k]));
                    }
                }
            },
        }
        i = i + 1;
    }
    secs
}

/// The report of the suggest command (see [`report_text`]).
pub fn render_suggest_report(c: &Vec<CauseCount>, s: &Vec<Suggestion>, threshold: usize, window_days: u64, format: &str) -> (r: String)
    requires
        c@.len() == s@.len(),
    ensures
        exists|secs: Seq<Seq<char>>| sections_of(secs, s@, s@.len() as int)
            && r@ == report_text(c@, s@, secs, threshold, window_days, format@),
{
    let n = s.len();
    let mut allows: usize = 0;
    let mut i: usize = 0;
    while i < n
        invariant
            n == s@.len(),
            i <= n,
            allows == allow_count(s@, i as nat),
            allows <= i,
        decreases n - i,
    {
        if section_of(&s[i]).is_some() {
            allows = allows + 1;
        }
        i = i + 1;
    }
    let secs = sorted_sections(s);
    let ghost sv = crate::text::views(secs@);
    proof {
        reveal_strlit("");
    }
    let mut out = owned("");
    if allows == 0 {
        out.append("no suggestions (threshold = ");
        out.append(u64_decimal(threshold as u64).as_str());
        out.append(" in the last ");
        out.append(u64_decimal(window_days).as_str());
        out.append(" day(s));\n");
        if allows < n {
            out.append("some repeated approvals were skipped (see below).\n");
        }
    } else if str_eq(format, "toml") {
        out.append("# crush-tether suggest: rules derived from ");
        out.append(u64_decimal(allows as u64).as_str());
        out.append(" repeated approvals\n");
        out.append("# paste into .crush-tether/rules.toml (git diff = rollback & audit);\n");
        out.append("# review each entry: repeated approval does not always mean safe to allow.\n");
        let ghost before = out@;
        let mut k: usize = 0;
        while k < secs.len()
            invariant
                k <= secs@.len(),
                sv == crate::text::views(secs@),
                out@ == before + section_blocks(s@, sv.take(k as int)),
            decreases secs@.len() - k,
        {
            proof {
                assert(sv.take(k + 1).drop_last() =~= sv.take(k as int));
                assert(sv.take(k + 1).last() == secs@[k as int]@);
            }
            out.append("\n[");
            out.append(secs[k].as_str());
            out.append("]\n");
            out.append(section_entries_exec(s, secs[k].as_str()).as_str());
            proof {
                assert(out@ =~= before + section_blocks(s@, sv.take(k + 1)));
            }
            k = k + 1;
        }
        proof {
            assert(sv.take(secs@.len() as int) =~= sv);
        }
        out.append("\n");
    }
    let ghost head = out@;
    if n > 0 {
        out.append(table_header_exec().as_str());
        let ghost before = out@;
        let mut j: usize = 0;
        while j < n
            invariant
                n == s@.len(),
                n == c@.len(),
                j <= n,
                out@ == before + table_rows(c@, s@, j as nat),
            decreases n - j,
        {
            out.append(table_row_exec(&c[j], &s[j]).as_str());
            proof {
                assert(out@ =~= before + table_rows(c@, s@, (j + 1) as nat));
            }
            j = j + 1;
        }
    }
    let ghost with_table = out@;
    if allows < n {
        out.append("\nskip list (repeatedly approved, but not suggested):\n");
        let ghost before = out@;
        let mut j: usize = 0;
        while j < n
            invariant
                n == s@.len(),
                n == c@.len(),
                j <= n,
                out@ == before + skip_rows(c@, s@, j as nat),
            decreases n - j,
        {
            out.append(skip_row_exec(&c[j], &s[j]).as_str());
            proof {
                assert(out@ =~= before + skip_rows(c@, s@, (j + 1) as nat));
            }
            j = j + 1;
        }
    }
    proof {
        let n_ = s@.len();
        assert(head =~= if allow_count(s@, n_) == 0 {
            "no suggestions (threshold = "@ + decimal(threshold as nat) + " in the last "@ + decimal(window_days as nat) + " day(s));\n"@
                + (if allow_count(s@, n_) < n_ { "some repeated approvals were skipped (see below).\n"@ } else { Seq::empty() })
        } else if format@ == "toml"@ {
            "# crush-tether suggest: rules derived from "@ + decimal(allow_count(s@, n_)) + " repeated approvals\n"@
                + "# paste into .crush-tether/rules.toml (git diff = rollback & audit);\n"@
                + "# review each entry: repeated approval does not always mean safe to allow.\n"@ + section_blocks(s@, sv) + "\n"@
        } else {
            Seq::empty()
        });
        assert(out@ =~= report_text(c@, s@, sv, threshold, window_days, format@));
    }
    out
}


// ---------------------------------------------------------------------------
// The suggest command
// ---------------------------------------------------------------------------

/// Whether the subject bin of a cause is never suggested.
pub open spec fn cause_danger(kb: Option<KnowledgeBase>, kind: Seq<char>, key: Seq<char>, sample: Seq<char>) -> bool {
    match skip_subject_spec(kind, key, sample) {
        Some(b) => skip_fact_spec(kb, b),
        None => false,
    }
}

/// The suggestion for a candidate.
pub open spec fn candidate_suggestion(kb: Option<KnowledgeBase>, c: CauseCount) -> SuggestionV {
    suggestion_spec(c.kind@, c.key@, c.sample@, cause_danger(kb, c.kind@, c.key@, c.sample@))
}

/// The suggestion of each candidate.
pub fn suggestions_of(kb: &Option<KnowledgeBase>, cands: &Vec<CauseCount>) -> (r: Vec<Suggestion>)
    requires
        kb matches Some(k) ==> k.bins.wf(),
    ensures
        r@.len() == cands@.len(),
        forall|i: int| 0 <= i < r@.len() ==> suggestion_view(#[trigger] r@[i]) == candidate_suggestion(*kb, cands@[i]),
{
    let mut out: Vec<Suggestion> = Vec::new();
    let mut i: usize = 0;
    while i < cands.len()
        invariant
            kb matches Some(k) ==> k.bins.wf(),
            i <= cands@.len(),
            out@.len() == i,
            forall|j: int| 0 <= j < i ==> suggestion_view(#[trigger] out@[j]) == candidate_suggestion(*kb, cands@[j]),
        decreases cands@.len() - i,
    {
        let c = &cands[i];
        let dangerous = match skip_subject(c.kind.as_str(), c.key.as_str(), c.sample.as_str()) {
            Some(b) => kb_skip_fact(kb, b.as_str()),
            None => false,
        };
        out.push(build_suggestion(c.kind.as_str(), c.key.as_str(), c.sample.as_str(), dangerous));
        i = i + 1;
    }
    out
}

/// The start of the window: `window_days` days before `now`, or the epoch.
pub open spec fn cutoff_spec(now: u64, window_days: u64) -> u64 {
    if now >= window_days * 86400 { (now - window_days * 86400) as u64 } else { 0 }
}

pub fn cutoff_of(now: u64, window_days: u64) -> (r: u64)
    requires
        window_days * 86400 <= u64::MAX,
    ensures
        r == cutoff_spec(now, window_days),
{
    let span = window_days * 86400;
    if now >= span { now - span } else { 0 }
}

/// The causes of the approvals that count, read from the two logs.
pub open spec fn learned_causes(exec_log: Seq<char>, decision_log: Seq<char>, cutoff: u64) -> Seq<(Seq<char>, Seq<char>, Seq<char>)> {
    counted_causes(
        somes(text_lines(exec_log).map_values(|l: Seq<char>| exec_of_line(l))),
        somes(text_lines(decision_log).map_values(|l: Seq<char>| approval_of_line(l))),
        cutoff,
    )
}

/// What the suggest command prints when the project has no execution log.
pub open spec fn no_executions_text() -> Seq<char> {
    "no execution records found for this project;\nlearning signal requires an agent that emits PostToolUse events\n("@
        + "claudecode"@.take(6) + ": full, zcode: degraded, crush: unavailable) and runs with\nthe hook installed. nothing to suggest.\n"@
}

/// The output of the suggest command. Without an execution log, a note
/// that there is nothing to learn from. Otherwise: the confirmed decisions
/// in the window that a successful execution follows are counted per
/// cause; the causes counted at least `threshold` times are ranked; each
/// gets its suggestion; and the report lists them.
pub fn suggest_report(exec_log: Option<&str>, decision_log: &str, now: u64, opts: &SuggestOptions, kb: &Option<KnowledgeBase>) -> (r: String)
    requires
        opts.window_days * 86400 <= u64::MAX,
        kb matches Some(k) ==> k.bins.wf(),
    ensures
        exec_log is None ==> r@ == no_executions_text(),
        exec_log matches Some(x) ==> exists|t: Seq<CauseCount>, c: Seq<CauseCount>, sg: Seq<Suggestion>, secs: Seq<Seq<char>>|
            is_tally(t, learned_causes(x@, decision_log@, cutoff_spec(now, opts.window_days)))
            && is_ranking(c, t, opts.threshold)
            && sg.len() == c.len()
            && (forall|i: int| 0 <= i < sg.len() ==> suggestion_view(#[trigger] sg[i]) == candidate_suggestion(*kb, c[i]))
            && sections_of(secs, sg, sg.len() as int)
            && r@ == report_text(c, sg, secs, opts.threshold, opts.window_days, opts.format@),
{
    let text = match exec_log {
        Some(x) => x,
        None => {
            proof {
                reveal_strlit("claudecode");
            }
            let who = substring("claudecode", 0, 6);
            let mut t = owned("no execution records found for this project;\nlearning signal requires an agent that emits PostToolUse events\n(");
            t.append(who.as_str());
            t.append(": full, zcode: degraded, crush: unavailable) and runs with\nthe hook installed. nothing to suggest.\n");
            return t;
        },
    };
    let cutoff = cutoff_of(now, opts.window_days);
    let execs = exec_records(text);
    let aps = approvals(decision_log);
    let causes = approval_causes(&execs, &aps, cutoff);
    let counts = tally_causes(&causes);
    let cands = rank_candidates(&counts, opts.threshold);
    let suggs = suggestions_of(kb, &cands);
    let out = render_suggest_report(&cands, &suggs, opts.threshold, opts.window_days, opts.format.as_str());
    proof {
        let secs = choose|secs: Seq<Seq<char>>| sections_of(secs, suggs@, suggs@.len() as int)
            && out@ == report_text(cands@, suggs@, secs, opts.threshold, opts.window_days, opts.format@);
        assert(is_tally(counts@, learned_causes(text@, decision_log@, cutoff)));
        assert(forall|i: int| 0 <= i < suggs@.len() ==> suggestion_view(#[trigger] suggs@[i]) == candidate_suggestion(*kb, cands@[i]));
    }
    out
}


// ---------------------------------------------------------------------------
// Laws
// ---------------------------------------------------------------------------

/// Only confirmed decisions are learned from: an allow or a deny in the
/// decision log is never an approval.
pub proof fn law_only_confirmations_are_learned(line: Seq<char>)
    requires
        json_string_at_spec(line, "/decision"@) != Some("confirm"@),
    ensures
        approval_of_line(line) is None,
{
}

/// An approval counts only when an execution known to have succeeded
/// follows it: failed executions and executions of unknown outcome never
/// make it count.
pub proof fn law_unconfirmed_success_never_counts(execs: Seq<ExecV>, a: ApprovalV, cutoff: u64)
    requires
        forall|i: int| 0 <= i < execs.len() ==> (#[trigger] execs[i]).success != Some(true),
    ensures
        !approval_counts(execs, a, cutoff),
{
}

/// Every candidate was counted at least `threshold` times.
pub proof fn law_candidates_reach_threshold(c: Seq<CauseCount>, t: Seq<CauseCount>, threshold: usize)
    requires
        is_ranking(c, t, threshold),
    ensures
        forall|i: int| 0 <= i < c.len() ==> (#[trigger] c[i]).count >= threshold,
{
    assert forall|i: int| 0 <= i < c.len() implies (#[trigger] c[i]).count >= threshold by {
        assert(drawn(c[i], t, t.len() as int, threshold));
    }
}

/// A bin on the skip list (hard list or knowledge `may_write`) is never
/// suggested, however often it was approved.
pub proof fn law_dangerous_bins_never_suggested(kb: Option<KnowledgeBase>, c: CauseCount)
    requires
        skip_subject_spec(c.kind@, c.key@, c.sample@) matches Some(b) && skip_fact_spec(kb, b),
    ensures
        !(candidate_suggestion(kb, c) is Allow),
{
}

/// The hard skip list is never suggested, whatever the knowledge base says:
/// a cause whose subject is `curl`, `wget`, `rm`, `pip`, `pip3`, `sudo` or
/// `dd` is a skip fact and never becomes an allow entry.
pub proof fn law_hard_skip_list_never_suggested(kb: Option<KnowledgeBase>, c: CauseCount, b: Seq<char>)
    requires
        skip_subject_spec(c.kind@, c.key@, c.sample@) == Some(b),
        seq!["curl"@, "wget"@, "rm"@, "pip"@, "pip3"@, "sudo"@, "dd"@].contains(b),
    ensures
        skip_fact_spec(kb, b),
        !(candidate_suggestion(kb, c) is Allow),
{
    let l = seq!["curl"@, "wget"@, "rm"@, "pip"@, "pip3"@, "sudo"@, "dd"@];
    let i = choose|i: int| 0 <= i < l.len() && l[i] == b;
    assert(l[i] == b);
    law_dangerous_bins_never_suggested(kb, c);
}

/// A cause decided by a script rule is never suggested (it has no TOML
/// counterpart).
pub proof fn law_script_causes_never_suggested(kb: Option<KnowledgeBase>, c: CauseCount)
    requires
        c.kind@ == "script"@,
    ensures
        candidate_suggestion(kb, c) == SuggestionV::ScriptRule,
{
}

} // verus!
