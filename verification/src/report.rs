//! Human-readable renderings of the rule tools: the explain report, one
//! REPL entry, the `--batch` verdict table and the `--cases` check lines.
use vstd::prelude::*;
use crate::model::{Decision, Verdict, decision_name};
use crate::service::{CommandExplain, ExplainReport};
use crate::text::{cat, cat3, decimal, owned, u64_decimal};

verus! {

/// `s` padded with spaces on the right to at least `w` characters.
pub open spec fn pad_right(s: Seq<char>, w: nat) -> Seq<char> {
    if s.len() >= w { s } else { s + Seq::new((w - s.len()) as nat, |i: int| ' ') }
}

pub(crate) fn pad_right_exec(s: &str, w: usize) -> (r: String)
    ensures
        r@ == pad_right(s@, w as nat),
{
    let n = s.unicode_len();
    if n >= w {
        return owned(s);
    }
    let mut spaces: Vec<char> = Vec::new();
    while spaces.len() < w - n
        invariant
            spaces@.len() <= w - n,
            forall|i: int| 0 <= i < spaces@.len() ==> spaces@[i] == ' ',
        decreases w - n - spaces@.len(),
    {
        spaces.push(' ');
    }
    let sp = crate::text::string_of_chars(&spaces);
    proof {
        assert(sp@ =~= Seq::new((w - n) as nat, |i: int| ' '));
    }
    cat(s, sp.as_str())
}

/// Upper-case tag of a decision in tables.
pub open spec fn tag_spec(d: Decision) -> Seq<char> {
    match d {
        Decision::Allow => "ALLOW"@,
        Decision::Confirm => "CONFIRM"@,
        Decision::Deny => "DENY"@,
    }
}

pub fn decision_tag(d: Decision) -> (r: &'static str)
    ensures
        r@ == tag_spec(d),
{
    match d {
        Decision::Allow => "ALLOW",
        Decision::Confirm => "CONFIRM",
        Decision::Deny => "DENY",
    }
}

/// One line of the `check --batch` table: the tag in 8 columns, the
/// command, and `  ; reason` when there is a non-empty reason.
pub open spec fn batch_line_spec(command: Seq<char>, d: Decision, reason: Option<Seq<char>>) -> Seq<char> {
    let r = match reason { Some(x) => x, None => Seq::empty() };
    if r.len() == 0 {
        pad_right(tag_spec(d), 8) + " "@ + command
    } else {
        pad_right(tag_spec(d), 8) + " "@ + command + "  ; "@ + r
    }
}

pub fn render_batch_line(command: &str, v: &Verdict) -> (r: String)
    ensures
        r@ == batch_line_spec(command@, v.decision, crate::model::reason_of(*v)),
{
    let tag = pad_right_exec(decision_tag(v.decision), 8);
    let empty = match &v.reason {
        Some(x) => x.unicode_len() == 0,
        None => true,
    };
    if empty {
        cat3(tag.as_str(), " ", command)
    } else {
        let mut s = cat3(tag.as_str(), " ", command);
        s.append("  ; ");
        match &v.reason {
            Some(x) => s.append(x.as_str()),
            None => {},
        }
        s
    }
}

/// One line of the `check --cases` reconciliation.
pub open spec fn case_line_spec(pass: bool, command: Seq<char>, expect: Decision, actual: Decision) -> Seq<char> {
    if pass {
        "PASS  "@ + pad_right(tag_spec(actual), 8) + " "@ + command
    } else {
        "FAIL  "@ + pad_right(tag_spec(actual), 8) + " "@ + command + "  (expected "@ + decision_name(expect) + ")"@
    }
}

pub fn render_case_line(pass: bool, command: &str, expect: Decision, actual: Decision) -> (r: String)
    ensures
        r@ == case_line_spec(pass, command@, expect, actual),
{
    let tag = pad_right_exec(decision_tag(actual), 8);
    let mut s = cat("PASS  ", tag.as_str());
    if !pass {
        s = cat("FAIL  ", tag.as_str());
    }
    s.append(" ");
    s.append(command);
    if !pass {
        s.append("  (expected ");
        s.append(expect.label());
        s.append(")");
    }
    s
}

fn join_comma(v: &Vec<String>) -> (r: String)
    ensures
        r@ == crate::text::join_spec(crate::text::views(v@), ", "@),
{
    crate::text::join_with(v, ", ")
}

/// The first line of a command block.
pub open spec fn command_head_spec(idx: nat, c: CommandExplain) -> Seq<char> {
    "["@ + decimal(idx) + "] "@ + c.raw@ + " => "@ + decision_name(c.final_decision) + "\n"@
}

/// The lookup line of a command block.
pub open spec fn lookup_line_spec(c: CommandExplain) -> Seq<char> {
    "    lookup: "@ + decision_name(c.table_decision) + " "@ + match c.table_source {
        Some(s) => "<- "@ + s.layer@ + "."@ + s.entry@ + " (token: "@ + s.token@ + ")"@,
        None => "<- (no hit)"@,
    } + "\n"@
}

/// The write line of a command block.
pub open spec fn write_line_spec(c: CommandExplain) -> Seq<char> {
    "    write:  "@ + (if c.redirect_targets@.len() == 0 && c.write_scan@.len() == 0 {
        "no write-effect paths"@
    } else {
        "scan = ["@ + crate::text::join_spec(crate::text::views(c.write_scan@), ", "@) + "]"@
    }) + " (escape check: "@ + (if c.write_escape { "ESCAPES"@ } else { "pass"@ }) + ")\n"@
}

/// The script line of a command block.
pub open spec fn script_line_spec(c: CommandExplain) -> Seq<char> {
    "    script: "@ + (if c.script_changed {
        match c.script_layer {
            Some(l) => "changed (layer: "@ + l@ + ")"@,
            None => "changed"@,
        }
    } else {
        "-"@
    }) + "\n"@
}

/// The explanation block of one command.
pub open spec fn command_block_spec(idx: nat, c: CommandExplain) -> Seq<char> {
    command_head_spec(idx, c) + lookup_line_spec(c) + match c.normalized {
        Some(nm) => "    normal: "@ + nm@ + "\n"@,
        None => Seq::empty(),
    } + write_line_spec(c) + script_line_spec(c) + match c.reason {
        Some(r) => "    reason: "@ + r@ + "\n"@,
        None => Seq::empty(),
    }
}

fn lookup_line(c: &CommandExplain) -> (r: String)
    ensures
        r@ == lookup_line_spec(*c),
{
    let mut lk = cat3("    lookup: ", c.table_decision.label(), " ");
    match &c.table_source {
        Some(s) => {
            lk.append("<- ");
            lk.append(s.layer);
            lk.append(".");
            lk.append(s.entry.as_str());
            lk.append(" (token: ");
            lk.append(s.token.as_str());
            lk.append(")");
        },
        None => lk.append("<- (no hit)"),
    }
    lk.append("\n");
    proof {
        assert(lk@ =~= lookup_line_spec(*c));
    }
    lk
}

fn write_line(c: &CommandExplain) -> (r: String)
    ensures
        r@ == write_line_spec(*c),
{
    let mut w = owned("    write:  ");
    if c.redirect_targets.len() == 0 && c.write_scan.len() == 0 {
        w.append("no write-effect paths");
    } else {
        let j = join_comma(&c.write_scan);
        w.append("scan = [");
        w.append(j.as_str());
        w.append("]");
    }
    w.append(" (escape check: ");
    w.append(if c.write_escape { "ESCAPES" } else { "pass" });
    w.append(")\n");
    proof {
        assert(w@ =~= write_line_spec(*c));
    }
    w
}

fn script_line(c: &CommandExplain) -> (r: String)
    ensures
        r@ == script_line_spec(*c),
{
    let mut sc = owned("    script: ");
    if c.script_changed {
        match c.script_layer {
            Some(l) => {
                sc.append("changed (layer: ");
                sc.append(l);
                sc.append(")");
            },
            None => sc.append("changed"),
        }
    } else {
        sc.append("-");
    }
    sc.append("\n");
    proof {
        assert(sc@ =~= script_line_spec(*c));
    }
    sc
}

fn optional_line(label: &str, v: &Option<String>) -> (r: String)
    ensures
        r@ == match v {
            Some(x) => label@ + x@ + "\n"@,
            None => Seq::empty(),
        },
{
    match v {
        Some(x) => {
            let mut t = cat(label, x.as_str());
            t.append("\n");
            t
        },
        None => {
            proof {
                reveal_strlit("");
            }
            owned("")
        },
    }
}

/// The explanation block of one command (explain and the REPL).
pub fn render_command(idx: u64, c: &CommandExplain) -> (r: String)
    ensures
        r@ == command_block_spec(idx as nat, *c),
{
    let n = u64_decimal(idx);
    let mut out = cat3("[", n.as_str(), "] ");
    out.append(c.raw.as_str());
    out.append(" => ");
    out.append(c.final_decision.label());
    out.append("\n");
    let ghost head = out@;
    out.append(lookup_line(c).as_str());
    out.append(optional_line("    normal: ", &c.normalized).as_str());
    out.append(write_line(c).as_str());
    out.append(script_line(c).as_str());
    out.append(optional_line("    reason: ", &c.reason).as_str());
    proof {
        assert(head =~= command_head_spec(idx as nat, *c));
    }
    out
}

/// The blocks of the first `n` commands, numbered from 1.
pub open spec fn command_blocks(cs: Seq<CommandExplain>, n: nat) -> Seq<char>
    decreases n,
{
    if n == 0 { Seq::empty() } else { command_blocks(cs, (n - 1) as nat) + command_block_spec(n, cs[n - 1]) }
}

/// The explain report: a header (engine, knowledge base, lint count); then
/// the parse error, or `(empty command)`, or the block of each command and
/// the combined decision with its reason.
pub open spec fn report_spec(r: ExplainReport) -> Seq<char> {
    let head = "engine: "@ + r.engine@ + "  kb: "@ + (if r.kb_present { "present"@ } else { "absent"@ }) + "  lint: "@ + decimal(
        r.lint@.len(),
    ) + " warning(s)\n"@;
    match r.parse_error {
        Some(e) => head + "parse error: "@ + e@ + "\ncombined: "@ + decision_name(r.combined.decision) + "\n"@,
        None => if r.commands@.len() == 0 {
            head + "(empty command)\n"@
        } else {
            head + command_blocks(r.commands@, r.commands@.len()) + "combined: "@ + decision_name(r.combined.decision) + "\n"@
                + match r.combined.reason {
                Some(reason) => "combined reason: "@ + reason@ + "\n"@,
                None => Seq::empty(),
            }
        },
    }
}

/// The whole explain report (see [`report_spec`]).
pub fn render_report(r: &ExplainReport) -> (s: String)
    requires
        r.commands@.len() < u64::MAX,
    ensures
        s@ == report_spec(*r),
{
    let lint_n = u64_decimal(r.lint.len() as u64);
    let mut out = cat3("engine: ", r.engine.as_str(), "  kb: ");
    out.append(if r.kb_present { "present" } else { "absent" });
    out.append("  lint: ");
    out.append(lint_n.as_str());
    out.append(" warning(s)\n");
    let ghost head = out@;
    match &r.parse_error {
        Some(e) => {
            out.append("parse error: ");
            out.append(e.as_str());
            out.append("\ncombined: ");
            out.append(r.combined.decision.label());
            out.append("\n");
            return out;
        },
        None => {},
    }
    if r.commands.len() == 0 {
        out.append("(empty command)\n");
        return out;
    }
    let mut i: usize = 0;
    while i < r.commands.len()
        invariant
            i <= r.commands@.len(),
            r.commands@.len() < u64::MAX,
            out@ == head + command_blocks(r.commands@, i as nat),
        decreases r.commands@.len() - i,
    {
        let block = render_command((i + 1) as u64, &r.commands[i]);
        out.append(block.as_str());
        proof {
            assert(out@ =~= head + command_blocks(r.commands@, (i + 1) as nat));
        }
        i = i + 1;
    }
    out.append("combined: ");
    out.append(r.combined.decision.label());
    out.append("\n");
    match &r.combined.reason {
        Some(reason) => {
            out.append("combined reason: ");
            out.append(reason.as_str());
            out.append("\n");
        },
        None => {},
    }
    out
}

/// The REPL's answer to one command: the block of each command, then the
/// combined decision.
pub fn render_repl_eval(r: &ExplainReport) -> (s: String)
    requires
        r.commands@.len() < u64::MAX,
    ensures
        s@ == command_blocks(r.commands@, r.commands@.len()) + "combined: "@ + decision_name(r.combined.decision) + "\n"@,
{
    proof {
        reveal_strlit("");
    }
    let mut out = owned("");
    let mut i: usize = 0;
    while i < r.commands.len()
        invariant
            i <= r.commands@.len(),
            r.commands@.len() < u64::MAX,
            out@ == command_blocks(r.commands@, i as nat),
        decreases r.commands@.len() - i,
    {
        let block = render_command((i + 1) as u64, &r.commands[i]);
        out.append(block.as_str());
        i = i + 1;
    }
    out.append("combined: ");
    out.append(r.combined.decision.label());
    out.append("\n");
    out
}

} // verus!
