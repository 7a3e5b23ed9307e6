//! The REPL's handling of input lines: its commands (`:q`, `:help`,
//! `:hist`, `:lint`), repetition of the last command (an empty line), reruns
//! from the history (`!N`), and the history itself; and the project root it
//! works on.
use vstd::prelude::*;
use crate::config::discover::{find_project_root_from, is_ancestor};
use crate::lint::{Lint, LintSeverity};
use crate::script::{trim_spec, trim_ws};
use crate::suggest::{digits_value, digits_field, digit_val, field_value, is_digit};
use crate::text::{cat, cat3, owned, str_eq, substring};

verus! {

/// What the REPL does with an input line.
#[derive(Debug, Clone, PartialEq, Eq)]
pub enum ReplAction {
    /// End the session.
    Quit,
    /// Show the help text.
    Help,
    /// List the history.
    History,
    /// Show the lint findings of the configuration.
    Lint,
    /// Explain this command.
    Eval(String),
    /// `!N` named no history entry (the text after `!`).
    NoSuchEntry(String),
    /// Nothing to do (an empty line before any command).
    Nothing,
}

/// The help text.
pub open spec fn repl_help() -> Seq<char> {
    "commands: <bash command> | Enter (repeat last) | !N (rerun #N) | :hist | :lint | :q"@
}

pub fn repl_help_text() -> (r: &'static str)
    ensures
        r@ == repl_help(),
{
    "commands: <bash command> | Enter (repeat last) | !N (rerun #N) | :hist | :lint | :q"
}

/// The history entry that `!N` names (`N` counts from 1), given the text
/// after `!`.
pub open spec fn rerun_target(history: Seq<Seq<char>>, rest: Seq<char>) -> Option<Seq<char>> {
    match field_value(rest) {
        Some(n) => if 1 <= n <= history.len() { Some(history[n - 1]) } else { None },
        None => None,
    }
}

/// The command an ordinary (trimmed) line stands for: the last command for
/// an empty line, a history entry for `!N`, else the line.
pub open spec fn effective_command(history: Seq<Seq<char>>, t: Seq<char>) -> Option<Seq<char>> {
    if t.len() == 0 {
        if history.len() == 0 { None } else { Some(history.last()) }
    } else if t[0] == '!' {
        rerun_target(history, t.drop_first())
    } else {
        Some(t)
    }
}

/// The history after evaluating `e`: it is appended unless empty or equal
/// to the last entry.
pub open spec fn history_after(history: Seq<Seq<char>>, e: Seq<char>) -> Seq<Seq<char>> {
    if e.len() > 0 && (history.len() == 0 || history.last() != e) { history.push(e) } else { history }
}

pub open spec fn is_quit(t: Seq<char>) -> bool {
    t == ":q"@ || t == ":quit"@ || t == ":exit"@
}

pub open spec fn is_help(t: Seq<char>) -> bool {
    t == ":h"@ || t == ":help"@
}

proof fn lemma_digits_prefix(s: Seq<char>, i: int)
    requires
        0 <= i <= s.len(),
        forall|k: int| 0 <= k < s.len() ==> is_digit(#[trigger] s[k]),
    ensures
        0 <= digits_value(s.take(i)) <= digits_value(s),
    decreases s.len(),
{
    if s.len() > 0 {
        let d = s.drop_last();
        assert forall|k: int| 0 <= k < d.len() implies is_digit(#[trigger] d[k]) by {
            assert(d[k] == s[k]);
        }
        if i == s.len() {
            assert(s.take(i) =~= s);
            lemma_digits_prefix(d, d.len() as int);
            assert(d.take(d.len() as int) =~= d);
        } else {
            assert(s.take(i) =~= d.take(i));
            lemma_digits_prefix(d, i);
        }
        assert(is_digit(s.last()));
    } else {
        assert(s.take(i) =~= s);
    }
}

/// `s` read as an unsigned integer no greater than `bound`.
fn parse_bounded(s: &str, bound: usize) -> (r: Option<usize>)
    ensures
        match r {
            Some(v) => field_value(s@) == Some(v as int) && v <= bound,
            None => !(field_value(s@) matches Some(v) && v <= bound),
        },
{
    let n = s.unicode_len();
    let start: usize = if n >= 2 && s.get_char(0) == '+' { 1 } else { 0 };
    let ghost g = s@.subrange(start as int, n as int);
    proof {
        if start == 1 {
            assert(g =~= s@.drop_first());
        } else {
            assert(g =~= s@);
        }
        assert(field_value(s@) == digits_field(g));
    }
    if start == n {
        proof {
            assert(s@.len() == 0);
            assert(digits_field(s@) is None);
        }
        return None;
    }
    let mut acc: usize = 0;
    let mut i: usize = start;
    proof {
        assert(g.take(0) =~= Seq::<char>::empty());
    }
    while i < n
        invariant
            start <= i <= n,
            n == s@.len(),
            field_value(s@) == digits_field(g),
            g == s@.subrange(start as int, n as int),
            forall|k: int| 0 <= k < i - start ==> is_digit(#[trigger] g[k]),
            acc == digits_value(g.take(i - start)),
            acc <= bound,
        decreases n - i,
    {
        let c = s.get_char(i);
        proof {
            assert(g[i - start] == c);
        }
        if !('0' <= c && c <= '9') {
            proof {
                assert(!is_digit(g[i - start]));
                assert(digits_field(g) is None);
            }
            return None;
        }
        let d = (c as u32 - '0' as u32) as usize;
        proof {
            assert(g.take(i + 1 - start).drop_last() =~= g.take(i - start));
            assert(d == digit_val(c));
        }
        if d > bound || acc > (bound - d) / 10 {
            proof {
                assert(acc * 10 + d > bound) by (nonlinear_arith)
                    requires
                        d > bound || acc > (bound - d) / 10,
                        d <= 9;
                assert(digits_value(g.take(i + 1 - start)) == acc * 10 + d);
                // Every later digit only raises the value.
                if digits_field(g) is Some {
                    lemma_digits_prefix(g, i + 1 - start);
                }
            }
            return None;
        }
        acc = acc * 10 + d;
        i = i + 1;
    }
    proof {
        assert(g.take(n - start) =~= g);
    }
    Some(acc)
}

/// What a line of input means, and the history after it: the REPL's own
/// commands leave the history unchanged; otherwise the effective command
/// (see [`effective_command`]) is evaluated and recorded (see
/// [`history_after`]), or nothing happens, or `!N` named no entry.
pub fn repl_step(history: &mut Vec<String>, line: &str) -> (r: ReplAction)
    ensures
        ({
            let t = trim_spec(line@);
            let h = crate::text::views(old(history)@);
            &&& is_quit(t) ==> r == ReplAction::Quit
            &&& is_help(t) ==> r == ReplAction::Help
            &&& t == ":hist"@ ==> r == ReplAction::History
            &&& t == ":lint"@ ==> r == ReplAction::Lint
            &&& (is_quit(t) || is_help(t) || t == ":hist"@ || t == ":lint"@) ==> final(history)@ == old(history)@
            &&& !(is_quit(t) || is_help(t) || t == ":hist"@ || t == ":lint"@) ==> match effective_command(h, t) {
                Some(e) => (r matches ReplAction::Eval(x) && x@ == e) && crate::text::views(final(history)@) == history_after(h, e),
                None => final(history)@ == old(history)@ && if t.len() == 0 {
                    r == ReplAction::Nothing
                } else {
                    r matches ReplAction::NoSuchEntry(x) && x@ == t.drop_first()
                },
            }
        }),
{
    let t = trim_ws(line);
    let ts = t.as_str();
    proof {
        reveal_strlit(":q");
        reveal_strlit(":quit");
        reveal_strlit(":exit");
        reveal_strlit(":h");
        reveal_strlit(":help");
        reveal_strlit(":hist");
        reveal_strlit(":lint");
    }
    if str_eq(ts, ":q") || str_eq(ts, ":quit") || str_eq(ts, ":exit") {
        return ReplAction::Quit;
    }
    if str_eq(ts, ":h") || str_eq(ts, ":help") {
        return ReplAction::Help;
    }
    if str_eq(ts, ":hist") {
        return ReplAction::History;
    }
    if str_eq(ts, ":lint") {
        return ReplAction::Lint;
    }
    let ghost h = crate::text::views(history@);
    let n = ts.unicode_len();
    let effective: String = if n == 0 {
        if history.len() == 0 {
            return ReplAction::Nothing;
        }
        let last = history[history.len() - 1].clone();
        proof {
            assert(h.last() == history@[history@.len() - 1]@);
        }
        last
    } else if ts.get_char(0) == '!' {
        let rest = substring(ts, 1, n);
        proof {
            assert(rest@ =~= t@.drop_first());
        }
        match parse_bounded(rest.as_str(), history.len()) {
            Some(k) => {
                if k == 0 {
                    return ReplAction::NoSuchEntry(rest);
                }
                let e = history[k - 1].clone();
                proof {
                    assert(h[k - 1] == history@[k - 1]@);
                }
                e
            },
            None => {
                return ReplAction::NoSuchEntry(rest);
            },
        }
    } else {
        t.clone()
    };
    let ghost before = history@;
    if effective.unicode_len() > 0 {
        let push = if history.len() == 0 {
            true
        } else {
            !str_eq(history[history.len() - 1].as_str(), effective.as_str())
        };
        if push {
            history.push(effective.clone());
            proof {
                assert(crate::text::views(history@) =~= h.push(effective@));
            }
        }
    }
    ReplAction::Eval(effective)
}

/// The history listing: each entry numbered from 1, right-aligned in three
/// columns.
pub open spec fn history_listing(h: Seq<Seq<char>>, n: nat) -> Seq<char>
    decreases n,
{
    if n == 0 {
        Seq::empty()
    } else {
        history_listing(h, (n - 1) as nat) + pad_left(crate::text::decimal(n), 3) + "  "@ + h[n - 1] + "\n"@
    }
}

/// `s` padded with spaces on the left to at least `w` characters.
pub open spec fn pad_left(s: Seq<char>, w: nat) -> Seq<char> {
    if s.len() >= w { s } else { Seq::new((w - s.len()) as nat, |i: int| ' ') + s }
}

fn pad_left_exec(s: &str, w: usize) -> (r: String)
    ensures
        r@ == pad_left(s@, w as nat),
{
    let n = s.unicode_len();
    if n >= w {
        return owned(s);
    }
    let mut spaces: Vec<char> = Vec::new();
    while spaces.len() < w - n
        invariant
            spaces@.len() <= w - n,
            forall|i: int| 0 <= i < spaces@.len() ==> spaces@[i] == ' ',
        decreases w - n - spaces@.len(),
    {
        spaces.push(' ');
    }
    let sp = crate::text::string_of_chars(&spaces);
    proof {
        assert(sp@ =~= Seq::new((w - n) as nat, |i: int| ' '));
    }
    cat(sp.as_str(), s)
}

/// The `:hist` listing.
pub fn render_history(history: &Vec<String>) -> (r: String)
    requires
        history@.len() < u64::MAX,
    ensures
        r@ == history_listing(crate::text::views(history@), history@.len()),
{
    proof {
        reveal_strlit("");
    }
    let ghost h = crate::text::views(history@);
    let mut out = owned("");
    let mut i: usize = 0;
    while i < history.len()
        invariant
            h == crate::text::views(history@),
            history@.len() < u64::MAX,
            i <= history@.len(),
            out@ == history_listing(h, i as nat),
        decreases history@.len() - i,
    {
        let num = crate::text::u64_decimal((i + 1) as u64);
        out.append(pad_left_exec(num.as_str(), 3).as_str());
        out.append("  ");
        out.append(history[i].as_str());
        out.append("\n");
        i = i + 1;
    }
    out
}

/// The name of a lint severity as the REPL shows it.
pub open spec fn severity_name(s: LintSeverity) -> Seq<char> {
    match s {
        LintSeverity::Warning => "Warning"@,
        LintSeverity::Suggestion => "Suggestion"@,
    }
}

/// The lines of `:lint`: one per finding, or a line saying there is none.
pub open spec fn lint_listing(ls: Seq<Lint>, n: nat) -> Seq<char>
    decreases n,
{
    if n == 0 {
        Seq::empty()
    } else {
        lint_listing(ls, (n - 1) as nat) + "lint: "@ + severity_name(ls[n - 1].severity) + " "@ + ls[n - 1].message@ + " ("@
            + ls[n - 1].code@ + ")\n"@
    }
}

/// The `:lint` listing.
pub fn render_lint(lints: &Vec<Lint>) -> (r: String)
    ensures
        lints@.len() == 0 ==> r@ == "lint: no warnings\n"@,
        lints@.len() > 0 ==> r@ == lint_listing(lints@, lints@.len()),
{
    if lints.len() == 0 {
        return owned("lint: no warnings\n");
    }
    proof {
        reveal_strlit("");
    }
    let mut out = owned("");
    let mut i: usize = 0;
    while i < lints.len()
        invariant
            i <= lints@.len(),
            out@ == lint_listing(lints@, i as nat),
        decreases lints@.len() - i,
    {
        let l = &lints[i];
        let sev = match l.severity {
            LintSeverity::Warning => "Warning",
            LintSeverity::Suggestion => "Suggestion",
        };
        out.append("lint: ");
        out.append(sev);
        out.append(" ");
        out.append(l.message.as_str());
        out.append(" (");
        out.append(l.code);
        out.append(")\n");
        i = i + 1;
    }
    out
}

/// The project root: the explicit one, else the first directory from
/// `cwd` upwards that carries a project marker (or `cwd` itself).
pub fn resolve_project<M: Fn(&str) -> bool>(explicit: Option<&str>, cwd: &str, has_marker: &M) -> (r: String)
    requires
        forall|p: &str| #[trigger] has_marker.requires((p,)),
    ensures
        explicit matches Some(p) ==> r@ == p@,
        explicit is None ==> r@ == cwd@ || is_ancestor(r@, cwd@, cwd@.len() + 1),
{
    match explicit {
        Some(p) => owned(p),
        None => find_project_root_from(cwd, has_marker),
    }
}

} // verus!
