//! Pipeline primitives: flattening, the pipe-sink topology of a command line,
//! the per-segment working directory, and the injected top-level decision.
//!
//! The binary carries no built-in policy: single commands are classified by
//! the configuration (`rules.toml` lookup and the rule script), injected here
//! as a classifier.
use vstd::prelude::*;
use crate::cmd_parse::{SimpleCommand, flatten_commands, join_exec, join_path, line_commands, line_unparseable, parse_error_text};
use crate::model::{Decision, Verdict, combined_decision, combined_view, decisions, reason_of, unparseable};
use crate::text::{chars_of, owned};

verus! {

// ---------------------------------------------------------------------------
// Pipe sinks
// ---------------------------------------------------------------------------

/// Unicode `White_Space` (what `char::is_whitespace` accepts).
pub open spec fn is_ws(c: char) -> bool {
    ||| c == ' '
    ||| ('\t' <= c && c <= '\r')
    ||| c == '\u{85}'
    ||| c == '\u{A0}'
    ||| c == '\u{1680}'
    ||| ('\u{2000}' <= c && c <= '\u{200A}')
    ||| c == '\u{2028}'
    ||| c == '\u{2029}'
    ||| c == '\u{202F}'
    ||| c == '\u{205F}'
    ||| c == '\u{3000}'
}

pub fn is_ws_exec(c: char) -> (r: bool)
    ensures
        r == is_ws(c),
{
    c == ' ' || ('\t' <= c && c <= '\r') || c == '\u{85}' || c == '\u{A0}' || c == '\u{1680}'
        || ('\u{2000}' <= c && c <= '\u{200A}') || c == '\u{2028}' || c == '\u{2029}'
        || c == '\u{202F}' || c == '\u{205F}' || c == '\u{3000}'
}

/// Separator of the command-line pieces: `|` between pipe sides, else `;`,
/// `&` and newline between segments.
pub open spec fn is_sep(c: char, pipe: bool) -> bool {
    if pipe { c == '|' } else { c == ';' || c == '&' || c == '\n' }
}

/// The pieces of `s` between separators, as `str::split` yields them.
pub open spec fn split_on(s: Seq<char>, pipe: bool) -> Seq<Seq<char>>
    decreases s.len(),
{
    if s.len() == 0 {
        seq![Seq::empty()]
    } else {
        let prev = split_on(s.drop_last(), pipe);
        if is_sep(s.last(), pipe) {
            prev.push(Seq::empty())
        } else {
            prev.update(prev.len() - 1, prev.last().push(s.last()))
        }
    }
}

/// Holds a character other than white space.
pub open spec fn nonblank(s: Seq<char>) -> bool {
    exists|k: int| 0 <= k < s.len() && !is_ws(#[trigger] s[k])
}

/// `s` without its leading white space.
pub open spec fn drop_ws(s: Seq<char>) -> Seq<char>
    decreases s.len(),
{
    if s.len() > 0 && is_ws(s[0]) { drop_ws(s.drop_first()) } else { s }
}

/// The leading run of non-white-space characters.
pub open spec fn take_word(s: Seq<char>) -> Seq<char>
    decreases s.len(),
{
    if s.len() > 0 && !is_ws(s[0]) { seq![s[0]] + take_word(s.drop_first()) } else { Seq::empty() }
}

/// The first white-space separated word.
pub open spec fn first_word(s: Seq<char>) -> Seq<char> {
    take_word(drop_ws(s))
}

pub open spec fn is_quote(c: char) -> bool {
    c == '"' || c == '\''
}

/// `s` without leading quote characters.
pub open spec fn strip_lead_quotes(s: Seq<char>) -> Seq<char>
    decreases s.len(),
{
    if s.len() > 0 && is_quote(s[0]) { strip_lead_quotes(s.drop_first()) } else { s }
}

/// `s` without trailing quote characters.
pub open spec fn strip_trail_quotes(s: Seq<char>) -> Seq<char>
    decreases s.len(),
{
    if s.len() > 0 && is_quote(s.last()) { strip_trail_quotes(s.drop_last()) } else { s }
}

/// The interpreters that a pipe must not feed.
pub open spec fn is_sink(w: Seq<char>) -> bool {
    ||| w == "bash"@
    ||| w == "sh"@
    ||| w == "zsh"@
    ||| w == "python"@
    ||| w == "python3"@
    ||| w == "perl"@
    ||| w == "php"@
    ||| w == "ruby"@
}

/// A segment pipes into an interpreter: some non-blank side after another
/// non-blank side starts with a sink (quotes stripped).
pub open spec fn segment_pipes_to_shell(seg: Seq<char>) -> bool {
    let sides = split_on(seg, true);
    exists|a: int, b: int|
        0 <= a < b < sides.len() && nonblank(#[trigger] sides[a]) && nonblank(#[trigger] sides[b])
            && is_sink(strip_trail_quotes(strip_lead_quotes(first_word(sides[b]))))
}

/// Whether the bar at `i` is part of a `||` (logical or, not a pipe).
pub open spec fn in_double_bar(s: Seq<char>, i: int) -> bool {
    s[i] == '|' && ((i > 0 && s[i - 1] == '|') || (i + 1 < s.len() && s[i + 1] == '|'))
}

/// The command line with each `||` read as a list separator (like `;`).
pub open spec fn or_as_separator(s: Seq<char>) -> Seq<char> {
    Seq::new(s.len(), |i: int| if in_double_bar(s, i) { ';' } else { s[i] })
}

/// The command line pipes into an interpreter in some segment (`||` is a
/// logical or and separates segments; it is no pipe).
pub open spec fn pipe_to_shell_spec(source: Seq<char>) -> bool {
    let segs = split_on(or_as_separator(source), false);
    exists|i: int| 0 <= i < segs.len() && segment_pipes_to_shell(#[trigger] segs[i])
}

pub open spec fn char_views(v: Seq<Vec<char>>) -> Seq<Seq<char>> {
    v.map_values(|x: Vec<char>| x@)
}

fn split_chars(chars: &Vec<char>, pipe: bool) -> (r: Vec<Vec<char>>)
    ensures
        char_views(r@) == split_on(chars@, pipe),
{
    let mut pieces: Vec<Vec<char>> = Vec::new();
    let mut cur: Vec<char> = Vec::new();
    let mut i: usize = 0;
    proof {
        assert(chars@.take(0) =~= Seq::<char>::empty());
        assert(char_views(pieces@).push(cur@) =~= seq![Seq::<char>::empty()]);
    }
    while i < chars.len()
        invariant
            i <= chars@.len(),
            char_views(pieces@).push(cur@) == split_on(chars@.take(i as int), pipe),
        decreases chars@.len() - i,
    {
        let c = chars[i];
        let ghost prev = split_on(chars@.take(i as int), pipe);
        proof {
            assert(chars@.take(i + 1).drop_last() =~= chars@.take(i as int));
            assert(chars@.take(i + 1).last() == c);
        }
        if (pipe && c == '|') || (!pipe && (c == ';' || c == '&' || c == '\n')) {
            let ghost pv = char_views(pieces@);
            pieces.push(cur);
            cur = Vec::new();
            proof {
                assert(char_views(pieces@) =~= pv.push(prev.last()));
                assert(char_views(pieces@).push(cur@) =~= prev.push(Seq::empty()));
            }
        } else {
            let ghost old_cur = cur@;
            cur.push(c);
            proof {
                assert(char_views(pieces@).push(cur@) =~= prev.update(prev.len() - 1, old_cur.push(c)));
            }
        }
        i = i + 1;
    }
    proof {
        assert(chars@.take(chars@.len() as int) =~= chars@);
    }
    let ghost pv = char_views(pieces@);
    pieces.push(cur);
    proof {
        assert(char_views(pieces@) =~= pv.push(cur@));
    }
    pieces
}

fn nonblank_exec(s: &Vec<char>) -> (r: bool)
    ensures
        r == nonblank(s@),
{
    let mut k: usize = 0;
    while k < s.len()
        invariant
            k <= s@.len(),
            forall|j: int| 0 <= j < k ==> is_ws(#[trigger] s@[j]),
        decreases s@.len() - k,
    {
        if !is_ws_exec(s[k]) {
            return true;
        }
        k = k + 1;
    }
    false
}

/// The first word of `s` with surrounding quotes stripped.
fn sink_word(s: &Vec<char>) -> (r: Vec<char>)
    ensures
        r@ == strip_trail_quotes(strip_lead_quotes(first_word(s@))),
{
    let n = s.len();
    let mut i: usize = 0;
    proof {
        assert(s@.skip(0) =~= s@);
    }
    while i < n && is_ws_exec(s[i])
        invariant
            n == s@.len(),
            i <= n,
            drop_ws(s@) == drop_ws(s@.skip(i as int)),
        decreases n - i,
    {
        proof {
            assert(s@.skip(i as int).drop_first() =~= s@.skip(i + 1));
        }
        i = i + 1;
    }
    proof {
        assert(drop_ws(s@.skip(i as int)) == s@.skip(i as int));
    }
    let start = i;
    while i < n && !is_ws_exec(s[i])
        invariant
            n == s@.len(),
            start <= i <= n,
            take_word(s@.skip(start as int)) == s@.subrange(start as int, i as int) + take_word(s@.skip(i as int)),
        decreases n - i,
    {
        proof {
            assert(s@.skip(i as int).drop_first() =~= s@.skip(i + 1));
            assert(s@.subrange(start as int, i as int) + (seq![s@[i as int]] + take_word(s@.skip(i + 1)))
                =~= s@.subrange(start as int, i + 1) + take_word(s@.skip(i + 1)));
        }
        i = i + 1;
    }
    proof {
        assert(take_word(s@.skip(i as int)) =~= Seq::<char>::empty());
        assert(s@.subrange(start as int, i as int) + Seq::<char>::empty() =~= s@.subrange(start as int, i as int));
    }
    let mut lo = start;
    while lo < i && (s[lo] == '"' || s[lo] == '\'')
        invariant
            start <= lo <= i <= n,
            n == s@.len(),
            strip_lead_quotes(s@.subrange(start as int, i as int)) == strip_lead_quotes(s@.subrange(lo as int, i as int)),
        decreases i - lo,
    {
        proof {
            assert(s@.subrange(lo as int, i as int).drop_first() =~= s@.subrange(lo + 1, i as int));
        }
        lo = lo + 1;
    }
    proof {
        assert(strip_lead_quotes(s@.subrange(lo as int, i as int)) == s@.subrange(lo as int, i as int));
    }
    let mut hi = i;
    while hi > lo && (s[hi - 1] == '"' || s[hi - 1] == '\'')
        invariant
            lo <= hi <= i <= n,
            n == s@.len(),
            strip_trail_quotes(s@.subrange(lo as int, i as int)) == strip_trail_quotes(s@.subrange(lo as int, hi as int)),
        decreases hi - lo,
    {
        proof {
            assert(s@.subrange(lo as int, hi as int).drop_last() =~= s@.subrange(lo as int, hi - 1));
        }
        hi = hi - 1;
    }
    proof {
        assert(strip_trail_quotes(s@.subrange(lo as int, hi as int)) == s@.subrange(lo as int, hi as int));
    }
    let mut out: Vec<char> = Vec::new();
    let mut k = lo;
    while k < hi
        invariant
            lo <= k <= hi <= n,
            n == s@.len(),
            out@ == s@.subrange(lo as int, k as int),
        decreases hi - k,
    {
        out.push(s[k]);
        proof {
            assert(out@ =~= s@.subrange(lo as int, k + 1));
        }
        k = k + 1;
    }
    out
}

fn chars_eq(a: &Vec<char>, b: &str) -> (r: bool)
    ensures
        r == (a@ == b@),
{
    let bv = chars_of(b);
    if a.len() != bv.len() {
        return false;
    }
    let mut i: usize = 0;
    while i < a.len()
        invariant
            a@.len() == bv@.len(),
            bv@ == b@,
            i <= a@.len(),
            forall|k: int| 0 <= k < i ==> a@[k] == bv@[k],
        decreases a@.len() - i,
    {
        if a[i] != bv[i] {
            return false;
        }
        i = i + 1;
    }
    proof {
        assert(a@ =~= bv@);
    }
    true
}

fn is_sink_exec(w: &Vec<char>) -> (r: bool)
    ensures
        r == is_sink(w@),
{
    chars_eq(w, "bash") || chars_eq(w, "sh") || chars_eq(w, "zsh") || chars_eq(w, "python")
        || chars_eq(w, "python3") || chars_eq(w, "perl") || chars_eq(w, "php") || chars_eq(w, "ruby")
}

fn segment_pipes(seg: &Vec<char>) -> (r: bool)
    ensures
        r == segment_pipes_to_shell(seg@),
{
    let sides = split_chars(seg, true);
    let ghost sv = char_views(sides@);
    let mut seen = false;
    let mut b: usize = 0;
    while b < sides.len()
        invariant
            sv == char_views(sides@),
            sv == split_on(seg@, true),
            b <= sides@.len(),
            seen == exists|a: int| 0 <= a < b && nonblank(#[trigger] sv[a]),
            forall|a: int, c: int|
                0 <= a < c < b && nonblank(#[trigger] sv[a]) && nonblank(#[trigger] sv[c])
                    ==> !is_sink(strip_trail_quotes(strip_lead_quotes(first_word(sv[c])))),
        decreases sides@.len() - b,
    {
        proof {
            assert(sv[b as int] == sides@[b as int]@);
        }
        let nb = nonblank_exec(&sides[b]);
        if nb && seen {
            let w = sink_word(&sides[b]);
            if is_sink_exec(&w) {
                proof {
                    let a = choose|a: int| 0 <= a < b && nonblank(#[trigger] sv[a]);
                    assert(0 <= a < b < sv.len() && nonblank(sv[a]) && nonblank(sv[b as int]));
                }
                return true;
            }
        }
        if nb {
            seen = true;
        }
        b = b + 1;
    }
    false
}

/// Whether the command line pipes into an interpreter (`curl … | sh`). The
/// test reads the raw `|` topology of each `;`/`&`/newline segment; the
/// "pipe → deny" policy lives in the rule script.
pub fn pipe_to_shell(source: &str) -> (r: bool)
    ensures
        r == pipe_to_shell_spec(source@),
{
    let raw = chars_of(source);
    let mut chars: Vec<char> = Vec::new();
    let n = raw.len();
    let mut j: usize = 0;
    while j < n
        invariant
            n == raw@.len(),
            raw@ == source@,
            j <= n,
            chars@ == or_as_separator(source@).take(j as int),
        decreases n - j,
    {
        let c = raw[j];
        let double = c == '|' && ((j > 0 && raw[j - 1] == '|') || (j + 1 < n && raw[j + 1] == '|'));
        chars.push(if double { ';' } else { c });
        proof {
            assert(chars@ =~= or_as_separator(source@).take(j + 1));
        }
        j = j + 1;
    }
    proof {
        assert(or_as_separator(source@).take(n as int) =~= or_as_separator(source@));
    }
    let segs = split_chars(&chars, false);
    let ghost sv = char_views(segs@);
    let mut i: usize = 0;
    while i < segs.len()
        invariant
            sv == char_views(segs@),
            sv == split_on(or_as_separator(source@), false),
            i <= segs@.len(),
            forall|k: int| 0 <= k < i ==> !segment_pipes_to_shell(#[trigger] sv[k]),
        decreases segs@.len() - i,
    {
        proof {
            assert(sv[i as int] == segs@[i as int]@);
        }
        if segment_pipes(&segs[i]) {
            return true;
        }
        i = i + 1;
    }
    false
}

// ---------------------------------------------------------------------------
// Per-segment working directory
// ---------------------------------------------------------------------------

/// State of the inline `cd` machine: the current base (`None` once it can no
/// longer be known) and the stack of entered subshell groups with the base
/// at their entry.
pub struct BaseState {
    pub cur: Option<Seq<char>>,
    pub stack: Seq<(usize, Option<Seq<char>>)>,
}

/// Position of group `id` on the stack (first from the bottom).
pub open spec fn group_pos(stack: Seq<(usize, Option<Seq<char>>)>, id: usize) -> Option<int>
    decreases stack.len(),
{
    if stack.len() == 0 {
        None
    } else {
        match group_pos(stack.drop_last(), id) {
            Some(p) => Some(p),
            None => if stack.last().0 == id { Some(stack.len() - 1) } else { None },
        }
    }
}

/// Group bookkeeping before a command: entering a new group pushes the
/// current base; returning to an outer group pops back to it and restores
/// its entry base; a top-level command leaves all groups at the project root.
pub open spec fn enter_group(st: BaseState, group: Option<usize>, project: Seq<char>) -> BaseState {
    match group {
        Some(id) => {
            if st.stack.len() > 0 && st.stack.last().0 == id {
                st
            } else {
                match group_pos(st.stack, id) {
                    Some(p) => BaseState { cur: st.stack[p].1, stack: st.stack.take(p + 1) },
                    None => BaseState { cur: st.cur, stack: st.stack.push((id, st.cur)) },
                }
            }
        },
        None => {
            if st.stack.len() > 0 {
                BaseState { cur: Some(project), stack: Seq::empty() }
            } else {
                st
            }
        },
    }
}

/// The base after `cd` with the given target: no target goes home (unknown
/// without a home directory); `-`, a `$` or an expansion cannot be resolved;
/// `~` and `~/…` use the home directory; otherwise the target is joined to
/// the current base (an absolute target needs no base).
pub open spec fn cd_target(
    args: Seq<String>,
    has_expansion: bool,
    base: Option<Seq<char>>,
    home: Option<Seq<char>>,
) -> Option<Seq<char>> {
    if has_expansion {
        None
    } else if args.len() == 0 {
        home
    } else {
        let arg = args[0]@;
        if arg == "-"@ || arg.contains('$') {
            None
        } else if arg == "~"@ {
            home
        } else {
            let target = crate::cmd_parse::expand_home(arg, home);
            if target.len() > 0 && target[0] == '/' {
                Some(target)
            } else if arg.len() > 0 && arg[0] == '~' && home is None {
                None
            } else {
                match base {
                    Some(b) => Some(join_path(b, target)),
                    None => None,
                }
            }
        }
    }
}

/// One command through the machine: the base it runs in and the next state.
pub open spec fn base_step(st: BaseState, cmd: SimpleCommand, project: Seq<char>, home: Option<Seq<char>>) -> (Option<Seq<char>>, BaseState) {
    let e = enter_group(st, cmd.subshell_id, project);
    let after = if cmd.words@.len() > 0 && cmd.words@[0]@ == "cd"@ {
        BaseState { cur: cd_target(cmd.words@.drop_first(), cmd.has_expansion, e.cur, home), stack: e.stack }
    } else {
        e
    };
    (e.cur, after)
}

/// The bases of a sequence of commands and the final state.
pub open spec fn bases_run(cmds: Seq<SimpleCommand>, project: Seq<char>, home: Option<Seq<char>>) -> (Seq<Option<Seq<char>>>, BaseState)
    decreases cmds.len(),
{
    if cmds.len() == 0 {
        (Seq::empty(), BaseState { cur: Some(project), stack: Seq::empty() })
    } else {
        let prev = bases_run(cmds.drop_last(), project, home);
        let s = base_step(prev.1, cmds.last(), project, home);
        (prev.0.push(s.0), s.1)
    }
}

pub open spec fn opt_str_view(o: Option<String>) -> Option<Seq<char>> {
    match o {
        Some(s) => Some(s@),
        None => None,
    }
}

pub open spec fn stack_view(v: Seq<(usize, Option<String>)>) -> Seq<(usize, Option<Seq<char>>)> {
    v.map_values(|e: (usize, Option<String>)| (e.0, opt_str_view(e.1)))
}

fn clone_opt(o: &Option<String>) -> (r: Option<String>)
    ensures
        opt_str_view(r) == opt_str_view(*o),
{
    match o {
        Some(s) => Some(s.clone()),
        None => None,
    }
}

fn contains_dollar(s: &str) -> (r: bool)
    ensures
        r == s@.contains('$'),
{
    let n = s.unicode_len();
    let mut i: usize = 0;
    while i < n
        invariant
            n == s@.len(),
            i <= n,
            forall|k: int| 0 <= k < i ==> s@[k] != '$',
        decreases n - i,
    {
        if s.get_char(i) == '$' {
            return true;
        }
        i = i + 1;
    }
    false
}

/// The base after a `cd` command (see [`cd_target`]).
pub fn resolve_cd_target(cmd: &SimpleCommand, base: &Option<String>, home: Option<&str>) -> (r: Option<String>)
    ensures
        opt_str_view(r) == cd_target(
            crate::lookup::cmd_args(*cmd),
            cmd.has_expansion,
            opt_str_view(*base),
            match home { Some(h) => Some(h@), None => None },
        ),
{
    if cmd.has_expansion {
        return None;
    }
    let args = cmd.args();
    if args.len() == 0 {
        return match home {
            Some(h) => Some(owned(h)),
            None => None,
        };
    }
    let arg = args[0].as_str();
    proof {
        reveal_strlit("-");
        reveal_strlit("~");
    }
    if crate::text::str_eq(arg, "-") || contains_dollar(arg) {
        return None;
    }
    if crate::text::str_eq(arg, "~") {
        return match home {
            Some(h) => Some(owned(h)),
            None => None,
        };
    }
    let target = crate::cmd_parse::expand_home_exec(arg, home);
    let tn = target.unicode_len();
    if tn > 0 && target.as_str().get_char(0) == '/' {
        return Some(target);
    }
    let an = arg.unicode_len();
    if an > 0 && arg.get_char(0) == '~' && home.is_none() {
        return None;
    }
    match base {
        Some(b) => Some(join_exec(b.as_str(), target.as_str())),
        None => None,
    }
}

/// Per-segment working directory: `bases[i]` is the directory against which
/// the relative paths of the `i`-th simple command resolve. It starts at the
/// project root; `cd` moves it; a subshell group keeps its `cd` inside; an
/// unresolvable target gives `None` (later write targets are then treated as
/// escaping).
pub fn segment_bases(commands: &Vec<SimpleCommand>, project: &str, home: Option<&str>) -> (r: Vec<Option<String>>)
    ensures
        r@.len() == commands@.len(),
        r@.map_values(|o: Option<String>| opt_str_view(o)) == bases_run(commands@, project@, match home { Some(h) => Some(h@), None => None }).0,
{
    let ghost hv = match home { Some(h) => Some(h@), None => None };
    let mut bases: Vec<Option<String>> = Vec::new();
    let mut cur: Option<String> = Some(owned(project));
    let mut stack: Vec<(usize, Option<String>)> = Vec::new();
    let mut i: usize = 0;
    proof {
        assert(commands@.take(0) =~= Seq::<SimpleCommand>::empty());
        assert(stack_view(stack@) =~= Seq::<(usize, Option<Seq<char>>)>::empty());
        assert(bases@.map_values(|o: Option<String>| opt_str_view(o)) =~= Seq::<Option<Seq<char>>>::empty());
    }
    while i < commands.len()
        invariant
            i <= commands@.len(),
            bases@.map_values(|o: Option<String>| opt_str_view(o)) == bases_run(commands@.take(i as int), project@, hv).0,
            (BaseState { cur: opt_str_view(cur), stack: stack_view(stack@) }) == bases_run(commands@.take(i as int), project@, hv).1,
            bases@.len() == i,
            hv == match home { Some(h) => Some(h@), None => None },
        decreases commands@.len() - i,
    {
        let cmd = &commands[i];
        let ghost st = BaseState { cur: opt_str_view(cur), stack: stack_view(stack@) };
        proof {
            assert(commands@.take(i + 1).drop_last() =~= commands@.take(i as int));
            assert(commands@.take(i + 1).last() == *cmd);
        }
        match cmd.subshell_id {
            Some(id) => {
                let top_is = stack.len() > 0 && stack[stack.len() - 1].0 == id;
                if !top_is {
                    let mut pos: usize = 0;
                    let mut found = false;
                    while pos < stack.len()
                        invariant_except_break
                            !found,
                        invariant
                            pos <= stack@.len(),
                            forall|q: int| 0 <= q < pos ==> (#[trigger] stack@[q]).0 != id,
                        ensures
                            found ==> pos < stack@.len() && stack@[pos as int].0 == id && forall|q: int| 0 <= q < pos ==> (#[trigger] stack@[q]).0 != id,
                            !found ==> forall|q: int| 0 <= q < stack@.len() ==> (#[trigger] stack@[q]).0 != id,
                        decreases stack@.len() - pos,
                    {
                        if stack[pos].0 == id {
                            found = true;
                            break;
                        }
                        pos = pos + 1;
                    }
                    proof {
                        lemma_group_pos(stack_view(stack@), id, if found { Some(pos as int) } else { None });
                    }
                    if found {
                        let ghost sv = stack_view(stack@);
                        stack.truncate(pos + 1);
                        cur = clone_opt(&stack[pos].1);
                        proof {
                            assert(stack_view(stack@) =~= sv.take(pos + 1));
                        }
                    } else {
                        let ghost sv = stack_view(stack@);
                        let entry = clone_opt(&cur);
                        stack.push((id, entry));
                        proof {
                            assert(stack_view(stack@) =~= sv.push((id, opt_str_view(cur))));
                        }
                    }
                } else {
                    proof {
                        assert(st.stack.last().0 == id);
                    }
                }
            },
            None => {
                if stack.len() > 0 {
                    stack.clear();
                    cur = Some(owned(project));
                    proof {
                        assert(stack_view(stack@) =~= Seq::<(usize, Option<Seq<char>>)>::empty());
                    }
                }
            },
        }
        let ghost entered = BaseState { cur: opt_str_view(cur), stack: stack_view(stack@) };
        proof {
            assert(entered == enter_group(st, cmd.subshell_id, project@));
        }
        let ghost bv = bases@.map_values(|o: Option<String>| opt_str_view(o));
        bases.push(clone_opt(&cur));
        proof {
            assert(bases@.map_values(|o: Option<String>| opt_str_view(o)) =~= bv.push(opt_str_view(cur)));
        }
        let is_cd = match cmd.bin() {
            Some(b) => crate::text::str_eq(b.as_str(), "cd"),
            None => false,
        };
        if is_cd {
            cur = resolve_cd_target(cmd, &cur, home);
        }
        i = i + 1;
    }
    proof {
        assert(commands@.take(commands@.len() as int) =~= commands@);
    }
    bases
}

proof fn lemma_group_pos(stack: Seq<(usize, Option<Seq<char>>)>, id: usize, found: Option<int>)
    requires
        found matches Some(p) ==> 0 <= p < stack.len() && stack[p].0 == id && forall|q: int| 0 <= q < p ==> (#[trigger] stack[q]).0 != id,
        found is None ==> forall|q: int| 0 <= q < stack.len() ==> (#[trigger] stack[q]).0 != id,
    ensures
        group_pos(stack, id) == found,
    decreases stack.len(),
{
    if stack.len() > 0 {
        let init = stack.drop_last();
        match found {
            Some(p) => {
                if p < stack.len() - 1 {
                    lemma_group_pos(init, id, Some(p));
                } else {
                    assert forall|q: int| 0 <= q < init.len() implies (#[trigger] init[q]).0 != id by {
                        assert(stack[q] == init[q]);
                    }
                    lemma_group_pos(init, id, None);
                }
            },
            None => {
                assert forall|q: int| 0 <= q < init.len() implies (#[trigger] init[q]).0 != id by {
                    assert(stack[q] == init[q]);
                }
                lemma_group_pos(init, id, None);
            },
        }
    }
}

// ---------------------------------------------------------------------------
// Top-level decision
// ---------------------------------------------------------------------------

/// `r` is the verdict of the commands `cmds` of line `command`: no command
/// is confirm (`empty command`); otherwise the combination of verdicts that
/// the classifier gives each command with its segment base and the pipe
/// topology of the line.
pub open spec fn decided_by<F: Fn(&SimpleCommand, &Option<String>, &str, bool) -> Verdict>(
    cmds: Seq<SimpleCommand>,
    command: Seq<char>,
    project: &str,
    home: Option<Seq<char>>,
    classify: F,
    r: Verdict,
) -> bool {
    &&& cmds.len() == 0 ==> r.decision == Decision::Confirm && reason_of(r) == Some("empty command"@)
    &&& cmds.len() > 0 ==> exists|vs: Seq<Verdict>, bs: Seq<Option<String>>|
        #![trigger decisions(vs), bs.len()]
        vs.len() == cmds.len() && bs.len() == cmds.len()
            && bs.map_values(|o: Option<String>| opt_str_view(o)) == bases_run(cmds, project@, home).0
            && (forall|i: int| 0 <= i < vs.len() ==> classify.ensures((&cmds[i], &bs[i], project, pipe_to_shell_spec(command)), #[trigger] vs[i]))
            && r.decision == combined_decision(decisions(vs))
            && (r.decision, reason_of(r)) == combined_view(vs)
}

/// Decision for already flattened commands: each is classified by the
/// injected classifier (command, segment base, project root, pipe topology)
/// and the verdicts are combined (any deny → deny, else any confirm →
/// confirm, else allow); no command at all is confirm.
pub fn decide_commands<F: Fn(&SimpleCommand, &Option<String>, &str, bool) -> Verdict>(
    commands: &Vec<SimpleCommand>,
    command: &str,
    project: &str,
    home: Option<&str>,
    classify: &F,
) -> (r: Verdict)
    requires
        forall|c: &SimpleCommand, b: &Option<String>, p: &str, x: bool| #[trigger] classify.requires((c, b, p, x)),
    ensures
        decided_by(commands@, command@, project, match home { Some(h) => Some(h@), None => None }, *classify, r),
{
    if commands.len() == 0 {
        return Verdict::confirm("empty command");
    }
    let bases = segment_bases(commands, project, home);
    let pipe = pipe_to_shell(command);
    let mut verdicts: Vec<Verdict> = Vec::new();
    let mut i: usize = 0;
    while i < commands.len()
        invariant
            i <= commands@.len(),
            bases@.len() == commands@.len(),
            verdicts@.len() == i,
            pipe == pipe_to_shell_spec(command@),
            forall|c: &SimpleCommand, b: &Option<String>, p: &str, x: bool| #[trigger] classify.requires((c, b, p, x)),
            forall|k: int| 0 <= k < i ==> classify.ensures((&commands@[k], &bases@[k], project, pipe), #[trigger] verdicts@[k]),
        decreases commands@.len() - i,
    {
        let v = classify(&commands[i], &bases[i], project, pipe);
        verdicts.push(v);
        i = i + 1;
    }
    let ghost vs = verdicts@;
    let r = Verdict::combine(verdicts);
    proof {
        assert(vs.len() == commands@.len() && bases@.len() == commands@.len());
        let d = decisions(vs);
        let l = bases@.len();
    }
    r
}

/// Top-level decision of a command line with an injected classifier: parse,
/// per-segment bases, pipe topology, per-command classification, combination.
/// A line that does not parse is confirm.
pub fn decide_with<F: Fn(&SimpleCommand, &Option<String>, &str, bool) -> Verdict>(
    command: &str,
    project: &str,
    home: Option<&str>,
    classify: &F,
) -> (r: Verdict)
    requires
        forall|c: &SimpleCommand, b: &Option<String>, p: &str, x: bool| #[trigger] classify.requires((c, b, p, x)),
    ensures
        line_unparseable(command@) ==> r.decision == Decision::Confirm && reason_of(r) == Some("unparseable: "@ + parse_error_text(command@)),
        !line_unparseable(command@) ==> exists|cmds: Seq<SimpleCommand>| #[trigger] line_commands(command@, cmds)
            && decided_by(cmds, command@, project, match home { Some(h) => Some(h@), None => None }, *classify, r),
{
    match flatten_commands(command) {
        Ok(commands) => {
            let r = decide_commands(&commands, command, project, home, classify);
            proof {
                assert(line_commands(command@, commands@));
            }
            r
        },
        Err(e) => unparseable(e.to_string().as_str()),
    }
}

/// No character of `s` separates pieces (of either kind).
pub open spec fn no_sep(s: Seq<char>, pipe: bool) -> bool {
    forall|k: int| 0 <= k < s.len() ==> !is_sep(#[trigger] s[k], pipe)
}

proof fn lemma_split_nonempty(s: Seq<char>, pipe: bool)
    ensures
        split_on(s, pipe).len() >= 1,
    decreases s.len(),
{
    if s.len() > 0 {
        lemma_split_nonempty(s.drop_last(), pipe);
    }
}

/// Without separators, splitting gives back the whole text.
proof fn lemma_split_whole(s: Seq<char>, pipe: bool)
    requires
        no_sep(s, pipe),
    ensures
        split_on(s, pipe) == seq![s],
    decreases s.len(),
{
    if s.len() > 0 {
        assert(no_sep(s.drop_last(), pipe));
        lemma_split_whole(s.drop_last(), pipe);
        assert(!is_sep(s[s.len() - 1], pipe));
        assert(s.drop_last().push(s.last()) =~= s);
        assert(seq![s.drop_last()].update(0, s) =~= seq![s]);
    } else {
        assert(s =~= Seq::<char>::empty());
    }
}

/// Text without separators extends the last piece.
proof fn lemma_split_extend(p: Seq<char>, y: Seq<char>, pipe: bool)
    requires
        no_sep(y, pipe),
    ensures
        split_on(p + y, pipe) == split_on(p, pipe).update(split_on(p, pipe).len() - 1, split_on(p, pipe).last() + y),
    decreases y.len(),
{
    lemma_split_nonempty(p, pipe);
    let sp = split_on(p, pipe);
    if y.len() == 0 {
        assert(p + y =~= p);
        assert(sp.last() + y =~= sp.last());
        assert(sp.update(sp.len() - 1, sp.last()) =~= sp);
    } else {
        let y0 = y.drop_last();
        assert(no_sep(y0, pipe));
        lemma_split_extend(p, y0, pipe);
        assert((p + y).drop_last() =~= p + y0);
        assert((p + y).last() == y.last());
        assert(!is_sep(y[y.len() - 1], pipe));
        let prev = split_on(p + y0, pipe);
        assert(prev.last() == sp.last() + y0);
        assert((sp.last() + y0).push(y.last()) =~= sp.last() + y);
        assert(prev.update(prev.len() - 1, prev.last().push(y.last())) =~= sp.update(sp.len() - 1, sp.last() + y));
    }
}

/// One separator between two texts without separators splits into those two.
proof fn lemma_split_two(x: Seq<char>, c: char, y: Seq<char>, pipe: bool)
    requires
        no_sep(x, pipe),
        is_sep(c, pipe),
        no_sep(y, pipe),
    ensures
        split_on(x.push(c) + y, pipe) == seq![x, y],
{
    lemma_split_whole(x, pipe);
    assert(x.push(c).drop_last() =~= x);
    assert(split_on(x.push(c), pipe) == seq![x, Seq::<char>::empty()]);
    lemma_split_extend(x.push(c), y, pipe);
    assert(Seq::<char>::empty() + y =~= y);
    assert(seq![x, Seq::<char>::empty()].update(1, y) =~= seq![x, y]);
}

/// A word without white space is its own leading word.
proof fn lemma_take_word_whole(w: Seq<char>)
    requires
        forall|k: int| 0 <= k < w.len() ==> !is_ws(#[trigger] w[k]),
    ensures
        take_word(w) == w,
    decreases w.len(),
{
    if w.len() > 0 {
        assert forall|k: int| 0 <= k < w.drop_first().len() implies !is_ws(#[trigger] w.drop_first()[k]) by {
            assert(w.drop_first()[k] == w[k + 1]);
        }
        lemma_take_word_whole(w.drop_first());
        assert(seq![w[0]] + w.drop_first() =~= w);
    }
}

/// `a | w` pipes into `w` when `a` is a command and `w` a plain word.
proof fn lemma_pipe_into_word(a: Seq<char>, w: Seq<char>)
    requires
        nonblank(a),
        no_sep(a, true),
        no_sep(a, false),
        w.len() > 0,
        forall|k: int| 0 <= k < w.len() ==> !is_ws(#[trigger] w[k]) && !is_quote(w[k]) && !is_sep(w[k], true)
            && !is_sep(w[k], false),
    ensures
        pipe_to_shell_spec(a + " | "@ + w) <== is_sink(w),
{
    reveal_strlit(" | ");
    let line = a + " | "@ + w;
    let n: int = a.len() as int;
    assert(line.len() == n + 3 + w.len());
    assert forall|i: int| 0 <= i < line.len() implies (#[trigger] line[i] == '|' <==> i == n + 1) by {
        if i < n {
            assert(line[i] == a[i]);
            assert(!is_sep(a[i], true));
        } else if i >= n + 3 {
            assert(line[i] == w[i - n - 3]);
            assert(!is_sep(w[i - n - 3], true));
        }
    }
    assert(or_as_separator(line) =~= line) by {
        assert forall|i: int| 0 <= i < line.len() implies !in_double_bar(line, i) by {
            if line[i] == '|' {
                assert(line[n] == ' ' && line[n + 2] == ' ');
            }
        }
    }
    assert(no_sep(line, false)) by {
        assert forall|i: int| 0 <= i < line.len() implies !is_sep(#[trigger] line[i], false) by {
            if i < n {
                assert(line[i] == a[i]);
            } else if i >= n + 3 {
                assert(line[i] == w[i - n - 3]);
            }
        }
    }
    lemma_split_whole(line, false);
    let x = a + " "@;
    let y = " "@ + w;
    reveal_strlit(" ");
    assert(x.push('|') + y =~= line);
    assert(no_sep(x, true)) by {
        assert forall|i: int| 0 <= i < x.len() implies !is_sep(#[trigger] x[i], true) by {
            if i < n {
                assert(x[i] == a[i]);
            }
        }
    }
    assert(no_sep(y, true)) by {
        assert forall|i: int| 0 <= i < y.len() implies !is_sep(#[trigger] y[i], true) by {
            if i > 0 {
                assert(y[i] == w[i - 1]);
            }
        }
    }
    lemma_split_two(x, '|', y, true);
    let sides = split_on(line, true);
    assert(sides == seq![x, y]);
    let k = choose|k: int| 0 <= k < a.len() && !is_ws(#[trigger] a[k]);
    assert(x[k] == a[k]);
    assert(nonblank(sides[0]));
    assert(y[1] == w[0]);
    assert(nonblank(sides[1]));
    assert(y.drop_first() =~= w);
    assert(drop_ws(y) == drop_ws(w));
    lemma_take_word_whole(w);
    assert(first_word(y) == w);
    assert(strip_lead_quotes(w) == w);
    assert(strip_trail_quotes(w) == w) by {
        assert(!is_quote(w[w.len() - 1]));
    }
    if is_sink(w) {
        assert(segment_pipes_to_shell(line)) by {
            assert(0 < 1 < sides.len() && nonblank(sides[0]) && nonblank(sides[1])
                && is_sink(strip_trail_quotes(strip_lead_quotes(first_word(sides[1])))));
        }
        let segs = split_on(or_as_separator(line), false);
        assert(segs == seq![line]);
        assert(segment_pipes_to_shell(segs[0]));
    }
}

/// Piping into any interpreter is caught: `a | w` pipes to a shell for every
/// command `a` (no separators of its own) and every interpreter `w` among
/// `bash`, `sh`, `zsh`, `python`, `python3`, `perl`, `php` and `ruby`.
pub proof fn law_pipe_into_interpreter_is_caught(a: Seq<char>, w: Seq<char>)
    requires
        nonblank(a),
        forall|k: int| 0 <= k < a.len() ==> #[trigger] a[k] != '|' && a[k] != ';' && a[k] != '&' && a[k] != '\n',
        seq!["bash"@, "sh"@, "zsh"@, "python"@, "python3"@, "perl"@, "php"@, "ruby"@].contains(w),
    ensures
        pipe_to_shell_spec(a + " | "@ + w),
{
    let l = seq!["bash"@, "sh"@, "zsh"@, "python"@, "python3"@, "perl"@, "php"@, "ruby"@];
    let i = choose|i: int| 0 <= i < l.len() && l[i] == w;
    assert(l[i] == w);
    reveal_strlit("bash");
    reveal_strlit("sh");
    reveal_strlit("zsh");
    reveal_strlit("python");
    reveal_strlit("python3");
    reveal_strlit("perl");
    reveal_strlit("php");
    reveal_strlit("ruby");
    assert(no_sep(a, true) && no_sep(a, false)) by {
        assert forall|k: int| 0 <= k < a.len() implies !is_sep(#[trigger] a[k], true) && !is_sep(a[k], false) by {
            assert(a[k] != '|' && a[k] != ';' && a[k] != '&' && a[k] != '\n');
        }
    }
    assert(w.len() > 0);
    assert forall|k: int| 0 <= k < w.len() implies !is_ws(#[trigger] w[k]) && !is_quote(w[k]) && !is_sep(w[k], true)
        && !is_sep(w[k], false) by {
        assert('a' <= w[k] <= 'z' || '0' <= w[k] <= '9');
    }
    lemma_pipe_into_word(a, w);
}

/// A `cd` inside a subshell group does not leak: the first top-level
/// command after a group runs at the project root.
pub proof fn law_subshell_cd_does_not_leak(st: BaseState, project: Seq<char>)
    requires
        st.stack.len() > 0,
    ensures
        enter_group(st, None, project).cur == Some(project),
{
}

/// Once the base is unknown it stays unknown for top-level commands other
/// than `cd`.
pub proof fn law_unknown_base_persists(st: BaseState, cmd: SimpleCommand, project: Seq<char>, home: Option<Seq<char>>)
    requires
        st.cur is None,
        st.stack.len() == 0,
        cmd.subshell_id is None,
        !(cmd.words@.len() > 0 && cmd.words@[0]@ == "cd"@),
    ensures
        base_step(st, cmd, project, home).1.cur is None,
        base_step(st, cmd, project, home).0 is None,
{
}

/// A `cd` to an absolute path without expansions makes the base known again.
pub proof fn law_absolute_cd_recovers(st: BaseState, cmd: SimpleCommand, project: Seq<char>, home: Option<Seq<char>>)
    requires
        cmd.words@.len() >= 2,
        cmd.words@[0]@ == "cd"@,
        !cmd.has_expansion,
        cmd.words@[1]@.len() > 0,
        cmd.words@[1]@[0] == '/',
        !cmd.words@[1]@.contains('$'),
    ensures
        base_step(st, cmd, project, home).1.cur == Some(cmd.words@[1]@),
{
    let arg = cmd.words@[1]@;
    assert(cmd.words@.drop_first()[0] == cmd.words@[1]);
    assert(arg != "-"@) by {
        reveal_strlit("-");
        if arg == "-"@ {
            assert(arg[0] == '-');
        }
    }
    assert(arg != "~"@) by {
        reveal_strlit("~");
        if arg == "~"@ {
            assert(arg[0] == '~');
        }
    }
    assert(crate::cmd_parse::expand_home(arg, home) == arg);
}

} // verus!
