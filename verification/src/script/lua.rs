//! Load-time handling of Lua rule scripts that needs no Lua state: comment
//! stripping and the extraction of `allow("…")` literals (Lua has no public
//! syntax tree, so the scan is lexical).
//!
//! - a quoted argument is collected;
//! - a first non-blank character after `allow(` that is not a quote rejects
//!   the script (dynamic names cannot be reconciled statically);
//! - unusual shapes (a call split over lines inside the parentheses, a call
//!   inside a string) may be missed rather than rejected: the run-time check
//!   of the `allow` primitive still refuses undeclared names.
use vstd::prelude::*;
use crate::engine::is_ws;
use crate::script::ScriptError;
use crate::text::{chars_of, owned, string_of_chars, views};

verus! {

// ---------------------------------------------------------------------------
// Comments
// ---------------------------------------------------------------------------

/// End of the run of `-` starting at `j`.
pub open spec fn dash_run_end(s: Seq<char>, j: int) -> int
    decreases s.len() - j,
{
    if 0 <= j < s.len() && s[j] == '-' { dash_run_end(s, j + 1) } else { j }
}

/// Position of the first `]]` at or after `j`.
pub open spec fn find_close(s: Seq<char>, j: int) -> Option<int>
    decreases s.len() - j,
{
    if j < 0 || j + 1 >= s.len() {
        None
    } else if s[j] == ']' && s[j + 1] == ']' {
        Some(j)
    } else {
        find_close(s, j + 1)
    }
}

/// Position of the newline that ends the line holding `j` (the length when
/// there is none).
pub open spec fn line_end(s: Seq<char>, j: int) -> int
    decreases s.len() - j,
{
    if 0 <= j < s.len() && s[j] != '\n' { line_end(s, j + 1) } else { j }
}

/// End (exclusive) of the comment that starts with `--` at `i`: a block
/// comment `--[[ … ]]` (any number of extra dashes) up to its `]]`, else the
/// rest of the line.
pub open spec fn comment_end(s: Seq<char>, i: int) -> int {
    let j = dash_run_end(s, i + 2);
    if j + 1 < s.len() && s[j] == '[' && s[j + 1] == '[' && find_close(s, j + 2) is Some {
        find_close(s, j + 2)->0 + 2
    } else {
        line_end(s, i)
    }
}

/// The text from `i` on with comments blanked (every character of a
/// comment becomes a space, so positions are kept); positions before
/// `until` lie inside a comment already started.
pub open spec fn strip_from(s: Seq<char>, i: int, until: int) -> Seq<char>
    decreases s.len() - i,
{
    if i < 0 || i >= s.len() {
        Seq::empty()
    } else if i < until {
        seq![' '] + strip_from(s, i + 1, until)
    } else if s[i] == '-' && i + 1 < s.len() && s[i + 1] == '-' {
        seq![' '] + strip_from(s, i + 1, comment_end(s, i))
    } else {
        seq![s[i]] + strip_from(s, i + 1, until)
    }
}

/// `s` with its Lua comments blanked.
pub open spec fn strip_spec(s: Seq<char>) -> Seq<char> {
    strip_from(s, 0, 0)
}

fn dash_run_end_exec(s: &Vec<char>, j: usize) -> (r: usize)
    requires
        j <= s@.len(),
    ensures
        r as int == dash_run_end(s@, j as int),
        r <= s@.len(),
{
    let mut k = j;
    while k < s.len() && s[k] == '-'
        invariant
            j <= k <= s@.len(),
            dash_run_end(s@, j as int) == dash_run_end(s@, k as int),
        decreases s@.len() - k,
    {
        k = k + 1;
    }
    k
}

fn find_close_exec(s: &Vec<char>, j: usize) -> (r: Option<usize>)
    requires
        j <= s@.len(),
    ensures
        match r {
            Some(k) => find_close(s@, j as int) == Some(k as int) && k + 1 < s@.len(),
            None => find_close(s@, j as int) is None,
        },
{
    let mut k = j;
    let n = s.len();
    while k < n && n - k >= 2
        invariant
            n == s@.len(),
            j <= k <= s@.len(),
            find_close(s@, j as int) == find_close(s@, k as int),
        decreases s@.len() - k,
    {
        if s[k] == ']' && s[k + 1] == ']' {
            return Some(k);
        }
        k = k + 1;
    }
    None
}

fn line_end_exec(s: &Vec<char>, j: usize) -> (r: usize)
    requires
        j <= s@.len(),
    ensures
        r as int == line_end(s@, j as int),
        j <= r <= s@.len(),
{
    let mut k = j;
    while k < s.len() && s[k] != '\n'
        invariant
            j <= k <= s@.len(),
            line_end(s@, j as int) == line_end(s@, k as int),
        decreases s@.len() - k,
    {
        k = k + 1;
    }
    k
}

fn comment_end_exec(s: &Vec<char>, i: usize) -> (r: usize)
    requires
        i + 1 < s@.len(),
    ensures
        r as int == comment_end(s@, i as int),
{
    let n = s.len();
    let j = dash_run_end_exec(s, i + 2);
    if j < n && n - j >= 2 && s[j] == '[' && s[j + 1] == '[' {
        match find_close_exec(s, j + 2) {
            Some(e) => {
                return e + 2;
            },
            None => {},
        }
    }
    line_end_exec(s, i)
}

fn strip_chars(s: &Vec<char>) -> (r: Vec<char>)
    ensures
        r@ == strip_spec(s@),
{
    let mut out: Vec<char> = Vec::new();
    let mut until: usize = 0;
    let mut i: usize = 0;
    while i < s.len()
        invariant
            i <= s@.len(),
            out@ + strip_from(s@, i as int, until as int) == strip_spec(s@),
        decreases s@.len() - i,
    {
        let ghost before = out@;
        if i < until {
            out.push(' ');
            proof {
                assert(before + strip_from(s@, i as int, until as int) =~= out@ + strip_from(s@, i + 1, until as int));
            }
        } else if s[i] == '-' && i + 1 < s.len() && s[i + 1] == '-' {
            let e = comment_end_exec(s, i);
            out.push(' ');
            proof {
                assert(before + strip_from(s@, i as int, until as int) =~= out@ + strip_from(s@, i + 1, e as int));
            }
            until = e;
        } else {
            out.push(s[i]);
            proof {
                assert(before + strip_from(s@, i as int, until as int) =~= out@ + strip_from(s@, i + 1, until as int));
            }
        }
        i = i + 1;
    }
    proof {
        assert(out@ + Seq::<char>::empty() =~= out@);
    }
    out
}

/// The source with its Lua comments (`-- …` to the end of the line and
/// `--[[ … ]]`) replaced by spaces, so that a call in a comment is not taken
/// for a call. A `--` inside a string literal also starts a comment here: the
/// call is then missed, never wrongly rejected.
pub fn strip_lua_comments(source: &str) -> (r: String)
    ensures
        r@ == strip_spec(source@),
{
    let chars = chars_of(source);
    let out = strip_chars(&chars);
    string_of_chars(&out)
}

// ---------------------------------------------------------------------------
// allow("…") literals
// ---------------------------------------------------------------------------

/// An identifier character (ASCII letter, digit or `_`).
pub open spec fn is_ident_char(c: char) -> bool {
    ('a' <= c && c <= 'z') || ('A' <= c && c <= 'Z') || ('0' <= c && c <= '9') || c == '_'
}

pub fn is_ident_byte(c: char) -> (r: bool)
    ensures
        r == is_ident_char(c),
{
    ('a' <= c && c <= 'z') || ('A' <= c && c <= 'Z') || ('0' <= c && c <= '9') || c == '_'
}

/// First occurrence of `allow` at or after `i`.
pub open spec fn find_word_from(t: Seq<char>, i: int) -> Option<int>
    decreases t.len() - i,
{
    if i < 0 || i + 5 > t.len() {
        None
    } else if t.subrange(i, i + 5) == "allow"@ {
        Some(i)
    } else {
        find_word_from(t, i + 1)
    }
}

/// First position at or after `j` that is not white space.
pub open spec fn skip_ws_from(t: Seq<char>, j: int) -> int
    decreases t.len() - j,
{
    if 0 <= j < t.len() && is_ws(t[j]) { skip_ws_from(t, j + 1) } else { j }
}

/// First position at or after `j` holding `c`.
pub open spec fn find_char_from(t: Seq<char>, c: char, j: int) -> Option<int>
    decreases t.len() - j,
{
    if j < 0 || j >= t.len() {
        None
    } else if t[j] == c {
        Some(j)
    } else {
        find_char_from(t, c, j + 1)
    }
}

pub proof fn lemma_find_word_ge(t: Seq<char>, i: int)
    ensures
        find_word_from(t, i) matches Some(at) ==> i <= at && at + 5 <= t.len(),
    decreases t.len() - i,
{
    if !(i < 0 || i + 5 > t.len()) && t.subrange(i, i + 5) != "allow"@ {
        lemma_find_word_ge(t, i + 1);
    }
}

pub proof fn lemma_skip_ws_ge(t: Seq<char>, j: int)
    ensures
        skip_ws_from(t, j) >= j,
        j <= t.len() ==> skip_ws_from(t, j) <= t.len(),
    decreases t.len() - j,
{
    if 0 <= j < t.len() && is_ws(t[j]) {
        lemma_skip_ws_ge(t, j + 1);
    }
}

pub proof fn lemma_find_char_ge(t: Seq<char>, c: char, j: int)
    ensures
        find_char_from(t, c, j) matches Some(k) ==> j <= k < t.len(),
    decreases t.len() - j,
{
    if !(j < 0 || j >= t.len()) && t[j] != c {
        lemma_find_char_ge(t, c, j + 1);
    }
}

/// Literal arguments of the `allow(…)` calls from `i` on; `Err(false)` for a
/// call whose argument is not a quoted literal, `Err(true)` for a literal
/// that is not closed.
pub open spec fn scan_from(t: Seq<char>, i: int) -> Result<Seq<Seq<char>>, bool>
    decreases t.len() - i,
{
    if i < 0 || i > t.len() {
        Ok(Seq::empty())
    } else {
        proof {
            lemma_find_word_ge(t, i);
        }
        match find_word_from(t, i) {
            None => Ok(Seq::empty()),
            Some(at) => {
                let next = at + 5;
                if at > 0 && is_ident_char(t[at - 1]) {
                    scan_from(t, next)
                } else {
                    let paren = skip_ws_from(t, next);
                    proof {
                        lemma_skip_ws_ge(t, next);
                    }
                    if !(paren < t.len() && t[paren] == '(') {
                        scan_from(t, next)
                    } else {
                        let arg = skip_ws_from(t, paren + 1);
                        proof {
                            lemma_skip_ws_ge(t, paren + 1);
                        }
                        if arg >= t.len() {
                            scan_from(t, next)
                        } else if t[arg] != '"' && t[arg] != '\'' {
                            Err(false)
                        } else {
                            proof {
                                lemma_find_char_ge(t, t[arg], arg + 1);
                            }
                            match find_char_from(t, t[arg], arg + 1) {
                                None => Err(true),
                                Some(end) => match scan_from(t, end + 1) {
                                    Ok(rest) => Ok(seq![t.subrange(arg + 1, end)] + rest),
                                    Err(e) => Err(e),
                                },
                            }
                        }
                    }
                }
            },
        }
    }
}

/// The literal arguments of the `allow(…)` calls of a Lua source (comments
/// blanked first); `Err` when a call has no quoted literal argument or the
/// literal is not closed.
pub open spec fn extract_spec(source: Seq<char>) -> Result<Seq<Seq<char>>, bool> {
    scan_from(strip_spec(source), 0)
}

pub open spec fn prepend(p: Seq<Seq<char>>, r: Result<Seq<Seq<char>>, bool>) -> Result<Seq<Seq<char>>, bool> {
    match r {
        Ok(x) => Ok(p + x),
        Err(e) => Err(e),
    }
}

fn find_word_exec(t: &Vec<char>, i: usize) -> (r: Option<usize>)
    requires
        i <= t@.len(),
    ensures
        match r {
            Some(at) => find_word_from(t@, i as int) == Some(at as int) && at + 5 <= t@.len(),
            None => find_word_from(t@, i as int) is None,
        },
{
    let mut k = i;
    let n = t.len();
    while k <= n && n - k >= 5
        invariant
            n == t@.len(),
            i <= k <= t@.len(),
            find_word_from(t@, i as int) == find_word_from(t@, k as int),
        decreases t@.len() - k,
    {
        proof {
            reveal_strlit("allow");
        }
        if t[k] == 'a' && t[k + 1] == 'l' && t[k + 2] == 'l' && t[k + 3] == 'o' && t[k + 4] == 'w' {
            proof {
                assert(t@.subrange(k as int, k + 5) =~= "allow"@);
            }
            return Some(k);
        }
        proof {
            if t@.subrange(k as int, k + 5) == "allow"@ {
                assert(t@.subrange(k as int, k + 5)[0] == 'a');
                assert(t@.subrange(k as int, k + 5)[1] == 'l');
                assert(t@.subrange(k as int, k + 5)[2] == 'l');
                assert(t@.subrange(k as int, k + 5)[3] == 'o');
                assert(t@.subrange(k as int, k + 5)[4] == 'w');
            }
        }
        k = k + 1;
    }
    None
}

fn skip_ws_exec(t: &Vec<char>, j: usize) -> (r: usize)
    requires
        j <= t@.len(),
    ensures
        r as int == skip_ws_from(t@, j as int),
        j <= r <= t@.len(),
{
    let mut k = j;
    while k < t.len() && crate::engine::is_ws_exec(t[k])
        invariant
            j <= k <= t@.len(),
            skip_ws_from(t@, j as int) == skip_ws_from(t@, k as int),
        decreases t@.len() - k,
    {
        k = k + 1;
    }
    k
}

fn find_char_exec(t: &Vec<char>, c: char, j: usize) -> (r: Option<usize>)
    requires
        j <= t@.len(),
    ensures
        match r {
            Some(k) => find_char_from(t@, c, j as int) == Some(k as int) && j <= k < t@.len(),
            None => find_char_from(t@, c, j as int) is None,
        },
{
    let mut k = j;
    while k < t.len()
        invariant
            j <= k <= t@.len(),
            find_char_from(t@, c, j as int) == find_char_from(t@, c, k as int),
        decreases t@.len() - k,
    {
        if t[k] == c {
            return Some(k);
        }
        k = k + 1;
    }
    None
}

fn chars_range(t: &Vec<char>, from: usize, to: usize) -> (r: Vec<char>)
    requires
        from <= to <= t@.len(),
    ensures
        r@ == t@.subrange(from as int, to as int),
{
    let mut out: Vec<char> = Vec::new();
    let mut k = from;
    while k < to
        invariant
            from <= k <= to <= t@.len(),
            out@ == t@.subrange(from as int, k as int),
        decreases to - k,
    {
        out.push(t[k]);
        proof {
            assert(out@ =~= t@.subrange(from as int, k + 1));
        }
        k = k + 1;
    }
    out
}

/// Load-time extraction of the `allow("…")` / `allow('…')` literals of a
/// Lua script; a call whose argument is not a quoted literal rejects the
/// script.
pub fn extract_allow_literals(source: &str) -> (r: Result<Vec<String>, ScriptError>)
    ensures
        match extract_spec(source@) {
            Ok(v) => r matches Ok(w) && views(w@) == v,
            Err(_) => r matches Err(e) && e is Rejected,
        },
{
    let src = chars_of(source);
    let t = strip_chars(&src);
    let ghost ts = t@;
    let mut out: Vec<String> = Vec::new();
    let mut i: usize = 0;
    while i <= t.len()
        invariant
            ts == t@,
            ts == strip_spec(source@),
            i <= t@.len() + 1,
            i <= t@.len() ==> scan_from(ts, 0) == prepend(views(out@), scan_from(ts, i as int)),
            i > t@.len() ==> scan_from(ts, 0) == Ok::<Seq<Seq<char>>, bool>(views(out@)),
        decreases t@.len() + 1 - i,
    {
        let at = match find_word_exec(&t, i) {
            Some(a) => a,
            None => {
                proof {
                    assert(views(out@) + Seq::<Seq<char>>::empty() =~= views(out@));
                }
                return Ok(out);
            },
        };
        proof {
            lemma_find_word_ge(ts, i as int);
        }
        let next = at + 5;
        if at > 0 && is_ident_byte(t[at - 1]) {
            i = next;
        } else {
            let paren = skip_ws_exec(&t, next);
            if !(paren < t.len() && t[paren] == '(') {
                i = next;
            } else {
                let arg = skip_ws_exec(&t, paren + 1);
                if arg >= t.len() {
                    i = next;
                } else if t[arg] != '"' && t[arg] != '\'' {
                    return Err(ScriptError::Rejected(owned("`allow()` must be called with a string literal bin name (dynamic names are not statically reconcilable)")));
                } else {
                    match find_char_exec(&t, t[arg], arg + 1) {
                        None => {
                            return Err(ScriptError::Rejected(owned("`allow()` literal argument is not terminated")));
                        },
                        Some(end) => {
                            let lit = chars_range(&t, arg + 1, end);
                            let ghost before = views(out@);
                            out.push(string_of_chars(&lit));
                            proof {
                                assert(views(out@) =~= before.push(ts.subrange(arg + 1, end as int)));
                                let rest = scan_from(ts, end + 1);
                                match rest {
                                    Ok(x) => {
                                        assert(before + (seq![ts.subrange(arg + 1, end as int)] + x) =~= views(out@) + x);
                                    },
                                    Err(_) => {},
                                }
                            }
                            i = end + 1;
                        },
                    }
                }
            }
        }
    }
    Ok(out)
}

} // verus!
