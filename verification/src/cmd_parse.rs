//! bash command parsing: the tree-sitter syntax tree flattened into simple
//! commands, plus the repository-boundary path checks.
//!
//! Classification works on the AST rather than on text prefixes: compound
//! commands (`echo hi && rm -rf /`) are split and classified one by one;
//! write redirections and path escapes are recognised exactly.
use vstd::prelude::*;
use vstd::string::StringSliceAdditionalSpecFns;
use crate::text::{cat, cat3, chars_of, owned, str_eq, substring, starts_with, has_char, contains_str, views};

verus! {

/// One flattened simple command.
#[derive(Debug, Clone, PartialEq, Eq)]
pub struct SimpleCommand {
    /// Words in source order (redirection operators excluded).
    pub words: Vec<String>,
    /// Writes a file through a redirection (`>` `>>` `>|` `&>`, target not a
    /// discard device).
    pub writes_redirect: bool,
    /// Targets of the writing redirections (empty when a writing redirection
    /// has no recognisable target).
    pub redirect_targets: Vec<String>,
    /// Innermost enclosing subshell group, if any.
    pub subshell_id: Option<usize>,
    /// Some word holds a parameter expansion or a command substitution.
    pub has_expansion: bool,
}

impl SimpleCommand {
    /// A command of plain words with no redirection.
    pub fn from_words(words: Vec<String>) -> (r: SimpleCommand)
        ensures
            r.words == words,
            !r.writes_redirect,
            r.redirect_targets@.len() == 0,
            r.subshell_id is None,
            !r.has_expansion,
    {
        SimpleCommand {
            words,
            writes_redirect: false,
            redirect_targets: Vec::new(),
            subshell_id: None,
            has_expansion: false,
        }
    }

    /// The command name (first word); `None` for an empty command.
    pub fn bin(&self) -> (r: Option<&String>)
        ensures
            match r {
                Some(b) => self.words@.len() > 0 && *b == self.words@[0],
                None => self.words@.len() == 0,
            },
    {
        if self.words.len() > 0 {
            Some(&self.words[0])
        } else {
            None
        }
    }

    /// The words after the command name.
    pub fn args(&self) -> (r: Vec<String>)
        ensures
            r@ == (if self.words@.len() == 0 { Seq::empty() } else { self.words@.drop_first() }),
    {
        let mut out: Vec<String> = Vec::new();
        let mut i: usize = 1;
        while i < self.words.len()
            invariant
                1 <= i,
                self.words@.len() > 0 ==> i <= self.words@.len(),
                self.words@.len() > 0 ==> out@ == self.words@.subrange(1, i as int),
                self.words@.len() == 0 ==> out@.len() == 0,
            decreases self.words@.len() - i,
        {
            out.push(self.words[i].clone());
            proof {
                assert(out@ =~= self.words@.subrange(1, i + 1));
            }
            i = i + 1;
        }
        proof {
            if self.words@.len() > 0 {
                assert(out@ =~= self.words@.drop_first());
            } else {
                assert(out@ =~= Seq::<String>::empty());
            }
        }
        out
    }
}

/// `raw` without one pair of enclosing `"…"` or `'…'` quotes.
pub open spec fn unquote_spec(raw: Seq<char>) -> Seq<char> {
    if raw.len() >= 2 && ((raw[0] == '"' && raw.last() == '"') || (raw[0] == '\'' && raw.last() == '\'')) {
        raw.subrange(1, raw.len() - 1)
    } else {
        raw
    }
}

/// Strips one pair of enclosing quotes (display and table matching only).
pub fn unquote(raw: &str) -> (r: String)
    ensures
        r@ == unquote_spec(raw@),
{
    let n = raw.unicode_len();
    if n >= 2 {
        let first = raw.get_char(0);
        let last = raw.get_char(n - 1);
        if (first == '"' && last == '"') || (first == '\'' && last == '\'') {
            return substring(raw, 1, n - 1);
        }
    }
    owned(raw)
}

// ---------------------------------------------------------------------------
// Redirections
// ---------------------------------------------------------------------------

/// Whether a redirection writes a file, and its target.
pub open spec fn redirect_effect(op: Seq<char>, target: Option<Seq<char>>) -> (bool, Option<Seq<char>>) {
    if op == "<"@ || op == "<<"@ || op == "<<<"@ {
        (false, None)
    } else if op == ">&"@ || op == "<&"@ || op == ">&-"@ {
        (false, None)
    } else {
        match target {
            Some(t) if t == "/dev/null"@ || t == "null"@ || t == "NUL"@ || t == "nul"@ || t == "-"@ => (false, None),
            other => (true, other),
        }
    }
}

/// Classifies a redirection by its operator and (unquoted) target: input
/// redirections, fd duplication / closing and discard devices do not write;
/// every other output redirection writes (with no target when none is
/// recognisable).
pub fn redirect_writes(op: &str, target: Option<String>) -> (r: (bool, Option<String>))
    ensures
        r.0 == redirect_effect(op@, match target { Some(t) => Some(t@), None => None }).0,
        match (r.1, redirect_effect(op@, match target { Some(t) => Some(t@), None => None }).1) {
            (Some(a), Some(b)) => a@ == b,
            (None, None) => true,
            _ => false,
        },
{
    if str_eq(op, "<") || str_eq(op, "<<") || str_eq(op, "<<<") {
        return (false, None);
    }
    if str_eq(op, ">&") || str_eq(op, "<&") || str_eq(op, ">&-") {
        return (false, None);
    }
    match target {
        Some(t) => {
            let ts = t.as_str();
            if str_eq(ts, "/dev/null") || str_eq(ts, "null") || str_eq(ts, "NUL") || str_eq(ts, "nul") || str_eq(ts, "-") {
                (false, None)
            } else {
                (true, Some(t))
            }
        },
        None => (true, None),
    }
}

// ---------------------------------------------------------------------------
// Repository boundary
// ---------------------------------------------------------------------------

/// The `/`-separated pieces of a path text.
pub open spec fn split_slash(s: Seq<char>) -> Seq<Seq<char>>
    decreases s.len(),
{
    if s.len() == 0 {
        seq![Seq::empty()]
    } else {
        let prev = split_slash(s.drop_last());
        if s.last() == '/' {
            prev.push(Seq::empty())
        } else {
            prev.update(prev.len() - 1, prev.last().push(s.last()))
        }
    }
}

/// Path components as `std::path::Path` yields them on Unix: a leading root
/// (`/`), then the non-empty pieces other than `.`.
pub open spec fn components(s: Seq<char>) -> Seq<Seq<char>> {
    let pieces = split_slash(s).filter(|p: Seq<char>| p.len() > 0 && p != "."@);
    if s.len() > 0 && s[0] == '/' {
        seq!["/"@] + pieces
    } else {
        pieces
    }
}

/// Lexical normalisation: `..` cancels the previous kept component (a `..`
/// stays when nothing or a `..` precedes it).
pub open spec fn normalize_parts(parts: Seq<Seq<char>>) -> Seq<Seq<char>>
    decreases parts.len(),
{
    if parts.len() == 0 {
        parts
    } else {
        let prev = normalize_parts(parts.drop_last());
        let c = parts.last();
        if c == ".."@ {
            if prev.len() > 0 && prev.last() != ".."@ {
                prev.drop_last()
            } else {
                prev.push(".."@)
            }
        } else {
            prev.push(c)
        }
    }
}

/// `~/rest` with the home directory substituted (when it is known).
pub open spec fn expand_home(path: Seq<char>, home: Option<Seq<char>>) -> Seq<char> {
    match home {
        Some(h) if path.len() >= 2 && path[0] == '~' && path[1] == '/' =>
            trim_trailing_seps(h) + "/"@ + path.subrange(2, path.len() as int),
        _ => path,
    }
}

/// `h` without trailing `/` or `\`.
pub open spec fn trim_trailing_seps(h: Seq<char>) -> Seq<char>
    decreases h.len(),
{
    if h.len() > 0 && (h.last() == '/' || h.last() == '\\') {
        trim_trailing_seps(h.drop_last())
    } else {
        h
    }
}

/// `Path::join` on Unix: an absolute right side replaces the base.
pub open spec fn join_path(base: Seq<char>, rel: Seq<char>) -> Seq<char> {
    if rel.len() > 0 && rel[0] == '/' {
        rel
    } else if base.len() == 0 || base.last() == '/' {
        base + rel
    } else {
        base + "/"@ + rel
    }
}

/// Component-wise prefix (what `Path::starts_with` checks).
pub open spec fn parts_prefix(p: Seq<Seq<char>>, s: Seq<Seq<char>>) -> bool {
    p.len() <= s.len() && s.subrange(0, p.len() as int) == p
}

/// `path` lies inside the repository tree rooted at `root`.
pub open spec fn inside_repo_spec(path: Seq<char>, root: Seq<char>, home: Option<Seq<char>>) -> bool {
    let target = join_path(root, expand_home(path, home));
    parts_prefix(normalize_parts(components(root)), normalize_parts(components(target)))
}

fn split_components(s: &str) -> (r: Vec<String>)
    ensures
        views(r@) == components(s@),
{
    let v = chars_of(s);
    let mut pieces: Vec<String> = Vec::new();
    let mut start: usize = 0;
    let mut i: usize = 0;
    let ghost mut acc: Seq<Seq<char>> = seq![Seq::empty()];
    // Pieces between separators, filtered as they close.
    while i < v.len()
        invariant
            v@ == s@,
            start <= i <= v@.len(),
            split_slash(s@.subrange(0, i as int)) == acc,
            acc.len() >= 1,
            acc.last() == s@.subrange(start as int, i as int),
            views(pieces@) == acc.drop_last().filter(|p: Seq<char>| p.len() > 0 && p != "."@),
        decreases v@.len() - i,
    {
        proof {
            assert(s@.subrange(0, i + 1).drop_last() =~= s@.subrange(0, i as int));
            assert(s@.subrange(0, i + 1).last() == v@[i as int]);
        }
        if v[i] == '/' {
            let piece = substring(s, start, i);
            let keep = piece.unicode_len() > 0 && !str_eq(piece.as_str(), ".");
            let ghost old_acc = acc;
            proof {
                acc = acc.push(Seq::empty());
                assert(acc.drop_last() =~= old_acc.drop_last().push(old_acc.last()));
                reveal_with_fuel(Seq::filter, 2);
                assert(old_acc.drop_last().push(old_acc.last()).drop_last() =~= old_acc.drop_last());
            }
            if keep {
                pieces.push(piece);
                proof {
                    assert(views(pieces@) =~= views(pieces@.drop_last()).push(piece@));
                }
            }
            start = i + 1;
        } else {
            proof {
                let old_acc = acc;
                acc = acc.update(acc.len() - 1, acc.last().push(v@[i as int]));
                assert(acc.drop_last() =~= old_acc.drop_last());
                assert(acc.last() =~= s@.subrange(start as int, i + 1));
            }
        }
        i = i + 1;
    }
    let last = substring(s, start, v.len());
    let keep = last.unicode_len() > 0 && !str_eq(last.as_str(), ".");
    proof {
        assert(s@.subrange(0, v@.len() as int) =~= s@);
        let pieces_all = split_slash(s@);
        assert(pieces_all =~= acc.drop_last().push(acc.last()));
        reveal_with_fuel(Seq::filter, 2);
        assert(pieces_all.drop_last() =~= acc.drop_last());
    }
    if keep {
        pieces.push(last);
        proof {
            assert(views(pieces@) =~= views(pieces@.drop_last()).push(last@));
        }
    }
    if v.len() > 0 && v[0] == '/' {
        let mut out: Vec<String> = vec![owned("/")];
        proof {
            reveal_strlit("/");
            assert(views(out@) =~= seq!["/"@]);
        }
        let mut j: usize = 0;
        while j < pieces.len()
            invariant
                j <= pieces@.len(),
                views(out@) == seq!["/"@] + views(pieces@.subrange(0, j as int)),
            decreases pieces@.len() - j,
        {
            let ghost before = out@;
            out.push(pieces[j].clone());
            proof {
                assert(views(out@) =~= views(before).push(pieces@[j as int]@));
                assert(views(pieces@.subrange(0, j + 1)) =~= views(pieces@.subrange(0, j as int)).push(pieces@[j as int]@));
                assert(views(out@) =~= seq!["/"@] + views(pieces@.subrange(0, j + 1)));
            }
            j = j + 1;
        }
        proof {
            assert(pieces@.subrange(0, pieces@.len() as int) =~= pieces@);
        }
        out
    } else {
        pieces
    }
}

fn normalize(parts: Vec<String>) -> (r: Vec<String>)
    ensures
        views(r@) == normalize_parts(views(parts@)),
{
    let mut out: Vec<String> = Vec::new();
    let mut i: usize = 0;
    while i < parts.len()
        invariant
            i <= parts@.len(),
            views(out@) == normalize_parts(views(parts@.subrange(0, i as int))),
        decreases parts@.len() - i,
    {
        proof {
            assert(views(parts@.subrange(0, i + 1)).drop_last() =~= views(parts@.subrange(0, i as int)));
            assert(views(parts@.subrange(0, i + 1)).last() == parts@[i as int]@);
            reveal_strlit("..");
        }
        let c = parts[i].as_str();
        if str_eq(c, "..") {
            if out.len() > 0 && !str_eq(out[out.len() - 1].as_str(), "..") {
                let ghost before = out@;
                out.pop();
                proof {
                    assert(views(out@) =~= views(before).drop_last());
                }
            } else {
                out.push(owned(".."));
                proof {
                    assert(views(out@) =~= views(out@.drop_last()).push(".."@));
                }
            }
        } else {
            out.push(parts[i].clone());
            proof {
                assert(views(out@) =~= views(out@.drop_last()).push(parts@[i as int]@));
            }
        }
        i = i + 1;
    }
    proof {
        assert(parts@.subrange(0, parts@.len() as int) =~= parts@);
    }
    out
}


fn trim_seps(h: &str) -> (r: String)
    ensures
        r@ == trim_trailing_seps(h@),
{
    let mut n = h.unicode_len();
    proof {
        assert(h@.subrange(0, n as int) =~= h@);
    }
    while n > 0 && (h.get_char(n - 1) == '/' || h.get_char(n - 1) == '\\')
        invariant
            n <= h@.len(),
            trim_trailing_seps(h@) == trim_trailing_seps(h@.subrange(0, n as int)),
        decreases n,
    {
        proof {
            assert(h@.subrange(0, n as int).drop_last() =~= h@.subrange(0, n - 1));
        }
        n = n - 1;
    }
    substring(h, 0, n)
}

/// `~/rest` expanded against the home directory.
pub fn expand_home_exec(path: &str, home: Option<&str>) -> (r: String)
    ensures
        r@ == expand_home(path@, match home { Some(h) => Some(h@), None => None }),
{
    match home {
        Some(h) => {
            let n = path.unicode_len();
            if n >= 2 && path.get_char(0) == '~' && path.get_char(1) == '/' {
                let t = trim_seps(h);
                let rest = substring(path, 2, n);
                proof {
                    reveal_strlit("/");
                }
                return cat3(t.as_str(), "/", rest.as_str());
            }
            owned(path)
        },
        None => owned(path),
    }
}

/// `Path::join` on Unix.
pub fn join_exec(base: &str, rel: &str) -> (r: String)
    ensures
        r@ == join_path(base@, rel@),
{
    let rn = rel.unicode_len();
    if rn > 0 && rel.get_char(0) == '/' {
        return owned(rel);
    }
    let bn = base.unicode_len();
    if bn == 0 || base.get_char(bn - 1) == '/' {
        cat(base, rel)
    } else {
        proof {
            reveal_strlit("/");
        }
        cat3(base, "/", rel)
    }
}

fn prefix_parts(p: &Vec<String>, s: &Vec<String>) -> (r: bool)
    ensures
        r == parts_prefix(views(p@), views(s@)),
{
    if p.len() > s.len() {
        return false;
    }
    let mut i: usize = 0;
    while i < p.len()
        invariant
            p@.len() <= s@.len(),
            i <= p@.len(),
            forall|k: int| 0 <= k < i ==> p@[k]@ == s@[k]@,
        decreases p@.len() - i,
    {
        if !str_eq(p[i].as_str(), s[i].as_str()) {
            proof {
                assert(views(s@).subrange(0, p@.len() as int)[i as int] != views(p@)[i as int]);
            }
            return false;
        }
        i = i + 1;
    }
    proof {
        assert(views(s@).subrange(0, p@.len() as int) =~= views(p@));
    }
    true
}

/// Whether `path` lies inside the repository tree (relative paths resolve
/// against the root; `~/` uses `home`; lexical `..` normalisation).
pub fn inside_repo(path: &str, project_root: &str, home: Option<&str>) -> (r: bool)
    ensures
        r == inside_repo_spec(path@, project_root@, match home { Some(h) => Some(h@), None => None }),
{
    let expanded = expand_home_exec(path, home);
    let joined = join_exec(project_root, expanded.as_str());
    let root = normalize(split_components(project_root));
    let target = normalize(split_components(joined.as_str()));
    prefix_parts(&root, &target)
}

/// `word` with every `\\` turned into `/`.
pub open spec fn backslash_to_slash(w: Seq<char>) -> Seq<char> {
    w.map_values(|c: char| if c == '\\' { '/' } else { c })
}

/// The second byte is `:` (an ASCII first character followed by `:`, as in
/// `C:`).
pub open spec fn drive_prefix(w: Seq<char>) -> bool {
    w.len() >= 2 && w[0] < '\u{80}' && w[1] == ':'
}

/// Whether a word is a path escaping the repository: `.`/`..`, and words
/// that are absolute (`/…` or a drive `X:`), contain `/` or contain `..` are
/// checked against the root; flags (`-…`, `=…`) and plain names never are.
pub open spec fn path_escapes_spec(word: Seq<char>, root: Seq<char>, home: Option<Seq<char>>) -> bool {
    if word == "."@ || word == ".."@ {
        !inside_repo_spec(word, root, home)
    } else {
        let w = backslash_to_slash(word);
        if w.len() > 0 && (w[0] == '-' || w[0] == '=') {
            false
        } else if (w.len() > 0 && w[0] == '/') || drive_prefix(w) || w.contains('/') || crate::text::contains_seq(w, ".."@) {
            !inside_repo_spec(w, root, home)
        } else {
            false
        }
    }
}

/// Splitting on `/` text without `/` extends the last piece.
proof fn lemma_split_slash_extend(p: Seq<char>, y: Seq<char>)
    requires
        forall|k: int| 0 <= k < y.len() ==> #[trigger] y[k] != '/',
    ensures
        split_slash(p).len() >= 1,
        split_slash(p + y) == split_slash(p).update(split_slash(p).len() - 1, split_slash(p).last() + y),
    decreases p.len() + y.len(),
{
    let sp = split_slash(p);
    if p.len() > 0 {
        lemma_split_slash_extend(p.drop_last(), Seq::empty());
    }
    if y.len() == 0 {
        assert(p + y =~= p);
        assert(sp.last() + y =~= sp.last());
        assert(sp.update(sp.len() - 1, sp.last()) =~= sp);
    } else {
        let y0 = y.drop_last();
        lemma_split_slash_extend(p, y0);
        assert((p + y).drop_last() =~= p + y0);
        assert((p + y).last() == y[y.len() - 1]);
        let prev = split_slash(p + y0);
        assert((sp.last() + y0).push(y.last()) =~= sp.last() + y);
        assert(prev.update(prev.len() - 1, prev.last().push(y.last())) =~= sp.update(sp.len() - 1, sp.last() + y));
    }
}

proof fn lemma_filter_push<A>(x: Seq<A>, a: A, pred: spec_fn(A) -> bool)
    requires
        pred(a),
    ensures
        x.push(a).filter(pred) == x.filter(pred).push(a),
{
    reveal(Seq::filter);
    assert(x.push(a).drop_last() =~= x);
}

/// A directory next to the repository root is outside it: for a root with
/// at least one (normalised) component, `../name` escapes whenever `name`
/// is a plain name other than the root's own last component.
pub proof fn law_sibling_of_root_escapes(root: Seq<char>, name: Seq<char>, home: Option<Seq<char>>)
    requires
        root.len() > 0,
        root.last() != '/',
        name.len() > 0,
        forall|k: int| 0 <= k < name.len() ==> #[trigger] name[k] != '/' && name[k] != '\\',
        name != "."@,
        name != ".."@,
        normalize_parts(components(root)).len() > 0,
        normalize_parts(components(root)).last() != ".."@,
        name != normalize_parts(components(root)).last(),
    ensures
        path_escapes_spec("../"@ + name, root, home),
{
    reveal_strlit("../");
    reveal_strlit("..");
    reveal_strlit(".");
    reveal_strlit("/");
    let w = "../"@ + name;
    assert(w.len() == name.len() + 3);
    assert(w[0] == '.' && w[1] == '.' && w[2] == '/');
    assert(w != "."@ && w != ".."@) by {
        assert(w.len() != 1 && w.len() != 2);
    }
    assert(backslash_to_slash(w) =~= w) by {
        assert forall|i: int| 0 <= i < w.len() implies w[i] != '\\' by {
            if i >= 3 {
                assert(w[i] == name[i - 3]);
            }
        }
    }
    assert(w.contains('/')) by {
        assert(w[2] == '/');
    }
    assert(expand_home(w, home) == w);
    let target = join_path(root, w);
    assert(target == root + "/"@ + w);
    let dots = ".."@;
    let x1 = root.push('/');
    let x2 = x1 + dots;
    let x3 = x2.push('/');
    assert(x3 + name =~= target);
    let sp = split_slash(root);
    lemma_split_slash_extend(root, Seq::empty());
    assert(x1.drop_last() =~= root);
    assert(split_slash(x1) == sp.push(Seq::empty()));
    assert forall|k: int| 0 <= k < dots.len() implies #[trigger] dots[k] != '/' by {}
    lemma_split_slash_extend(x1, dots);
    assert(Seq::<char>::empty() + dots =~= dots);
    assert(split_slash(x2) =~= sp.push(dots));
    assert(x3.drop_last() =~= x2);
    assert(split_slash(x3) == sp.push(dots).push(Seq::empty()));
    lemma_split_slash_extend(x3, name);
    assert(Seq::<char>::empty() + name =~= name);
    assert(split_slash(target) =~= sp.push(dots).push(name));
    let pred = |p: Seq<char>| p.len() > 0 && p != "."@;
    lemma_filter_push(sp, dots, pred);
    lemma_filter_push(sp.push(dots), name, pred);
    let f = sp.filter(pred);
    assert(split_slash(target).filter(pred) == f.push(dots).push(name));
    assert(target[0] == root[0]);
    let c = components(root);
    assert(components(target) =~= c.push(dots).push(name));
    let n = normalize_parts(c);
    assert(c.push(dots).drop_last() =~= c);
    assert(normalize_parts(c.push(dots)) == n.drop_last());
    assert(c.push(dots).push(name).drop_last() =~= c.push(dots));
    let t = normalize_parts(components(target));
    assert(t == n.drop_last().push(name));
    assert(t.len() == n.len());
    assert(t[n.len() - 1] != n[n.len() - 1]);
    assert(!parts_prefix(n, t)) by {
        if parts_prefix(n, t) {
            assert(t.subrange(0, n.len() as int)[n.len() - 1] == t[n.len() - 1]);
        }
    }
    assert(!inside_repo_spec(w, root, home));
}

/// A path below the repository root stays inside it: `a/b` (two plain
/// names) does not escape, whatever the root.
pub proof fn law_child_of_root_stays_inside(root: Seq<char>, a: Seq<char>, b: Seq<char>, home: Option<Seq<char>>)
    requires
        root.len() > 0,
        root.last() != '/',
        a.len() > 0,
        b.len() > 0,
        forall|k: int| 0 <= k < a.len() ==> #[trigger] a[k] != '/' && a[k] != '\\',
        forall|k: int| 0 <= k < b.len() ==> #[trigger] b[k] != '/' && b[k] != '\\',
        a[0] != '-' && a[0] != '=' && a[0] != '~',
        a != "."@,
        a != ".."@,
        b != "."@,
        b != ".."@,
    ensures
        !path_escapes_spec(a + "/"@ + b, root, home),
{
    reveal_strlit("/");
    reveal_strlit("..");
    reveal_strlit(".");
    let w = a + "/"@ + b;
    let na: int = a.len() as int;
    assert(w[na] == '/');
    assert(w != "."@ && w != ".."@) by {
        if w.len() == 1 || w.len() == 2 {
            assert(w.len() >= 3);
        }
    }
    assert(backslash_to_slash(w) =~= w) by {
        assert forall|i: int| 0 <= i < w.len() implies w[i] != '\\' by {
            if i < na {
                assert(w[i] == a[i]);
            } else if i > na {
                assert(w[i] == b[i - na - 1]);
            }
        }
    }
    assert(w[0] == a[0]);
    assert(expand_home(w, home) == w);
    let target = join_path(root, w);
    assert(target == root + "/"@ + w);
    let x1 = root.push('/');
    let x2 = x1 + a;
    let x3 = x2.push('/');
    assert(x3 + b =~= target);
    let sp = split_slash(root);
    lemma_split_slash_extend(root, Seq::empty());
    assert(x1.drop_last() =~= root);
    assert(split_slash(x1) == sp.push(Seq::empty()));
    lemma_split_slash_extend(x1, a);
    assert(Seq::<char>::empty() + a =~= a);
    assert(split_slash(x2) =~= sp.push(a));
    assert(x3.drop_last() =~= x2);
    assert(split_slash(x3) == sp.push(a).push(Seq::empty()));
    lemma_split_slash_extend(x3, b);
    assert(Seq::<char>::empty() + b =~= b);
    assert(split_slash(target) =~= sp.push(a).push(b));
    let pred = |p: Seq<char>| p.len() > 0 && p != "."@;
    lemma_filter_push(sp, a, pred);
    lemma_filter_push(sp.push(a), b, pred);
    assert(target[0] == root[0]);
    let c = components(root);
    assert(components(target) =~= c.push(a).push(b));
    let n = normalize_parts(c);
    assert(c.push(a).drop_last() =~= c);
    assert(c.push(a).push(b).drop_last() =~= c.push(a));
    assert(normalize_parts(c.push(a)) == n.push(a));
    assert(normalize_parts(c.push(a).push(b)) == n.push(a).push(b));
    let t = normalize_parts(components(target));
    assert(t == n.push(a).push(b));
    assert(t.subrange(0, n.len() as int) =~= n);
    assert(inside_repo_spec(w, root, home));
}

fn slashes(word: &str) -> (r: String)
    ensures
        r@ == backslash_to_slash(word@),
{
    let v = chars_of(word);
    let mut out = owned("");
    let mut start: usize = 0;
    let mut i: usize = 0;
    proof {
        reveal_strlit("");
        reveal_strlit("/");
    }
    while i < v.len()
        invariant
            v@ == word@,
            start <= i <= v@.len(),
            out@ + word@.subrange(start as int, i as int) == backslash_to_slash(word@.subrange(0, i as int)),
            forall|k: int| start <= k < i ==> word@[k] != '\\',
        decreases v@.len() - i,
    {
        proof {
            assert(backslash_to_slash(word@.subrange(0, i + 1)) =~= backslash_to_slash(word@.subrange(0, i as int)).push(
                if word@[i as int] == '\\' { '/' } else { word@[i as int] },
            ));
        }
        if v[i] == '\\' {
            let piece = substring(word, start, i);
            let ghost before = out@;
            out.append(piece.as_str());
            out.append("/");
            start = i + 1;
            proof {
                reveal_strlit("/");
                assert(out@ =~= before + piece@ + "/"@);
                assert("/"@ =~= seq!['/']);
                assert(out@ + word@.subrange(start as int, i + 1) =~= backslash_to_slash(word@.subrange(0, i + 1)));
            }
        } else {
            proof {
                assert(word@.subrange(start as int, i + 1) =~= word@.subrange(start as int, i as int).push(word@[i as int]));
                assert(out@ + word@.subrange(start as int, i + 1) =~= backslash_to_slash(word@.subrange(0, i + 1)));
            }
        }
        i = i + 1;
    }
    let piece = substring(word, start, v.len());
    out.append(piece.as_str());
    proof {
        assert(word@.subrange(0, v@.len() as int) =~= word@);
    }
    out
}

/// Whether a word is a path that escapes the repository.
pub fn path_escapes(word: &str, project_root: &str, home: Option<&str>) -> (r: bool)
    ensures
        r == path_escapes_spec(word@, project_root@, match home { Some(h) => Some(h@), None => None }),
{
    if str_eq(word, ".") || str_eq(word, "..") {
        return !inside_repo(word, project_root, home);
    }
    let w = slashes(word);
    let ws = w.as_str();
    let n = ws.unicode_len();
    if n > 0 && (ws.get_char(0) == '-' || ws.get_char(0) == '=') {
        return false;
    }
    let is_abs = (n > 0 && ws.get_char(0) == '/') || (n >= 2 && ws.get_char(0) < '\u{80}' && ws.get_char(1) == ':');
    if is_abs || has_char(ws, '/') || contains_str(ws, "..") {
        return !inside_repo(ws, project_root, home);
    }
    false
}


// ---------------------------------------------------------------------------
// tree-sitter syntax tree
// ---------------------------------------------------------------------------

/// What the flattening reads of one syntax node: kind, byte range, error
/// flags and the number of children.
pub struct NodeInfo {
    pub kind: String,
    pub start: usize,
    pub end: usize,
    pub is_error: bool,
    pub is_missing: bool,
    pub child_count: u32,
}

/// The node reached from the root of the bash syntax tree of `source` by the
/// child indices of `path`, as (kind, start byte, end byte, is error, is
/// missing, child count); `None` when there is no tree or no such node.
pub uninterp spec fn bash_node_spec(source: Seq<char>, path: Seq<u32>) -> Option<(Seq<char>, usize, usize, bool, bool, u32)>;

pub open spec fn info_view(i: NodeInfo) -> (Seq<char>, usize, usize, bool, bool, u32) {
    (i.kind@, i.start, i.end, i.is_error, i.is_missing, i.child_count)
}

/// Parses `source` with the bash grammar (`Parser::new`, `set_language` with
/// `tree_sitter_bash::LANGUAGE`, `parse` with no previous tree) and reads the
/// node that `path` leads to from the root (`Node::child` at each index;
/// `kind`, `start_byte`, `end_byte`, `is_error`, `is_missing`,
/// `child_count`). The parser is deterministic: the result is a function of
/// the text and the path.
#[verifier::external_body]
fn bash_node_at(source: &str, path: &Vec<u32>) -> (r: Option<NodeInfo>)
    ensures
        match r {
            Some(i) => bash_node_spec(source@, path@) == Some(info_view(i)),
            None => bash_node_spec(source@, path@) is None,
        },
{
    let mut p = tree_sitter::Parser::new();
    p.set_language(&tree_sitter_bash::LANGUAGE.into()).ok()?;
    let tree = p.parse(source, None)?;
    let mut n = tree.root_node();
    for i in path.iter() {
        n = n.child(*i)?;
    }
    Some(NodeInfo { kind: n.kind().to_string(), start: n.start_byte(), end: n.end_byte(),
        is_error: n.is_error(), is_missing: n.is_missing(), child_count: n.child_count() })
}

/// A node of the syntax tree in pre-order, with its parent's position.
pub struct FlatNode {
    pub kind: String,
    pub start: usize,
    pub end: usize,
    pub is_error: bool,
    pub is_missing: bool,
    pub parent: Option<usize>,
}

/// Parents come before their children.
pub open spec fn flat_wf(nodes: Seq<FlatNode>) -> bool {
    forall|i: int| 0 <= i < nodes.len() ==> match (#[trigger] nodes[i]).parent {
        Some(p) => p < i,
        None => true,
    }
}

/// A flat node as plain values: kind, byte range, error flags, parent.
pub type FlatNodeV = (Seq<char>, usize, usize, bool, bool, Option<int>);

pub open spec fn flat_view(n: FlatNode) -> FlatNodeV {
    (n.kind@, n.start, n.end, n.is_error, n.is_missing, match n.parent { Some(p) => Some(p as int), None => None })
}

pub open spec fn flat_views(ns: Seq<FlatNode>) -> Seq<FlatNodeV> {
    ns.map_values(|n: FlatNode| flat_view(n))
}

pub open spec fn opt_cat(a: Seq<FlatNodeV>, o: Option<Seq<FlatNodeV>>) -> Option<Seq<FlatNodeV>> {
    match o {
        Some(b) => Some(a + b),
        None => None,
    }
}

/// The nodes of the subtree at `path` in pre-order, the subtree's root
/// being at position `base` with parent `parent`; at most `fuel` levels.
pub open spec fn subtree_nodes(src: Seq<char>, path: Seq<u32>, parent: Option<int>, base: nat, fuel: nat) -> Option<Seq<FlatNodeV>>
    decreases fuel, 0nat,
{
    if fuel == 0 {
        None
    } else {
        match bash_node_spec(src, path) {
            None => None,
            Some(info) => opt_cat(
                seq![(info.0, info.1, info.2, info.3, info.4, parent)],
                child_nodes(src, path, info.5, 0, base, base + 1, (fuel - 1) as nat),
            ),
        }
    }
}

/// The subtrees of the children `i..count` of the node at `path` (at
/// position `me`), in pre-order from position `base`.
pub open spec fn child_nodes(src: Seq<char>, path: Seq<u32>, count: u32, i: nat, me: nat, base: nat, fuel: nat) -> Option<Seq<FlatNodeV>>
    decreases fuel, (if i < count { count - i } else { 0 }) + 1,
{
    if i >= count {
        Some(Seq::empty())
    } else {
        match subtree_nodes(src, path.push(i as u32), Some(me as int), base, fuel) {
            None => None,
            Some(a) => opt_cat(a, child_nodes(src, path, count, i + 1, me, base + a.len(), fuel)),
        }
    }
}

/// Deepest syntax tree that is flattened.
pub const BASH_DEPTH: usize = 1024;

/// The whole bash syntax tree of `src` in pre-order.
pub open spec fn bash_flat_spec(src: Seq<char>) -> Option<Seq<FlatNodeV>> {
    subtree_nodes(src, Seq::empty(), None, 0, BASH_DEPTH as nat)
}

/// Appends the subtree at `path` in pre-order; `false` when a node cannot be
/// read or the tree is deeper than `fuel`.
fn walk(source: &str, path: &Vec<u32>, parent: Option<usize>, out: &mut Vec<FlatNode>, fuel: usize) -> (ok: bool)
    requires
        flat_wf(old(out)@),
        parent matches Some(p) ==> p < old(out)@.len(),
    ensures
        flat_wf(final(out)@),
        ok ==> subtree_nodes(source@, path@, match parent { Some(p) => Some(p as int), None => None }, old(out)@.len() as nat, fuel as nat)
            == Some(flat_views(final(out)@).skip(old(out)@.len() as int)),
        ok ==> final(out)@.len() >= old(out)@.len() && flat_views(final(out)@).take(old(out)@.len() as int) == flat_views(old(out)@),
        !ok ==> subtree_nodes(source@, path@, match parent { Some(p) => Some(p as int), None => None }, old(out)@.len() as nat, fuel as nat) is None,
    decreases fuel,
{
    let ghost o0 = out@;
    if fuel == 0 {
        return false;
    }
    let info = match bash_node_at(source, path) {
        Some(i) => i,
        None => {
            return false;
        },
    };
    let ghost pv: Option<int> = match parent { Some(p) => Some(p as int), None => None };
    let ghost mev: FlatNodeV = (info.kind@, info.start, info.end, info.is_error, info.is_missing, pv);
    let count = info.child_count;
    proof {
        assert(subtree_nodes(source@, path@, pv, o0.len() as nat, fuel as nat)
            == opt_cat(seq![mev], child_nodes(source@, path@, count, 0, o0.len() as nat, (o0.len() + 1) as nat, (fuel - 1) as nat)));
    }
    let me = out.len();
    out.push(FlatNode { kind: info.kind, start: info.start, end: info.end, is_error: info.is_error, is_missing: info.is_missing, parent });
    proof {
        assert(flat_view(out@[me as int]) == mev);
        assert(flat_views(out@) =~= flat_views(o0).push(mev));
    }
    let mut i: u32 = 0;
    while i < count
        invariant
            flat_wf(out@),
            me < out@.len(),
            out@.len() >= o0.len() + 1,
            flat_views(out@).take((o0.len() + 1) as int) == flat_views(o0).push(mev),
            subtree_nodes(source@, path@, pv, o0.len() as nat, fuel as nat)
                == opt_cat(seq![mev], child_nodes(source@, path@, count, 0, o0.len() as nat, (o0.len() + 1) as nat, (fuel - 1) as nat)),
            me == o0.len(),
            o0 == old(out)@,
            pv == (match parent { Some(p) => Some(p as int), None => None }),
            i <= count,
            fuel > 0,
            child_nodes(source@, path@, count, 0, me as nat, (me + 1) as nat, (fuel - 1) as nat)
                == opt_cat(flat_views(out@).skip(me + 1), child_nodes(source@, path@, count, i as nat, me as nat, out@.len() as nat, (fuel - 1) as nat)),
        decreases count - i,
    {
        let ghost o1 = out@;
        let ghost whole = child_nodes(source@, path@, count, 0, me as nat, (me + 1) as nat, (fuel - 1) as nat);
        assert(whole == opt_cat(flat_views(o1).skip(me + 1), child_nodes(source@, path@, count, i as nat, me as nat, o1.len() as nat, (fuel - 1) as nat)));
        let mut cp = path.clone();
        cp.push(i);
        proof {
            assert(cp@ == path@.push(i));
        }
        let ok = walk(source, &cp, Some(me), out, fuel - 1);
        if !ok {
            proof {
                assert(child_nodes(source@, path@, count, i as nat, me as nat, o1.len() as nat, (fuel - 1) as nat) is None);
                assert(whole is None);
                assert(child_nodes(source@, path@, count, 0, o0.len() as nat, (o0.len() + 1) as nat, (fuel - 1) as nat) is None);
                assert(subtree_nodes(source@, path@, pv, o0.len() as nat, fuel as nat) is None);
            }
            return false;
        }
        proof {
            let a = flat_views(out@).skip(o1.len() as int);
            assert(flat_views(out@).skip(me + 1) =~= flat_views(o1).skip(me + 1) + a) by {
                assert(flat_views(out@).take(o1.len() as int) == flat_views(o1));
            }
            assert(flat_views(out@).take((o0.len() + 1) as int) =~= flat_views(o1).take((o0.len() + 1) as int)) by {
                assert(flat_views(out@).take(o1.len() as int) == flat_views(o1));
            }
        }
        i = i + 1;
    }
    proof {
        assert(flat_views(out@)[me as int] == mev) by {
            assert(flat_views(out@).take((o0.len() + 1) as int)[me as int] == mev);
        }
        assert(flat_views(out@).skip(o0.len() as int) =~= seq![mev] + flat_views(out@).skip(me + 1));
        assert(flat_views(out@).take(o0.len() as int) =~= flat_views(o0)) by {
            assert(flat_views(out@).take(o0.len() as int) =~= flat_views(out@).take((o0.len() + 1) as int).take(o0.len() as int));
        }
    }
    true
}

/// The whole syntax tree of `source` in pre-order; `None` when there is no
/// tree or it is too deep.
fn flatten_tree(source: &str) -> (r: Option<Vec<FlatNode>>)
    ensures
        match r {
            Some(v) => bash_flat_spec(source@) == Some(flat_views(v@)) && flat_wf(v@),
            None => bash_flat_spec(source@) is None,
        },
{
    let mut out: Vec<FlatNode> = Vec::new();
    let root: Vec<u32> = Vec::new();
    proof {
        assert(root@ =~= Seq::<u32>::empty());
    }
    if walk(source, &root, None, &mut out, BASH_DEPTH) {
        proof {
            assert(flat_views(out@).skip(0) =~= flat_views(out@));
        }
        Some(out)
    } else {
        None
    }
}

/// The text of `src` between two byte offsets of its UTF-8 encoding (empty
/// when the offsets are out of range or not character boundaries).
pub open spec fn byte_text_spec(src: Seq<char>, start: int, end: int) -> Seq<char> {
    let b = vstd::utf8::encode_utf8(src);
    if 0 <= start <= end <= b.len() && vstd::utf8::is_char_boundary(b, end) && vstd::utf8::is_char_boundary(b.subrange(0, end), start) {
        vstd::utf8::decode_utf8(b.subrange(start, end))
    } else {
        Seq::empty()
    }
}

/// The text of `source` between two byte offsets (empty when the offsets
/// are not character boundaries).
fn byte_text(source: &str, start: usize, end: usize) -> (r: String)
    ensures
        r@ == byte_text_spec(source@, start as int, end as int),
{
    broadcast use vstd::utf8::encode_utf8_decode_utf8;
    proof {
        reveal_strlit("");
        assert(""@ =~= Seq::<char>::empty());
        assert(source.spec_bytes() == vstd::utf8::encode_utf8(source@));
    }
    let blen = source.as_bytes().len();
    proof {
        assert(blen == vstd::utf8::encode_utf8(source@).len());
    }
    if start <= end && end <= blen && source.is_char_boundary(end) {
        let (head, _) = source.split_at(end);
        proof {
            assert(head.spec_bytes() =~= vstd::utf8::encode_utf8(source@).subrange(0, end as int));
        }
        if head.is_char_boundary(start) {
            let (_, piece) = head.split_at(start);
            proof {
                assert(piece.spec_bytes() =~= source.spec_bytes().subrange(start as int, end as int));
                assert(vstd::utf8::decode_utf8(vstd::utf8::encode_utf8(piece@)) == piece@);
            }
            return piece.to_owned();
        }
        return owned("");
    }
    owned("")
}

fn kind_is(n: &FlatNode, k: &str) -> (r: bool)
    ensures
        r == (n.kind@ == k@),
{
    str_eq(n.kind.as_str(), k)
}

/// Kinds that the flattening descends into.
pub open spec fn is_container_spec(k: Seq<char>) -> bool {
    k == "program"@ || k == "list"@ || k == "pipeline"@ || k == "subshell"@ || k == "compound_statement"@
        || k == "redirected_statement"@ || k == "binary_expression"@ || k == "function_definition"@
        || k == "if_statement"@ || k == "for_statement"@ || k == "while_statement"@ || k == "case_statement"@
}

fn is_container(kind: &str) -> (r: bool)
    ensures
        r == is_container_spec(kind@),
{
    str_eq(kind, "program") || str_eq(kind, "list") || str_eq(kind, "pipeline") || str_eq(kind, "subshell")
        || str_eq(kind, "compound_statement") || str_eq(kind, "redirected_statement")
        || str_eq(kind, "binary_expression") || str_eq(kind, "function_definition")
        || str_eq(kind, "if_statement") || str_eq(kind, "for_statement")
        || str_eq(kind, "while_statement") || str_eq(kind, "case_statement")
}

/// Kinds that hold one word.
pub open spec fn is_word_kind_spec(k: Seq<char>) -> bool {
    k == "word"@ || k == "string"@ || k == "raw_string"@ || k == "concatenation"@ || k == "number"@
}

fn is_word_kind(kind: &str) -> (r: bool)
    ensures
        r == is_word_kind_spec(kind@),
{
    str_eq(kind, "word") || str_eq(kind, "string") || str_eq(kind, "raw_string")
        || str_eq(kind, "concatenation") || str_eq(kind, "number")
}

/// Kinds of expansions and substitutions.
pub open spec fn is_expansion_kind_spec(k: Seq<char>) -> bool {
    k == "simple_expansion"@ || k == "expansion"@ || k == "command_substitution"@ || k == "arithmetic_expansion"@
        || k == "process_substitution"@
}

fn is_expansion_kind(kind: &str) -> (r: bool)
    ensures
        r == is_expansion_kind_spec(kind@),
{
    str_eq(kind, "simple_expansion") || str_eq(kind, "expansion") || str_eq(kind, "command_substitution")
        || str_eq(kind, "arithmetic_expansion") || str_eq(kind, "process_substitution")
}

/// The positions among the first `n` nodes whose parent is node `i`, in
/// order.
pub open spec fn children_spec(nodes: Seq<FlatNode>, i: usize, n: nat) -> Seq<usize>
    decreases n,
{
    if n == 0 {
        Seq::empty()
    } else {
        let prev = children_spec(nodes, i, (n - 1) as nat);
        if nodes[n - 1].parent == Some(i) { prev.push((n - 1) as usize) } else { prev }
    }
}

/// The children of node `i`, in order.
pub open spec fn children(nodes: Seq<FlatNode>, i: usize) -> Seq<usize> {
    children_spec(nodes, i, nodes.len())
}

proof fn lemma_children_bound(nodes: Seq<FlatNode>, i: usize, n: nat)
    requires
        n <= nodes.len(),
        nodes.len() <= usize::MAX,
    ensures
        forall|k: int| 0 <= k < children_spec(nodes, i, n).len() ==> (#[trigger] children_spec(nodes, i, n)[k]) < n
            && nodes[children_spec(nodes, i, n)[k] as int].parent == Some(i),
    decreases n,
{
    if n > 0 {
        lemma_children_bound(nodes, i, (n - 1) as nat);
        let prev = children_spec(nodes, i, (n - 1) as nat);
        if nodes[n - 1].parent == Some(i) {
            assert(children_spec(nodes, i, n) == prev.push((n - 1) as usize));
            assert forall|k: int| 0 <= k < children_spec(nodes, i, n).len() implies (#[trigger] children_spec(nodes, i, n)[k]) < n
                && nodes[children_spec(nodes, i, n)[k] as int].parent == Some(i) by {
                if k < prev.len() {
                    assert(children_spec(nodes, i, n)[k] == prev[k]);
                } else {
                    assert(k == prev.len());
                    assert(children_spec(nodes, i, n)[k] == ((n - 1) as usize));
                }
            }
        } else {
            assert(children_spec(nodes, i, n) == prev);
        }
    }
}

/// Positions of the children of node `i`, in order.
fn children_of(nodes: &Vec<FlatNode>, i: usize) -> (r: Vec<usize>)
    ensures
        r@ == children(nodes@, i),
        forall|k: int| 0 <= k < r@.len() ==> r@[k] < nodes@.len() && nodes@[r@[k] as int].parent == Some(i),
{
    let mut out: Vec<usize> = Vec::new();
    let mut j: usize = 0;
    while j < nodes.len()
        invariant
            j <= nodes@.len(),
            out@ == children_spec(nodes@, i, j as nat),
        decreases nodes@.len() - j,
    {
        if nodes[j].parent == Some(i) {
            out.push(j);
        }
        j = j + 1;
    }
    proof {
        lemma_children_bound(nodes@, i, nodes@.len());
    }
    out
}

/// Node `j` lies in the subtree of node `i` (following parents, which come
/// first).
pub open spec fn in_subtree_spec(nodes: Seq<FlatNode>, j: nat, i: nat) -> bool
    decreases j,
{
    if j == i {
        true
    } else if j < nodes.len() {
        match nodes[j as int].parent {
            Some(p) => if (p as nat) < j { in_subtree_spec(nodes, p as nat, i) } else { false },
            None => false,
        }
    } else {
        false
    }
}

/// Whether node `j` lies in the subtree of node `i`.
fn in_subtree(nodes: &Vec<FlatNode>, j: usize, i: usize) -> (r: bool)
    requires
        flat_wf(nodes@),
        j < nodes@.len(),
    ensures
        r == in_subtree_spec(nodes@, j as nat, i as nat),
{
    let mut cur = j;
    loop
        invariant
            flat_wf(nodes@),
            cur < nodes@.len(),
            in_subtree_spec(nodes@, cur as nat, i as nat) == in_subtree_spec(nodes@, j as nat, i as nat),
        decreases cur,
    {
        if cur == i {
            return true;
        }
        match nodes[cur].parent {
            Some(p) => {
                proof {
                    assert(nodes@[cur as int].parent == Some(p));
                }
                cur = p;
            },
            None => return false,
        }
    }
}

/// The text of node `i`.
pub open spec fn text_of(nodes: Seq<FlatNode>, src: Seq<char>, i: usize) -> Seq<char> {
    byte_text_spec(src, nodes[i as int].start as int, nodes[i as int].end as int)
}

fn node_text(nodes: &Vec<FlatNode>, i: usize, source: &str) -> (r: String)
    requires
        i < nodes@.len(),
    ensures
        r@ == text_of(nodes@, source@, i),
{
    byte_text(source, nodes[i].start, nodes[i].end)
}

/// What one part of a concatenation contributes to its word.
pub open spec fn part_text(nodes: Seq<FlatNode>, src: Seq<char>, c: usize) -> Seq<char> {
    let k = nodes[c as int].kind@;
    if k == "word"@ || k == "number"@ {
        text_of(nodes, src, c)
    } else if k == "string"@ || k == "raw_string"@ {
        unquote_spec(text_of(nodes, src, c))
    } else {
        Seq::empty()
    }
}

/// The word of a concatenation: its parts joined.
pub open spec fn concat_text(nodes: Seq<FlatNode>, src: Seq<char>, kids: Seq<usize>) -> Seq<char>
    decreases kids.len(),
{
    if kids.len() == 0 {
        Seq::empty()
    } else {
        concat_text(nodes, src, kids.drop_last()) + part_text(nodes, src, kids.last())
    }
}

/// The word of a word-like node, if it has one (quotes stripped;
/// concatenations joined; an empty concatenation has none).
pub open spec fn word_of(nodes: Seq<FlatNode>, src: Seq<char>, i: usize) -> Seq<Seq<char>> {
    let k = nodes[i as int].kind@;
    if k == "word"@ || k == "number"@ {
        seq![text_of(nodes, src, i)]
    } else if k == "string"@ || k == "raw_string"@ {
        seq![unquote_spec(text_of(nodes, src, i))]
    } else if k == "concatenation"@ {
        let t = concat_text(nodes, src, children(nodes, i));
        if t.len() > 0 { seq![t] } else { Seq::empty() }
    } else {
        Seq::empty()
    }
}

/// Appends the word of a word-like node (quotes stripped; concatenations
/// joined); empty concatenations give no word.
fn push_word(nodes: &Vec<FlatNode>, i: usize, source: &str, out: &mut Vec<String>)
    requires
        i < nodes@.len(),
    ensures
        views(final(out)@) == views(old(out)@) + word_of(nodes@, source@, i),
{
    let ghost before = out@;
    let k = nodes[i].kind.as_str();
    if str_eq(k, "word") || str_eq(k, "number") {
        out.push(node_text(nodes, i, source));
        proof {
            assert(views(out@) =~= views(before) + word_of(nodes@, source@, i));
        }
    } else if str_eq(k, "string") || str_eq(k, "raw_string") {
        let t = node_text(nodes, i, source);
        out.push(unquote(t.as_str()));
        proof {
            assert(views(out@) =~= views(before) + word_of(nodes@, source@, i));
        }
    } else if str_eq(k, "concatenation") {
        let kids = children_of(nodes, i);
        let mut buf = owned("");
        let mut c: usize = 0;
        proof {
            reveal_strlit("");
            assert(kids@.take(0) =~= Seq::<usize>::empty());
        }
        while c < kids.len()
            invariant
                forall|q: int| 0 <= q < kids@.len() ==> kids@[q] < nodes@.len(),
                c <= kids@.len(),
                buf@ == concat_text(nodes@, source@, kids@.take(c as int)),
            decreases kids@.len() - c,
        {
            proof {
                assert(kids@.take(c + 1).drop_last() =~= kids@.take(c as int));
                assert(kids@.take(c + 1).last() == kids@[c as int]);
            }
            let ck = nodes[kids[c]].kind.as_str();
            if str_eq(ck, "word") || str_eq(ck, "number") {
                let t = node_text(nodes, kids[c], source);
                buf.append(t.as_str());
            } else if str_eq(ck, "string") || str_eq(ck, "raw_string") {
                let t = node_text(nodes, kids[c], source);
                let u = unquote(t.as_str());
                buf.append(u.as_str());
            } else {
                proof {
                    assert(buf@ =~= buf@ + Seq::<char>::empty());
                }
            }
            c = c + 1;
        }
        proof {
            assert(kids@.take(kids@.len() as int) =~= kids@);
        }
        if buf.unicode_len() > 0 {
            out.push(buf);
            proof {
                assert(views(out@) =~= views(before) + word_of(nodes@, source@, i));
            }
        } else {
            proof {
                assert(views(out@) =~= views(before) + word_of(nodes@, source@, i));
            }
        }
    } else {
        proof {
            assert(views(out@) =~= views(before) + word_of(nodes@, source@, i));
        }
    }
}

/// The operator and first target word of a redirection, scanning its
/// children: the first word-like child is the target (unquoted); the first
/// other child that is not a file descriptor gives the operator.
pub open spec fn redirect_parts(nodes: Seq<FlatNode>, src: Seq<char>, kids: Seq<usize>) -> (Seq<char>, Option<Seq<char>>)
    decreases kids.len(),
{
    if kids.len() == 0 {
        (Seq::empty(), None)
    } else {
        let (op, t) = redirect_parts(nodes, src, kids.drop_last());
        let c = kids.last();
        let k = nodes[c as int].kind@;
        if k == "file_descriptor"@ {
            (op, t)
        } else if is_word_kind_spec(k) {
            (op, if t is None { Some(unquote_spec(text_of(nodes, src, c))) } else { t })
        } else if op.len() == 0 {
            (text_of(nodes, src, c), t)
        } else {
            (op, t)
        }
    }
}

/// Whether a `file_redirect` node writes a file, and its target.
pub open spec fn redirect_of(nodes: Seq<FlatNode>, src: Seq<char>, i: usize) -> (bool, Option<Seq<char>>) {
    let (op, t) = redirect_parts(nodes, src, children(nodes, i));
    redirect_effect(op, t)
}

pub open spec fn opt_seq(o: Option<String>) -> Option<Seq<char>> {
    match o {
        Some(s) => Some(s@),
        None => None,
    }
}

/// Operator and first target word of a `file_redirect` node, classified.
fn classify_redirect(nodes: &Vec<FlatNode>, i: usize, source: &str) -> (r: (bool, Option<String>))
    requires
        i < nodes@.len(),
    ensures
        (r.0, opt_seq(r.1)) == redirect_of(nodes@, source@, i),
{
    let kids = children_of(nodes, i);
    let mut op = owned("");
    let mut target: Option<String> = None;
    let mut c: usize = 0;
    proof {
        reveal_strlit("");
        assert(kids@.take(0) =~= Seq::<usize>::empty());
    }
    while c < kids.len()
        invariant
            forall|q: int| 0 <= q < kids@.len() ==> kids@[q] < nodes@.len(),
            c <= kids@.len(),
            (op@, opt_seq(target)) == redirect_parts(nodes@, source@, kids@.take(c as int)),
        decreases kids@.len() - c,
    {
        proof {
            assert(kids@.take(c + 1).drop_last() =~= kids@.take(c as int));
            assert(kids@.take(c + 1).last() == kids@[c as int]);
        }
        let ck = nodes[kids[c]].kind.as_str();
        if str_eq(ck, "file_descriptor") {
        } else if is_word_kind(ck) {
            if target.is_none() {
                let t = node_text(nodes, kids[c], source);
                target = Some(unquote(t.as_str()));
            }
        } else if op.unicode_len() == 0 {
            op = node_text(nodes, kids[c], source);
        }
        c = c + 1;
    }
    proof {
        assert(kids@.take(kids@.len() as int) =~= kids@);
    }
    redirect_writes(op.as_str(), target)
}

/// The words, the writing flag and the write targets gathered so far.
pub type ExtractState = (Seq<Seq<char>>, bool, Seq<Seq<char>>);

/// A `file_redirect` node applied to the state.
pub open spec fn redirect_step(nodes: Seq<FlatNode>, src: Seq<char>, st: ExtractState, c: usize) -> ExtractState {
    let (w, t) = redirect_of(nodes, src, c);
    if w {
        (st.0, true, match t {
            Some(x) => st.2.push(x),
            None => st.2,
        })
    } else {
        st
    }
}

/// One child of a `command` node applied to the state: a command name or a
/// word adds its word; a redirection may write.
pub open spec fn kid_step(nodes: Seq<FlatNode>, src: Seq<char>, st: ExtractState, c: usize) -> ExtractState {
    let k = nodes[c as int].kind@;
    if k == "command_name"@ {
        let inner = children(nodes, c);
        if inner.len() > 0 { (st.0 + word_of(nodes, src, inner[0]), st.1, st.2) } else { st }
    } else if is_word_kind_spec(k) {
        (st.0 + word_of(nodes, src, c), st.1, st.2)
    } else if k == "file_redirect"@ {
        redirect_step(nodes, src, st, c)
    } else {
        st
    }
}

pub open spec fn kids_fold(nodes: Seq<FlatNode>, src: Seq<char>, st: ExtractState, kids: Seq<usize>) -> ExtractState
    decreases kids.len(),
{
    if kids.len() == 0 {
        st
    } else {
        kid_step(nodes, src, kids_fold(nodes, src, st, kids.drop_last()), kids.last())
    }
}

/// The redirections among the siblings `sibs` of node `i` applied to the
/// state.
pub open spec fn sibs_fold(nodes: Seq<FlatNode>, src: Seq<char>, st: ExtractState, sibs: Seq<usize>, i: usize) -> ExtractState
    decreases sibs.len(),
{
    if sibs.len() == 0 {
        st
    } else {
        let prev = sibs_fold(nodes, src, st, sibs.drop_last(), i);
        let c = sibs.last();
        if c != i && nodes[c as int].kind@ == "file_redirect"@ { redirect_step(nodes, src, prev, c) } else { prev }
    }
}

/// The words, writing flag and targets of the `command` node `i`: its own
/// children, then, when none of them writes and the command is the body of
/// a redirected statement, that statement's redirections.
pub open spec fn extract_state(nodes: Seq<FlatNode>, src: Seq<char>, i: usize) -> ExtractState {
    let st = kids_fold(nodes, src, (Seq::empty(), false, Seq::empty()), children(nodes, i));
    if !st.1 {
        match nodes[i as int].parent {
            Some(p) => if p < nodes.len() && nodes[p as int].kind@ == "redirected_statement"@ {
                sibs_fold(nodes, src, st, children(nodes, p), i)
            } else {
                st
            },
            None => st,
        }
    } else {
        st
    }
}

/// Some node after `i` in its subtree is an expansion.
pub open spec fn has_expansion_spec(nodes: Seq<FlatNode>, i: usize) -> bool {
    exists|j: int| i < j < nodes.len() && is_expansion_kind_spec(nodes[j].kind@) && #[trigger] in_subtree_spec(nodes, j as nat, i as nat)
}

/// A simple command as plain values.
pub open spec fn command_v(c: SimpleCommand) -> (Seq<Seq<char>>, bool, Seq<Seq<char>>, Option<usize>, bool) {
    (views(c.words@), c.writes_redirect, views(c.redirect_targets@), c.subshell_id, c.has_expansion)
}

/// The simple command of the `command` node `i` in subshell `sub`.
pub open spec fn extract_spec(nodes: Seq<FlatNode>, src: Seq<char>, i: usize, sub: Option<usize>) -> (Seq<Seq<char>>, bool, Seq<Seq<char>>, Option<usize>, bool) {
    let st = extract_state(nodes, src, i);
    (st.0, st.1, st.2, sub, has_expansion_spec(nodes, i))
}

/// Applies a redirection node to the gathered targets.
fn apply_redirect(nodes: &Vec<FlatNode>, c: usize, source: &str, writes: &mut bool, targets: &mut Vec<String>, words: &Vec<String>)
    requires
        c < nodes@.len(),
    ensures
        redirect_step(nodes@, source@, (views(words@), *old(writes), views(old(targets)@)), c)
            == (views(words@), *final(writes), views(final(targets)@)),
        *final(writes) ==> final(targets)@.len() >= old(targets)@.len(),
        final(targets)@.len() > 0 ==> *final(writes) || old(targets)@.len() > 0,
{
    let (w, t) = classify_redirect(nodes, c, source);
    if w {
        *writes = true;
        match t {
            Some(t) => {
                let ghost before = targets@;
                targets.push(t);
                proof {
                    assert(views(targets@) =~= views(before).push(t@));
                }
            },
            None => {},
        }
    }
}

/// The simple command of a `command` node.
fn extract_command(nodes: &Vec<FlatNode>, i: usize, source: &str, subshell: Option<usize>) -> (r: SimpleCommand)
    requires
        flat_wf(nodes@),
        i < nodes@.len(),
    ensures
        command_v(r) == extract_spec(nodes@, source@, i, subshell),
        r.redirect_targets@.len() > 0 ==> r.writes_redirect,
{
    let mut words: Vec<String> = Vec::new();
    let mut writes = false;
    let mut targets: Vec<String> = Vec::new();
    let kids = children_of(nodes, i);
    let ghost st0: ExtractState = (Seq::empty(), false, Seq::empty());
    let mut c: usize = 0;
    proof {
        assert(kids@.take(0) =~= Seq::<usize>::empty());
        assert(views(words@) =~= Seq::<Seq<char>>::empty());
        assert(views(targets@) =~= Seq::<Seq<char>>::empty());
    }
    while c < kids.len()
        invariant
            flat_wf(nodes@),
            kids@ == children(nodes@, i),
            forall|q: int| 0 <= q < kids@.len() ==> kids@[q] < nodes@.len(),
            c <= kids@.len(),
            (views(words@), writes, views(targets@)) == kids_fold(nodes@, source@, st0, kids@.take(c as int)),
            targets@.len() > 0 ==> writes,
        decreases kids@.len() - c,
    {
        proof {
            assert(kids@.take(c + 1).drop_last() =~= kids@.take(c as int));
            assert(kids@.take(c + 1).last() == kids@[c as int]);
        }
        let ck = nodes[kids[c]].kind.as_str();
        if str_eq(ck, "command_name") {
            let inner = children_of(nodes, kids[c]);
            if inner.len() > 0 {
                push_word(nodes, inner[0], source, &mut words);
            }
        } else if is_word_kind(ck) {
            push_word(nodes, kids[c], source, &mut words);
        } else if str_eq(ck, "file_redirect") {
            apply_redirect(nodes, kids[c], source, &mut writes, &mut targets, &words);
        }
        c = c + 1;
    }
    proof {
        assert(kids@.take(kids@.len() as int) =~= kids@);
    }
    let ghost st1: ExtractState = (views(words@), writes, views(targets@));
    if !writes {
        match nodes[i].parent {
            Some(p) => {
                proof {
                    assert(nodes@[i as int].parent == Some(p));
                }
                if kind_is(&nodes[p], "redirected_statement") {
                    let sibs = children_of(nodes, p);
                    let mut c: usize = 0;
                    proof {
                        assert(sibs@.take(0) =~= Seq::<usize>::empty());
                    }
                    while c < sibs.len()
                        invariant
                            sibs@ == children(nodes@, p),
                            forall|q: int| 0 <= q < sibs@.len() ==> sibs@[q] < nodes@.len(),
                            c <= sibs@.len(),
                            (views(words@), writes, views(targets@)) == sibs_fold(nodes@, source@, st1, sibs@.take(c as int), i),
                            targets@.len() > 0 ==> writes,
                        decreases sibs@.len() - c,
                    {
                        proof {
                            assert(sibs@.take(c + 1).drop_last() =~= sibs@.take(c as int));
                            assert(sibs@.take(c + 1).last() == sibs@[c as int]);
                        }
                        if sibs[c] != i && kind_is(&nodes[sibs[c]], "file_redirect") {
                            apply_redirect(nodes, sibs[c], source, &mut writes, &mut targets, &words);
                        }
                        c = c + 1;
                    }
                    proof {
                        assert(sibs@.take(sibs@.len() as int) =~= sibs@);
                    }
                }
            },
            None => {},
        }
    }
    let mut has_expansion = false;
    let n = nodes.len();
    let mut j: usize = i + 1;
    while j < n
        invariant
            flat_wf(nodes@),
            i < nodes@.len(),
            i + 1 <= j <= nodes@.len(),
            n == nodes@.len(),
            has_expansion == exists|q: int| i < q < j && is_expansion_kind_spec(nodes@[q].kind@) && #[trigger] in_subtree_spec(nodes@, q as nat, i as nat),
        decreases nodes@.len() - j,
    {
        let hit = is_expansion_kind(nodes[j].kind.as_str()) && in_subtree(nodes, j, i);
        proof {
            let qj: int = j as int;
            assert(hit == (is_expansion_kind_spec(nodes@[qj].kind@) && in_subtree_spec(nodes@, qj as nat, i as nat)));
        }
        let ghost old_has = has_expansion;
        if hit {
            has_expansion = true;
        }
        proof {
            if exists|q: int| i < q < j + 1 && is_expansion_kind_spec(nodes@[q].kind@) && #[trigger] in_subtree_spec(nodes@, q as nat, i as nat) {
                let q = choose|q: int| i < q < j + 1 && is_expansion_kind_spec(nodes@[q].kind@) && #[trigger] in_subtree_spec(nodes@, q as nat, i as nat);
                if q < j {
                    assert(old_has);
                } else {
                    assert(q == j);
                    assert(hit);
                }
            }
            if has_expansion {
                if old_has {
                    let q = choose|q: int| i < q < j && is_expansion_kind_spec(nodes@[q].kind@) && #[trigger] in_subtree_spec(nodes@, q as nat, i as nat);
                    assert(i < q < j + 1 && is_expansion_kind_spec(nodes@[q].kind@) && in_subtree_spec(nodes@, q as nat, i as nat));
                } else {
                    assert(hit);
                    let q: int = j as int;
                    assert(i < q < j + 1 && is_expansion_kind_spec(nodes@[q].kind@) && in_subtree_spec(nodes@, q as nat, i as nat));
                }
            }
        }
        j = j + 1;
    }
    SimpleCommand { words, writes_redirect: writes, redirect_targets: targets, subshell_id: subshell, has_expansion }
}

/// A node is reached from the root through container nodes only.
pub open spec fn visited_spec(nodes: Seq<FlatNode>, i: nat) -> bool
    decreases i,
{
    if i < nodes.len() {
        match nodes[i as int].parent {
            None => true,
            Some(p) => if (p as nat) < i { visited_spec(nodes, p as nat) && is_container_spec(nodes[p as int].kind@) } else { false },
        }
    } else {
        false
    }
}

/// The innermost `subshell` node above node `i`.
pub open spec fn subshell_spec(nodes: Seq<FlatNode>, i: nat) -> Option<usize>
    decreases i,
{
    if i < nodes.len() {
        match nodes[i as int].parent {
            None => None,
            Some(p) => if (p as nat) < i {
                if nodes[p as int].kind@ == "subshell"@ { Some(p) } else { subshell_spec(nodes, p as nat) }
            } else {
                None
            },
        }
    } else {
        None
    }
}

/// The simple commands among the first `n` nodes: every `command` node
/// reached through containers, in order.
pub open spec fn commands_spec(nodes: Seq<FlatNode>, src: Seq<char>, n: nat) -> Seq<(Seq<Seq<char>>, bool, Seq<Seq<char>>, Option<usize>, bool)>
    decreases n,
{
    if n == 0 {
        Seq::empty()
    } else {
        let prev = commands_spec(nodes, src, (n - 1) as nat);
        let i = (n - 1) as nat;
        if visited_spec(nodes, i) && nodes[i as int].kind@ == "command"@ {
            prev.push(extract_spec(nodes, src, i as usize, subshell_spec(nodes, i)))
        } else {
            prev
        }
    }
}

/// The plain values of simple commands.
pub open spec fn command_vs(v: Seq<SimpleCommand>) -> Seq<(Seq<Seq<char>>, bool, Seq<Seq<char>>, Option<usize>, bool)> {
    v.map_values(|c: SimpleCommand| command_v(c))
}

/// The simple commands of a flattened tree, in source order: every `command`
/// node reached from the root through container nodes only.
pub fn commands_of_nodes(nodes: &Vec<FlatNode>, source: &str) -> (r: Vec<SimpleCommand>)
    requires
        flat_wf(nodes@),
    ensures
        command_vs(r@) == commands_spec(nodes@, source@, nodes@.len()),
        forall|k: int| 0 <= k < r@.len() ==> (#[trigger] r@[k]).redirect_targets@.len() > 0 ==> r@[k].writes_redirect,
{
    let mut visited: Vec<bool> = Vec::new();
    let mut subshell: Vec<Option<usize>> = Vec::new();
    let mut out: Vec<SimpleCommand> = Vec::new();
    let mut i: usize = 0;
    while i < nodes.len()
        invariant
            flat_wf(nodes@),
            i <= nodes@.len(),
            visited@.len() == i,
            subshell@.len() == i,
            forall|q: int| 0 <= q < i ==> #[trigger] visited@[q] == visited_spec(nodes@, q as nat),
            forall|q: int| 0 <= q < i ==> #[trigger] subshell@[q] == subshell_spec(nodes@, q as nat),
            command_vs(out@) == commands_spec(nodes@, source@, i as nat),
            forall|k: int| 0 <= k < out@.len() ==> (#[trigger] out@[k]).redirect_targets@.len() > 0 ==> out@[k].writes_redirect,
        decreases nodes@.len() - i,
    {
        let (vis, sub) = match nodes[i].parent {
            None => (true, None),
            Some(p) => {
                proof {
                    assert(nodes@[i as int].parent == Some(p));
                }
                let pv = visited[p] && is_container(nodes[p].kind.as_str());
                let ps = if kind_is(&nodes[p], "subshell") { Some(p) } else { subshell[p] };
                (pv, ps)
            },
        };
        proof {
            assert(vis == visited_spec(nodes@, i as nat));
            assert(sub == subshell_spec(nodes@, i as nat));
        }
        visited.push(vis);
        subshell.push(sub);
        let ghost before = out@;
        if vis && kind_is(&nodes[i], "command") {
            let c = extract_command(nodes, i, source, sub);
            out.push(c);
            proof {
                assert(command_vs(out@) =~= command_vs(before).push(command_v(c)));
            }
        }
        i = i + 1;
    }
    out
}

/// Why a command line could not be parsed.
#[derive(Debug, Clone, PartialEq, Eq)]
pub struct ParseError(pub String);

impl ParseError {
    /// The message (what `Display` prints).
    pub fn to_string(&self) -> (r: String)
        ensures
            r@ == self.0@,
    {
        self.0.clone()
    }
}

/// Some node of a flattened tree is an error or missing node.
pub open spec fn has_error_node(ns: Seq<FlatNodeV>) -> bool {
    exists|i: int| 0 <= i < ns.len() && ((#[trigger] ns[i]).3 || ns[i].4)
}

/// The line does not parse: no syntax tree, or one with an error or
/// missing node (an incomplete construct).
pub open spec fn line_unparseable(source: Seq<char>) -> bool {
    match bash_flat_spec(source) {
        None => true,
        Some(ns) => has_error_node(ns),
    }
}

/// `cs` are the simple commands of the syntax tree of `source`.
pub open spec fn line_commands(source: Seq<char>, cs: Seq<SimpleCommand>) -> bool {
    &&& bash_flat_spec(source) is Some
    &&& exists|nodes: Seq<FlatNode>| #![trigger commands_spec(nodes, source, nodes.len())]
        flat_wf(nodes) && flat_views(nodes) == bash_flat_spec(source).unwrap()
        && (forall|i: int| 0 <= i < nodes.len() ==> !(#[trigger] nodes[i]).is_error && !nodes[i].is_missing)
        && command_vs(cs) == commands_spec(nodes, source, nodes.len())
}

/// The message of a line that does not parse.
pub open spec fn parse_error_text(source: Seq<char>) -> Seq<char> {
    if bash_flat_spec(source) is None { "parser returned no tree"@ } else { "syntax error / incomplete input"@ }
}

/// Parses a command line and flattens it into simple commands (both sides of
/// pipes, lists, `&&`/`||`, subshells and compound statements). A tree with
/// an error or missing node is a parse error.
pub fn flatten_commands(source: &str) -> (r: Result<Vec<SimpleCommand>, ParseError>)
    ensures
        (r is Ok) == !line_unparseable(source@),
        r matches Ok(v) ==> line_commands(source@, v@),
        r matches Err(e) ==> e.0@ == parse_error_text(source@),
        r matches Ok(v) ==> forall|k: int| 0 <= k < v@.len() ==> (#[trigger] v@[k]).redirect_targets@.len() > 0 ==> v@[k].writes_redirect,
{
    let nodes = match flatten_tree(source) {
        Some(n) => n,
        None => return Err(ParseError(owned("parser returned no tree"))),
    };
    let mut i: usize = 0;
    while i < nodes.len()
        invariant
            i <= nodes@.len(),
            bash_flat_spec(source@) == Some(flat_views(nodes@)),
            forall|q: int| 0 <= q < i ==> !(#[trigger] nodes@[q]).is_error && !nodes@[q].is_missing,
        decreases nodes@.len() - i,
    {
        if nodes[i].is_error || nodes[i].is_missing {
            proof {
                assert(flat_views(nodes@)[i as int].3 || flat_views(nodes@)[i as int].4);
            }
            return Err(ParseError(owned("syntax error / incomplete input")));
        }
        i = i + 1;
    }
    proof {
        assert forall|q: int| 0 <= q < flat_views(nodes@).len() implies !((#[trigger] flat_views(nodes@)[q]).3 || flat_views(nodes@)[q].4) by {
            assert(flat_views(nodes@)[q] == flat_view(nodes@[q]));
        }
    }
    let cs = commands_of_nodes(&nodes, source);
    proof {
        assert(command_vs(cs@) == commands_spec(nodes@, source@, nodes@.len()));
    }
    Ok(cs)
}

} // verus!
