//! Configuration lint: warnings only, never a refusal to load.
//!
//! - Structural (no knowledge base needed): a token in several buckets, a
//!   bin both in a bare list and as a command section, entries made dead by
//!   `precedence`.
//! - Semantic (reads the knowledge base): allow on a command that may write,
//!   entries that normalise onto another entry of the same list, `same_flag`
//!   classes spread over several buckets, subcommand typos.
//!
//! The object is one file; cross-layer effects are settled by the merge.
use vstd::prelude::*;
use crate::config::merge::default_precedence_vec;
use crate::config::schema::{BucketSpec, CommandSection, ListField, RulesFile, ScopeTable};
use crate::knowledge::{CanonMaps, KnowledgeBase, canon_agrees, kb_wf};
use crate::model::Decision;
use crate::strmap::StrMap;
use crate::text::{cat, cat3, owned, seq_lt, str_eq, vec_has, views};

verus! {

/// Severity: a structural error or dead configuration is a warning; an
/// improvement is a suggestion.
#[derive(Debug, Clone, Copy, PartialEq, Eq, Structural)]
pub enum LintSeverity {
    Warning,
    Suggestion,
}

/// One lint finding.
#[derive(Debug, Clone)]
pub struct Lint {
    pub severity: LintSeverity,
    /// Machine-readable code.
    pub code: &'static str,
    pub message: String,
}

/// The codes a lint can carry.
pub open spec fn known_code(c: Seq<char>) -> bool {
    ||| c == "multi-bucket"@
    ||| c == "dead-entry"@
    ||| c == "head-list-and-section"@
    ||| c == "allow-may-write"@
    ||| c == "alias-redundant"@
    ||| c == "same-flag-cross-bucket"@
    ||| c == "subcommand-typo"@
}

proof fn lemma_codes_differ()
    ensures
        "multi-bucket"@ != "allow-may-write"@,
        "dead-entry"@ != "allow-may-write"@,
        "head-list-and-section"@ != "allow-may-write"@,
        "alias-redundant"@ != "allow-may-write"@,
        "same-flag-cross-bucket"@ != "allow-may-write"@,
        "subcommand-typo"@ != "allow-may-write"@,
{
    reveal_strlit("multi-bucket");
    reveal_strlit("dead-entry");
    reveal_strlit("head-list-and-section");
    reveal_strlit("alias-redundant");
    reveal_strlit("same-flag-cross-bucket");
    reveal_strlit("subcommand-typo");
    reveal_strlit("allow-may-write");
    assert("alias-redundant"@[2] != "allow-may-write"@[2]);
    assert("subcommand-typo"@[0] != "allow-may-write"@[0]);
}

/// Every lint of `s` from index `from` on carries a known code.
pub open spec fn codes_known_from(s: Seq<Lint>, from: int) -> bool {
    forall|i: int| from <= i < s.len() ==> known_code((#[trigger] s[i]).code@)
}

/// No lint of `s` from index `from` on carries code `c`.
pub open spec fn code_absent_from(s: Seq<Lint>, from: int, c: Seq<char>) -> bool {
    forall|i: int| from <= i < s.len() ==> (#[trigger] s[i]).code@ != c
}

// ---------------------------------------------------------------------------
// Tokens
// ---------------------------------------------------------------------------

/// The tokens a list value names (a delta names its `add` list; `remove`
/// is an edit, not a match).
pub open spec fn tokens_spec(lf: Option<ListField>) -> Seq<Seq<char>> {
    match lf {
        None => Seq::empty(),
        Some(ListField::List(v)) => views(v@),
        Some(ListField::Delta { add, remove: _ }) => match add {
            Some(a) => views(a@),
            None => Seq::empty(),
        },
    }
}

pub fn tokens(lf: Option<&ListField>) -> (r: Vec<String>)
    ensures
        views(r@) == tokens_spec(match lf { Some(x) => Some(*x), None => None }),
{
    match lf {
        None => Vec::new(),
        Some(ListField::List(v)) => crate::text::copy_vec(v),
        Some(ListField::Delta { add, remove: _ }) => match add {
            Some(a) => crate::text::copy_vec(a),
            None => Vec::new(),
        },
    }
}

/// The `sub` (or `flag`) tokens of a bucket of a section.
pub open spec fn dims_tokens_spec(spec: Option<BucketSpec>, sub: bool) -> Seq<Seq<char>> {
    match spec {
        None => Seq::empty(),
        Some(s) => tokens_spec(if sub { s.sub } else { s.flag }),
    }
}

pub fn dims_tokens(spec: Option<&BucketSpec>, sub: bool) -> (r: Vec<String>)
    ensures
        views(r@) == dims_tokens_spec(match spec { Some(x) => Some(*x), None => None }, sub),
{
    match spec {
        None => Vec::new(),
        Some(s) => {
            if sub {
                tokens(s.sub.as_ref())
            } else {
                tokens(s.flag.as_ref())
            }
        },
    }
}

// ---------------------------------------------------------------------------
// Knowledge facts
// ---------------------------------------------------------------------------

/// The knowledge base records that `bin` may write.
pub open spec fn may_write_bin_spec(kb: Option<KnowledgeBase>, bin: Seq<char>) -> bool {
    match kb {
        Some(k) => k.bins.has(bin) && k.bins.value(bin).may_write == Some(true),
        None => false,
    }
}

pub fn may_write_bin(kb: Option<&KnowledgeBase>, bin: &str) -> (r: bool)
    requires
        kb matches Some(k) ==> k.bins.wf(),
    ensures
        r == may_write_bin_spec(match kb { Some(k) => Some(*k), None => None }, bin@),
{
    match kb {
        Some(k) => match k.bins.get(bin) {
            Some(e) => match e.may_write {
                Some(b) => b,
                None => false,
            },
            None => false,
        },
        None => false,
    }
}

/// The knowledge base records that `bin sub` may write.
pub open spec fn may_write_sub_spec(kb: Option<KnowledgeBase>, bin: Seq<char>, sub: Seq<char>) -> bool {
    match kb {
        Some(k) => k.bins.has(bin) && k.bins.value(bin).subs.has(sub)
            && k.bins.value(bin).subs.value(sub).may_write == Some(true),
        None => false,
    }
}

pub fn may_write_sub(kb: Option<&KnowledgeBase>, bin: &str, sub: &str) -> (r: bool)
    requires
        kb matches Some(k) ==> k.bins.wf() && (forall|b: Seq<char>| k.bins.has(b) ==> #[trigger] k.bins.value(b).subs.wf()),
    ensures
        r == may_write_sub_spec(match kb { Some(k) => Some(*k), None => None }, bin@, sub@),
{
    match kb {
        Some(k) => match k.bins.get(bin) {
            Some(e) => match e.subs.get(sub) {
                Some(s) => match s.may_write {
                    Some(b) => b,
                    None => false,
                },
                None => false,
            },
            None => false,
        },
        None => false,
    }
}

/// The canonical name of `t` when it differs from `t`.
pub fn non_self_canon_bin(canon: &CanonMaps, t: &str) -> (r: Option<String>)
    requires
        canon.wf(),
    ensures
        match r {
            Some(c) => c@ == canon.canon_bin_spec(t@) && c@ != t@,
            None => canon.canon_bin_spec(t@) == t@,
        },
{
    let c = canon.canon_bin(t);
    if str_eq(c.as_str(), t) { None } else { Some(c) }
}

pub fn suggestion(code: &'static str, message: String) -> (r: Lint)
    ensures
        r.severity == LintSeverity::Suggestion,
        r.code == code,
        r.message == message,
{
    Lint { severity: LintSeverity::Suggestion, code, message }
}

fn warning(code: &'static str, message: String) -> (r: Lint)
    ensures
        r.severity == LintSeverity::Warning,
        r.code == code,
        r.message == message,
{
    Lint { severity: LintSeverity::Warning, code, message }
}

// ---------------------------------------------------------------------------
// Edit distance
// ---------------------------------------------------------------------------

pub open spec fn min3(a: int, b: int, c: int) -> int {
    let m = if a < b { a } else { b };
    if m < c { m } else { c }
}

/// Levenshtein distance of the prefixes `a[..i]` and `b[..j]`.
pub open spec fn lev(a: Seq<char>, b: Seq<char>, i: int, j: int) -> int
    decreases i, j,
{
    if i <= 0 {
        if j < 0 { 0 } else { j }
    } else if j <= 0 {
        i
    } else {
        min3(
            lev(a, b, i - 1, j - 1) + (if a[i - 1] == b[j - 1] { 0int } else { 1int }),
            lev(a, b, i - 1, j) + 1,
            lev(a, b, i, j - 1) + 1,
        )
    }
}

pub open spec fn edit_distance_spec(a: Seq<char>, b: Seq<char>) -> int {
    lev(a, b, a.len() as int, b.len() as int)
}

proof fn lemma_lev_bounds(a: Seq<char>, b: Seq<char>, i: int, j: int)
    requires
        0 <= i,
        0 <= j,
    ensures
        0 <= lev(a, b, i, j) <= i + j,
    decreases i, j,
{
    if i > 0 && j > 0 {
        lemma_lev_bounds(a, b, i - 1, j - 1);
        lemma_lev_bounds(a, b, i - 1, j);
        lemma_lev_bounds(a, b, i, j - 1);
    }
}

/// Levenshtein distance (unit costs) of two strings, by characters.
pub fn edit_distance(a: &str, b: &str) -> (r: usize)
    requires
        a@.len() + b@.len() < usize::MAX,
    ensures
        r as int == edit_distance_spec(a@, b@),
{
    let av = crate::text::chars_of(a);
    let bv = crate::text::chars_of(b);
    let n = av.len();
    let m = bv.len();
    let mut prev: Vec<usize> = Vec::new();
    let mut j: usize = 0;
    while j <= m
        invariant
            j <= m + 1,
            m == bv@.len(),
            n == av@.len(),
            n + m < usize::MAX,
            prev@.len() == j,
            forall|q: int| 0 <= q < j ==> prev@[q] as int == lev(av@, bv@, 0, q),
        decreases m + 1 - j,
    {
        prev.push(j);
        j = j + 1;
    }
    let mut i: usize = 0;
    while i < n
        invariant
            i <= n,
            m == bv@.len(),
            n == av@.len(),
            n + m < usize::MAX,
            prev@.len() == m + 1,
            forall|q: int| 0 <= q <= m ==> prev@[q] as int == lev(av@, bv@, i as int, q),
        decreases n - i,
    {
        let mut cur: Vec<usize> = Vec::new();
        cur.push(i + 1);
        let mut k: usize = 0;
        while k < m
            invariant
                k <= m,
                i < n,
                m == bv@.len(),
                n == av@.len(),
                n + m < usize::MAX,
                prev@.len() == m + 1,
                cur@.len() == k + 1,
                forall|q: int| 0 <= q <= m ==> prev@[q] as int == lev(av@, bv@, i as int, q),
                forall|q: int| 0 <= q <= k ==> cur@[q] as int == lev(av@, bv@, i + 1, q),
            decreases m - k,
        {
            proof {
                lemma_lev_bounds(av@, bv@, i as int, k as int);
                lemma_lev_bounds(av@, bv@, i as int, k + 1);
                lemma_lev_bounds(av@, bv@, i + 1, k as int);
            }
            let cost: usize = if av[i] != bv[k] { 1 } else { 0 };
            let x = prev[k] + cost;
            let y = prev[k + 1] + 1;
            let z = cur[k] + 1;
            let mut best = if x < y { x } else { y };
            if z < best {
                best = z;
            }
            cur.push(best);
            k = k + 1;
        }
        prev = cur;
        i = i + 1;
    }
    prev[m]
}

// ---------------------------------------------------------------------------
// Structural checks
// ---------------------------------------------------------------------------

/// Position of a decision in the precedence (3 when absent).
pub open spec fn rank_of(prec: Seq<Decision>, d: Decision) -> int {
    if prec.len() > 0 && prec[0] == d {
        0
    } else if prec.len() > 1 && prec[1] == d {
        1
    } else if prec.len() > 2 && prec[2] == d {
        2
    } else {
        3
    }
}

fn rank(prec: &Vec<Decision>, d: Decision) -> (r: usize)
    ensures
        r as int == rank_of(prec@, d),
{
    if prec.len() > 0 && prec[0] == d {
        0
    } else if prec.len() > 1 && prec[1] == d {
        1
    } else if prec.len() > 2 && prec[2] == d {
        2
    } else {
        3
    }
}

/// Where a token is listed, as lint messages name it.
pub open spec fn where_spec(scope_label: Seq<char>, bin: Seq<char>, dim: Seq<char>) -> Seq<char> {
    if bin.len() == 0 {
        scope_label + "."@ + dim
    } else {
        scope_label + "."@ + bin + "."@ + dim
    }
}

fn where_of(scope_label: &str, bin: &str, dim: &str) -> (r: String)
    ensures
        r@ == where_spec(scope_label@, bin@, dim@),
{
    if bin.unicode_len() == 0 {
        cat3(scope_label, ".", dim)
    } else {
        let mut w = cat3(scope_label, ".", bin);
        w.append(".");
        w.append(dim);
        w
    }
}

/// A lint as plain values.
pub struct LintV {
    pub severity: LintSeverity,
    pub code: Seq<char>,
    pub message: Seq<char>,
}

pub open spec fn lint_view(l: Lint) -> LintV {
    LintV { severity: l.severity, code: l.code@, message: l.message@ }
}

pub open spec fn lint_views(v: Seq<Lint>) -> Seq<LintV> {
    v.map_values(|l: Lint| lint_view(l))
}

/// A group of bucket slots as plain values: each slot's decision and tokens.
pub open spec fn slot_views(group: Seq<(Decision, &'static str, Vec<String>)>) -> Seq<(Decision, Seq<Seq<char>>)> {
    group.map_values(|g: (Decision, &'static str, Vec<String>)| (g.0, views(g.2@)))
}

/// The tokens of a group of bucket slots, each with its slot's decision,
/// slot by slot.
pub open spec fn group_occurrences(group: Seq<(Decision, Seq<Seq<char>>)>) -> Seq<(Seq<char>, Decision)>
    decreases group.len(),
{
    if group.len() == 0 {
        Seq::empty()
    } else {
        group_occurrences(group.drop_last()) + slot_occurrences(group.last().0, group.last().1)
    }
}

pub open spec fn slot_occurrences(d: Decision, toks: Seq<Seq<char>>) -> Seq<(Seq<char>, Decision)> {
    toks.map_values(|t: Seq<char>| (t, d))
}

/// The buckets a token is listed in, once per listing, in order.
pub open spec fn buckets_of(occ: Seq<(Seq<char>, Decision)>, t: Seq<char>) -> Seq<Decision>
    decreases occ.len(),
{
    if occ.len() == 0 {
        Seq::empty()
    } else {
        let p = buckets_of(occ.drop_last(), t);
        if occ.last().0 == t { p.push(occ.last().1) } else { p }
    }
}

/// The effective bucket: the first of lowest precedence rank.
pub open spec fn effective_of(prec: Seq<Decision>, b: Seq<Decision>) -> Decision
    decreases b.len(),
{
    if b.len() <= 1 {
        b[0]
    } else {
        let e = effective_of(prec, b.drop_last());
        if rank_of(prec, b.last()) < rank_of(prec, e) { b.last() } else { e }
    }
}

pub open spec fn decision_names(b: Seq<Decision>) -> Seq<Seq<char>> {
    b.map_values(|d: Decision| crate::model::decision_name(d))
}

/// The dead-entry warnings of the first `n` listings of a token.
pub open spec fn dead_lints(t: Seq<char>, where_: Seq<char>, b: Seq<Decision>, eff: Decision, n: nat) -> Seq<LintV>
    decreases n,
{
    if n == 0 {
        Seq::empty()
    } else {
        let p = dead_lints(t, where_, b, eff, (n - 1) as nat);
        if b[n - 1] != eff {
            p.push(LintV {
                severity: LintSeverity::Warning,
                code: "dead-entry"@,
                message: "`"@ + t + "` in "@ + where_ + " of "@ + crate::model::decision_name(b[n - 1]) + " is dead: shadowed by `"@
                    + crate::model::decision_name(eff) + "` via precedence"@,
            })
        } else {
            p
        }
    }
}

/// The warnings about one token listed in the buckets `b`: none unless it
/// is listed twice or more; then one naming the effective bucket, and one
/// for each other listing.
pub open spec fn token_lints(prec: Seq<Decision>, where_: Seq<char>, t: Seq<char>, b: Seq<Decision>) -> Seq<LintV> {
    if b.len() < 2 {
        Seq::empty()
    } else {
        let eff = effective_of(prec, b);
        seq![LintV {
            severity: LintSeverity::Warning,
            code: "multi-bucket"@,
            message: "`"@ + t + "` appears in multiple buckets of "@ + where_ + " ("@ + crate::text::join_spec(decision_names(b), "/"@)
                + "); effective: "@ + crate::model::decision_name(eff) + " (precedence)"@,
        }] + dead_lints(t, where_, b, eff, b.len())
    }
}

/// The warnings about the tokens `ts`, in order.
pub open spec fn tokens_lints(prec: Seq<Decision>, where_: Seq<char>, occ: Seq<(Seq<char>, Decision)>, ts: Seq<Seq<char>>) -> Seq<LintV>
    decreases ts.len(),
{
    if ts.len() == 0 {
        Seq::empty()
    } else {
        tokens_lints(prec, where_, occ, ts.drop_last()) + token_lints(prec, where_, ts.last(), buckets_of(occ, ts.last()))
    }
}

/// The tokens listed at least once, in ascending order.
pub open spec fn listed_tokens(occ: Seq<(Seq<char>, Decision)>) -> Seq<Seq<char>> {
    crate::text::ascending_of(|t: Seq<char>| buckets_of(occ, t).len() > 0)
}

/// The multi-bucket and dead-entry warnings of a group's listings, token
/// by token in ascending order.
pub open spec fn multi_bucket_lints(prec: Seq<Decision>, where_: Seq<char>, occ: Seq<(Seq<char>, Decision)>) -> Seq<LintV> {
    tokens_lints(prec, where_, occ, listed_tokens(occ))
}

fn decision_labels(ds: &Vec<Decision>) -> (r: Vec<String>)
    ensures
        views(r@) == decision_names(ds@),
{
    let mut out: Vec<String> = Vec::new();
    let mut i: usize = 0;
    while i < ds.len()
        invariant
            i <= ds@.len(),
            views(out@) == decision_names(ds@.take(i as int)),
        decreases ds@.len() - i,
    {
        let ghost before = out@;
        out.push(owned(ds[i].label()));
        proof {
            assert(views(out@) =~= views(before).push(crate::model::decision_name(ds@[i as int])));
            assert(decision_names(ds@.take(i + 1)) =~= decision_names(ds@.take(i as int)).push(crate::model::decision_name(ds@[i as int])));
        }
        i = i + 1;
    }
    proof {
        assert(ds@.take(ds@.len() as int) =~= ds@);
    }
    out
}

/// The buckets of every token of a group (see [`buckets_of`]), keyed in
/// ascending order.
fn bucket_index(group: &Vec<(Decision, &'static str, Vec<String>)>) -> (r: StrMap<Vec<Decision>>)
    ensures
        r.wf(),
        r.sorted(),
        forall|t: Seq<char>| r.has(t) <==> buckets_of(group_occurrences(slot_views(group@)), t).len() > 0,
        forall|t: Seq<char>| r.has(t) ==> r.value(t)@ == buckets_of(group_occurrences(slot_views(group@)), t),
{
    let ghost gv = slot_views(group@);
    let mut by_token: StrMap<Vec<Decision>> = StrMap::new();
    let mut s: usize = 0;
    proof {
        assert(gv.take(0) =~= Seq::<(Decision, Seq<Seq<char>>)>::empty());
    }
    while s < group.len()
        invariant
            gv == slot_views(group@),
            s <= group@.len(),
            by_token.wf(),
            by_token.sorted(),
            forall|t: Seq<char>| by_token.has(t) <==> buckets_of(group_occurrences(gv.take(s as int)), t).len() > 0,
            forall|t: Seq<char>| by_token.has(t) ==> by_token.value(t)@ == buckets_of(group_occurrences(gv.take(s as int)), t),
        decreases group@.len() - s,
    {
        let toks = &group[s].2;
        let d = group[s].0;
        let ghost base = group_occurrences(gv.take(s as int));
        let ghost tv = views(toks@);
        proof {
            assert(gv.take(s + 1).drop_last() =~= gv.take(s as int));
            assert(gv.take(s + 1).last() == (d, tv));
            assert(slot_occurrences(d, tv.take(0)) =~= Seq::<(Seq<char>, Decision)>::empty());
            assert(base + slot_occurrences(d, tv.take(0)) =~= base);
        }
        let mut k: usize = 0;
        while k < toks.len()
            invariant
                s < group@.len(),
                toks == &group@[s as int].2,
                tv == views(toks@),
                d == group@[s as int].0,
                base == group_occurrences(gv.take(s as int)),
                k <= toks@.len(),
                by_token.wf(),
                by_token.sorted(),
                forall|t: Seq<char>| by_token.has(t) <==> buckets_of(base + slot_occurrences(d, tv.take(k as int)), t).len() > 0,
                forall|t: Seq<char>| by_token.has(t) ==> by_token.value(t)@ == buckets_of(base + slot_occurrences(d, tv.take(k as int)), t),
            decreases toks@.len() - k,
        {
            let ghost occ = base + slot_occurrences(d, tv.take(k as int));
            let ghost occ2 = base + slot_occurrences(d, tv.take(k + 1));
            proof {
                assert(tv[k as int] == toks@[k as int]@);
                assert(occ2 =~= occ.push((toks@[k as int]@, d)));
                assert(occ2.drop_last() =~= occ);
            }
            let mut cur: Vec<Decision> = Vec::new();
            match by_token.get(toks[k].as_str()) {
                Some(v) => {
                    let mut q: usize = 0;
                    while q < v.len()
                        invariant
                            q <= v@.len(),
                            cur@ == v@.take(q as int),
                        decreases v@.len() - q,
                    {
                        cur.push(v[q]);
                        proof {
                            assert(v@.take(q + 1) =~= v@.take(q as int).push(v@[q as int]));
                        }
                        q = q + 1;
                    }
                    proof {
                        assert(v@.take(v@.len() as int) =~= v@);
                    }
                },
                None => {
                    proof {
                        assert(buckets_of(occ, toks@[k as int]@).len() == 0);
                        assert(buckets_of(occ, toks@[k as int]@) =~= Seq::<Decision>::empty());
                    }
                },
            }
            cur.push(d);
            let ghost tk = toks@[k as int]@;
            by_token.insert(toks[k].clone(), cur);
            proof {
                assert forall|t: Seq<char>| by_token.has(t) <==> buckets_of(occ2, t).len() > 0 by {
                    if t != tk {
                        assert(buckets_of(occ2, t) == buckets_of(occ, t));
                    }
                }
                assert forall|t: Seq<char>| by_token.has(t) implies by_token.value(t)@ == buckets_of(occ2, t) by {
                    if t != tk {
                        assert(buckets_of(occ2, t) == buckets_of(occ, t));
                    }
                }
            }
            k = k + 1;
        }
        proof {
            assert(tv.take(tv.len() as int) =~= tv);
            assert(group_occurrences(gv.take(s + 1)) == base + slot_occurrences(d, tv));
        }
        s = s + 1;
    }
    proof {
        assert(gv.take(gv.len() as int) =~= gv);
    }
    by_token
}

fn effective_bucket(prec: &Vec<Decision>, b: &Vec<Decision>) -> (r: Decision)
    requires
        b@.len() >= 1,
    ensures
        r == effective_of(prec@, b@),
{
    let mut effective = b[0];
    let mut q: usize = 1;
    proof {
        assert(b@.take(1).len() == 1);
    }
    while q < b.len()
        invariant
            1 <= q <= b@.len(),
            effective == effective_of(prec@, b@.take(q as int)),
        decreases b@.len() - q,
    {
        proof {
            assert(b@.take(q + 1).drop_last() =~= b@.take(q as int));
            assert(b@.take(q + 1).last() == b@[q as int]);
        }
        if rank(prec, b[q]) < rank(prec, effective) {
            effective = b[q];
        }
        q = q + 1;
    }
    proof {
        assert(b@.take(b@.len() as int) =~= b@);
    }
    effective
}

/// A token in several buckets: a warning naming the effective bucket (by
/// precedence) and a dead-entry warning for each other listing; tokens in
/// ascending order.
pub fn lint_multi_bucket(
    out: &mut Vec<Lint>,
    group: &Vec<(Decision, &'static str, Vec<String>)>,
    scope_label: &str,
    bin: &str,
    dim: &str,
    prec: &Vec<Decision>,
)
    ensures
        lint_views(final(out)@) == lint_views(old(out)@) + multi_bucket_lints(prec@, where_spec(scope_label@, bin@, dim@), group_occurrences(slot_views(group@))),
        final(out)@.len() >= old(out)@.len(),
        final(out)@.subrange(0, old(out)@.len() as int) == old(out)@,
        forall|i: int| old(out)@.len() <= i < final(out)@.len() ==> (#[trigger] final(out)@[i]).code@ == "multi-bucket"@
            || final(out)@[i].code@ == "dead-entry"@,
        forall|i: int| old(out)@.len() <= i < final(out)@.len() ==> (#[trigger] final(out)@[i]).severity == LintSeverity::Warning,
{
    let ghost old_out = out@;
    let ghost occ = group_occurrences(slot_views(group@));
    let ghost wh = where_spec(scope_label@, bin@, dim@);
    let by_token = bucket_index(group);
    let entries = by_token.entries();
    let ghost keys = by_token.keys_view();
    proof {
        assert(keys.take(0) =~= Seq::<Seq<char>>::empty());
    }
    let mut e: usize = 0;
    while e < entries.len()
        invariant
            entries@ == by_token.spec_entries(),
            keys == by_token.keys_view(),
            by_token.wf(),
            by_token.sorted(),
            wh == where_spec(scope_label@, bin@, dim@),
            occ == group_occurrences(slot_views(group@)),
            forall|t: Seq<char>| by_token.has(t) <==> buckets_of(occ, t).len() > 0,
            forall|t: Seq<char>| by_token.has(t) ==> by_token.value(t)@ == buckets_of(occ, t),
            e <= entries@.len(),
            lint_views(out@) == lint_views(old_out) + tokens_lints(prec@, wh, occ, keys.take(e as int)),
            out@.len() >= old_out.len(),
            out@.subrange(0, old_out.len() as int) == old_out,
            forall|i: int| old_out.len() <= i < out@.len() ==> (#[trigger] out@[i]).code@ == "multi-bucket"@
                || out@[i].code@ == "dead-entry"@,
            forall|i: int| old_out.len() <= i < out@.len() ==> (#[trigger] out@[i]).severity == LintSeverity::Warning,
        decreases entries@.len() - e,
    {
        let token = entries[e].0.as_str();
        let buckets = &entries[e].1;
        let ghost tv = token@;
        proof {
            assert(keys[e as int] == tv);
            assert(by_token.has(tv));
            let jj = choose|j: int| 0 <= j < by_token.spec_entries().len() && #[trigger] by_token.spec_entries()[j].0@ == tv;
            if jj != e {
                if jj < e {
                    assert(by_token.spec_entries()[jj].0@ != by_token.spec_entries()[e as int].0@);
                } else {
                    assert(by_token.spec_entries()[e as int].0@ != by_token.spec_entries()[jj].0@);
                }
            }
            assert(buckets@ == buckets_of(occ, tv));
            assert(keys.take(e + 1).drop_last() =~= keys.take(e as int));
            assert(keys.take(e + 1).last() == tv);
        }
        let ghost before_tok = out@;
        if buckets.len() >= 2 {
            let where_ = where_of(scope_label, bin, dim);
            let effective = effective_bucket(prec, buckets);
            let labels = decision_labels(buckets);
            let listed = crate::text::join_with(&labels, "/");
            let mut m = cat3("`", token, "` appears in multiple buckets of ");
            m.append(where_.as_str());
            m.append(" (");
            m.append(listed.as_str());
            m.append("); effective: ");
            m.append(effective.label());
            m.append(" (precedence)");
            proof {
                assert(where_@ == wh);
                assert(m@ =~= "`"@ + tv + "` appears in multiple buckets of "@ + wh + " ("@ + crate::text::join_spec(decision_names(buckets@), "/"@)
                    + "); effective: "@ + crate::model::decision_name(effective) + " (precedence)"@);
            }
            let lint = warning("multi-bucket", m);
            proof {
                assert(lint_view(lint) == token_lints(prec@, wh, tv, buckets@)[0]);
            }
            out.push(lint);
            proof {
                assert(out@.subrange(0, old_out.len() as int) =~= before_tok.subrange(0, old_out.len() as int));
                assert(lint_views(out@) =~= lint_views(before_tok) + seq![token_lints(prec@, wh, tv, buckets@)[0]] + dead_lints(tv, wh, buckets@, effective, 0));
            }
            let mut q: usize = 0;
            while q < buckets.len()
                invariant
                    q <= buckets@.len(),
                    buckets@.len() >= 2,
                    effective == effective_of(prec@, buckets@),
                    where_@ == wh,
                    token@ == tv,
                    lint_views(out@) == lint_views(before_tok) + seq![token_lints(prec@, wh, tv, buckets@)[0]] + dead_lints(tv, wh, buckets@, effective, q as nat),
                    out@.len() >= old_out.len(),
                    out@.subrange(0, old_out.len() as int) == old_out,
                    before_tok.len() >= old_out.len(),
                    forall|i: int| old_out.len() <= i < out@.len() ==> (#[trigger] out@[i]).code@ == "multi-bucket"@
                        || out@[i].code@ == "dead-entry"@,
                    forall|i: int| old_out.len() <= i < out@.len() ==> (#[trigger] out@[i]).severity == LintSeverity::Warning,
                decreases buckets@.len() - q,
            {
                if buckets[q] != effective {
                    let mut d = cat3("`", token, "` in ");
                    d.append(where_.as_str());
                    d.append(" of ");
                    d.append(buckets[q].label());
                    d.append(" is dead: shadowed by `");
                    d.append(effective.label());
                    d.append("` via precedence");
                    let ghost before2 = out@;
                    proof {
                        assert(d@ =~= "`"@ + tv + "` in "@ + wh + " of "@ + crate::model::decision_name(buckets@[q as int]) + " is dead: shadowed by `"@
                            + crate::model::decision_name(effective) + "` via precedence"@);
                    }
                    let lint = warning("dead-entry", d);
                    out.push(lint);
                    proof {
                        assert(out@.subrange(0, old_out.len() as int) =~= before2.subrange(0, old_out.len() as int));
                        assert(lint_views(out@) =~= lint_views(before2).push(lint_view(lint)));
                        assert(dead_lints(tv, wh, buckets@, effective, (q + 1) as nat) == dead_lints(tv, wh, buckets@, effective, q as nat).push(lint_view(lint)));
                    }
                }
                q = q + 1;
            }
            proof {
                assert(token_lints(prec@, wh, tv, buckets@) == seq![token_lints(prec@, wh, tv, buckets@)[0]] + dead_lints(tv, wh, buckets@, effective, buckets@.len()));
                assert(lint_views(out@) =~= lint_views(before_tok) + token_lints(prec@, wh, tv, buckets@));
            }
        }
        proof {
            assert(tokens_lints(prec@, wh, occ, keys.take(e + 1)) == tokens_lints(prec@, wh, occ, keys.take(e as int)) + token_lints(prec@, wh, tv, buckets_of(occ, tv)));
            assert(lint_views(out@) =~= lint_views(old_out) + tokens_lints(prec@, wh, occ, keys.take(e + 1)));
        }
        e = e + 1;
    }
    proof {
        assert(keys.take(keys.len() as int) =~= keys);
        assert(entries@.len() == keys.len());
        assert forall|t: Seq<char>| keys.contains(t) <==> buckets_of(occ, t).len() > 0 by {
            if keys.contains(t) {
                let j = choose|j: int| 0 <= j < keys.len() && keys[j] == t;
                assert(by_token.spec_entries()[j].0@ == t);
                assert(by_token.has(t));
            }
            if buckets_of(occ, t).len() > 0 {
                assert(by_token.has(t));
                let j = choose|j: int| 0 <= j < by_token.spec_entries().len() && #[trigger] by_token.spec_entries()[j].0@ == t;
                assert(keys[j] == t);
            }
        }
        crate::text::lemma_ascending_of(|t: Seq<char>| buckets_of(occ, t).len() > 0, keys);
    }
}

/// Listings with each token replaced by its canonical flag form.
pub open spec fn canon_occurrences(canon: CanonMaps, bin: Seq<char>, occ: Seq<(Seq<char>, Decision)>) -> Seq<(Seq<char>, Decision)> {
    occ.map_values(|p: (Seq<char>, Decision)| (canon.canon_flag_spec(bin, p.0), p.1))
}

/// The names of the buckets present, in name order, joined by `/`.
pub open spec fn present_names(a: bool, c: bool, d: bool) -> Seq<char> {
    (if a { "allow"@ } else { Seq::empty() })
        + (if c { (if a { "/"@ } else { Seq::empty() }) + "confirm"@ } else { Seq::empty() })
        + (if d { (if a || c { "/"@ } else { Seq::empty() }) + "deny"@ } else { Seq::empty() })
}

pub open spec fn count3(a: bool, c: bool, d: bool) -> int {
    (if a { 1int } else { 0int }) + (if c { 1int } else { 0int }) + (if d { 1int } else { 0int })
}

/// The warning about one canonical flag class, if it spans two or more
/// buckets.
pub open spec fn class_lints(bin: Seq<char>, cocc: Seq<(Seq<char>, Decision)>, c: Seq<char>) -> Seq<LintV> {
    let bs = buckets_of(cocc, c);
    let a = bs.contains(Decision::Allow);
    let cf = bs.contains(Decision::Confirm);
    let d = bs.contains(Decision::Deny);
    if count3(a, cf, d) >= 2 {
        seq![LintV {
            severity: LintSeverity::Warning,
            code: "same-flag-cross-bucket"@,
            message: "same_flag class of `"@ + c + "` in ["@ + bin + "] spans multiple buckets ("@ + present_names(a, cf, d)
                + "); only the effective one can ever match after normalization"@,
        }]
    } else {
        Seq::empty()
    }
}

pub open spec fn classes_lints(bin: Seq<char>, cocc: Seq<(Seq<char>, Decision)>, cs: Seq<Seq<char>>) -> Seq<LintV>
    decreases cs.len(),
{
    if cs.len() == 0 {
        Seq::empty()
    } else {
        classes_lints(bin, cocc, cs.drop_last()) + class_lints(bin, cocc, cs.last())
    }
}

/// The `same_flag` conflicts of canonical listings, class by class in
/// ascending order.
pub open spec fn same_flag_lints(bin: Seq<char>, cocc: Seq<(Seq<char>, Decision)>) -> Seq<LintV> {
    classes_lints(bin, cocc, listed_tokens(cocc))
}

/// Each slot with its tokens replaced by their canonical flag forms.
pub open spec fn canon_slot_views(canon: CanonMaps, bin: Seq<char>, sv: Seq<(Decision, Seq<Seq<char>>)>) -> Seq<(Decision, Seq<Seq<char>>)> {
    sv.map_values(|g: (Decision, Seq<Seq<char>>)| (g.0, g.1.map_values(|t: Seq<char>| canon.canon_flag_spec(bin, t))))
}

proof fn lemma_canon_occurrences(canon: CanonMaps, bin: Seq<char>, sv: Seq<(Decision, Seq<Seq<char>>)>)
    ensures
        group_occurrences(canon_slot_views(canon, bin, sv)) == canon_occurrences(canon, bin, group_occurrences(sv)),
    decreases sv.len(),
{
    if sv.len() > 0 {
        lemma_canon_occurrences(canon, bin, sv.drop_last());
        assert(canon_slot_views(canon, bin, sv).drop_last() =~= canon_slot_views(canon, bin, sv.drop_last()));
        assert(group_occurrences(canon_slot_views(canon, bin, sv)) =~= canon_occurrences(canon, bin, group_occurrences(sv)));
    } else {
        assert(group_occurrences(canon_slot_views(canon, bin, sv)) =~= canon_occurrences(canon, bin, group_occurrences(sv)));
    }
}

fn has_decision(v: &Vec<Decision>, d: Decision) -> (r: bool)
    ensures
        r == v@.contains(d),
{
    let mut i: usize = 0;
    while i < v.len()
        invariant
            i <= v@.len(),
            forall|k: int| 0 <= k < i ==> v@[k] != d,
        decreases v@.len() - i,
    {
        if v[i] == d {
            return true;
        }
        i = i + 1;
    }
    false
}

/// A `same_flag` class (one canonical form) listed in several buckets of a
/// section: only the effective bucket can ever match after normalisation.
pub fn lint_same_flag_cross_bucket(
    out: &mut Vec<Lint>,
    canon: &CanonMaps,
    bin: &str,
    flags: &Vec<(Decision, &'static str, Vec<String>)>,
)
    requires
        canon.wf(),
    ensures
        lint_views(final(out)@) == lint_views(old(out)@) + same_flag_lints(bin@, canon_occurrences(*canon, bin@, group_occurrences(slot_views(flags@)))),
        final(out)@.len() >= old(out)@.len(),
        final(out)@.subrange(0, old(out)@.len() as int) == old(out)@,
        forall|i: int| old(out)@.len() <= i < final(out)@.len() ==> (#[trigger] final(out)@[i]).code@ == "same-flag-cross-bucket"@,
{
    let ghost old_out = out@;
    let ghost sv = slot_views(flags@);
    // the slots with canonical flag forms
    let mut canonical: Vec<(Decision, &'static str, Vec<String>)> = Vec::new();
    let mut s: usize = 0;
    while s < flags.len()
        invariant
            canon.wf(),
            s <= flags@.len(),
            sv == slot_views(flags@),
            slot_views(canonical@) == canon_slot_views(*canon, bin@, sv.take(s as int)),
        decreases flags@.len() - s,
    {
        let toks = &flags[s].2;
        let mut ct: Vec<String> = Vec::new();
        let mut k: usize = 0;
        while k < toks.len()
            invariant
                canon.wf(),
                k <= toks@.len(),
                views(ct@) == views(toks@).take(k as int).map_values(|t: Seq<char>| canon.canon_flag_spec(bin@, t)),
            decreases toks@.len() - k,
        {
            let c = canon.canon_flag(bin, toks[k].as_str());
            let ghost prev = ct@;
            ct.push(c);
            proof {
                assert(views(ct@) =~= views(prev).push(canon.canon_flag_spec(bin@, toks@[k as int]@)));
                assert(views(toks@).take(k + 1) =~= views(toks@).take(k as int).push(toks@[k as int]@));
                assert(views(ct@) =~= views(toks@).take(k + 1).map_values(|t: Seq<char>| canon.canon_flag_spec(bin@, t)));
            }
            k = k + 1;
        }
        let ghost before = canonical@;
        canonical.push((flags[s].0, flags[s].1, ct));
        proof {
            assert(views(toks@).take(toks@.len() as int) =~= views(toks@));
            assert(sv[s as int] == (flags@[s as int].0, views(toks@)));
            assert(slot_views(canonical@) =~= slot_views(before).push((flags@[s as int].0, views(ct@))));
            assert(canon_slot_views(*canon, bin@, sv.take(s + 1)) =~= canon_slot_views(*canon, bin@, sv.take(s as int)).push(
                (flags@[s as int].0, views(toks@).map_values(|t: Seq<char>| canon.canon_flag_spec(bin@, t)))));
        }
        s = s + 1;
    }
    let ghost cocc = canon_occurrences(*canon, bin@, group_occurrences(sv));
    proof {
        assert(sv.take(sv.len() as int) =~= sv);
        lemma_canon_occurrences(*canon, bin@, sv);
    }
    let by_canon = bucket_index(&canonical);
    let entries = by_canon.entries();
    let ghost keys = by_canon.keys_view();
    proof {
        assert(keys.take(0) =~= Seq::<Seq<char>>::empty());
    }
    let mut e: usize = 0;
    while e < entries.len()
        invariant
            entries@ == by_canon.spec_entries(),
            keys == by_canon.keys_view(),
            by_canon.wf(),
            by_canon.sorted(),
            cocc == canon_occurrences(*canon, bin@, group_occurrences(slot_views(flags@))),
            forall|t: Seq<char>| by_canon.has(t) <==> buckets_of(cocc, t).len() > 0,
            forall|t: Seq<char>| by_canon.has(t) ==> by_canon.value(t)@ == buckets_of(cocc, t),
            e <= entries@.len(),
            lint_views(out@) == lint_views(old_out) + classes_lints(bin@, cocc, keys.take(e as int)),
            out@.len() >= old_out.len(),
            out@.subrange(0, old_out.len() as int) == old_out,
            forall|i: int| old_out.len() <= i < out@.len() ==> (#[trigger] out@[i]).code@ == "same-flag-cross-bucket"@,
        decreases entries@.len() - e,
    {
        let cname = entries[e].0.as_str();
        let buckets = &entries[e].1;
        let ghost cv = cname@;
        proof {
            assert(keys[e as int] == cv);
            assert(by_canon.has(cv));
            let jj = choose|j: int| 0 <= j < by_canon.spec_entries().len() && #[trigger] by_canon.spec_entries()[j].0@ == cv;
            if jj != e {
                if jj < e {
                    assert(by_canon.spec_entries()[jj].0@ != by_canon.spec_entries()[e as int].0@);
                } else {
                    assert(by_canon.spec_entries()[e as int].0@ != by_canon.spec_entries()[jj].0@);
                }
            }
            assert(buckets@ == buckets_of(cocc, cv));
            assert(keys.take(e + 1).drop_last() =~= keys.take(e as int));
            assert(keys.take(e + 1).last() == cv);
        }
        let a = has_decision(buckets, Decision::Allow);
        let c = has_decision(buckets, Decision::Confirm);
        let d = has_decision(buckets, Decision::Deny);
        let count: usize = (if a { 1 } else { 0 }) + (if c { 1 } else { 0 }) + (if d { 1 } else { 0 });
        let ghost before = out@;
        if count >= 2 {
            let mut listed = String::new();
            if a {
                listed.append("allow");
            }
            if c {
                if a {
                    listed.append("/");
                }
                listed.append("confirm");
            }
            if d {
                if a || c {
                    listed.append("/");
                }
                listed.append("deny");
            }
            let mut m = cat3("same_flag class of `", cname, "` in [");
            m.append(bin);
            m.append("] spans multiple buckets (");
            m.append(listed.as_str());
            m.append("); only the effective one can ever match after normalization");
            proof {
                assert(listed@ =~= present_names(a, c, d));
                assert(m@ =~= "same_flag class of `"@ + cv + "` in ["@ + bin@ + "] spans multiple buckets ("@ + present_names(a, c, d)
                    + "); only the effective one can ever match after normalization"@);
            }
            let lint = warning("same-flag-cross-bucket", m);
            out.push(lint);
            proof {
                assert(out@.subrange(0, old_out.len() as int) =~= before.subrange(0, old_out.len() as int));
                assert(lint_views(out@) =~= lint_views(before) + class_lints(bin@, cocc, cv));
            }
        } else {
            proof {
                assert(class_lints(bin@, cocc, cv) =~= Seq::<LintV>::empty());
                assert(lint_views(out@) =~= lint_views(before) + class_lints(bin@, cocc, cv));
            }
        }
        proof {
            assert(classes_lints(bin@, cocc, keys.take(e + 1)) == classes_lints(bin@, cocc, keys.take(e as int)) + class_lints(bin@, cocc, cv));
        }
        e = e + 1;
    }
    proof {
        assert(keys.take(keys.len() as int) =~= keys);
        assert(entries@.len() == keys.len());
        assert forall|t: Seq<char>| keys.contains(t) <==> buckets_of(cocc, t).len() > 0 by {
            if keys.contains(t) {
                let j = choose|j: int| 0 <= j < keys.len() && keys[j] == t;
                assert(by_canon.spec_entries()[j].0@ == t);
                assert(by_canon.has(t));
            }
            if buckets_of(cocc, t).len() > 0 {
                assert(by_canon.has(t));
                let j = choose|j: int| 0 <= j < by_canon.spec_entries().len() && #[trigger] by_canon.spec_entries()[j].0@ == t;
                assert(keys[j] == t);
            }
        }
        crate::text::lemma_ascending_of(|t: Seq<char>| buckets_of(cocc, t).len() > 0, keys);
    }
}

/// Two strings within edit distance 1 or 2 (each shorter than a million
/// characters, the bound of the distance computation).
pub open spec fn close_pair(a: Seq<char>, b: Seq<char>) -> bool {
    a.len() < 1000000 && b.len() < 1000000 && 1 <= edit_distance_spec(a, b) <= 2
}

/// The typo suggestions pairing `subs[i]` with `subs[i+1..k]`.
pub open spec fn typo_row(sl: Seq<char>, bin: Seq<char>, subs: Seq<Seq<char>>, i: int, k: nat) -> Seq<LintV>
    decreases k,
{
    if k == 0 || k <= i + 1 {
        Seq::empty()
    } else {
        typo_row(sl, bin, subs, i, (k - 1) as nat) + (if close_pair(subs[i], subs[k - 1]) {
            seq![LintV {
                severity: LintSeverity::Suggestion,
                code: "subcommand-typo"@,
                message: "`"@ + subs[i] + "` in "@ + sl + "."@ + bin + " looks like a typo of `"@ + subs[k - 1] + "`"@,
            }]
        } else {
            Seq::empty()
        })
    }
}

/// The typo suggestions of the pairs whose first member is among the first
/// `n` subcommands.
pub open spec fn typo_pairs(sl: Seq<char>, bin: Seq<char>, subs: Seq<Seq<char>>, n: nat) -> Seq<LintV>
    decreases n,
{
    if n == 0 {
        Seq::empty()
    } else {
        typo_pairs(sl, bin, subs, (n - 1) as nat) + typo_row(sl, bin, subs, n - 1, subs.len())
    }
}

/// The first of `keys` close to `name`.
pub open spec fn first_close(keys: Seq<Seq<char>>, name: Seq<char>) -> Option<Seq<char>>
    decreases keys.len(),
{
    if keys.len() == 0 {
        None
    } else {
        match first_close(keys.drop_last(), name) {
            Some(x) => Some(x),
            None => if close_pair(name, keys.last()) { Some(keys.last()) } else { None },
        }
    }
}

/// The suggestion for one configured subcommand that the knowledge base
/// does not know but that is close to one it knows.
pub open spec fn unknown_sub_lints(bin: Seq<char>, kb: Option<KnowledgeBase>, name: Seq<char>) -> Seq<LintV> {
    match kb {
        Some(k) => if k.bins.has(bin) && !k.bins.value(bin).subs.has(name) && name.len() < 1000000 {
            match first_close(k.bins.value(bin).subs.keys_view(), name) {
                Some(h) => seq![LintV {
                    severity: LintSeverity::Suggestion,
                    code: "subcommand-typo"@,
                    message: "`"@ + name + "` is not a known subcommand of `"@ + bin + "`; did you mean `"@ + h + "`?"@,
                }],
                None => Seq::empty(),
            }
        } else {
            Seq::empty()
        },
        None => Seq::empty(),
    }
}

pub open spec fn kb_typo_lints(bin: Seq<char>, kb: Option<KnowledgeBase>, subs: Seq<Seq<char>>, n: nat) -> Seq<LintV>
    decreases n,
{
    if n == 0 {
        Seq::empty()
    } else {
        kb_typo_lints(bin, kb, subs, (n - 1) as nat) + unknown_sub_lints(bin, kb, subs[n - 1])
    }
}

/// The subcommand typo suggestions of a section whose distinct
/// subcommands, in ascending order, are `subs`.
pub open spec fn sub_typo_lints(sl: Seq<char>, bin: Seq<char>, kb: Option<KnowledgeBase>, subs: Seq<Seq<char>>) -> Seq<LintV> {
    typo_pairs(sl, bin, subs, subs.len()) + kb_typo_lints(bin, kb, subs, subs.len())
}

/// The knowledge base behind an optional reference.
pub open spec fn kb_view(kb: Option<&KnowledgeBase>) -> Option<KnowledgeBase> {
    match kb {
        Some(k) => Some(*k),
        None => None,
    }
}

/// Subcommand typos: pairs of configured subcommands at distance 1 or 2, and
/// configured subcommands unknown to the knowledge base but close to a
/// known one.
pub fn lint_sub_typos(
    out: &mut Vec<Lint>,
    kb: Option<&KnowledgeBase>,
    scope_label: &str,
    bin: &str,
    subs_group: &Vec<(Decision, &'static str, Vec<String>)>,
)
    requires
        kb matches Some(k) ==> k.bins.wf() && (forall|b: Seq<char>| k.bins.has(b) ==> #[trigger] k.bins.value(b).subs.wf()),
    ensures
        lint_views(final(out)@) == lint_views(old(out)@) + sub_typo_lints(scope_label@, bin@, kb_view(kb),
            listed_tokens(group_occurrences(slot_views(subs_group@)))),
        final(out)@.len() >= old(out)@.len(),
        final(out)@.subrange(0, old(out)@.len() as int) == old(out)@,
        forall|i: int| old(out)@.len() <= i < final(out)@.len() ==> (#[trigger] final(out)@[i]).code@ == "subcommand-typo"@
            && final(out)@[i].severity == LintSeverity::Suggestion,
{
    let ghost old_out = out@;
    let ghost occ = group_occurrences(slot_views(subs_group@));
    let idx = bucket_index(subs_group);
    let entries = idx.entries();
    let mut subs: Vec<String> = Vec::new();
    let mut x: usize = 0;
    while x < entries.len()
        invariant
            entries@ == idx.spec_entries(),
            x <= entries@.len(),
            views(subs@) == idx.keys_view().take(x as int),
        decreases entries@.len() - x,
    {
        let ghost prev = subs@;
        subs.push(entries[x].0.clone());
        proof {
            assert(views(subs@) =~= views(prev).push(entries@[x as int].0@));
            assert(idx.keys_view().take(x + 1) =~= idx.keys_view().take(x as int).push(idx.keys_view()[x as int]));
        }
        x = x + 1;
    }
    let ghost sv = views(subs@);
    proof {
        assert(idx.keys_view().take(idx.keys_view().len() as int) =~= idx.keys_view());
        assert forall|t: Seq<char>| sv.contains(t) <==> buckets_of(occ, t).len() > 0 by {
            if sv.contains(t) {
                let j = choose|j: int| 0 <= j < sv.len() && sv[j] == t;
                assert(idx.spec_entries()[j].0@ == t);
                assert(idx.has(t));
            }
            if buckets_of(occ, t).len() > 0 {
                assert(idx.has(t));
                let j = choose|j: int| 0 <= j < idx.spec_entries().len() && #[trigger] idx.spec_entries()[j].0@ == t;
                assert(sv[j] == t);
            }
        }
        crate::text::lemma_ascending_of(|t: Seq<char>| buckets_of(occ, t).len() > 0, sv);
    }
    let mut i: usize = 0;
    while i < subs.len()
        invariant
            sv == views(subs@),
            i <= subs@.len(),
            lint_views(out@) == lint_views(old_out) + typo_pairs(scope_label@, bin@, sv, i as nat),
            out@.len() >= old_out.len(),
            out@.subrange(0, old_out.len() as int) == old_out,
            forall|q: int| old_out.len() <= q < out@.len() ==> (#[trigger] out@[q]).code@ == "subcommand-typo"@
                && out@[q].severity == LintSeverity::Suggestion,
        decreases subs@.len() - i,
    {
        let ghost row_base = out@;
        let mut j: usize = i + 1;
        while j < subs.len()
            invariant
                sv == views(subs@),
                i < subs@.len(),
                i + 1 <= j <= subs@.len(),
                lint_views(out@) == lint_views(row_base) + typo_row(scope_label@, bin@, sv, i as int, j as nat),
                out@.len() >= old_out.len(),
                out@.subrange(0, old_out.len() as int) == old_out,
                row_base.len() >= old_out.len(),
                forall|q: int| old_out.len() <= q < out@.len() ==> (#[trigger] out@[q]).code@ == "subcommand-typo"@
                    && out@[q].severity == LintSeverity::Suggestion,
            decreases subs@.len() - j,
        {
            let a = subs[i].as_str();
            let b = subs[j].as_str();
            let ghost before = out@;
            proof {
                assert(sv[i as int] == a@ && sv[j as int] == b@);
            }
            if a.unicode_len() < 1000000 && b.unicode_len() < 1000000 && {
                let d = edit_distance(a, b);
                1 <= d && d <= 2
            } {
                let mut m = cat3("`", a, "` in ");
                m.append(scope_label);
                m.append(".");
                m.append(bin);
                m.append(" looks like a typo of `");
                m.append(b);
                m.append("`");
                proof {
                    assert(m@ =~= "`"@ + a@ + "` in "@ + scope_label@ + "."@ + bin@ + " looks like a typo of `"@ + b@ + "`"@);
                }
                let lint = suggestion("subcommand-typo", m);
                out.push(lint);
                proof {
                    assert(out@.subrange(0, old_out.len() as int) =~= before.subrange(0, old_out.len() as int));
                    assert(lint_views(out@) =~= lint_views(before).push(lint_view(lint)));
                }
            }
            j = j + 1;
        }
        proof {
            assert(typo_pairs(scope_label@, bin@, sv, (i + 1) as nat) == typo_pairs(scope_label@, bin@, sv, i as nat)
                + typo_row(scope_label@, bin@, sv, i as int, sv.len()));
        }
        i = i + 1;
    }
    let ghost after_pairs = out@;
    let ghost kv = kb_view(kb);
    let mut t: usize = 0;
    while t < subs.len()
        invariant
            sv == views(subs@),
            kv == kb_view(kb),
            kb matches Some(k) ==> k.bins.wf() && (forall|b: Seq<char>| k.bins.has(b) ==> #[trigger] k.bins.value(b).subs.wf()),
            t <= subs@.len(),
            lint_views(out@) == lint_views(after_pairs) + kb_typo_lints(bin@, kv, sv, t as nat),
            out@.len() >= after_pairs.len(),
            out@.subrange(0, after_pairs.len() as int) == after_pairs,
            after_pairs.len() >= old_out.len(),
            after_pairs.subrange(0, old_out.len() as int) == old_out,
            forall|q: int| old_out.len() <= q < out@.len() ==> (#[trigger] out@[q]).code@ == "subcommand-typo"@
                && out@[q].severity == LintSeverity::Suggestion,
        decreases subs@.len() - t,
    {
        let name = subs[t].as_str();
        let ghost before = out@;
        proof {
            assert(sv[t as int] == name@);
        }
        let mut pushed = false;
        match kb {
            Some(k) => match k.bins.get(bin) {
                Some(entry) => {
                    proof {
                        assert(entry.subs.wf());
                    }
                    if !entry.subs.contains_key(name) && name.unicode_len() < 1000000 {
                        let known = entry.subs.entries();
                        let mut hit: Option<usize> = None;
                        let mut q: usize = 0;
                        while q < known.len()
                            invariant
                                known@ == entry.subs.spec_entries(),
                                name@.len() < 1000000,
                                q <= known@.len(),
                                match hit {
                                    Some(h) => h < q && first_close(entry.subs.keys_view().take(q as int), name@) == Some(known@[h as int].0@),
                                    None => first_close(entry.subs.keys_view().take(q as int), name@) is None,
                                },
                            decreases known@.len() - q,
                        {
                            let kname = known[q].0.as_str();
                            proof {
                                assert(entry.subs.keys_view().take(q + 1).drop_last() =~= entry.subs.keys_view().take(q as int));
                                assert(entry.subs.keys_view().take(q + 1).last() == kname@);
                            }
                            if hit.is_none() && kname.unicode_len() < 1000000 && {
                                let d = edit_distance(name, kname);
                                1 <= d && d <= 2
                            } {
                                hit = Some(q);
                            }
                            q = q + 1;
                        }
                        proof {
                            assert(entry.subs.keys_view().take(known@.len() as int) =~= entry.subs.keys_view());
                        }
                        match hit {
                            Some(h) => {
                                let mut m = cat3("`", name, "` is not a known subcommand of `");
                                m.append(bin);
                                m.append("`; did you mean `");
                                m.append(known[h].0.as_str());
                                m.append("`?");
                                proof {
                                    assert(m@ =~= "`"@ + name@ + "` is not a known subcommand of `"@ + bin@ + "`; did you mean `"@
                                        + known@[h as int].0@ + "`?"@);
                                }
                                let lint = suggestion("subcommand-typo", m);
                                out.push(lint);
                                pushed = true;
                                proof {
                                    assert(out@.subrange(0, after_pairs.len() as int) =~= before.subrange(0, after_pairs.len() as int));
                                    assert(lint_views(out@) =~= lint_views(before).push(lint_view(lint)));
                                    assert(unknown_sub_lints(bin@, kv, name@) =~= seq![lint_view(lint)]);
                                }
                            },
                            None => {},
                        }
                    }
                },
                None => {},
            },
            None => {},
        }
        proof {
            if !pushed {
                assert(unknown_sub_lints(bin@, kv, name@) =~= Seq::<LintV>::empty());
                assert(lint_views(out@) =~= lint_views(before) + unknown_sub_lints(bin@, kv, name@));
            }
            assert(kb_typo_lints(bin@, kv, sv, (t + 1) as nat) == kb_typo_lints(bin@, kv, sv, t as nat) + unknown_sub_lints(bin@, kv, sv[t as int]));
            assert(out@.subrange(0, old_out.len() as int) =~= after_pairs.subrange(0, old_out.len() as int));
        }
        t = t + 1;
    }
    proof {
        assert(out@.subrange(0, old_out.len() as int) =~= after_pairs.subrange(0, old_out.len() as int));
    }
}

/// The bare lists of a scope as bucket slots.
pub open spec fn head_views(scope: ScopeTable) -> Seq<(Decision, Seq<Seq<char>>)> {
    seq![
        (Decision::Allow, tokens_spec(scope.buckets.allow)),
        (Decision::Confirm, tokens_spec(scope.buckets.confirm)),
        (Decision::Deny, tokens_spec(scope.buckets.deny)),
    ]
}

/// `b` is listed in a bare list of the scope.
pub open spec fn in_bare_lists(scope: ScopeTable, b: Seq<char>) -> bool {
    tokens_spec(scope.buckets.allow).contains(b) || tokens_spec(scope.buckets.confirm).contains(b)
        || tokens_spec(scope.buckets.deny).contains(b)
}

/// The warnings about the first `n` command sections whose command is also
/// in a bare list.
pub open spec fn shadow_lints(sl: Seq<char>, scope: ScopeTable, n: nat) -> Seq<LintV>
    decreases n,
{
    if n == 0 {
        Seq::empty()
    } else {
        let p = shadow_lints(sl, scope, (n - 1) as nat);
        let b = scope.commands.spec_entries()[n - 1].0@;
        if in_bare_lists(scope, b) {
            p.push(LintV {
                severity: LintSeverity::Warning,
                code: "head-list-and-section"@,
                message: "`"@ + b + "` appears both in "@ + sl + " bare lists and as a command section; the section shadows the bare-list entry"@,
            })
        } else {
            p
        }
    }
}

/// The semantic findings about one bare-list token `t` of the list `toks`
/// of bucket `d`.
pub open spec fn token_sem_lints(sl: Seq<char>, kb: Option<KnowledgeBase>, canon: CanonMaps, d: Decision, toks: Seq<Seq<char>>, t: Seq<char>) -> Seq<LintV> {
    let c = canon.canon_bin_spec(t);
    (if d == Decision::Allow && may_write_bin_spec(kb, t) {
        seq![LintV {
            severity: LintSeverity::Suggestion,
            code: "allow-may-write"@,
            message: "`"@ + t + "` is known to possibly write ("@ + sl + "."@ + crate::model::decision_name(d)
                + "); allowing it permits arbitrary writes"@,
        }]
    } else {
        Seq::empty()
    }) + (if c != t && toks.contains(c) {
        seq![LintV {
            severity: LintSeverity::Warning,
            code: "alias-redundant"@,
            message: "`"@ + t + "` normalizes to `"@ + c + "` which is also listed here; this entry can never match"@,
        }]
    } else {
        Seq::empty()
    })
}

pub open spec fn slot_sem_lints(sl: Seq<char>, kb: Option<KnowledgeBase>, canon: CanonMaps, d: Decision, toks: Seq<Seq<char>>, n: nat) -> Seq<LintV>
    decreases n,
{
    if n == 0 {
        Seq::empty()
    } else {
        slot_sem_lints(sl, kb, canon, d, toks, (n - 1) as nat) + token_sem_lints(sl, kb, canon, d, toks, toks[n - 1])
    }
}

/// The semantic findings about the first `n` bare lists.
pub open spec fn head_sem_lints(sl: Seq<char>, kb: Option<KnowledgeBase>, canon: CanonMaps, hv: Seq<(Decision, Seq<Seq<char>>)>, n: nat) -> Seq<LintV>
    decreases n,
{
    if n == 0 {
        Seq::empty()
    } else {
        head_sem_lints(sl, kb, canon, hv, (n - 1) as nat) + slot_sem_lints(sl, kb, canon, hv[n - 1].0, hv[n - 1].1, hv[n - 1].1.len())
    }
}

/// The `sub` (or `flag`) lists of a section as bucket slots.
pub open spec fn dim_views(section: CommandSection, sub: bool) -> Seq<(Decision, Seq<Seq<char>>)> {
    seq![
        (Decision::Allow, dims_tokens_spec(section.allow, sub)),
        (Decision::Confirm, dims_tokens_spec(section.confirm, sub)),
        (Decision::Deny, dims_tokens_spec(section.deny, sub)),
    ]
}

/// The suggestions about the first `n` allowed subcommands that may write.
pub open spec fn sub_write_lints(sl: Seq<char>, bin: Seq<char>, kb: Option<KnowledgeBase>, subs: Seq<Seq<char>>, n: nat) -> Seq<LintV>
    decreases n,
{
    if n == 0 {
        Seq::empty()
    } else {
        sub_write_lints(sl, bin, kb, subs, (n - 1) as nat) + (if may_write_sub_spec(kb, bin, subs[n - 1]) {
            seq![LintV {
                severity: LintSeverity::Suggestion,
                code: "allow-may-write"@,
                message: "`"@ + bin + " "@ + subs[n - 1] + "` is known to possibly write ("@ + sl + "."@ + bin + ".allow.sub)"@,
            }]
        } else {
            Seq::empty()
        })
    }
}

/// The findings about one command section.
pub open spec fn section_lints(sl: Seq<char>, bin: Seq<char>, section: CommandSection, kb: Option<KnowledgeBase>, canon: CanonMaps, prec: Seq<Decision>) -> Seq<LintV> {
    let subs = group_occurrences(dim_views(section, true));
    let flags = group_occurrences(dim_views(section, false));
    let allow_subs = dims_tokens_spec(section.allow, true);
    multi_bucket_lints(prec, where_spec(sl, bin, "sub"@), subs)
        + multi_bucket_lints(prec, where_spec(sl, bin, "flag"@), flags)
        + same_flag_lints(bin, canon_occurrences(canon, bin, flags))
        + sub_write_lints(sl, bin, kb, allow_subs, allow_subs.len())
        + sub_typo_lints(sl, bin, kb, listed_tokens(subs))
}

/// The findings about the first `n` command sections.
pub open spec fn sections_lints(sl: Seq<char>, scope: ScopeTable, kb: Option<KnowledgeBase>, canon: CanonMaps, prec: Seq<Decision>, n: nat) -> Seq<LintV>
    decreases n,
{
    if n == 0 {
        Seq::empty()
    } else {
        let e = scope.commands.spec_entries()[n - 1];
        sections_lints(sl, scope, kb, canon, prec, (n - 1) as nat) + section_lints(sl, e.0@, e.1, kb, canon, prec)
    }
}

/// The findings about one scope table, in the order they are reported:
/// bare-list conflicts, sections shadowing bare lists, bare-list semantic
/// findings, then each command section.
pub open spec fn scope_lints(sl: Seq<char>, scope: ScopeTable, kb: Option<KnowledgeBase>, canon: CanonMaps, prec: Seq<Decision>) -> Seq<LintV> {
    multi_bucket_lints(prec, where_spec(sl, ""@, "list"@), group_occurrences(head_views(scope)))
        + shadow_lints(sl, scope, scope.commands.spec_entries().len())
        + head_sem_lints(sl, kb, canon, head_views(scope), 3)
        + sections_lints(sl, scope, kb, canon, prec, scope.commands.spec_entries().len())
}

/// The findings about one command section.
fn lint_section(
    out: &mut Vec<Lint>,
    scope_label: &str,
    b: &str,
    section: &CommandSection,
    kb: Option<&KnowledgeBase>,
    canon: &CanonMaps,
    prec: &Vec<Decision>,
)
    requires
        canon.wf(),
        kb matches Some(k) ==> k.bins.wf() && (forall|b: Seq<char>| k.bins.has(b) ==> #[trigger] k.bins.value(b).subs.wf()),
    ensures
        lint_views(final(out)@) == lint_views(old(out)@) + section_lints(scope_label@, b@, *section, kb_view(kb), *canon, prec@),
        final(out)@.len() >= old(out)@.len(),
        final(out)@.subrange(0, old(out)@.len() as int) == old(out)@,
        codes_known_from(final(out)@, old(out)@.len() as int),
        kb is None ==> code_absent_from(final(out)@, old(out)@.len() as int, "allow-may-write"@),
{
    let ghost sl = scope_label@;
    let ghost kv = kb_view(kb);
    let ghost before_sec = out@;
    let subs_group: Vec<(Decision, &'static str, Vec<String>)> = vec![
        (Decision::Allow, "sub", dims_tokens(section.allow.as_ref(), true)),
        (Decision::Confirm, "sub", dims_tokens(section.confirm.as_ref(), true)),
        (Decision::Deny, "sub", dims_tokens(section.deny.as_ref(), true)),
    ];
    let flags_group: Vec<(Decision, &'static str, Vec<String>)> = vec![
        (Decision::Allow, "flag", dims_tokens(section.allow.as_ref(), false)),
        (Decision::Confirm, "flag", dims_tokens(section.confirm.as_ref(), false)),
        (Decision::Deny, "flag", dims_tokens(section.deny.as_ref(), false)),
    ];
    proof {
        assert(slot_views(subs_group@) =~= dim_views(*section, true));
        assert(slot_views(flags_group@) =~= dim_views(*section, false));
    }
    lint_multi_bucket(out, &subs_group, scope_label, b, "sub", prec);
    let ghost m1 = out@;
    lint_multi_bucket(out, &flags_group, scope_label, b, "flag", prec);
    let ghost m2 = out@;
    lint_same_flag_cross_bucket(out, canon, b, &flags_group);
    let ghost m3 = out@;
    let allow_subs = &subs_group[0].2;
    let ghost asv = views(allow_subs@);
    proof {
        assert(asv == dims_tokens_spec(section.allow, true));
    }
    let mut t: usize = 0;
    while t < allow_subs.len()
        invariant
            kb matches Some(k) ==> k.bins.wf() && (forall|b: Seq<char>| k.bins.has(b) ==> #[trigger] k.bins.value(b).subs.wf()),
            asv == views(allow_subs@),
            sl == scope_label@,
            kv == kb_view(kb),
            t <= allow_subs@.len(),
            lint_views(out@) == lint_views(m3) + sub_write_lints(sl, b@, kv, asv, t as nat),
            out@.len() >= m3.len(),
            out@.subrange(0, m3.len() as int) == m3,
            forall|i: int| m3.len() <= i < out@.len() ==> (#[trigger] out@[i]).code@ == "allow-may-write"@,
            kb is None ==> out@.len() == m3.len(),
        decreases allow_subs@.len() - t,
    {
        let sub = allow_subs[t].as_str();
        proof {
            assert(asv[t as int] == sub@);
        }
        if may_write_sub(kb, b, sub) {
            let mut m = cat3("`", b, " ");
            m.append(sub);
            m.append("` is known to possibly write (");
            m.append(scope_label);
            m.append(".");
            m.append(b);
            m.append(".allow.sub)");
            proof {
                assert(m@ =~= "`"@ + b@ + " "@ + sub@ + "` is known to possibly write ("@ + sl + "."@ + b@ + ".allow.sub)"@);
            }
            let ghost before = out@;
            let lint = suggestion("allow-may-write", m);
            out.push(lint);
            proof {
                assert(out@.subrange(0, m3.len() as int) =~= before.subrange(0, m3.len() as int));
                assert(lint_views(out@) =~= lint_views(before).push(lint_view(lint)));
            }
        }
        t = t + 1;
    }
    let ghost m4 = out@;
    lint_sub_typos(out, kb, scope_label, b, &subs_group);
    proof {
        lemma_codes_differ();
        assert(lint_views(out@) =~= lint_views(before_sec) + section_lints(sl, b@, *section, kv, *canon, prec@));
        assert(out@.subrange(0, before_sec.len() as int) =~= before_sec);
        assert forall|i: int| before_sec.len() <= i < out@.len() implies known_code((#[trigger] out@[i]).code@) by {
            if i >= m4.len() {
            } else if i >= m3.len() {
                assert(out@[i] == m4[i]);
            } else if i >= m2.len() {
                assert(out@[i] == m4[i] && m4[i] == m3[i]);
            } else if i >= m1.len() {
                assert(out@[i] == m4[i] && m4[i] == m3[i] && m3[i] == m2[i]);
            } else if i >= before_sec.len() {
                assert(out@[i] == m4[i] && m4[i] == m3[i] && m3[i] == m2[i] && m2[i] == m1[i]);
            }
        }
        if kb is None {
            assert forall|i: int| before_sec.len() <= i < out@.len() implies (#[trigger] out@[i]).code@ != "allow-may-write"@ by {
                if i >= m4.len() {
                } else if i >= m2.len() {
                    assert(out@[i] == m4[i] && m4[i] == m3[i]);
                } else if i >= m1.len() {
                    assert(out@[i] == m4[i] && m4[i] == m3[i] && m3[i] == m2[i]);
                } else if i >= before_sec.len() {
                    assert(out@[i] == m4[i] && m4[i] == m3[i] && m3[i] == m2[i] && m2[i] == m1[i]);
                } else {
                    assert(out@[i] == m4[i] && m4[i] == m3[i] && m3[i] == m2[i] && m2[i] == m1[i] && m1[i] == before_sec[i]);
                }
            }
        }
    }
}

/// Lints of one scope table of a file.
fn lint_scope(
    out: &mut Vec<Lint>,
    scope_label: &str,
    scope: &ScopeTable,
    kb: Option<&KnowledgeBase>,
    canon: &CanonMaps,
    prec: &Vec<Decision>,
)
    requires
        canon.wf(),
        scope.commands.wf(),
        kb matches Some(k) ==> k.bins.wf() && (forall|b: Seq<char>| k.bins.has(b) ==> #[trigger] k.bins.value(b).subs.wf()),
    ensures
        lint_views(final(out)@) == lint_views(old(out)@) + scope_lints(scope_label@, *scope, kb_view(kb), *canon, prec@),
        final(out)@.len() >= old(out)@.len(),
        final(out)@.subrange(0, old(out)@.len() as int) == old(out)@,
        codes_known_from(final(out)@, old(out)@.len() as int),
        kb is None ==> code_absent_from(final(out)@, old(out)@.len() as int, "allow-may-write"@),
{
    let ghost old_out = out@;
    let ghost kv = kb_view(kb);
    let ghost sl = scope_label@;
    let allow_t = tokens(scope.buckets.allow.as_ref());
    let confirm_t = tokens(scope.buckets.confirm.as_ref());
    let deny_t = tokens(scope.buckets.deny.as_ref());
    let head: Vec<(Decision, &'static str, Vec<String>)> = vec![
        (Decision::Allow, "allow", crate::text::copy_vec(&allow_t)),
        (Decision::Confirm, "confirm", crate::text::copy_vec(&confirm_t)),
        (Decision::Deny, "deny", crate::text::copy_vec(&deny_t)),
    ];
    let ghost hv = head_views(*scope);
    proof {
        assert(slot_views(head@) =~= hv);
    }
    lint_multi_bucket(out, &head, scope_label, "", "list", prec);
    proof {
        lemma_codes_differ();
        assert forall|i: int| old_out.len() <= i < out@.len() implies known_code((#[trigger] out@[i]).code@) by {}
    }
    let ghost after_multi = out@;
    // a bin both in a bare list and as a section: the section shadows it
    let entries = scope.commands.entries();
    let mut c: usize = 0;
    while c < entries.len()
        invariant
            entries@ == scope.commands.spec_entries(),
            sl == scope_label@,
            views(allow_t@) == tokens_spec(scope.buckets.allow),
            views(confirm_t@) == tokens_spec(scope.buckets.confirm),
            views(deny_t@) == tokens_spec(scope.buckets.deny),
            lint_views(out@) == lint_views(after_multi) + shadow_lints(sl, *scope, c as nat),
            out@.len() >= after_multi.len(),
            out@.subrange(0, after_multi.len() as int) == after_multi,
            after_multi.len() >= old_out.len(),
            after_multi.subrange(0, old_out.len() as int) == old_out,
            codes_known_from(out@, old_out.len() as int),
            kb is None ==> code_absent_from(out@, old_out.len() as int, "allow-may-write"@),
            c <= entries@.len(),
        decreases entries@.len() - c,
    {
        let b = entries[c].0.as_str();
        let ghost before = out@;
        if vec_has(&allow_t, b) || vec_has(&confirm_t, b) || vec_has(&deny_t, b) {
            let mut m = cat3("`", b, "` appears both in ");
            m.append(scope_label);
            m.append(" bare lists and as a command section; the section shadows the bare-list entry");
            proof {
                assert(m@ =~= "`"@ + b@ + "` appears both in "@ + sl + " bare lists and as a command section; the section shadows the bare-list entry"@);
            }
            let lint = warning("head-list-and-section", m);
            out.push(lint);
            proof {
                lemma_codes_differ();
                assert(out@.subrange(0, after_multi.len() as int) =~= before.subrange(0, after_multi.len() as int));
                assert(lint_views(out@) =~= lint_views(before).push(lint_view(lint)));
            }
        }
        c = c + 1;
    }
    proof {
        assert(out@.subrange(0, old_out.len() as int) =~= after_multi.subrange(0, old_out.len() as int));
    }
    let ghost after_sections = out@;
    // semantic: allow on a command that may write; alias redundancy
    let mut h: usize = 0;
    while h < head.len()
        invariant
            head@.len() == 3,
            hv == slot_views(head@),
            forall|q: int| 0 <= q < 3 ==> (#[trigger] head@[q]).1@ == crate::model::decision_name(head@[q].0),
            sl == scope_label@,
            kv == kb_view(kb),
            canon.wf(),
            kb matches Some(k) ==> k.bins.wf(),
            h <= 3,
            lint_views(out@) == lint_views(after_sections) + head_sem_lints(sl, kv, *canon, hv, h as nat),
            out@.len() >= after_sections.len(),
            out@.subrange(0, after_sections.len() as int) == after_sections,
            after_sections.len() >= old_out.len(),
            after_sections.subrange(0, old_out.len() as int) == old_out,
            codes_known_from(out@, old_out.len() as int),
            kb is None ==> code_absent_from(out@, old_out.len() as int, "allow-may-write"@),
        decreases head@.len() - h,
    {
        let toks = &head[h].2;
        let ghost tv = views(toks@);
        let ghost row_base = out@;
        proof {
            assert(hv[h as int] == (head@[h as int].0, tv));
        }
        let mut t: usize = 0;
        while t < toks.len()
            invariant
                h < head@.len(),
                head@.len() == 3,
                toks == &head@[h as int].2,
                tv == views(toks@),
                head@[h as int].1@ == crate::model::decision_name(head@[h as int].0),
                sl == scope_label@,
                kv == kb_view(kb),
                canon.wf(),
                kb matches Some(k) ==> k.bins.wf(),
                t <= toks@.len(),
                lint_views(out@) == lint_views(row_base) + slot_sem_lints(sl, kv, *canon, head@[h as int].0, tv, t as nat),
                out@.len() >= row_base.len(),
                out@.subrange(0, row_base.len() as int) == row_base,
                row_base.len() >= after_sections.len(),
                row_base.subrange(0, after_sections.len() as int) == after_sections,
                codes_known_from(out@, old_out.len() as int),
                kb is None ==> code_absent_from(out@, old_out.len() as int, "allow-may-write"@),
            decreases toks@.len() - t,
        {
            let tok = toks[t].as_str();
            let ghost before = out@;
            proof {
                assert(tv[t as int] == tok@);
            }
            if head[h].0 == Decision::Allow && may_write_bin(kb, tok) {
                let mut m = cat3("`", tok, "` is known to possibly write (");
                m.append(scope_label);
                m.append(".");
                m.append(head[h].1);
                m.append("); allowing it permits arbitrary writes");
                proof {
                    assert(m@ =~= "`"@ + tok@ + "` is known to possibly write ("@ + sl + "."@ + crate::model::decision_name(head@[h as int].0)
                        + "); allowing it permits arbitrary writes"@);
                }
                let lint = suggestion("allow-may-write", m);
                out.push(lint);
                proof {
                    assert(out@.subrange(0, row_base.len() as int) =~= before.subrange(0, row_base.len() as int));
                    assert(lint_views(out@) =~= lint_views(before).push(lint_view(lint)));
                }
            }
            let ghost mid = out@;
            match non_self_canon_bin(canon, tok) {
                Some(cb) => {
                    if vec_has(toks, cb.as_str()) {
                        let mut m = cat3("`", tok, "` normalizes to `");
                        m.append(cb.as_str());
                        m.append("` which is also listed here; this entry can never match");
                        proof {
                            assert(m@ =~= "`"@ + tok@ + "` normalizes to `"@ + cb@ + "` which is also listed here; this entry can never match"@);
                        }
                        let lint = warning("alias-redundant", m);
                        out.push(lint);
                        proof {
                            lemma_codes_differ();
                            assert(out@.subrange(0, row_base.len() as int) =~= mid.subrange(0, row_base.len() as int));
                            assert(lint_views(out@) =~= lint_views(mid).push(lint_view(lint)));
                        }
                    }
                },
                None => {},
            }
            proof {
                assert(lint_views(out@) =~= lint_views(before) + token_sem_lints(sl, kv, *canon, head@[h as int].0, tv, tok@));
                assert(slot_sem_lints(sl, kv, *canon, head@[h as int].0, tv, (t + 1) as nat)
                    == slot_sem_lints(sl, kv, *canon, head@[h as int].0, tv, t as nat) + token_sem_lints(sl, kv, *canon, head@[h as int].0, tv, tv[t as int]));
                assert(out@.subrange(0, row_base.len() as int) =~= before.subrange(0, row_base.len() as int));
            }
            t = t + 1;
        }
        proof {
            assert(head_sem_lints(sl, kv, *canon, hv, (h + 1) as nat) == head_sem_lints(sl, kv, *canon, hv, h as nat)
                + slot_sem_lints(sl, kv, *canon, hv[h as int].0, hv[h as int].1, hv[h as int].1.len()));
            assert(out@.subrange(0, after_sections.len() as int) =~= row_base.subrange(0, after_sections.len() as int));
        }
        h = h + 1;
    }
    proof {
        assert(out@.subrange(0, old_out.len() as int) =~= after_sections.subrange(0, old_out.len() as int));
    }
    let ghost after_head = out@;
    // command sections
    let mut c2: usize = 0;
    while c2 < entries.len()
        invariant
            entries@ == scope.commands.spec_entries(),
            sl == scope_label@,
            kv == kb_view(kb),
            canon.wf(),
            kb matches Some(k) ==> k.bins.wf() && (forall|b: Seq<char>| k.bins.has(b) ==> #[trigger] k.bins.value(b).subs.wf()),
            c2 <= entries@.len(),
            lint_views(out@) == lint_views(after_head) + sections_lints(sl, *scope, kv, *canon, prec@, c2 as nat),
            out@.len() >= after_head.len(),
            out@.subrange(0, after_head.len() as int) == after_head,
            codes_known_from(out@, old_out.len() as int),
            kb is None ==> code_absent_from(out@, old_out.len() as int, "allow-may-write"@),
        decreases entries@.len() - c2,
    {
        let b = entries[c2].0.as_str();
        let section = &entries[c2].1;
        let ghost before_sec = out@;
        lint_section(out, scope_label, b, section, kb, canon, prec);
        proof {
            assert(sections_lints(sl, *scope, kv, *canon, prec@, (c2 + 1) as nat)
                == sections_lints(sl, *scope, kv, *canon, prec@, c2 as nat) + section_lints(sl, b@, *section, kv, *canon, prec@));
            assert(out@.subrange(0, after_head.len() as int) =~= before_sec.subrange(0, after_head.len() as int));
            assert forall|i: int| old_out.len() <= i < out@.len() implies known_code((#[trigger] out@[i]).code@) by {
                if i < before_sec.len() {
                    assert(out@[i] == before_sec[i]);
                }
            }
            if kb is None {
                assert forall|i: int| old_out.len() <= i < out@.len() implies (#[trigger] out@[i]).code@ != "allow-may-write"@ by {
                    if i < before_sec.len() {
                        assert(out@[i] == before_sec[i]);
                    }
                }
            }
        }
        c2 = c2 + 1;
    }
    proof {
        assert(out@.subrange(0, old_out.len() as int) =~= after_head.subrange(0, old_out.len() as int));
        assert(lint_views(out@) =~= lint_views(old_out) + scope_lints(sl, *scope, kv, *canon, prec@));
    }
}

/// The precedence a file declares, or the default one.
pub open spec fn file_precedence(file: RulesFile) -> Seq<Decision> {
    match file.precedence {
        Some(p) => p@,
        None => crate::config::merge::default_precedence(),
    }
}

/// The findings about a file: its `[local]` table, then its `[global]`
/// table.
pub open spec fn file_lints(file: RulesFile, kb: Option<KnowledgeBase>, canon: CanonMaps) -> Seq<LintV> {
    scope_lints("[local]"@, file.local, kb, canon, file_precedence(file))
        + scope_lints("[global]"@, file.global, kb, canon, file_precedence(file))
}

/// Lints of one `rules.toml` (structural checks always; semantic checks
/// only with a knowledge base).
pub fn lint_file(file: &RulesFile, kb: Option<&KnowledgeBase>) -> (r: Vec<Lint>)
    requires
        file.local.commands.wf(),
        file.global.commands.wf(),
        kb_wf(kb_view(kb)),
    ensures
        exists|canon: CanonMaps| #![trigger file_lints(*file, kb_view(kb), canon)]
            canon_agrees(kb_view(kb), canon) && lint_views(r@) == file_lints(*file, kb_view(kb), canon),
        codes_known_from(r@, 0),
        kb is None ==> code_absent_from(r@, 0, "allow-may-write"@),
{
    let prec = match &file.precedence {
        Some(p) => {
            let mut v: Vec<Decision> = Vec::new();
            let mut i: usize = 0;
            while i < p.len()
                invariant
                    i <= p@.len(),
                    v@ == p@.take(i as int),
                decreases p@.len() - i,
            {
                v.push(p[i]);
                proof {
                    assert(p@.take(i + 1) =~= p@.take(i as int).push(p@[i as int]));
                }
                i = i + 1;
            }
            proof {
                assert(p@.take(p@.len() as int) =~= p@);
            }
            v
        },
        None => default_precedence_vec(),
    };
    let canon = match kb {
        Some(k) => k.canon_maps(),
        None => CanonMaps::empty(),
    };
    let mut out: Vec<Lint> = Vec::new();
    lint_scope(&mut out, "[local]", &file.local, kb, &canon, &prec);
    let ghost mid = out@;
    lint_scope(&mut out, "[global]", &file.global, kb, &canon, &prec);
    proof {
        assert(lint_views(Seq::<Lint>::empty()) =~= Seq::<LintV>::empty());
        assert(lint_views(out@) =~= file_lints(*file, kb_view(kb), canon));
        assert forall|i: int| 0 <= i < out@.len() implies known_code((#[trigger] out@[i]).code@) by {
            if i < mid.len() {
                assert(out@[i] == mid[i]);
            }
        }
        if kb is None {
            assert forall|i: int| 0 <= i < out@.len() implies (#[trigger] out@[i]).code@ != "allow-may-write"@ by {
                if i < mid.len() {
                    assert(out@[i] == mid[i]);
                }
            }
        }
    }
    out
}

} // verus!
