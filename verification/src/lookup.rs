//! The `rules.toml` lookup: knowledge-base normalisation, the two scope
//! tables with three buckets each, and precedence synthesis of multiple hits.
//!
//! 0. Normalise first (names only: `pip3` → `pip`, `npm exec foo` → `npx foo`,
//!    `--force` → `-f`); arguments keep their meaning and the escape check
//!    still reads the original arguments.
//! 1. A `[global].allow` hit allows the whole command (escape-exempt).
//! 2. Command sections first (global before local); a section shadows the
//!    bare-list entries of its scope.
//! 3. Several dimension hits of a section are resolved by `precedence`.
//! 4. Every `[local]` allow hit runs the path-escape check.
//! 5. No hit: section default → top default → confirm (fail-safe).
use vstd::prelude::*;
use crate::cmd_parse::{SimpleCommand, path_escapes, path_escapes_spec};
use crate::config::merge::{Dims, MergedCommand, MergedRules, MergedScope, Provenance, ScopeProvenance, ScriptAllowDecls, merged_wf, prov_map};
use crate::knowledge::{CanonMaps, KnowledgeBase, canon_agrees, kb_wf};
use crate::model::{Decision, Verdict};
use crate::strmap::StrMap;
use crate::text::{cat, cat3, owned, str_eq, substring, vec_has, views};

verus! {

/// Where a table verdict came from: layer, entry path and matched token.
#[derive(Debug, Clone, PartialEq, Eq)]
pub struct EntrySource {
    pub layer: &'static str,
    pub entry: String,
    pub token: String,
}

/// The lookup engine: canonicalised merged rules plus the normalisation maps.
pub struct RuleLookup {
    rules: MergedRules,
    precedence: Vec<Decision>,
    canon: CanonMaps,
    home: Option<String>,
}

/// The verdict of one simple command with its normalisation chain (empty
/// when no rename happened) and the table entry it came from.
pub struct Classification {
    pub verdict: Verdict,
    pub kb_chain: Vec<String>,
    pub source: Option<EntrySource>,
}

/// A command name after normalisation (lookup only).
pub struct Normalized {
    pub bin: String,
    /// Subcommand (absorbed into the target bin by a subcommand alias).
    pub sub: Option<String>,
    /// Flag candidates (canonical forms, value tokens removed).
    pub flags: Vec<String>,
    /// Rename chain (from the first name; empty = no rename).
    pub chain: Vec<String>,
}

// ---------------------------------------------------------------------------
// Decision specification
// ---------------------------------------------------------------------------

/// The dimensions of one bucket of a section.
pub open spec fn section_dims(c: MergedCommand, d: Decision) -> Dims {
    match d {
        Decision::Allow => c.allow,
        Decision::Confirm => c.confirm,
        Decision::Deny => c.deny,
    }
}

/// A subcommand or one of the flags hits the dimensions.
pub open spec fn dims_hit(d: Dims, sub: Option<Seq<char>>, flags: Seq<Seq<char>>) -> bool {
    (sub matches Some(s) && views(d.sub@).contains(s))
        || exists|i: int| 0 <= i < flags.len() && views(d.flag@).contains(#[trigger] flags[i])
}

/// The first bucket (in precedence order) that a section hit falls in.
pub open spec fn first_section_hit(prec: Seq<Decision>, c: MergedCommand, sub: Option<Seq<char>>, flags: Seq<Seq<char>>) -> Option<Decision>
    decreases prec.len(),
{
    if prec.len() == 0 {
        None
    } else if dims_hit(section_dims(c, prec[0]), sub, flags) {
        Some(prec[0])
    } else {
        first_section_hit(prec.drop_first(), c, sub, flags)
    }
}

/// Fallback chain: section default, then top default, then confirm.
pub open spec fn fallback(section_default: Option<Decision>, top: Option<Decision>) -> Decision {
    match section_default {
        Some(d) => d,
        None => match top {
            Some(d) => d,
            None => Decision::Confirm,
        },
    }
}

/// Decision of a command section.
pub open spec fn section_decision(
    prec: Seq<Decision>,
    c: MergedCommand,
    is_global: bool,
    sub: Option<Seq<char>>,
    flags: Seq<Seq<char>>,
    escapes: bool,
    top: Option<Decision>,
) -> Decision {
    match first_section_hit(prec, c, sub, flags) {
        Some(Decision::Allow) => if !is_global && escapes { Decision::Confirm } else { Decision::Allow },
        Some(d) => d,
        None => fallback(c.default, top),
    }
}

/// The head bucket of a merged scope.
pub open spec fn head_bucket(s: MergedScope, d: Decision) -> Seq<Seq<char>> {
    match d {
        Decision::Allow => views(s.allow@),
        Decision::Confirm => views(s.confirm@),
        Decision::Deny => views(s.deny@),
    }
}

/// First head-bucket hit of one scope in precedence order.
pub open spec fn first_head_hit(prec: Seq<Decision>, s: MergedScope, bin: Seq<char>) -> Option<Decision>
    decreases prec.len(),
{
    if prec.len() == 0 {
        None
    } else if head_bucket(s, prec[0]).contains(bin) {
        Some(prec[0])
    } else {
        first_head_hit(prec.drop_first(), s, bin)
    }
}

/// Decision of a head-bucket hit (allow runs the escape check).
pub open spec fn head_hit_decision(d: Decision, escapes: bool) -> Decision {
    if d == Decision::Allow && escapes { Decision::Confirm } else { d }
}

/// The whole lookup decision for a normalised command.
pub open spec fn lookup_spec(
    rules: MergedRules,
    prec: Seq<Decision>,
    bin: Seq<char>,
    sub: Option<Seq<char>>,
    flags: Seq<Seq<char>>,
    escapes: bool,
) -> Decision {
    if views(rules.global.allow@).contains(bin) {
        Decision::Allow
    } else if rules.global.commands.has(bin) {
        section_decision(prec, rules.global.commands.value(bin), true, sub, flags, escapes, rules.default)
    } else if rules.local.commands.has(bin) {
        section_decision(prec, rules.local.commands.value(bin), false, sub, flags, escapes, rules.default)
    } else {
        match first_head_hit(prec, rules.global, bin) {
            Some(d) => head_hit_decision(d, escapes),
            None => match first_head_hit(prec, rules.local, bin) {
                Some(d) => head_hit_decision(d, escapes),
                None => fallback(None, rules.default),
            },
        }
    }
}

/// Some argument of the command escapes the repository.
pub open spec fn args_escape(args: Seq<String>, project: Seq<char>, home: Option<Seq<char>>) -> bool {
    exists|i: int| 0 <= i < args.len() && path_escapes_spec(#[trigger] args[i]@, project, home)
}

pub open spec fn opt_view(o: Option<String>) -> Option<Seq<char>> {
    match o {
        Some(s) => Some(s@),
        None => None,
    }
}

/// The words after the command name.
pub open spec fn cmd_args(cmd: SimpleCommand) -> Seq<String> {
    if cmd.words@.len() == 0 { Seq::empty() } else { cmd.words@.drop_first() }
}

/// The first argument: the subcommand candidate.
pub open spec fn first_arg(cmd: SimpleCommand) -> Option<Seq<char>> {
    if cmd.words@.len() >= 2 { Some(cmd.words@[1]@) } else { None }
}

/// The words after the subcommand candidate: the flag candidates.
pub open spec fn flag_words(cmd: SimpleCommand) -> Seq<Seq<char>> {
    if cmd.words@.len() >= 2 { views(cmd.words@.skip(2)) } else { Seq::empty() }
}

/// One rename: a subcommand alias first (the subcommand slot is absorbed),
/// else a command alias (the subcommand stays).
pub open spec fn norm_step(c: CanonMaps, bin: Seq<char>, sub: Option<Seq<char>>) -> Option<(Seq<char>, bool)> {
    if sub is Some && c.sub_alias_spec(bin, sub->0) is Some {
        Some((c.sub_alias_spec(bin, sub->0)->0, true))
    } else if c.canon_bin_spec(bin) != bin {
        Some((c.canon_bin_spec(bin), false))
    } else {
        None
    }
}

/// Bound on the rename chain. Command aliases map straight to the end of
/// their chain and a subcommand alias absorbs the subcommand, so a chain has
/// at most three renames.
pub const NORM_STEPS: usize = 8;

/// The names that the renames from `bin` lead to, one per rename.
pub open spec fn norm_names(c: CanonMaps, bin: Seq<char>, sub: Option<Seq<char>>, fuel: nat) -> Seq<Seq<char>>
    decreases fuel,
{
    if fuel == 0 {
        Seq::empty()
    } else {
        match norm_step(c, bin, sub) {
            None => Seq::empty(),
            Some(st) => seq![st.0] + norm_names(c, st.0, if st.1 { None } else { sub }, (fuel - 1) as nat),
        }
    }
}

/// The rename chain of a command: empty when nothing renames it, else the
/// name as written followed by each name it is renamed to.
pub open spec fn norm_chain(c: CanonMaps, bin: Seq<char>, sub: Option<Seq<char>>) -> Seq<Seq<char>> {
    let ns = norm_names(c, bin, sub, NORM_STEPS as nat);
    if ns.len() == 0 { Seq::empty() } else { seq![bin] + ns }
}

/// Name and subcommand after following the renames.
pub open spec fn norm_spec(c: CanonMaps, bin: Seq<char>, sub: Option<Seq<char>>, fuel: nat) -> (Seq<char>, Option<Seq<char>>)
    decreases fuel,
{
    if fuel == 0 {
        (bin, sub)
    } else {
        match norm_step(c, bin, sub) {
            None => (bin, sub),
            Some(st) => norm_spec(c, st.0, if st.1 { None } else { sub }, (fuel - 1) as nat),
        }
    }
}

/// Index of the first `=` at or after `i` (the length when there is none).
pub open spec fn first_eq_from(a: Seq<char>, i: int) -> int
    decreases a.len() - i,
{
    if i >= a.len() {
        a.len() as int
    } else if a[i] == '=' {
        i
    } else {
        first_eq_from(a, i + 1)
    }
}

/// The flag name of an argument (text before `=`, cut to two characters for
/// a short flag with an attached value such as `-oX`) and whether it was cut.
pub open spec fn flag_probe(a: Seq<char>) -> (Seq<char>, bool) {
    let base = a.take(first_eq_from(a, 0));
    if base.len() > 2 && base[0] == '-' && base[1] != '-' {
        (base.take(2), true)
    } else {
        (base, false)
    }
}

/// Canonical flag candidates of the arguments; the separate value of a
/// value-taking flag is skipped.
pub open spec fn flag_bases_spec(c: CanonMaps, bin: Seq<char>, args: Seq<Seq<char>>) -> Seq<Seq<char>>
    decreases args.len(),
{
    if args.len() == 0 {
        Seq::empty()
    } else {
        let a = args[0];
        let p = flag_probe(a);
        let cf = c.canon_flag_spec(bin, p.0);
        let skip = first_eq_from(a, 0) >= a.len() && !p.1 && c.takes_value_spec(bin, cf);
        if skip && args.len() >= 2 {
            seq![cf] + flag_bases_spec(c, bin, args.skip(2))
        } else {
            seq![cf] + flag_bases_spec(c, bin, args.drop_first())
        }
    }
}

/// The decision for one simple command.
pub open spec fn classify_spec(
    rules: MergedRules,
    prec: Seq<Decision>,
    c: CanonMaps,
    cmd: SimpleCommand,
    project: Seq<char>,
    home: Option<Seq<char>>,
) -> Decision {
    if cmd.words@.len() == 0 {
        Decision::Confirm
    } else {
        let n = norm_spec(c, cmd.words@[0]@, first_arg(cmd), NORM_STEPS as nat);
        lookup_spec(rules, prec, n.0, n.1, flag_bases_spec(c, n.0, flag_words(cmd)), args_escape(cmd_args(cmd), project, home))
    }
}

/// A table entry as plain values: layer, entry, token.
pub open spec fn source_view(s: Option<EntrySource>) -> Option<(Seq<char>, Seq<char>, Seq<char>)> {
    match s {
        Some(e) => Some((e.layer@, e.entry@, e.token@)),
        None => None,
    }
}

/// The layer a provenance map records for `t` (`unknown` when none).
pub open spec fn prov_layer(prov: Provenance, t: Seq<char>) -> Seq<char> {
    match prov.first_value(t) {
        Some(l) => l@,
        None => "unknown"@,
    }
}

/// The layer a provenance map records for `t`, read as a map.
pub proof fn lemma_prov_layer(p: Provenance, t: Seq<char>)
    requires
        p.wf(),
    ensures
        prov_layer(p, t) == (if prov_map(p).dom().contains(t) { prov_map(p)[t]@ } else { "unknown"@ }),
{
    p.lemma_first_value_lookup(t);
}

/// The label of the layer that defined a default (`default` when unknown).
pub open spec fn default_layer_name(l: Option<&'static str>) -> Seq<char> {
    match l {
        Some(x) => x@,
        None => "default"@,
    }
}

/// A verdict with the table entry it came from: decision, reason, source.
pub type OutcomeV = (Decision, Option<Seq<char>>, Option<(Seq<char>, Seq<char>, Seq<char>)>);

pub open spec fn outcome_of(v: Verdict, s: Option<EntrySource>) -> OutcomeV {
    (v.decision, crate::model::reason_of(v), source_view(s))
}

/// The first of `flags` listed in the `flag` dimension.
pub open spec fn first_flag_in(d: Dims, flags: Seq<Seq<char>>) -> Option<Seq<char>>
    decreases flags.len(),
{
    if flags.len() == 0 {
        None
    } else if views(d.flag@).contains(flags[0]) {
        Some(flags[0])
    } else {
        first_flag_in(d, flags.drop_first())
    }
}

/// The token of a bucket hit and its dimension: the subcommand first, then
/// the first listed flag.
pub open spec fn dims_hit_token(d: Dims, sub: Option<Seq<char>>, flags: Seq<Seq<char>>) -> Option<(Seq<char>, Seq<char>)> {
    if sub is Some && views(d.sub@).contains(sub->0) {
        Some((sub->0, "sub"@))
    } else {
        match first_flag_in(d, flags) {
            Some(f) => Some((f, "flag"@)),
            None => None,
        }
    }
}

/// Decision and reason of a section bucket hit on `hit` (a global section
/// is exempt from the escape check).
pub open spec fn bucket_outcome(d: Decision, hit: Seq<char>, escapes: bool, exempt: bool) -> (Decision, Option<Seq<char>>) {
    match d {
        Decision::Deny => (Decision::Deny, Some(hit + " blocked"@)),
        Decision::Confirm => (Decision::Confirm, Some(hit + " requires confirmation"@)),
        Decision::Allow => if !exempt && escapes {
            (Decision::Confirm, Some("path escapes repository"@))
        } else {
            (Decision::Allow, None)
        },
    }
}

/// The reason of a fallback decision of `bin`.
pub open spec fn default_reason(d: Option<Decision>, bin: Seq<char>) -> Option<Seq<char>> {
    match d {
        Some(Decision::Allow) => None,
        Some(Decision::Confirm) => Some(bin + " requires confirmation (default)"@),
        Some(Decision::Deny) => Some(bin + " blocked (default)"@),
        None => Some(bin + " requires confirmation (no default configured)"@),
    }
}

/// The outcome of a command section: the first bucket hit in precedence
/// order with its token and provenance, else the section default, the top
/// default, or confirm.
pub open spec fn section_outcome(
    prec: Seq<Decision>,
    c: MergedCommand,
    is_global: bool,
    sub: Option<Seq<char>>,
    flags: Seq<Seq<char>>,
    escapes: bool,
    top: Option<Decision>,
    top_layer: Option<&'static str>,
    bin: Seq<char>,
) -> OutcomeV {
    match first_section_hit(prec, c, sub, flags) {
        Some(d) => {
            let dims = section_dims(c, d);
            let (tok, dim) = dims_hit_token(dims, sub, flags).unwrap();
            let (dec, reason) = bucket_outcome(d, bin + " "@ + tok, escapes, is_global);
            let prov = if dim == "sub"@ { dims.sub_prov } else { dims.flag_prov };
            (dec, reason, Some((prov_layer(prov, tok), bin + "."@ + crate::model::decision_name(d) + "."@ + dim, tok)))
        },
        None => {
            let src = match c.default {
                Some(_) => Some((default_layer_name(c.default_layer), bin + ".default"@, bin)),
                None => match top {
                    Some(_) => Some((default_layer_name(top_layer), "default"@, bin)),
                    None => None,
                },
            };
            (fallback(c.default, top), default_reason(match c.default {
                Some(d) => Some(d),
                None => top,
            }, bin), src)
        },
    }
}

/// The provenance map of a head bucket.
pub open spec fn head_prov(s: MergedScope, d: Decision) -> Provenance {
    match d {
        Decision::Allow => s.prov.allow,
        Decision::Confirm => s.prov.confirm,
        Decision::Deny => s.prov.deny,
    }
}

/// The outcome of a head bare-list hit.
pub open spec fn head_outcome(s: MergedScope, d: Decision, bin: Seq<char>, escapes: bool) -> OutcomeV {
    let src = Some((prov_layer(head_prov(s, d), bin), crate::model::decision_name(d), bin));
    match d {
        Decision::Deny => (Decision::Deny, Some(bin + " blocked (deny list)"@), src),
        Decision::Confirm => (Decision::Confirm, Some(bin + " requires confirmation (confirm list)"@), src),
        Decision::Allow => if escapes {
            (Decision::Confirm, Some("path escapes repository"@), src)
        } else {
            (Decision::Allow, None, src)
        },
    }
}

/// The whole lookup outcome for a normalised command (see [`lookup_spec`]
/// for the order).
pub open spec fn lookup_outcome(
    rules: MergedRules,
    prec: Seq<Decision>,
    bin: Seq<char>,
    sub: Option<Seq<char>>,
    flags: Seq<Seq<char>>,
    escapes: bool,
) -> OutcomeV {
    if views(rules.global.allow@).contains(bin) {
        (Decision::Allow, None, Some((prov_layer(rules.global.prov.allow, bin), "allow"@, bin)))
    } else if rules.global.commands.has(bin) {
        section_outcome(prec, rules.global.commands.value(bin), true, sub, flags, escapes, rules.default, rules.default_layer, bin)
    } else if rules.local.commands.has(bin) {
        section_outcome(prec, rules.local.commands.value(bin), false, sub, flags, escapes, rules.default, rules.default_layer, bin)
    } else {
        match first_head_hit(prec, rules.global, bin) {
            Some(d) => head_outcome(rules.global, d, bin, escapes),
            None => match first_head_hit(prec, rules.local, bin) {
                Some(d) => head_outcome(rules.local, d, bin, escapes),
                None => (fallback(None, rules.default), default_reason(rules.default, bin), match rules.default {
                    Some(_) => Some((default_layer_name(rules.default_layer), "default"@, bin)),
                    None => None,
                }),
            },
        }
    }
}

/// The outcome for one simple command.
pub open spec fn classify_outcome(
    rules: MergedRules,
    prec: Seq<Decision>,
    c: CanonMaps,
    cmd: SimpleCommand,
    project: Seq<char>,
    home: Option<Seq<char>>,
) -> OutcomeV {
    if cmd.words@.len() == 0 {
        (Decision::Confirm, Some("empty command"@), None)
    } else {
        let n = norm_spec(c, cmd.words@[0]@, first_arg(cmd), NORM_STEPS as nat);
        lookup_outcome(rules, prec, n.0, n.1, flag_bases_spec(c, n.0, flag_words(cmd)), args_escape(cmd_args(cmd), project, home))
    }
}

fn any_escapes(args: &Vec<String>, project: &str, home: Option<&str>) -> (r: bool)
    ensures
        r == args_escape(args@, project@, match home { Some(h) => Some(h@), None => None }),
{
    let mut i: usize = 0;
    while i < args.len()
        invariant
            i <= args@.len(),
            forall|k: int| 0 <= k < i ==> !path_escapes_spec(#[trigger] args@[k]@, project@, match home { Some(h) => Some(h@), None => None }),
        decreases args@.len() - i,
    {
        if path_escapes(args[i].as_str(), project, home) {
            return true;
        }
        i = i + 1;
    }
    false
}

fn layer_of(prov: &Provenance, token: &str) -> (r: &'static str)
    ensures
        r@ == prov_layer(*prov, token@),
{
    match prov.position(token) {
        Some(i) => {
            proof {
                crate::strmap::lemma_first_entry_value(prov.spec_entries(), token@, i as int);
            }
            prov.entries()[i].1
        },
        None => {
            proof {
                assert forall|j: int| 0 <= j < prov.spec_entries().len() implies prov.spec_entries()[j].0@ != token@ by {
                    if prov.spec_entries()[j].0@ == token@ {
                        assert(prov.has(token@));
                    }
                }
                crate::strmap::lemma_first_entry_none(prov.spec_entries(), token@);
                reveal_strlit("unknown");
            }
            "unknown"
        },
    }
}

fn first_eq(a: &str) -> (r: usize)
    ensures
        r as int == first_eq_from(a@, 0),
        r <= a@.len(),
{
    let n = a.unicode_len();
    let mut j: usize = 0;
    while j < n
        invariant
            n == a@.len(),
            j <= n,
            first_eq_from(a@, 0) == first_eq_from(a@, j as int),
        decreases n - j,
    {
        if a.get_char(j) == '=' {
            return j;
        }
        j = j + 1;
    }
    j
}

/// Whether the subcommand or a flag hits the dimensions, with the token hit
/// and its dimension name.
fn dims_hit_exec(dims: &Dims, sub: &Option<String>, flags: &Vec<String>) -> (r: Option<(String, &'static str)>)
    ensures
        (r is Some) == dims_hit(*dims, opt_view(*sub), views(flags@)),
        match r {
            Some((t, dim)) => dims_hit_token(*dims, opt_view(*sub), views(flags@)) == Some((t@, dim@)),
            None => dims_hit_token(*dims, opt_view(*sub), views(flags@)) is None,
        },
{
    proof {
        reveal_strlit("sub");
        reveal_strlit("flag");
    }
    match sub {
        Some(s) => {
            if vec_has(&dims.sub, s.as_str()) {
                return Some((s.clone(), "sub"));
            }
        },
        None => {},
    }
    let mut f: usize = 0;
    proof {
        assert(views(flags@).skip(0) =~= views(flags@));
    }
    while f < flags.len()
        invariant
            f <= flags@.len(),
            forall|q: int| 0 <= q < f ==> !views(dims.flag@).contains(#[trigger] views(flags@)[q]),
            first_flag_in(*dims, views(flags@)) == first_flag_in(*dims, views(flags@).skip(f as int)),
            !(opt_view(*sub) is Some && views(dims.sub@).contains(opt_view(*sub)->0)),
        decreases flags@.len() - f,
    {
        proof {
            assert(views(flags@)[f as int] == flags@[f as int]@);
            assert(views(flags@).skip(f as int)[0] == flags@[f as int]@);
            assert(views(flags@).skip(f as int).drop_first() =~= views(flags@).skip(f + 1));
        }
        if vec_has(&dims.flag, flags[f].as_str()) {
            let t = flags[f].clone();
            proof {
                assert(first_flag_in(*dims, views(flags@).skip(f as int)) == Some(t@));
            }
            return Some((t, "flag"));
        }
        f = f + 1;
    }
    proof {
        assert(views(flags@).skip(flags@.len() as int).len() == 0);
    }
    None
}

/// `l` is the lookup built from merged rules `rules` and knowledge base
/// `kb`: the canonical maps agree with the knowledge base, and the rules are
/// `rules` in canonical form (default, its layer and precedence kept).
pub open spec fn built_from(l: RuleLookup, rules: MergedRules, kb: Option<KnowledgeBase>) -> bool {
    &&& l.wf()
    &&& l.precedence_view() == rules.precedence@
    &&& l.home_view() is None
    &&& l.rules_view().default == rules.default
    &&& l.rules_view().default_layer == rules.default_layer
    &&& canon_agrees(kb, l.canon_view())
    &&& canon_scope_of(l.rules_view().local, rules.local, l.canon_view())
    &&& canon_scope_of(l.rules_view().global, rules.global, l.canon_view())
    &&& forall|c: Seq<char>| #[trigger] l.rules_view().script_allow.scope_spec(c) == canon_decl_scope(rules.script_allow, l.canon_view(), c)
}

impl RuleLookup {
    /// Builds the lookup from merged rules (precedence is a permutation of
    /// the three buckets after the merge) and an optional knowledge base.
    pub fn new(rules: MergedRules, kb: Option<&KnowledgeBase>) -> (r: RuleLookup)
        requires
            merged_wf(rules),
            kb_wf(match kb { Some(k) => Some(*k), None => None }),
        ensures
            built_from(r, rules, match kb { Some(k) => Some(*k), None => None }),
            r.wf(),
            r.precedence_view() == rules.precedence@,
            r.home_view() is None,
            r.rules_view().default == rules.default,
            canon_agrees(match kb { Some(k) => Some(*k), None => None }, r.canon_view()),
            canon_scope_of(r.rules_view().local, rules.local, r.canon_view()),
            canon_scope_of(r.rules_view().global, rules.global, r.canon_view()),
            forall|c: Seq<char>| #[trigger] r.rules_view().script_allow.scope_spec(c) == canon_decl_scope(rules.script_allow, r.canon_view(), c),
            forall|b: Seq<char>| views(rules.global.allow@).contains(b) ==> views(r.rules_view().global.allow@).contains(r.canon_view().canon_bin_spec(b)),
            forall|b: Seq<char>| views(rules.local.allow@).contains(b) ==> views(r.rules_view().local.allow@).contains(r.canon_view().canon_bin_spec(b)),
            forall|b: Seq<char>| views(rules.global.deny@).contains(b) ==> views(r.rules_view().global.deny@).contains(r.canon_view().canon_bin_spec(b)),
            forall|b: Seq<char>| views(rules.local.deny@).contains(b) ==> views(r.rules_view().local.deny@).contains(r.canon_view().canon_bin_spec(b)),
    {
        let canon = match kb {
            Some(k) => k.canon_maps(),
            None => CanonMaps::empty(),
        };
        let precedence = rules.precedence.clone();
        let rules = canonicalize_rules(rules, &canon);
        RuleLookup { rules, precedence, canon, home: None }
    }

    /// Sets the home directory used to expand `~/` in the escape check.
    pub fn set_home(&mut self, home: Option<String>)
        requires
            old(self).wf(),
        ensures
            final(self).wf(),
            final(self).rules_view() == old(self).rules_view(),
            final(self).precedence_view() == old(self).precedence_view(),
            final(self).canon_view() == old(self).canon_view(),
            final(self).home_view() == opt_view(home),
    {
        self.home = home;
    }

    pub closed spec fn wf(&self) -> bool {
        &&& merged_wf(self.rules)
        &&& self.precedence@.len() == 3
        &&& self.canon.wf()
    }

    pub closed spec fn rules_view(&self) -> MergedRules {
        self.rules
    }

    pub closed spec fn precedence_view(&self) -> Seq<Decision> {
        self.precedence@
    }

    pub closed spec fn canon_view(&self) -> CanonMaps {
        self.canon
    }

    pub closed spec fn home_view(&self) -> Option<Seq<char>> {
        opt_view(self.home)
    }

    /// The verdict of one simple command.
    pub fn classify(&self, cmd: &SimpleCommand, project: &str) -> (r: Verdict)
        requires
            self.wf(),
        ensures
            r.decision == classify_spec(self.rules_view(), self.precedence_view(), self.canon_view(), *cmd, project@, self.home_view()),
            crate::model::reason_of(r) == classify_outcome(self.rules_view(), self.precedence_view(), self.canon_view(), *cmd, project@, self.home_view()).1,
    {
        self.classify_traced(cmd, project).verdict
    }

    /// The `script_allow` declarations (canonical names).
    pub fn script_allow(&self) -> (r: &ScriptAllowDecls)
        requires
            self.wf(),
        ensures
            r.wf(),
            *r == self.rules_view().script_allow,
    {
        &self.rules.script_allow
    }

    /// Verdict, normalisation chain and source entry of one simple command.
    pub fn classify_traced(&self, cmd: &SimpleCommand, project: &str) -> (r: Classification)
        requires
            self.wf(),
        ensures
            r.verdict.decision == classify_spec(self.rules_view(), self.precedence_view(), self.canon_view(), *cmd, project@, self.home_view()),
            cmd.words@.len() == 0 ==> r.kb_chain@.len() == 0 && r.source is None,
            cmd.words@.len() > 0 ==> ((r.kb_chain@.len() == 0) == (norm_step(self.canon_view(), cmd.words@[0]@, first_arg(*cmd)) is None)),
            outcome_of(r.verdict, r.source) == classify_outcome(self.rules_view(), self.precedence_view(), self.canon_view(), *cmd, project@, self.home_view()),
            cmd.words@.len() > 0 ==> views(r.kb_chain@) == norm_chain(self.canon_view(), cmd.words@[0]@, first_arg(*cmd)),
    {
        proof {
            reveal_strlit("empty command");
        }
        let bin0 = match cmd.bin() {
            Some(b) => b,
            None => {
                return Classification {
                    verdict: Verdict::confirm("empty command"),
                    kb_chain: Vec::new(),
                    source: None,
                };
            },
        };
        let norm = self.normalize(bin0.as_str(), cmd);
        let (verdict, source) = self.lookup(&norm, cmd, project);
        Classification { verdict, kb_chain: norm.chain, source }
    }

    /// Normalisation: rename chain to the canonical form (names only).
    pub fn normalize(&self, bin0: &str, cmd: &SimpleCommand) -> (r: Normalized)
        requires
            self.wf(),
        ensures
            (r.bin@, opt_view(r.sub)) == norm_spec(self.canon_view(), bin0@, first_arg(*cmd), NORM_STEPS as nat),
            views(r.flags@) == flag_bases_spec(self.canon_view(), r.bin@, flag_words(*cmd)),
            (r.chain@.len() == 0) == (norm_step(self.canon_view(), bin0@, first_arg(*cmd)) is None),
            r.chain@.len() > 0 ==> r.chain@[0]@ == bin0@ && r.chain@.last()@ == r.bin@,
            views(r.chain@) == norm_chain(self.canon_view(), bin0@, first_arg(*cmd)),
    {
        let ghost c = self.canon_view();
        let ghost mut names: Seq<Seq<char>> = Seq::empty();
        let mut chain: Vec<String> = Vec::new();
        let mut bin = owned(bin0);
        let args = cmd.args();
        let mut sub: Option<String> = if args.len() > 0 { Some(args[0].clone()) } else { None };
        proof {
            if cmd.words@.len() >= 2 {
                assert(args@[0] == cmd.words@[1]);
            }
        }
        let mut fuel: usize = NORM_STEPS;
        while fuel > 0
            invariant
                self.wf(),
                c == self.canon_view(),
                fuel <= NORM_STEPS,
                norm_spec(c, bin0@, first_arg(*cmd), NORM_STEPS as nat) == norm_spec(c, bin@, opt_view(sub), fuel as nat),
                fuel == NORM_STEPS ==> chain@.len() == 0 && bin@ == bin0@ && opt_view(sub) == first_arg(*cmd),
                fuel < NORM_STEPS ==> chain@.len() > 0 && norm_step(c, bin0@, first_arg(*cmd)) is Some,
                chain@.len() > 0 ==> chain@[0]@ == bin0@ && chain@.last()@ == bin@,
                norm_names(c, bin0@, first_arg(*cmd), NORM_STEPS as nat) == names + norm_names(c, bin@, opt_view(sub), fuel as nat),
                views(chain@) == (if names.len() == 0 { Seq::empty() } else { seq![bin0@] + names }),
                (names.len() == 0) == (fuel == NORM_STEPS),
            ensures
                norm_spec(c, bin@, opt_view(sub), fuel as nat) == (bin@, opt_view(sub)),
                norm_names(c, bin@, opt_view(sub), fuel as nat) == Seq::<Seq<char>>::empty(),
                fuel == NORM_STEPS ==> norm_step(c, bin0@, first_arg(*cmd)) is None,
            decreases fuel,
        {
            let via_sub = match &sub {
                Some(s) => self.canon.sub_alias_target(bin.as_str(), s.as_str()),
                None => None,
            };
            let mut next: Option<(String, bool)> = None;
            match via_sub {
                Some(t) => {
                    next = Some((t, true));
                },
                None => {
                    let cb = self.canon.canon_bin(bin.as_str());
                    if !str_eq(cb.as_str(), bin.as_str()) {
                        next = Some((cb, false));
                    }
                },
            }
            proof {
                if next is Some {
                    assert(norm_step(c, bin@, opt_view(sub)) == Some(((next->0).0@, (next->0).1)));
                } else {
                    assert(norm_step(c, bin@, opt_view(sub)) is None);
                }
            }
            if next.is_none() {
                break;
            }
            let (t, absorbed) = next.unwrap();
            let ghost before = chain@;
            let ghost old_names = names;
            let ghost old_rest = norm_names(c, bin@, opt_view(sub), fuel as nat);
            if chain.len() == 0 {
                chain.push(bin.clone());
            }
            let ghost mid = chain@;
            if absorbed {
                sub = None;
            }
            bin = t;
            chain.push(bin.clone());
            proof {
                names = names.push(bin@);
                assert(old_rest == seq![bin@] + norm_names(c, bin@, opt_view(sub), (fuel - 1) as nat));
                assert(old_names + old_rest =~= names + norm_names(c, bin@, opt_view(sub), (fuel - 1) as nat));
                assert(views(chain@) =~= views(mid).push(bin@));
                if old_names.len() == 0 {
                    assert(views(mid) =~= seq![bin0@]);
                } else {
                    assert(mid == before);
                }
                assert(views(chain@) =~= seq![bin0@] + names);
            }
            fuel = fuel - 1;
        }
        let mut rest: Vec<String> = Vec::new();
        if args.len() > 1 {
            let mut i: usize = 1;
            while i < args.len()
                invariant
                    1 <= i <= args@.len(),
                    rest@ == args@.subrange(1, i as int),
                decreases args@.len() - i,
            {
                rest.push(args[i].clone());
                proof {
                    assert(rest@ =~= args@.subrange(1, i + 1));
                }
                i = i + 1;
            }
            proof {
                assert(rest@ =~= cmd.words@.skip(2));
            }
        }
        proof {
            if cmd.words@.len() < 2 {
                assert(views(rest@) =~= Seq::<Seq<char>>::empty());
            }
        }
        let flags = self.flag_bases(bin.as_str(), &rest);
        Normalized { bin, sub, flags, chain }
    }

    /// Flag candidates: values stripped (`--output=x`, `-o x`, `-oX`) and
    /// canonicalised; the separate value of a value-taking flag is skipped.
    pub fn flag_bases(&self, bin: &str, args: &Vec<String>) -> (r: Vec<String>)
        requires
            self.wf(),
        ensures
            views(r@) == flag_bases_spec(self.canon_view(), bin@, views(args@)),
    {
        let ghost c = self.canon_view();
        let ghost va = views(args@);
        let mut out: Vec<String> = Vec::new();
        let mut i: usize = 0;
        proof {
            assert(va.skip(0) =~= va);
        }
        while i < args.len()
            invariant
                self.wf(),
                c == self.canon_view(),
                va == views(args@),
                i <= args@.len(),
                views(out@) + flag_bases_spec(c, bin@, va.skip(i as int)) == flag_bases_spec(c, bin@, va),
            decreases args@.len() - i,
        {
            let a = args[i].as_str();
            let k = first_eq(a);
            let has_eq = k < a.unicode_len();
            let base = substring(a, 0, k);
            let bn = base.unicode_len();
            let sticky = bn > 2 && base.as_str().get_char(0) == '-' && base.as_str().get_char(1) != '-';
            let probe = if sticky { substring(base.as_str(), 0, 2) } else { base.clone() };
            let cf = self.canon.canon_flag(bin, probe.as_str());
            let skip = !has_eq && !sticky && self.canon.flag_takes_value(bin, cf.as_str());
            let ghost before = out@;
            let ghost s = va.skip(i as int);
            proof {
                assert(s[0] == a@);
                assert(flag_probe(a@) == (probe@, sticky));
                assert(s.drop_first() =~= va.skip(i + 1));
                if i + 2 <= args@.len() {
                    assert(s.skip(2) =~= va.skip(i + 2));
                }
            }
            out.push(cf);
            proof {
                assert(views(out@) =~= views(before).push(cf@));
            }
            if skip && i + 1 < args.len() {
                proof {
                    assert(flag_bases_spec(c, bin@, s) == seq![cf@] + flag_bases_spec(c, bin@, va.skip(i + 2)));
                    assert(views(out@) + flag_bases_spec(c, bin@, va.skip(i + 2)) =~= views(before) + (seq![cf@] + flag_bases_spec(c, bin@, va.skip(i + 2))));
                }
                i = i + 2;
            } else {
                proof {
                    assert(flag_bases_spec(c, bin@, s) == seq![cf@] + flag_bases_spec(c, bin@, va.skip(i + 1)));
                    assert(views(out@) + flag_bases_spec(c, bin@, va.skip(i + 1)) =~= views(before) + (seq![cf@] + flag_bases_spec(c, bin@, va.skip(i + 1))));
                }
                i = i + 1;
            }
        }
        proof {
            assert(va.skip(args@.len() as int) =~= Seq::<Seq<char>>::empty());
            assert(views(out@) + Seq::<Seq<char>>::empty() =~= views(out@));
        }
        out
    }

    fn bucket_verdict(&self, decision: Decision, hit: &str, escapes: bool, exempt: bool) -> (r: Verdict)
        ensures
            r.decision == (if decision == Decision::Allow && escapes && !exempt { Decision::Confirm } else { decision }),
            (r.decision, crate::model::reason_of(r)) == bucket_outcome(decision, hit@, escapes, exempt),
    {
        match decision {
            Decision::Deny => Verdict::deny(cat(hit, " blocked").as_str()),
            Decision::Confirm => Verdict::confirm(cat(hit, " requires confirmation").as_str()),
            Decision::Allow => {
                if !exempt && escapes {
                    Verdict::confirm("path escapes repository")
                } else {
                    Verdict::allow()
                }
            },
        }
    }

    /// First head-bucket hit of a scope in precedence order.
    fn head_hit(&self, scope: &MergedScope, bin: &str) -> (r: Option<Decision>)
        requires
            self.wf(),
        ensures
            r == first_head_hit(self.precedence_view(), *scope, bin@),
    {
        let mut k: usize = 0;
        proof {
            assert(self.precedence_view().subrange(0, 3) =~= self.precedence_view());
        }
        while k < 3
            invariant
                self.wf(),
                k <= 3,
                first_head_hit(self.precedence_view(), *scope, bin@) == first_head_hit(self.precedence_view().subrange(k as int, 3), *scope, bin@),
            decreases 3 - k,
        {
            let decision = self.precedence[k];
            proof {
                let p = self.precedence_view().subrange(k as int, 3);
                assert(p[0] == decision);
                assert(p.drop_first() =~= self.precedence_view().subrange(k + 1, 3));
            }
            let bucket = match decision {
                Decision::Allow => &scope.allow,
                Decision::Confirm => &scope.confirm,
                Decision::Deny => &scope.deny,
            };
            if vec_has(bucket, bin) {
                return Some(decision);
            }
            k = k + 1;
        }
        proof {
            assert(self.precedence_view().subrange(3, 3).len() == 0);
        }
        None
    }

    /// Verdict and source of a head-bucket hit.
    fn head_verdict(&self, scope: &MergedScope, decision: Decision, bin: &str, escapes: bool) -> (r: (Verdict, Option<EntrySource>))
        ensures
            r.0.decision == head_hit_decision(decision, escapes),
            outcome_of(r.0, r.1) == head_outcome(*scope, decision, bin@, escapes),
    {
        proof {
            reveal_strlit("allow");
            reveal_strlit("confirm");
            reveal_strlit("deny");
        }
        let (entry, prov) = match decision {
            Decision::Allow => ("allow", &scope.prov.allow),
            Decision::Confirm => ("confirm", &scope.prov.confirm),
            Decision::Deny => ("deny", &scope.prov.deny),
        };
        let layer = layer_of(prov, bin);
        let src = Some(EntrySource { layer, entry: owned(entry), token: owned(bin) });
        let v = match decision {
            Decision::Deny => Verdict::deny(cat(bin, " blocked (deny list)").as_str()),
            Decision::Confirm => Verdict::confirm(cat(bin, " requires confirmation (confirm list)").as_str()),
            Decision::Allow => {
                if escapes {
                    Verdict::confirm("path escapes repository")
                } else {
                    Verdict::allow()
                }
            },
        };
        (v, src)
    }

    /// Table lookup of a normalised command.
    pub fn lookup(&self, norm: &Normalized, cmd: &SimpleCommand, project: &str) -> (r: (Verdict, Option<EntrySource>))
        requires
            self.wf(),
        ensures
            r.0.decision == lookup_spec(
                self.rules_view(),
                self.precedence_view(),
                norm.bin@,
                opt_view(norm.sub),
                views(norm.flags@),
                args_escape(cmd_args(*cmd), project@, self.home_view()),
            ),
            outcome_of(r.0, r.1) == lookup_outcome(
                self.rules_view(),
                self.precedence_view(),
                norm.bin@,
                opt_view(norm.sub),
                views(norm.flags@),
                args_escape(cmd_args(*cmd), project@, self.home_view()),
            ),
    {
        proof {
            reveal_strlit("allow");
            reveal_strlit("default");
        }
        let bin = norm.bin.as_str();
        let args = cmd.args();
        let home: Option<&str> = match &self.home {
            Some(h) => Some(h.as_str()),
            None => None,
        };
        let escapes = any_escapes(&args, project, home);
        if vec_has(&self.rules.global.allow, bin) {
            let layer = layer_of(&self.rules.global.prov.allow, bin);
            return (Verdict::allow(), Some(EntrySource { layer, entry: owned("allow"), token: owned(bin) }));
        }
        match self.rules.global.commands.get(bin) {
            Some(section) => {
                return self.classify_section(norm, section, true, escapes);
            },
            None => {},
        }
        match self.rules.local.commands.get(bin) {
            Some(section) => {
                return self.classify_section(norm, section, false, escapes);
            },
            None => {},
        }
        // Head bare lists: global before local, precedence order within.
        match self.head_hit(&self.rules.global, bin) {
            Some(d) => {
                return self.head_verdict(&self.rules.global, d, bin, escapes);
            },
            None => {},
        }
        match self.head_hit(&self.rules.local, bin) {
            Some(d) => {
                return self.head_verdict(&self.rules.local, d, bin, escapes);
            },
            None => {},
        }
        let v = self.default_verdict(bin);
        let src = match self.rules.default {
            Some(_) => Some(EntrySource {
                layer: match self.rules.default_layer {
                    Some(l) => l,
                    None => "default",
                },
                entry: owned("default"),
                token: owned(bin),
            }),
            None => None,
        };
        (v, src)
    }

    /// A section decision: several dimension hits resolved by precedence.
    fn classify_section(&self, norm: &Normalized, section: &MergedCommand, is_global: bool, escapes: bool) -> (r: (Verdict, Option<EntrySource>))
        requires
            self.wf(),
        ensures
            r.0.decision == section_decision(
                self.precedence_view(),
                *section,
                is_global,
                opt_view(norm.sub),
                views(norm.flags@),
                escapes,
                self.rules_view().default,
            ),
            outcome_of(r.0, r.1) == section_outcome(
                self.precedence_view(),
                *section,
                is_global,
                opt_view(norm.sub),
                views(norm.flags@),
                escapes,
                self.rules_view().default,
                self.rules_view().default_layer,
                norm.bin@,
            ),
    {
        proof {
            reveal_strlit("allow");
            reveal_strlit("confirm");
            reveal_strlit("deny");
            reveal_strlit("sub");
            reveal_strlit("flag");
            reveal_strlit(".");
            reveal_strlit(" ");
            reveal_strlit("default");
            reveal_strlit(".default");
        }
        let bin = norm.bin.as_str();
        let mut k: usize = 0;
        proof {
            assert(self.precedence_view().subrange(0, 3) =~= self.precedence_view());
        }
        while k < 3
            invariant
                self.wf(),
                k <= 3,
                bin@ == norm.bin@,
                first_section_hit(self.precedence_view(), *section, opt_view(norm.sub), views(norm.flags@))
                    == first_section_hit(self.precedence_view().subrange(k as int, 3), *section, opt_view(norm.sub), views(norm.flags@)),
            decreases 3 - k,
        {
            let decision = self.precedence[k];
            proof {
                let p = self.precedence_view().subrange(k as int, 3);
                assert(p[0] == decision);
                assert(p.drop_first() =~= self.precedence_view().subrange(k + 1, 3));
            }
            let (dims, dim_name) = match decision {
                Decision::Allow => (&section.allow, "allow"),
                Decision::Confirm => (&section.confirm, "confirm"),
                Decision::Deny => (&section.deny, "deny"),
            };
            proof {
                assert(*dims == section_dims(*section, decision));
                assert(dim_name@ == crate::model::decision_name(decision));
            }
            match dims_hit_exec(dims, &norm.sub, &norm.flags) {
                Some((token, dim)) => {
                    let hit_text = cat3(bin, " ", token.as_str());
                    let v = self.bucket_verdict(decision, hit_text.as_str(), escapes, is_global);
                    let prov = if str_eq(dim, "sub") { &dims.sub_prov } else { &dims.flag_prov };
                    let layer = layer_of(prov, token.as_str());
                    let mut entry = cat3(bin, ".", dim_name);
                    entry.append(".");
                    entry.append(dim);
                    return (v, Some(EntrySource { layer, entry, token }));
                },
                None => {},
            }
            k = k + 1;
        }
        proof {
            assert(self.precedence_view().subrange(3, 3).len() == 0);
        }
        let d = match section.default {
            Some(d) => Some(d),
            None => self.rules.default,
        };
        let v = match d {
            Some(Decision::Allow) => Verdict::allow(),
            Some(Decision::Confirm) => Verdict::confirm(cat(bin, " requires confirmation (default)").as_str()),
            Some(Decision::Deny) => Verdict::deny(cat(bin, " blocked (default)").as_str()),
            None => Verdict::confirm(cat(bin, " requires confirmation (no default configured)").as_str()),
        };
        let src = match section.default {
            Some(_) => Some(EntrySource {
                layer: match section.default_layer {
                    Some(l) => l,
                    None => "default",
                },
                entry: cat(bin, ".default"),
                token: owned(bin),
            }),
            None => match self.rules.default {
                Some(_) => Some(EntrySource {
                    layer: match self.rules.default_layer {
                        Some(l) => l,
                        None => "default",
                    },
                    entry: owned("default"),
                    token: owned(bin),
                }),
                None => None,
            },
        };
        (v, src)
    }

    /// The verdict when nothing matched: top default, else confirm.
    pub fn default_verdict(&self, bin: &str) -> (r: Verdict)
        requires
            self.wf(),
        ensures
            r.decision == fallback(None, self.rules_view().default),
            crate::model::reason_of(r) == default_reason(self.rules_view().default, bin@),
    {
        match self.rules.default {
            Some(Decision::Allow) => Verdict::allow(),
            Some(Decision::Confirm) => Verdict::confirm(cat(bin, " requires confirmation (default)").as_str()),
            Some(Decision::Deny) => Verdict::deny(cat(bin, " blocked (default)").as_str()),
            None => Verdict::confirm(cat(bin, " requires confirmation (no default configured)").as_str()),
        }
    }
}

// ---------------------------------------------------------------------------
// Canonical forms on the configuration side
// ---------------------------------------------------------------------------

/// `acc` with `x` appended unless already present.
pub open spec fn push_unique(acc: Seq<Seq<char>>, x: Seq<char>) -> Seq<Seq<char>> {
    if acc.contains(x) { acc } else { acc.push(x) }
}

/// The strings of `s`, each once, in order of first occurrence.
pub open spec fn dedup(s: Seq<Seq<char>>) -> Seq<Seq<char>>
    decreases s.len(),
{
    if s.len() == 0 { Seq::empty() } else { push_unique(dedup(s.drop_last()), s.last()) }
}

/// The canonical command names of tokens.
pub open spec fn canon_bins(canon: CanonMaps, v: Seq<Seq<char>>) -> Seq<Seq<char>> {
    v.map_values(|t: Seq<char>| canon.canon_bin_spec(t))
}

/// The canonical flags of `bin`.
pub open spec fn canon_flags_of(canon: CanonMaps, bin: Seq<char>, v: Seq<Seq<char>>) -> Seq<Seq<char>> {
    v.map_values(|t: Seq<char>| canon.canon_flag_spec(bin, t))
}

/// `acc` with `t` appended unless already present.
pub fn extend_unique(acc: Vec<String>, t: String) -> (r: Vec<String>)
    ensures
        r@ == (if views(acc@).contains(t@) { acc@ } else { acc@.push(t) }),
        views(r@) == (if views(acc@).contains(t@) { views(acc@) } else { views(acc@).push(t@) }),
        views(r@) == push_unique(views(acc@), t@),
{
    let mut acc = acc;
    if !vec_has(&acc, t.as_str()) {
        let ghost before = acc@;
        acc.push(t);
        proof {
            assert(views(acc@) =~= views(before).push(t@));
        }
    }
    acc
}

/// Canonical names of the tokens, duplicates dropped (first kept).
pub fn canon_unique(tokens: &Vec<String>, canon: &CanonMaps) -> (r: Vec<String>)
    requires
        canon.wf(),
    ensures
        views(r@) == dedup(canon_bins(*canon, views(tokens@))),
        forall|i: int, j: int| 0 <= i < j < r@.len() ==> (#[trigger] r@[i])@ != (#[trigger] r@[j])@,
        forall|i: int| 0 <= i < tokens@.len() ==> views(r@).contains(canon.canon_bin_spec(#[trigger] tokens@[i]@)),
{
    let mut out: Vec<String> = Vec::new();
    let mut i: usize = 0;
    let ghost m = canon_bins(*canon, views(tokens@));
    proof {
        assert(m.take(0) =~= Seq::<Seq<char>>::empty());
    }
    while i < tokens.len()
        invariant
            canon.wf(),
            m == canon_bins(*canon, views(tokens@)),
            i <= tokens@.len(),
            views(out@) == dedup(m.take(i as int)),
            forall|a: int, b: int| 0 <= a < b < out@.len() ==> (#[trigger] out@[a])@ != (#[trigger] out@[b])@,
            forall|k: int| 0 <= k < i ==> views(out@).contains(canon.canon_bin_spec(#[trigger] tokens@[k]@)),
        decreases tokens@.len() - i,
    {
        let c = canon.canon_bin(tokens[i].as_str());
        let ghost before = out@;
        let ghost cv = c@;
        proof {
            assert(m.take(i + 1).drop_last() =~= m.take(i as int));
            assert(m.take(i + 1).last() == cv);
        }
        out = extend_unique(out, c);
        proof {
            if views(before).contains(cv) {
                assert(views(out@) == views(before));
            } else {
                assert forall|a: int, b: int| 0 <= a < b < out@.len() implies (#[trigger] out@[a])@ != (#[trigger] out@[b])@ by {
                    if b == out@.len() - 1 {
                        assert(out@[b]@ == cv);
                        assert(views(before)[a] == before[a]@);
                    }
                }
            }
            assert forall|k: int| 0 <= k < i + 1 implies views(out@).contains(canon.canon_bin_spec(#[trigger] tokens@[k]@)) by {
                if k < i {
                    let w = canon.canon_bin_spec(tokens@[k]@);
                    let q = choose|q: int| 0 <= q < views(before).len() && views(before)[q] == w;
                    assert(views(out@)[q] == w);
                } else {
                    if !views(before).contains(cv) {
                        assert(views(out@)[views(before).len() as int] == cv);
                    }
                }
            }
        }
        i = i + 1;
    }
    proof {
        assert(m.take(tokens@.len() as int) =~= m);
    }
    out
}

fn canon_flags(flags: &Vec<String>, bin: &str, canon: &CanonMaps) -> (r: Vec<String>)
    requires
        canon.wf(),
    ensures
        views(r@) == dedup(canon_flags_of(*canon, bin@, views(flags@))),
{
    let mut out: Vec<String> = Vec::new();
    let mut i: usize = 0;
    let ghost m = canon_flags_of(*canon, bin@, views(flags@));
    proof {
        assert(m.take(0) =~= Seq::<Seq<char>>::empty());
    }
    while i < flags.len()
        invariant
            canon.wf(),
            m == canon_flags_of(*canon, bin@, views(flags@)),
            i <= flags@.len(),
            views(out@) == dedup(m.take(i as int)),
        decreases flags@.len() - i,
    {
        let c = canon.canon_flag(bin, flags[i].as_str());
        proof {
            assert(m.take(i + 1).drop_last() =~= m.take(i as int));
            assert(m.take(i + 1).last() == c@);
        }
        out = extend_unique(out, c);
        i = i + 1;
    }
    proof {
        assert(m.take(flags@.len() as int) =~= m);
    }
    out
}

fn copy_strings(v: &Vec<String>) -> (r: Vec<String>)
    ensures
        views(r@) == views(v@),
{
    let mut out: Vec<String> = Vec::new();
    let mut i: usize = 0;
    while i < v.len()
        invariant
            i <= v@.len(),
            views(out@) == views(v@.subrange(0, i as int)),
        decreases v@.len() - i,
    {
        let ghost before = out@;
        out.push(v[i].clone());
        proof {
            assert(views(out@) =~= views(before).push(v@[i as int]@));
            assert(views(v@.subrange(0, i + 1)) =~= views(v@.subrange(0, i as int)).push(v@[i as int]@));
        }
        i = i + 1;
    }
    proof {
        assert(v@.subrange(0, v@.len() as int) =~= v@);
    }
    out
}

/// A merged command section as plain values (provenance aside).
pub struct CommandV {
    pub allow_sub: Seq<Seq<char>>,
    pub allow_flag: Seq<Seq<char>>,
    pub confirm_sub: Seq<Seq<char>>,
    pub confirm_flag: Seq<Seq<char>>,
    pub deny_sub: Seq<Seq<char>>,
    pub deny_flag: Seq<Seq<char>>,
    pub default: Option<Decision>,
    pub script_allow: Option<bool>,
}

pub open spec fn command_view(c: MergedCommand) -> CommandV {
    CommandV {
        allow_sub: views(c.allow.sub@),
        allow_flag: views(c.allow.flag@),
        confirm_sub: views(c.confirm.sub@),
        confirm_flag: views(c.confirm.flag@),
        deny_sub: views(c.deny.sub@),
        deny_flag: views(c.deny.flag@),
        default: c.default,
        script_allow: c.script_allow,
    }
}

/// A section of command `bin` with its flags in canonical form, each once.
pub open spec fn canon_command_v(canon: CanonMaps, bin: Seq<char>, c: CommandV) -> CommandV {
    CommandV {
        allow_flag: dedup(canon_flags_of(canon, bin, c.allow_flag)),
        confirm_flag: dedup(canon_flags_of(canon, bin, c.confirm_flag)),
        deny_flag: dedup(canon_flags_of(canon, bin, c.deny_flag)),
        ..c
    }
}

/// Two sections folded into one: the tokens of `b`, then those of `a`,
/// each once; `a`'s default unless it has none; `a`'s `script_allow`.
pub open spec fn fold_v(a: CommandV, b: CommandV) -> CommandV {
    CommandV {
        allow_sub: dedup(b.allow_sub + a.allow_sub),
        allow_flag: dedup(b.allow_flag + a.allow_flag),
        confirm_sub: dedup(b.confirm_sub + a.confirm_sub),
        confirm_flag: dedup(b.confirm_flag + a.confirm_flag),
        deny_sub: dedup(b.deny_sub + a.deny_sub),
        deny_flag: dedup(b.deny_flag + a.deny_flag),
        default: match a.default {
            Some(d) => Some(d),
            None => b.default,
        },
        script_allow: a.script_allow,
    }
}

/// The canonical section of name `k` built from the sections `es` whose
/// names canonicalise to `k`, in order; `None` when there is none.
pub open spec fn canon_fold(canon: CanonMaps, es: Seq<(String, MergedCommand)>, k: Seq<char>) -> Option<CommandV>
    decreases es.len(),
{
    if es.len() == 0 {
        None
    } else {
        let prev = canon_fold(canon, es.drop_last(), k);
        if canon.canon_bin_spec(es.last().0@) == k {
            let c = canon_command_v(canon, k, command_view(es.last().1));
            Some(match prev {
                Some(p) => fold_v(p, c),
                None => c,
            })
        } else {
            prev
        }
    }
}

/// `r` is the scope `s` in canonical form: lists by canonical name, each
/// once; each section under its canonical name, folded with the sections
/// that share it.
pub open spec fn canon_scope_of(r: MergedScope, s: MergedScope, canon: CanonMaps) -> bool {
    &&& views(r.allow@) == dedup(canon_bins(canon, views(s.allow@)))
    &&& views(r.confirm@) == dedup(canon_bins(canon, views(s.confirm@)))
    &&& views(r.deny@) == dedup(canon_bins(canon, views(s.deny@)))
    &&& views(r.script_allow@) == dedup(canon_bins(canon, views(s.script_allow@)))
    &&& prov_map(r.prov.allow) == canon_prov_map(canon, s.prov.allow.spec_entries())
    &&& prov_map(r.prov.confirm) == canon_prov_map(canon, s.prov.confirm.spec_entries())
    &&& prov_map(r.prov.deny) == canon_prov_map(canon, s.prov.deny.spec_entries())
    &&& prov_map(r.prov.script_allow) == canon_prov_map(canon, s.prov.script_allow.spec_entries())
    &&& forall|k: Seq<char>| #[trigger] r.commands.has(k) <==> canon_fold(canon, s.commands.spec_entries(), k) is Some
    &&& forall|k: Seq<char>| #[trigger] r.commands.has(k) ==> canon_fold(canon, s.commands.spec_entries(), k) == Some(command_view(r.commands.value(k)))
    &&& forall|k: Seq<char>| #[trigger] r.commands.has(k) ==> (canon_first(canon, s.commands.spec_entries(), k) matches Some(c0)
        && same_provs(r.commands.value(k), c0))
}

/// Two sections record the same layers: each dimension's provenance and
/// the default's layer.
pub open spec fn same_provs(x: MergedCommand, y: MergedCommand) -> bool {
    &&& x.allow.sub_prov.spec_entries() == y.allow.sub_prov.spec_entries()
    &&& x.allow.flag_prov.spec_entries() == y.allow.flag_prov.spec_entries()
    &&& x.confirm.sub_prov.spec_entries() == y.confirm.sub_prov.spec_entries()
    &&& x.confirm.flag_prov.spec_entries() == y.confirm.flag_prov.spec_entries()
    &&& x.deny.sub_prov.spec_entries() == y.deny.sub_prov.spec_entries()
    &&& x.deny.flag_prov.spec_entries() == y.deny.flag_prov.spec_entries()
    &&& x.default_layer == y.default_layer
}

/// The first section of `es` whose name canonicalises to `k`.
pub open spec fn canon_first(canon: CanonMaps, es: Seq<(String, MergedCommand)>, k: Seq<char>) -> Option<MergedCommand>
    decreases es.len(),
{
    if es.len() == 0 {
        None
    } else {
        match canon_first(canon, es.drop_last(), k) {
            Some(c) => Some(c),
            None => if canon.canon_bin_spec(es.last().0@) == k { Some(es.last().1) } else { None },
        }
    }
}

fn copy_dims(d: &Dims) -> (r: Dims)
    ensures
        views(r.sub@) == views(d.sub@),
        views(r.flag@) == views(d.flag@),
        r.sub_prov.spec_entries() == d.sub_prov.spec_entries(),
        r.flag_prov.spec_entries() == d.flag_prov.spec_entries(),
{
    Dims { sub: copy_strings(&d.sub), flag: copy_strings(&d.flag), sub_prov: d.sub_prov.copied(), flag_prov: d.flag_prov.copied() }
}

fn copy_command(c: &MergedCommand) -> (r: MergedCommand)
    ensures
        command_view(r) == command_view(*c),
        r.default_layer == c.default_layer,
        same_provs(r, *c),
{
    MergedCommand {
        allow: copy_dims(&c.allow),
        confirm: copy_dims(&c.confirm),
        deny: copy_dims(&c.deny),
        default: c.default,
        script_allow: c.script_allow,
        default_layer: c.default_layer,
    }
}

/// A section with its flag tokens in canonical form.
pub fn canonicalize_command(cmd: &MergedCommand, bin: &str, canon: &CanonMaps) -> (r: MergedCommand)
    requires
        canon.wf(),
    ensures
        r.default == cmd.default,
        r.script_allow == cmd.script_allow,
        r.default_layer == cmd.default_layer,
        views(r.allow.sub@) == views(cmd.allow.sub@),
        views(r.confirm.sub@) == views(cmd.confirm.sub@),
        views(r.deny.sub@) == views(cmd.deny.sub@),
        views(r.allow.flag@) == dedup(canon_flags_of(*canon, bin@, views(cmd.allow.flag@))),
        views(r.confirm.flag@) == dedup(canon_flags_of(*canon, bin@, views(cmd.confirm.flag@))),
        views(r.deny.flag@) == dedup(canon_flags_of(*canon, bin@, views(cmd.deny.flag@))),
        same_provs(r, *cmd),
{
    MergedCommand {
        allow: Dims { sub: copy_strings(&cmd.allow.sub), flag: canon_flags(&cmd.allow.flag, bin, canon), sub_prov: cmd.allow.sub_prov.copied(), flag_prov: cmd.allow.flag_prov.copied() },
        confirm: Dims { sub: copy_strings(&cmd.confirm.sub), flag: canon_flags(&cmd.confirm.flag, bin, canon), sub_prov: cmd.confirm.sub_prov.copied(), flag_prov: cmd.confirm.flag_prov.copied() },
        deny: Dims { sub: copy_strings(&cmd.deny.sub), flag: canon_flags(&cmd.deny.flag, bin, canon), sub_prov: cmd.deny.sub_prov.copied(), flag_prov: cmd.deny.flag_prov.copied() },
        default: cmd.default,
        script_allow: cmd.script_allow,
        default_layer: cmd.default_layer,
    }
}

fn merge_unique(first: &Vec<String>, second: &Vec<String>) -> (r: Vec<String>)
    ensures
        views(r@) == dedup(views(first@) + views(second@)),
{
    let ghost all = views(first@) + views(second@);
    let ghost n1 = first@.len();
    let mut out: Vec<String> = Vec::new();
    let mut i: usize = 0;
    proof {
        assert(all.take(0) =~= Seq::<Seq<char>>::empty());
    }
    while i < first.len()
        invariant
            all == views(first@) + views(second@),
            i <= first@.len(),
            views(out@) == dedup(all.take(i as int)),
        decreases first@.len() - i,
    {
        let t = first[i].clone();
        proof {
            assert(all.take(i + 1).drop_last() =~= all.take(i as int));
            assert(all.take(i + 1).last() == t@);
        }
        out = extend_unique(out, t);
        i = i + 1;
    }
    let mut j: usize = 0;
    while j < second.len()
        invariant
            all == views(first@) + views(second@),
            n1 == first@.len(),
            j <= second@.len(),
            views(out@) == dedup(all.take(n1 + j)),
        decreases second@.len() - j,
    {
        let t = second[j].clone();
        proof {
            assert(all.take(n1 + j + 1).drop_last() =~= all.take(n1 + j));
            assert(all.take(n1 + j + 1).last() == t@);
        }
        out = extend_unique(out, t);
        j = j + 1;
    }
    proof {
        assert(all.take(all.len() as int) =~= all);
    }
    out
}

/// Folds two sections with the same canonical name: tokens of `b` first,
/// then those of `a`, without duplicates; `a`'s default wins.
pub fn fold_command(a: MergedCommand, b: &MergedCommand) -> (r: MergedCommand)
    ensures
        r.default == (match a.default {
            Some(d) => Some(d),
            None => b.default,
        }),
        views(r.allow.sub@) == dedup(views(b.allow.sub@) + views(a.allow.sub@)),
        views(r.allow.flag@) == dedup(views(b.allow.flag@) + views(a.allow.flag@)),
        views(r.confirm.sub@) == dedup(views(b.confirm.sub@) + views(a.confirm.sub@)),
        views(r.confirm.flag@) == dedup(views(b.confirm.flag@) + views(a.confirm.flag@)),
        views(r.deny.sub@) == dedup(views(b.deny.sub@) + views(a.deny.sub@)),
        views(r.deny.flag@) == dedup(views(b.deny.flag@) + views(a.deny.flag@)),
        r.script_allow == a.script_allow,
        r.default_layer == a.default_layer,
        same_provs(r, a),
{
    let mut a = a;
    a.allow.sub = merge_unique(&b.allow.sub, &a.allow.sub);
    a.allow.flag = merge_unique(&b.allow.flag, &a.allow.flag);
    a.confirm.sub = merge_unique(&b.confirm.sub, &a.confirm.sub);
    a.confirm.flag = merge_unique(&b.confirm.flag, &a.confirm.flag);
    a.deny.sub = merge_unique(&b.deny.sub, &a.deny.sub);
    a.deny.flag = merge_unique(&b.deny.flag, &a.deny.flag);
    if a.default.is_none() {
        a.default = b.default;
    }
    a
}

/// The layers of provenance entries under their canonical names; of
/// entries that share a canonical name, the later one's layer stands.
pub open spec fn canon_prov_map(canon: CanonMaps, es: Seq<(String, &'static str)>) -> Map<Seq<char>, &'static str>
    decreases es.len(),
{
    if es.len() == 0 {
        Map::empty()
    } else {
        canon_prov_map(canon, es.drop_last()).insert(canon.canon_bin_spec(es.last().0@), es.last().1)
    }
}

fn canon_prov(prov: &Provenance, canon: &CanonMaps) -> (r: Provenance)
    requires
        canon.wf(),
    ensures
        r.wf(),
        prov_map(r) == canon_prov_map(*canon, prov.spec_entries()),
{
    let mut out: Provenance = StrMap::new();
    let e = prov.entries();
    let mut i: usize = 0;
    proof {
        assert(prov_map(out) =~= Map::<Seq<char>, &'static str>::empty());
        assert(e@.take(0) =~= Seq::<(String, &'static str)>::empty());
    }
    while i < e.len()
        invariant
            canon.wf(),
            out.wf(),
            i <= e@.len(),
            prov_map(out) == canon_prov_map(*canon, e@.take(i as int)),
        decreases e@.len() - i,
    {
        let ghost prev = prov_map(out);
        proof {
            assert(e@.take(i + 1).drop_last() =~= e@.take(i as int));
            assert(e@.take(i + 1).last() == e@[i as int]);
        }
        let c = canon.canon_bin(e[i].0.as_str());
        let ghost cv = c@;
        out.insert(c, e[i].1);
        proof {
            assert(prov_map(out) =~= prev.insert(cv, e@[i as int].1));
        }
        i = i + 1;
    }
    proof {
        assert(e@.take(e@.len() as int) =~= e@);
    }
    out
}

/// A merged scope with command names, entries and flags in canonical form.
pub fn canonicalize_scope(scope: &MergedScope, canon: &CanonMaps) -> (r: MergedScope)
    requires
        canon.wf(),
    ensures
        r.commands.wf(),
        canon_scope_of(r, *scope, *canon),
        forall|i: int| 0 <= i < scope.allow@.len() ==> views(r.allow@).contains(canon.canon_bin_spec(#[trigger] scope.allow@[i]@)),
        forall|i: int| 0 <= i < scope.confirm@.len() ==> views(r.confirm@).contains(canon.canon_bin_spec(#[trigger] scope.confirm@[i]@)),
        forall|i: int| 0 <= i < scope.deny@.len() ==> views(r.deny@).contains(canon.canon_bin_spec(#[trigger] scope.deny@[i]@)),
{
    let mut commands: StrMap<MergedCommand> = StrMap::new();
    let e = scope.commands.entries();
    let mut i: usize = 0;
    proof {
        assert(e@.take(0) =~= Seq::<(String, MergedCommand)>::empty());
    }
    while i < e.len()
        invariant
            canon.wf(),
            commands.wf(),
            e@ == scope.commands.spec_entries(),
            i <= e@.len(),
            forall|k: Seq<char>| #[trigger] commands.has(k) <==> canon_fold(*canon, e@.take(i as int), k) is Some,
            forall|k: Seq<char>| #[trigger] commands.has(k) ==> canon_fold(*canon, e@.take(i as int), k) == Some(command_view(commands.value(k))),
            forall|k: Seq<char>| #[trigger] commands.has(k) <==> canon_first(*canon, e@.take(i as int), k) is Some,
            forall|k: Seq<char>| #[trigger] commands.has(k) ==> (canon_first(*canon, e@.take(i as int), k) matches Some(c0)
                && same_provs(commands.value(k), c0)),
        decreases e@.len() - i,
    {
        let ghost es1 = e@.take(i + 1);
        let ghost es0 = e@.take(i as int);
        proof {
            assert(es1.drop_last() =~= es0);
            assert(es1.last() == e@[i as int]);
        }
        let key = canon.canon_bin(e[i].0.as_str());
        let c = canonicalize_command(&e[i].1, key.as_str(), canon);
        let merged = match commands.get(key.as_str()) {
            Some(existing) => fold_command(copy_command(existing), &c),
            None => c,
        };
        let ghost kv = key@;
        let ghost before = commands;
        proof {
            assert(command_view(c) == canon_command_v(*canon, kv, command_view(e@[i as int].1)));
            assert(canon_fold(*canon, es1, kv) == Some(command_view(merged)));
        }
        commands.insert(key, merged);
        proof {
            assert forall|k: Seq<char>| #[trigger] commands.has(k) <==> canon_fold(*canon, es1, k) is Some by {
                if k != kv {
                    assert(commands.has(k) == before.has(k));
                }
            }
            assert forall|k: Seq<char>| #[trigger] commands.has(k) implies canon_fold(*canon, es1, k) == Some(command_view(commands.value(k))) by {
                if k != kv {
                    assert(before.has(k));
                }
            }
            assert forall|k: Seq<char>| #[trigger] commands.has(k) <==> canon_first(*canon, es1, k) is Some by {
                if k != kv {
                    assert(commands.has(k) == before.has(k));
                }
            }
            assert forall|k: Seq<char>| #[trigger] commands.has(k) implies (canon_first(*canon, es1, k) matches Some(c0)
                && same_provs(commands.value(k), c0)) by {
                if k != kv {
                    assert(before.has(k));
                }
            }
        }
        i = i + 1;
    }
    proof {
        assert(e@.take(e@.len() as int) =~= e@);
    }
    MergedScope {
        allow: canon_unique(&scope.allow, canon),
        confirm: canon_unique(&scope.confirm, canon),
        deny: canon_unique(&scope.deny, canon),
        script_allow: canon_unique(&scope.script_allow, canon),
        prov: ScopeProvenance {
            allow: canon_prov(&scope.prov.allow, canon),
            confirm: canon_prov(&scope.prov.confirm, canon),
            deny: canon_prov(&scope.prov.deny, canon),
            script_allow: canon_prov(&scope.prov.script_allow, canon),
        },
        commands,
    }
}

/// The scope of the declaration of canonical name `c` among declarations
/// rewritten by `canon`: global when some global declaration maps to it.
pub open spec fn canon_decl_scope(d: ScriptAllowDecls, canon: CanonMaps, c: Seq<char>) -> Option<crate::config::merge::DeclScope> {
    if exists|g: Seq<char>| d.global_set().has(g) && #[trigger] canon.canon_bin_spec(g) == c {
        Some(crate::config::merge::DeclScope::Global)
    } else if exists|l: Seq<char>| d.local_set().has(l) && #[trigger] canon.canon_bin_spec(l) == c {
        Some(crate::config::merge::DeclScope::Local)
    } else {
        None
    }
}

/// Merged rules in canonical form (one-sided configuration takes effect on
/// both sides of an equivalence).
pub fn canonicalize_rules(rules: MergedRules, canon: &CanonMaps) -> (r: MergedRules)
    requires
        canon.wf(),
        merged_wf(rules),
    ensures
        merged_wf(r),
        r.default == rules.default,
        r.default_layer == rules.default_layer,
        r.precedence@ == rules.precedence@,
        canon_scope_of(r.local, rules.local, *canon),
        canon_scope_of(r.global, rules.global, *canon),
        forall|c: Seq<char>| #[trigger] r.script_allow.scope_spec(c) == canon_decl_scope(rules.script_allow, *canon, c),
        forall|b: Seq<char>| views(rules.global.allow@).contains(b) ==> views(r.global.allow@).contains(canon.canon_bin_spec(b)),
        forall|b: Seq<char>| views(rules.local.allow@).contains(b) ==> views(r.local.allow@).contains(canon.canon_bin_spec(b)),
        forall|b: Seq<char>| views(rules.global.deny@).contains(b) ==> views(r.global.deny@).contains(canon.canon_bin_spec(b)),
        forall|b: Seq<char>| views(rules.local.deny@).contains(b) ==> views(r.local.deny@).contains(canon.canon_bin_spec(b)),
{
    let local = canonicalize_scope(&rules.local, canon);
    let global = canonicalize_scope(&rules.global, canon);
    proof {
        assert forall|b: Seq<char>| views(rules.global.allow@).contains(b) implies views(global.allow@).contains(canon.canon_bin_spec(b)) by {
            let i = choose|i: int| 0 <= i < views(rules.global.allow@).len() && views(rules.global.allow@)[i] == b;
            assert(rules.global.allow@[i]@ == b);
        }
        assert forall|b: Seq<char>| views(rules.local.allow@).contains(b) implies views(local.allow@).contains(canon.canon_bin_spec(b)) by {
            let i = choose|i: int| 0 <= i < views(rules.local.allow@).len() && views(rules.local.allow@)[i] == b;
            assert(rules.local.allow@[i]@ == b);
        }
        assert forall|b: Seq<char>| views(rules.global.deny@).contains(b) implies views(global.deny@).contains(canon.canon_bin_spec(b)) by {
            let i = choose|i: int| 0 <= i < views(rules.global.deny@).len() && views(rules.global.deny@)[i] == b;
            assert(rules.global.deny@[i]@ == b);
        }
        assert forall|b: Seq<char>| views(rules.local.deny@).contains(b) implies views(local.deny@).contains(canon.canon_bin_spec(b)) by {
            let i = choose|i: int| 0 <= i < views(rules.local.deny@).len() && views(rules.local.deny@)[i] == b;
            assert(rules.local.deny@[i]@ == b);
        }
    }
    MergedRules {
        default: rules.default,
        default_layer: rules.default_layer,
        precedence: rules.precedence,
        script_allow: rules.script_allow.map_names(canon),
        local,
        global,
    }
}


// ---------------------------------------------------------------------------
// Laws of the lookup
// ---------------------------------------------------------------------------

/// A `[global].allow` entry allows the whole command, whatever its arguments
/// and wherever they point.
pub proof fn law_global_allow_exempt(
    rules: MergedRules,
    prec: Seq<Decision>,
    bin: Seq<char>,
    sub: Option<Seq<char>>,
    flags: Seq<Seq<char>>,
    escapes: bool,
)
    requires
        views(rules.global.allow@).contains(bin),
    ensures
        lookup_spec(rules, prec, bin, sub, flags, escapes) == Decision::Allow,
{
}

/// The first head hit of a scope whose bare lists name `bin` in exactly one
/// bucket is that bucket.
proof fn lemma_single_bucket_hit(prec: Seq<Decision>, s: MergedScope, bin: Seq<char>, d: Decision)
    requires
        prec.contains(d),
        head_bucket(s, d).contains(bin),
        forall|e: Decision| e != d ==> !#[trigger] head_bucket(s, e).contains(bin),
    ensures
        first_head_hit(prec, s, bin) == Some(d),
    decreases prec.len(),
{
    if prec[0] != d {
        let i = choose|i: int| 0 <= i < prec.len() && prec[i] == d;
        assert(prec.drop_first()[i - 1] == d);
        assert(!head_bucket(s, prec[0]).contains(bin));
        lemma_single_bucket_hit(prec.drop_first(), s, bin, d);
    }
}

/// The `[global]` bare lists are consulted before the `[local]` ones: a bin
/// that the `[global]` confirm (or deny) list alone names, and that has no
/// command section, is confirmed (or denied) whatever the `[local]` lists
/// hold, and the entry that decided is the `[global]` one.
pub proof fn law_global_bare_lists_precede_local(
    rules: MergedRules,
    prec: Seq<Decision>,
    bin: Seq<char>,
    sub: Option<Seq<char>>,
    flags: Seq<Seq<char>>,
    escapes: bool,
    d: Decision,
)
    requires
        d != Decision::Allow,
        prec.contains(d),
        head_bucket(rules.global, d).contains(bin),
        forall|e: Decision| e != d ==> !#[trigger] head_bucket(rules.global, e).contains(bin),
        !rules.global.commands.has(bin),
        !rules.local.commands.has(bin),
    ensures
        lookup_spec(rules, prec, bin, sub, flags, escapes) == d,
        lookup_outcome(rules, prec, bin, sub, flags, escapes).0 == d,
        lookup_outcome(rules, prec, bin, sub, flags, escapes).2 == Some(
            (prov_layer(head_prov(rules.global, d), bin), crate::model::decision_name(d), bin),
        ),
{
    assert(!head_bucket(rules.global, Decision::Allow).contains(bin));
    lemma_single_bucket_hit(prec, rules.global, bin, d);
}

/// A `[global]` command section (or `[global].allow` entry) decides alone:
/// two rule sets that agree on `[global]` and on the default give the same
/// decision for that command, whatever their `[local]` tables hold.
pub proof fn law_global_section_ignores_local(
    r1: MergedRules,
    r2: MergedRules,
    prec: Seq<Decision>,
    bin: Seq<char>,
    sub: Option<Seq<char>>,
    flags: Seq<Seq<char>>,
    escapes: bool,
)
    requires
        r1.global == r2.global,
        r1.default == r2.default,
        views(r1.global.allow@).contains(bin) || r1.global.commands.has(bin),
    ensures
        lookup_spec(r1, prec, bin, sub, flags, escapes) == lookup_spec(r2, prec, bin, sub, flags, escapes),
{
}

/// An allow hit of a `[local]` section is answered with confirm when an
/// argument escapes the project.
pub proof fn law_local_section_allow_checks_escape(
    rules: MergedRules,
    prec: Seq<Decision>,
    bin: Seq<char>,
    sub: Option<Seq<char>>,
    flags: Seq<Seq<char>>,
)
    requires
        !views(rules.global.allow@).contains(bin),
        !rules.global.commands.has(bin),
        rules.local.commands.has(bin),
        first_section_hit(prec, rules.local.commands.value(bin), sub, flags) == Some(Decision::Allow),
    ensures
        lookup_spec(rules, prec, bin, sub, flags, true) == Decision::Confirm,
        lookup_spec(rules, prec, bin, sub, flags, false) == Decision::Allow,
{
}

/// An allow hit of a bare list (of either scope, past the global allow
/// exemption) is answered with confirm when an argument escapes the project.
pub proof fn law_bare_allow_checks_escape(
    rules: MergedRules,
    prec: Seq<Decision>,
    bin: Seq<char>,
    sub: Option<Seq<char>>,
    flags: Seq<Seq<char>>,
)
    requires
        !views(rules.global.allow@).contains(bin),
        !rules.global.commands.has(bin),
        !rules.local.commands.has(bin),
        first_head_hit(prec, rules.global, bin) is None,
        first_head_hit(prec, rules.local, bin) == Some(Decision::Allow),
    ensures
        lookup_spec(rules, prec, bin, sub, flags, true) == Decision::Confirm,
        lookup_spec(rules, prec, bin, sub, flags, false) == Decision::Allow,
{
}

/// Fail-safe: a command that no entry names, under rules without a top-level
/// default, is answered with confirm.
pub proof fn law_unmatched_without_default_confirms(
    rules: MergedRules,
    prec: Seq<Decision>,
    bin: Seq<char>,
    sub: Option<Seq<char>>,
    flags: Seq<Seq<char>>,
    escapes: bool,
)
    requires
        rules.default is None,
        !views(rules.global.allow@).contains(bin),
        !rules.global.commands.has(bin),
        !rules.local.commands.has(bin),
        first_head_hit(prec, rules.global, bin) is None,
        first_head_hit(prec, rules.local, bin) is None,
    ensures
        lookup_spec(rules, prec, bin, sub, flags, escapes) == Decision::Confirm,
{
}

/// With the default precedence (deny, confirm, allow) a deny hit of a
/// section wins over any confirm or allow hit of the same section.
pub proof fn law_default_precedence_deny_wins(
    c: MergedCommand,
    is_global: bool,
    sub: Option<Seq<char>>,
    flags: Seq<Seq<char>>,
    escapes: bool,
    top: Option<Decision>,
)
    requires
        dims_hit(c.deny, sub, flags),
    ensures
        section_decision(crate::config::merge::default_precedence(), c, is_global, sub, flags, escapes, top) == Decision::Deny,
{
    let p = crate::config::merge::default_precedence();
    assert(p[0] == Decision::Deny);
}

/// With the default precedence a confirm hit wins over an allow hit when
/// nothing is denied.
pub proof fn law_default_precedence_confirm_over_allow(
    c: MergedCommand,
    is_global: bool,
    sub: Option<Seq<char>>,
    flags: Seq<Seq<char>>,
    escapes: bool,
    top: Option<Decision>,
)
    requires
        !dims_hit(c.deny, sub, flags),
        dims_hit(c.confirm, sub, flags),
    ensures
        section_decision(crate::config::merge::default_precedence(), c, is_global, sub, flags, escapes, top) == Decision::Confirm,
{
    let p = crate::config::merge::default_precedence();
    assert(p[0] == Decision::Deny);
    assert(p.drop_first()[0] == Decision::Confirm);
    assert(first_section_hit(p.drop_first(), c, sub, flags) == Some(Decision::Confirm));
}

/// Without a knowledge base (identity maps) nothing is renamed: the lookup
/// reads the command literally.
pub proof fn law_no_knowledge_base_is_literal(c: CanonMaps, bin: Seq<char>, sub: Option<Seq<char>>, fuel: nat)
    requires
        forall|b: Seq<char>| c.canon_bin_spec(b) == b,
        forall|b: Seq<char>, s: Seq<char>| c.sub_alias_spec(b, s) is None,
    ensures
        norm_spec(c, bin, sub, fuel) == (bin, sub),
{
    assert(norm_step(c, bin, sub) is None);
}

} // verus!
