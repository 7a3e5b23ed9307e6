//! Field-level inheritance across the three layers (global → user → project):
//! the lower layer is the parent, the higher one the child.
//!
//! - Undefined inherits, defined overrides; the effective order is
//!   project > user > global, with nothing sticky.
//! - List values: an array is the whole definition; `{ add, remove }` edits
//!   the inherited list (remove first, then add what is missing).
//! - Scalars (`default` / `precedence`) are overridden by the highest layer
//!   that writes them.
//! - Command sections merge field by field.
use vstd::prelude::*;
use crate::config::schema::{
    BucketSpec, CommandSection, ListField, ListFieldV, RulesFile, ScopeTable, rules_file_wf,
};
use crate::model::Decision;
use crate::strmap::StrMap;
use crate::text::{owned, str_eq, vec_has, views};

verus! {

/// Default bucket order when no layer defines `precedence`: deny > confirm >
/// allow (`default` is always the end of the chain).
pub open spec fn default_precedence() -> Seq<Decision> {
    seq![Decision::Deny, Decision::Confirm, Decision::Allow]
}

/// The default precedence as a vector.
pub fn default_precedence_vec() -> (r: Vec<Decision>)
    ensures
        r@ == default_precedence(),
{
    let r = vec![Decision::Deny, Decision::Confirm, Decision::Allow];
    proof {
        assert(r@ =~= default_precedence());
    }
    r
}

/// Token → label of the layer whose definition made it effective.
pub type Provenance = StrMap<&'static str>;

/// Layer labels (the order global → user → project is fixed; an explicit
/// `--config` relabels the project layer `explicit`).
#[derive(Debug, Clone, Copy)]
pub struct LayerLabels {
    pub global: &'static str,
    pub user: &'static str,
    pub project: &'static str,
}

impl LayerLabels {
    /// `global` / `user` / `project`.
    pub fn standard() -> (r: LayerLabels)
        ensures
            r.global@ == "global"@,
            r.user@ == "user"@,
            r.project@ == "project"@,
    {
        proof {
            reveal_strlit("global");
            reveal_strlit("user");
            reveal_strlit("project");
        }
        LayerLabels { global: "global", user: "user", project: "project" }
    }
}

/// The three input layers, low to high; `None` = the layer is absent.
pub struct Layers<'a> {
    pub global: Option<&'a RulesFile>,
    pub user: Option<&'a RulesFile>,
    pub project: Option<&'a RulesFile>,
}

impl<'a> Layers<'a> {
    /// The three layers of a discovery.
    pub fn from_found(found: &'a crate::config::discover::FoundLayers) -> (r: Layers<'a>)
        ensures
            layer_files(r) == seq![found.global, found.user, found.project],
    {
        let global = match &found.global {
            Some(f) => Some(f),
            None => None,
        };
        let user = match &found.user {
            Some(f) => Some(f),
            None => None,
        };
        let project = match &found.project {
            Some(f) => Some(f),
            None => None,
        };
        let r = Layers { global, user, project };
        proof {
            assert(layer_files(r) =~= seq![found.global, found.user, found.project]);
        }
        r
    }
}

/// Effective rules after the merge: list values are resolved to token lists.
#[derive(Debug, Clone, PartialEq, Eq)]
pub struct MergedRules {
    /// Top-level fallback (`None` when no layer defines it: fail-safe confirm).
    pub default: Option<Decision>,
    /// Layer that defined the effective `default`.
    pub default_layer: Option<&'static str>,
    pub precedence: Vec<Decision>,
    /// `script_allow` declarations of both scopes.
    pub script_allow: ScriptAllowDecls,
    pub local: MergedScope,
    pub global: MergedScope,
}

/// One merged scope.
#[derive(Debug, Clone, PartialEq, Eq)]
pub struct MergedScope {
    pub allow: Vec<String>,
    pub confirm: Vec<String>,
    pub deny: Vec<String>,
    pub script_allow: Vec<String>,
    pub prov: ScopeProvenance,
    pub commands: StrMap<MergedCommand>,
}

/// Provenance of the head buckets of a scope.
#[derive(Debug, Clone, PartialEq, Eq)]
pub struct ScopeProvenance {
    pub allow: Provenance,
    pub confirm: Provenance,
    pub deny: Provenance,
    pub script_allow: Provenance,
}

/// One merged command section.
#[derive(Debug, Clone, PartialEq, Eq)]
pub struct MergedCommand {
    pub allow: Dims,
    pub confirm: Dims,
    pub deny: Dims,
    /// Section fallback after the cross-layer chain.
    pub default: Option<Decision>,
    /// Section `script_allow` key (highest definition wins).
    pub script_allow: Option<bool>,
    /// Layer that defined the effective section default.
    pub default_layer: Option<&'static str>,
}

/// The two dimensions of one bucket of a merged section.
#[derive(Debug, Clone, PartialEq, Eq)]
pub struct Dims {
    pub sub: Vec<String>,
    pub flag: Vec<String>,
    pub sub_prov: Provenance,
    pub flag_prov: Provenance,
}

impl Dims {
    pub fn empty() -> (r: Dims)
        ensures
            r.sub@.len() == 0,
            r.flag@.len() == 0,
            r.sub_prov.wf(),
            r.flag_prov.wf(),
    {
        Dims { sub: Vec::new(), flag: Vec::new(), sub_prov: StrMap::new(), flag_prov: StrMap::new() }
    }
}

impl MergedScope {
    pub fn empty() -> (r: MergedScope)
        ensures
            r.allow@.len() == 0 && r.confirm@.len() == 0 && r.deny@.len() == 0,
            r.script_allow@.len() == 0,
            r.commands.spec_entries().len() == 0,
            r.commands.wf(),
            r.prov.allow.spec_entries().len() == 0 && r.prov.confirm.spec_entries().len() == 0,
            r.prov.deny.spec_entries().len() == 0 && r.prov.script_allow.spec_entries().len() == 0,
    {
        MergedScope {
            allow: Vec::new(),
            confirm: Vec::new(),
            deny: Vec::new(),
            script_allow: Vec::new(),
            prov: ScopeProvenance {
                allow: StrMap::new(),
                confirm: StrMap::new(),
                deny: StrMap::new(),
                script_allow: StrMap::new(),
            },
            commands: StrMap::new(),
        }
    }
}

// ---------------------------------------------------------------------------
// List chains
// ---------------------------------------------------------------------------

/// `acc` without the tokens of `r`.
pub open spec fn remove_all(acc: Seq<Seq<char>>, r: Seq<Seq<char>>) -> Seq<Seq<char>>
    decreases acc.len(),
{
    if acc.len() == 0 {
        acc
    } else {
        let rest = remove_all(acc.drop_last(), r);
        if r.contains(acc.last()) { rest } else { rest.push(acc.last()) }
    }
}

/// `acc` followed by the tokens of `a` that it lacks (first occurrence kept).
pub open spec fn add_missing(acc: Seq<Seq<char>>, a: Seq<Seq<char>>) -> Seq<Seq<char>>
    decreases a.len(),
{
    if a.len() == 0 {
        acc
    } else {
        let prev = add_missing(acc, a.drop_last());
        if prev.contains(a.last()) { prev } else { prev.push(a.last()) }
    }
}

/// One list definition applied over the inherited tokens.
pub open spec fn apply_field(acc: Seq<Seq<char>>, f: ListFieldV) -> Seq<Seq<char>> {
    match f {
        ListFieldV::List(v) => v,
        ListFieldV::Delta(add, remove) => {
            let base = match remove {
                Some(r) => remove_all(acc, r),
                None => acc,
            };
            match add {
                Some(a) => add_missing(base, a),
                None => base,
            }
        },
    }
}

/// The tokens of a chain of (possibly undefined) list fields, low to high.
pub open spec fn resolve_spec(fields: Seq<Option<ListFieldV>>) -> Seq<Seq<char>>
    decreases fields.len(),
{
    if fields.len() == 0 {
        Seq::empty()
    } else {
        let prev = resolve_spec(fields.drop_last());
        match fields.last() {
            Some(f) => apply_field(prev, f),
            None => prev,
        }
    }
}

/// The list-field models of a chain.
pub open spec fn chain_fields(chain: Seq<(Option<&ListField>, &'static str)>) -> Seq<Option<ListFieldV>> {
    chain.map_values(|e: (Option<&ListField>, &'static str)| match e.0 {
        Some(f) => Some(f@),
        None => None,
    })
}

fn remove_tokens(acc: &Vec<String>, r: &Vec<String>) -> (out: Vec<String>)
    ensures
        views(out@) == remove_all(views(acc@), views(r@)),
{
    let mut out: Vec<String> = Vec::new();
    let mut i: usize = 0;
    while i < acc.len()
        invariant
            i <= acc@.len(),
            views(out@) == remove_all(views(acc@.subrange(0, i as int)), views(r@)),
        decreases acc@.len() - i,
    {
        proof {
            assert(views(acc@.subrange(0, i + 1)).drop_last() =~= views(acc@.subrange(0, i as int)));
            assert(views(acc@.subrange(0, i + 1)).last() == acc@[i as int]@);
        }
        if !vec_has(r, acc[i].as_str()) {
            out.push(acc[i].clone());
            proof {
                assert(views(out@) =~= views(out@.drop_last()).push(acc@[i as int]@));
            }
        }
        i = i + 1;
    }
    proof {
        assert(acc@.subrange(0, acc@.len() as int) =~= acc@);
    }
    out
}

fn add_tokens(acc: Vec<String>, a: &Vec<String>) -> (out: Vec<String>)
    ensures
        views(out@) == add_missing(views(acc@), views(a@)),
{
    let mut out = acc;
    let ghost base = views(out@);
    let mut i: usize = 0;
    while i < a.len()
        invariant
            i <= a@.len(),
            views(out@) == add_missing(base, views(a@.subrange(0, i as int))),
        decreases a@.len() - i,
    {
        proof {
            assert(views(a@.subrange(0, i + 1)).drop_last() =~= views(a@.subrange(0, i as int)));
            assert(views(a@.subrange(0, i + 1)).last() == a@[i as int]@);
        }
        if !vec_has(&out, a[i].as_str()) {
            out.push(a[i].clone());
            proof {
                assert(views(out@) =~= views(out@.drop_last()).push(a@[i as int]@));
            }
        }
        i = i + 1;
    }
    proof {
        assert(a@.subrange(0, a@.len() as int) =~= a@);
    }
    out
}

/// A provenance map as a map from token to layer.
pub open spec fn prov_map(p: Provenance) -> Map<Seq<char>, &'static str> {
    Map::new(|k: Seq<char>| p.has(k), |k: Seq<char>| p.value(k))
}

/// The layers of the tokens after one list definition of `layer`: an array
/// records `layer` for its tokens alone; a delta forgets the removed tokens,
/// then records `layer` for the added ones.
pub open spec fn prov_apply(m: Map<Seq<char>, &'static str>, f: ListFieldV, layer: &'static str) -> Map<Seq<char>, &'static str> {
    match f {
        ListFieldV::List(v) => Map::new(|k: Seq<char>| v.contains(k), |k: Seq<char>| layer),
        ListFieldV::Delta(add, remove) => {
            let base = match remove {
                Some(r) => Map::new(|k: Seq<char>| m.dom().contains(k) && !r.contains(k), |k: Seq<char>| m[k]),
                None => m,
            };
            match add {
                Some(a) => Map::new(|k: Seq<char>| base.dom().contains(k) || a.contains(k), |k: Seq<char>| if a.contains(k) { layer } else { base[k] }),
                None => base,
            }
        },
    }
}

/// The layer each token of a chain came from, low to high: `fields` are
/// the definitions, `ls` the labels of their layers.
pub open spec fn resolve_prov(fields: Seq<Option<ListFieldV>>, ls: Seq<&'static str>) -> Map<Seq<char>, &'static str>
    decreases fields.len(),
{
    if fields.len() == 0 {
        Map::empty()
    } else {
        let prev = resolve_prov(fields.drop_last(), ls.drop_last());
        match fields.last() {
            Some(f) => prov_apply(prev, f, ls[fields.len() - 1]),
            None => prev,
        }
    }
}

/// The layer labels of a chain.
pub open spec fn chain_labels(chain: Seq<(Option<&ListField>, &'static str)>) -> Seq<&'static str> {
    chain.map_values(|e: (Option<&ListField>, &'static str)| e.1)
}

/// Records `layer` for each of `tokens`; other entries stay.
fn prov_set_all(prov: &mut Provenance, tokens: &Vec<String>, layer: &'static str)
    requires
        old(prov).wf(),
    ensures
        final(prov).wf(),
        forall|k: Seq<char>| #[trigger] final(prov).has(k) == (old(prov).has(k) || views(tokens@).contains(k)),
        forall|k: Seq<char>| views(tokens@).contains(k) ==> #[trigger] final(prov).value(k) == layer,
        forall|k: Seq<char>| !views(tokens@).contains(k) && old(prov).has(k) ==> #[trigger] final(prov).value(k) == old(prov).value(k),
{
    let ghost p0 = *prov;
    let mut i: usize = 0;
    while i < tokens.len()
        invariant
            i <= tokens@.len(),
            prov.wf(),
            forall|k: Seq<char>| #[trigger] prov.has(k) == (p0.has(k) || views(tokens@.take(i as int)).contains(k)),
            forall|k: Seq<char>| views(tokens@.take(i as int)).contains(k) ==> #[trigger] prov.value(k) == layer,
            forall|k: Seq<char>| !views(tokens@.take(i as int)).contains(k) && p0.has(k) ==> #[trigger] prov.value(k) == p0.value(k),
        decreases tokens@.len() - i,
    {
        let ghost pre = views(tokens@.take(i as int));
        let ghost t = tokens@[i as int]@;
        proof {
            assert(views(tokens@.take(i + 1)) =~= pre.push(t));
            assert forall|k: Seq<char>| #[trigger] pre.push(t).contains(k) == (pre.contains(k) || k == t) by {
                if pre.push(t).contains(k) {
                    let j = choose|j: int| 0 <= j < pre.push(t).len() && pre.push(t)[j] == k;
                    if j < pre.len() {
                        assert(pre[j] == k);
                    }
                }
                if pre.contains(k) {
                    let j = choose|j: int| 0 <= j < pre.len() && pre[j] == k;
                    assert(pre.push(t)[j] == k);
                }
                if k == t {
                    assert(pre.push(t)[pre.len() as int] == k);
                }
            }
        }
        prov.insert(tokens[i].clone(), layer);
        i = i + 1;
    }
    proof {
        assert(tokens@.take(tokens@.len() as int) =~= tokens@);
    }
}

/// The entries whose token is not one of `tokens`.
fn prov_remove_all(prov: Provenance, tokens: &Vec<String>) -> (r: Provenance)
    requires
        prov.wf(),
    ensures
        r.wf(),
        forall|k: Seq<char>| #[trigger] r.has(k) == (prov.has(k) && !views(tokens@).contains(k)),
        forall|k: Seq<char>| #[trigger] r.has(k) ==> r.value(k) == prov.value(k),
{
    let mut out: Provenance = StrMap::new();
    let entries = prov.entries();
    let mut i: usize = 0;
    while i < entries.len()
        invariant
            i <= entries@.len(),
            entries@ == prov.spec_entries(),
            prov.wf(),
            out.wf(),
            forall|k: Seq<char>| #[trigger] out.has(k) == ((exists|j: int| 0 <= j < i && #[trigger] entries@[j].0@ == k)
                && !views(tokens@).contains(k)),
            forall|k: Seq<char>| #[trigger] out.has(k) ==> out.value(k) == prov.value(k),
        decreases entries@.len() - i,
    {
        let ghost k0 = entries@[i as int].0@;
        proof {
            prov.lemma_value_at(i as int);
        }
        if !vec_has(tokens, entries[i].0.as_str()) {
            out.insert(entries[i].0.clone(), entries[i].1);
        }
        proof {
            assert forall|k: Seq<char>| #[trigger] out.has(k) == ((exists|j: int| 0 <= j < i + 1 && #[trigger] entries@[j].0@ == k)
                && !views(tokens@).contains(k)) by {
                if k == k0 {
                    assert(entries@[i as int].0@ == k);
                } else {
                    if exists|j: int| 0 <= j < i + 1 && #[trigger] entries@[j].0@ == k {
                        let j = choose|j: int| 0 <= j < i + 1 && #[trigger] entries@[j].0@ == k;
                        assert(j < i);
                    }
                }
            }
        }
        i = i + 1;
    }
    proof {
        assert forall|k: Seq<char>| #[trigger] out.has(k) == (prov.has(k) && !views(tokens@).contains(k)) by {
            if prov.has(k) {
                let j = choose|j: int| 0 <= j < prov.spec_entries().len() && #[trigger] prov.spec_entries()[j].0@ == k;
                assert(entries@[j].0@ == k);
            }
        }
    }
    out
}

/// Resolves a list chain, low to high: an array overrides what was
/// accumulated, a delta removes then adds; nothing defined gives the empty
/// list. Returns the tokens and the layer each token came from.
pub fn resolve_chain(chain: &Vec<(Option<&ListField>, &'static str)>) -> (r: (Vec<String>, Provenance))
    ensures
        views(r.0@) == resolve_spec(chain_fields(chain@)),
        r.1.wf(),
        prov_map(r.1) == resolve_prov(chain_fields(chain@), chain_labels(chain@)),
{
    let mut acc: Vec<String> = Vec::new();
    let mut prov: Provenance = StrMap::new();
    let mut i: usize = 0;
    while i < chain.len()
        invariant
            i <= chain@.len(),
            views(acc@) == resolve_spec(chain_fields(chain@.subrange(0, i as int))),
            prov.wf(),
            prov_map(prov) == resolve_prov(chain_fields(chain@.subrange(0, i as int)), chain_labels(chain@.subrange(0, i as int))),
        decreases chain@.len() - i,
    {
        let ghost prev = prov_map(prov);
        proof {
            assert(chain_fields(chain@.subrange(0, i + 1)).drop_last() =~= chain_fields(chain@.subrange(0, i as int)));
            assert(chain_labels(chain@.subrange(0, i + 1)).drop_last() =~= chain_labels(chain@.subrange(0, i as int)));
        }
        let layer = chain[i].1;
        match chain[i].0 {
            Some(ListField::List(v)) => {
                acc = v.clone();
                proof {
                    assert(views(acc@) == views(v@));
                }
                prov = StrMap::new();
                prov_set_all(&mut prov, v, layer);
                proof {
                    assert(prov_map(prov) =~= prov_apply(prev, ListFieldV::List(views(v@)), layer));
                }
            },
            Some(ListField::Delta { add, remove }) => {
                let mut out = match remove {
                    Some(rm) => remove_tokens(&acc, rm),
                    None => acc.clone(),
                };
                match remove {
                    Some(rm) => {
                        prov = prov_remove_all(prov, rm);
                        proof {
                            assert(prov_map(prov) =~= Map::new(|k: Seq<char>| prev.dom().contains(k) && !views(rm@).contains(k), |k: Seq<char>| prev[k]));
                        }
                    },
                    None => {},
                }
                let ghost base = prov_map(prov);
                match add {
                    Some(a) => {
                        out = add_tokens(out, a);
                        prov_set_all(&mut prov, a, layer);
                        proof {
                            assert(prov_map(prov) =~= Map::new(|k: Seq<char>| base.dom().contains(k) || views(a@).contains(k),
                                |k: Seq<char>| if views(a@).contains(k) { layer } else { base[k] }));
                        }
                    },
                    None => {},
                }
                proof {
                    assert(prov_map(prov) == prov_apply(prev, ListFieldV::Delta(crate::config::schema::opt_views(*add), crate::config::schema::opt_views(*remove)), layer));
                }
                acc = out;
            },
            None => {},
        }
        i = i + 1;
    }
    proof {
        assert(chain@.subrange(0, chain@.len() as int) =~= chain@);
    }
    (acc, prov)
}

// ---------------------------------------------------------------------------
// Laws of the list chain
// ---------------------------------------------------------------------------

/// An array definition overrides everything below it: nothing of the lower
/// layers sticks.
pub proof fn law_array_overrides(fields: Seq<Option<ListFieldV>>, v: Seq<Seq<char>>)
    ensures
        resolve_spec(fields.push(Some(ListFieldV::List(v)))) == v,
{
    assert(fields.push(Some(ListFieldV::List(v))).drop_last() =~= fields);
}

/// An undefined layer inherits: adding it changes nothing.
pub proof fn law_undefined_inherits(fields: Seq<Option<ListFieldV>>)
    ensures
        resolve_spec(fields.push(None)) == resolve_spec(fields),
{
    assert(fields.push(None).drop_last() =~= fields);
}

proof fn lemma_add_missing_contains(acc: Seq<Seq<char>>, a: Seq<Seq<char>>, t: Seq<char>)
    ensures
        add_missing(acc, a).contains(t) <==> (acc.contains(t) || a.contains(t)),
    decreases a.len(),
{
    if a.len() > 0 {
        lemma_add_missing_contains(acc, a.drop_last(), t);
        let prev = add_missing(acc, a.drop_last());
        if a.contains(t) && !a.drop_last().contains(t) {
            let k = choose|k: int| 0 <= k < a.len() && a[k] == t;
            if k < a.len() - 1 {
                assert(a.drop_last()[k] == t);
            }
        }
        if a.drop_last().contains(t) {
            let k = choose|k: int| 0 <= k < a.drop_last().len() && a.drop_last()[k] == t;
            assert(a[k] == t);
        }
        if !prev.contains(a.last()) {
            assert(prev.push(a.last()).contains(t) <==> (prev.contains(t) || t == a.last())) by {
                if prev.push(a.last()).contains(t) {
                    let k = choose|k: int| 0 <= k < prev.len() + 1 && prev.push(a.last())[k] == t;
                    if k < prev.len() {
                        assert(prev[k] == t);
                    }
                }
                if prev.contains(t) {
                    let k = choose|k: int| 0 <= k < prev.len() && prev[k] == t;
                    assert(prev.push(a.last())[k] == t);
                }
                assert(prev.push(a.last())[prev.len() as int] == a.last());
            }
        }
        assert(a[a.len() - 1] == a.last());
    }
}

proof fn lemma_remove_all_contains(acc: Seq<Seq<char>>, r: Seq<Seq<char>>, t: Seq<char>)
    ensures
        remove_all(acc, r).contains(t) <==> (acc.contains(t) && !r.contains(t)),
    decreases acc.len(),
{
    if acc.len() > 0 {
        lemma_remove_all_contains(acc.drop_last(), r, t);
        let rest = remove_all(acc.drop_last(), r);
        if acc.contains(t) && !acc.drop_last().contains(t) {
            let k = choose|k: int| 0 <= k < acc.len() && acc[k] == t;
            if k < acc.len() - 1 {
                assert(acc.drop_last()[k] == t);
            }
        }
        if acc.drop_last().contains(t) {
            let k = choose|k: int| 0 <= k < acc.drop_last().len() && acc.drop_last()[k] == t;
            assert(acc[k] == t);
        }
        if !r.contains(acc.last()) {
            if rest.push(acc.last()).contains(t) {
                let k = choose|k: int| 0 <= k < rest.len() + 1 && rest.push(acc.last())[k] == t;
                if k < rest.len() {
                    assert(rest[k] == t);
                }
            }
            if rest.contains(t) {
                let k = choose|k: int| 0 <= k < rest.len() && rest[k] == t;
                assert(rest.push(acc.last())[k] == t);
            }
            assert(rest.push(acc.last())[rest.len() as int] == acc.last());
        }
        assert(acc[acc.len() - 1] == acc.last());
    }
}

/// A delta over the inherited list: every added token is present, every
/// removed token that is not re-added is absent, and every other inherited
/// token stays.
pub proof fn law_delta_edits(
    fields: Seq<Option<ListFieldV>>,
    add: Seq<Seq<char>>,
    remove: Seq<Seq<char>>,
    t: Seq<char>,
)
    ensures
        ({
            let after = resolve_spec(fields.push(Some(ListFieldV::Delta(Some(add), Some(remove)))));
            let before = resolve_spec(fields);
            &&& (add.contains(t) ==> after.contains(t))
            &&& (remove.contains(t) && !add.contains(t) ==> !after.contains(t))
            &&& (before.contains(t) && !remove.contains(t) ==> after.contains(t))
            &&& (after.contains(t) ==> before.contains(t) || add.contains(t))
        }),
{
    let f = fields.push(Some(ListFieldV::Delta(Some(add), Some(remove))));
    assert(f.drop_last() =~= fields);
    let before = resolve_spec(fields);
    lemma_remove_all_contains(before, remove, t);
    lemma_add_missing_contains(remove_all(before, remove), add, t);
}

// ---------------------------------------------------------------------------
// Scopes, sections, whole files
// ---------------------------------------------------------------------------

/// The highest definition of a scalar among present layers (low to high).
pub open spec fn top_default(files: Seq<Option<RulesFile>>) -> Option<Decision>
    decreases files.len(),
{
    if files.len() == 0 {
        None
    } else {
        match files.last() {
            Some(f) if f.default is Some => f.default,
            _ => top_default(files.drop_last()),
        }
    }
}

/// The highest definition of `precedence` among present layers.
pub open spec fn top_precedence(files: Seq<Option<RulesFile>>) -> Option<Seq<Decision>>
    decreases files.len(),
{
    if files.len() == 0 {
        None
    } else {
        match files.last() {
            Some(f) if f.precedence is Some => Some(f.precedence.unwrap()@),
            _ => top_precedence(files.drop_last()),
        }
    }
}

/// The layers as a sequence, low to high.
pub open spec fn layer_files(l: Layers) -> Seq<Option<RulesFile>> {
    seq![
        match l.global { Some(f) => Some(*f), None => None },
        match l.user { Some(f) => Some(*f), None => None },
        match l.project { Some(f) => Some(*f), None => None },
    ]
}

/// The labels of the present layers, low to high.
pub open spec fn present_labels(l: Layers, labels: LayerLabels) -> Seq<&'static str> {
    present_labels_of(layer_files(l), labels)
}

/// The labels of the present files of the three layers, low to high.
pub open spec fn present_labels_of(files: Seq<Option<RulesFile>>, labels: LayerLabels) -> Seq<&'static str> {
    (if files[0] is Some { seq![labels.global] } else { Seq::empty() })
        + (if files[1] is Some { seq![labels.user] } else { Seq::empty() })
        + (if files[2] is Some { seq![labels.project] } else { Seq::empty() })
}

/// The head-bucket chain of a scope across present layers.
pub open spec fn head_chain(files: Seq<Option<RulesFile>>, global_scope: bool, bucket: Decision) -> Seq<Option<ListFieldV>>
    decreases files.len(),
{
    if files.len() == 0 {
        Seq::empty()
    } else {
        let prev = head_chain(files.drop_last(), global_scope, bucket);
        match files.last() {
            Some(f) => {
                let t = if global_scope { f.global } else { f.local };
                prev.push(match head_field(t, bucket) { Some(x) => Some(x@), None => None })
            },
            None => prev,
        }
    }
}

/// Merges the three layers with the standard labels.
pub fn merge(layers: Layers<'_>) -> (r: MergedRules)
    requires
        layers.global matches Some(f) ==> rules_file_wf(*f),
        layers.user matches Some(f) ==> rules_file_wf(*f),
        layers.project matches Some(f) ==> rules_file_wf(*f),
    ensures
        r.default == top_default(layer_files(layers)),
        r.precedence@ == (match top_precedence(layer_files(layers)) {
            Some(p) => p,
            None => default_precedence(),
        }),
        merged_wf(r),
        views(r.local.allow@) == resolve_spec(head_chain(layer_files(layers), false, Decision::Allow)),
        views(r.local.confirm@) == resolve_spec(head_chain(layer_files(layers), false, Decision::Confirm)),
        views(r.local.deny@) == resolve_spec(head_chain(layer_files(layers), false, Decision::Deny)),
        views(r.global.allow@) == resolve_spec(head_chain(layer_files(layers), true, Decision::Allow)),
        views(r.global.confirm@) == resolve_spec(head_chain(layer_files(layers), true, Decision::Confirm)),
        views(r.global.deny@) == resolve_spec(head_chain(layer_files(layers), true, Decision::Deny)),
        views(r.local.script_allow@) == resolve_spec(script_allow_chain(layer_scopes(layer_files(layers), false))),
        views(r.global.script_allow@) == resolve_spec(script_allow_chain(layer_scopes(layer_files(layers), true))),
        forall|name: Seq<char>| #[trigger] r.local.commands.has(name)
            <==> named_sections(layer_scopes(layer_files(layers), false), name).len() > 0,
        forall|name: Seq<char>| #[trigger] r.local.commands.has(name)
            ==> merged_command_of(r.local.commands.value(name), named_sections(layer_scopes(layer_files(layers), false), name)),
        forall|name: Seq<char>| #[trigger] r.global.commands.has(name)
            <==> named_sections(layer_scopes(layer_files(layers), true), name).len() > 0,
        forall|name: Seq<char>| #[trigger] r.global.commands.has(name)
            ==> merged_command_of(r.global.commands.value(name), named_sections(layer_scopes(layer_files(layers), true), name)),
        forall|b: Seq<char>| #[trigger] r.script_allow.scope_spec(b) == declared_scope(r.local, r.global, b),
        exists|l: LayerLabels| #![trigger default_layer_upto(layers, l, 3)] l.global@ == "global"@ && l.user@ == "user"@ && l.project@ == "project"@
            && scope_prov(r.local, layers, l, false) && scope_prov(r.global, layers, l, true)
            && r.default_layer == default_layer_upto(layers, l, 3),
        merged_from(layer_files(layers), r),
{
    let labels = LayerLabels::standard();
    let r = merge_with_labels(layers, labels);
    proof {
        assert(r.default_layer == default_layer_upto(layers, labels, 3));
        assert(default_layer_of(layer_files(layers), labels) == default_layer_upto(layers, labels, 3));
    }
    r
}

/// The layer each token and each section default of a merged scope came
/// from.
pub open spec fn scope_prov(s: MergedScope, l: Layers, labels: LayerLabels, global_scope: bool) -> bool {
    scope_prov_of(s, layer_files(l), labels, global_scope)
}

/// [`scope_prov`] over the files of the three layers.
pub open spec fn scope_prov_of(s: MergedScope, files: Seq<Option<RulesFile>>, labels: LayerLabels, global_scope: bool) -> bool {
    &&& prov_map(s.prov.allow) == resolve_prov(head_chain(files, global_scope, Decision::Allow), present_labels_of(files, labels))
    &&& prov_map(s.prov.confirm) == resolve_prov(head_chain(files, global_scope, Decision::Confirm), present_labels_of(files, labels))
    &&& prov_map(s.prov.deny) == resolve_prov(head_chain(files, global_scope, Decision::Deny), present_labels_of(files, labels))
    &&& prov_map(s.prov.script_allow) == resolve_prov(script_allow_chain(layer_scopes(files, global_scope)), present_labels_of(files, labels))
    &&& forall|name: Seq<char>| #[trigger] s.commands.has(name) ==> command_prov(s.commands.value(name),
        named_sections(layer_scopes(files, global_scope), name),
        named_labels(layer_scopes(files, global_scope), present_labels_of(files, labels), name))
}

/// The label of the highest of the three layer files that sets `default`.
pub open spec fn default_layer_of(files: Seq<Option<RulesFile>>, labels: LayerLabels) -> Option<&'static str> {
    if files[2] matches Some(f) && f.default is Some {
        Some(labels.project)
    } else if files[1] matches Some(f) && f.default is Some {
        Some(labels.user)
    } else if files[0] matches Some(f) && f.default is Some {
        Some(labels.global)
    } else {
        None
    }
}

/// `r` is the merge of the three layer files `files` (global, user,
/// project) under the standard layer labels.
pub open spec fn merged_from(files: Seq<Option<RulesFile>>, r: MergedRules) -> bool {
    &&& r.default == top_default(files)
    &&& r.precedence@ == (match top_precedence(files) {
        Some(p) => p,
        None => default_precedence(),
    })
    &&& merged_wf(r)
    &&& views(r.local.allow@) == resolve_spec(head_chain(files, false, Decision::Allow))
    &&& views(r.local.confirm@) == resolve_spec(head_chain(files, false, Decision::Confirm))
    &&& views(r.local.deny@) == resolve_spec(head_chain(files, false, Decision::Deny))
    &&& views(r.global.allow@) == resolve_spec(head_chain(files, true, Decision::Allow))
    &&& views(r.global.confirm@) == resolve_spec(head_chain(files, true, Decision::Confirm))
    &&& views(r.global.deny@) == resolve_spec(head_chain(files, true, Decision::Deny))
    &&& views(r.local.script_allow@) == resolve_spec(script_allow_chain(layer_scopes(files, false)))
    &&& views(r.global.script_allow@) == resolve_spec(script_allow_chain(layer_scopes(files, true)))
    &&& forall|name: Seq<char>| #[trigger] r.local.commands.has(name) <==> named_sections(layer_scopes(files, false), name).len() > 0
    &&& forall|name: Seq<char>| #[trigger] r.local.commands.has(name)
        ==> merged_command_of(r.local.commands.value(name), named_sections(layer_scopes(files, false), name))
    &&& forall|name: Seq<char>| #[trigger] r.global.commands.has(name) <==> named_sections(layer_scopes(files, true), name).len() > 0
    &&& forall|name: Seq<char>| #[trigger] r.global.commands.has(name)
        ==> merged_command_of(r.global.commands.value(name), named_sections(layer_scopes(files, true), name))
    &&& forall|b: Seq<char>| #[trigger] r.script_allow.scope_spec(b) == declared_scope(r.local, r.global, b)
    &&& exists|l: LayerLabels| #![trigger default_layer_of(files, l)] l.global@ == "global"@ && l.user@ == "user"@ && l.project@ == "project"@
        && scope_prov_of(r.local, files, l, false) && scope_prov_of(r.global, files, l, true)
        && r.default_layer == default_layer_of(files, l)
}

/// The label of the highest of the first `i` layers that sets `default`.
pub open spec fn default_layer_upto(l: Layers, labels: LayerLabels, i: int) -> Option<&'static str> {
    if i >= 3 && (l.project matches Some(f) && f.default is Some) {
        Some(labels.project)
    } else if i >= 2 && (l.user matches Some(f) && f.default is Some) {
        Some(labels.user)
    } else if i >= 1 && (l.global matches Some(f) && f.default is Some) {
        Some(labels.global)
    } else {
        None
    }
}

/// Invariants of merged rules: a complete precedence and distinct keys.
pub open spec fn merged_wf(r: MergedRules) -> bool {
    &&& r.precedence@.len() == 3
    &&& crate::config::schema::is_bucket_permutation(r.precedence@)
    &&& r.local.commands.wf()
    &&& r.global.commands.wf()
    &&& r.script_allow.wf()
}

fn present_files<'a>(layers: &Layers<'a>, labels: LayerLabels) -> (r: Vec<(&'a RulesFile, &'static str)>)
    ensures
        r@.len() <= 3,
        forall|i: int| 0 <= i < r@.len() ==> (#[trigger] r@[i]).0 == layer_files(*layers).filter(|o: Option<RulesFile>| o is Some)[i].unwrap(),
        r@.len() == layer_files(*layers).filter(|o: Option<RulesFile>| o is Some).len(),
{
    let mut v: Vec<(&'a RulesFile, &'static str)> = Vec::new();
    match layers.global {
        Some(f) => v.push((f, labels.global)),
        None => {},
    }
    match layers.user {
        Some(f) => v.push((f, labels.user)),
        None => {},
    }
    match layers.project {
        Some(f) => v.push((f, labels.project)),
        None => {},
    }
    proof {
        let s = layer_files(*layers);
        reveal_with_fuel(Seq::filter, 4);
        assert(s.drop_last().drop_last().drop_last() =~= Seq::<Option<RulesFile>>::empty());
        assert(s.drop_last().drop_last() =~= seq![s[0]]);
        assert(s.drop_last() =~= seq![s[0], s[1]]);
    }
    v
}

/// Same as [`merge`] with relabelled layers (`explicit` for `--config`).
/// Some of the first `k` sections of `es` is `b` with `script_allow = true`.
pub open spec fn flagged_prefix(es: Seq<(String, MergedCommand)>, k: int, b: Seq<char>) -> bool {
    exists|kk: int| 0 <= kk < k && #[trigger] es[kk].0@ == b && es[kk].1.script_allow == Some(true)
}

proof fn lemma_flagged_all(m: StrMap<MergedCommand>, b: Seq<char>)
    requires
        m.wf(),
    ensures
        flagged_prefix(m.spec_entries(), m.spec_entries().len() as int, b) <==> (m.has(b) && m.value(b).script_allow == Some(true)),
{
    if flagged_prefix(m.spec_entries(), m.spec_entries().len() as int, b) {
        let kk = choose|kk: int| 0 <= kk < m.spec_entries().len() && #[trigger] m.spec_entries()[kk].0@ == b
            && m.spec_entries()[kk].1.script_allow == Some(true);
        m.lemma_value_at(kk);
    }
    if m.has(b) && m.value(b).script_allow == Some(true) {
        let kk = choose|kk: int| 0 <= kk < m.spec_entries().len() && #[trigger] m.spec_entries()[kk].0@ == b;
        m.lemma_value_at(kk);
    }
}

/// `b` is declared for scripts in a merged scope: listed in its
/// `script_allow`, or its section sets `script_allow = true`.
pub open spec fn declared_in(s: MergedScope, b: Seq<char>) -> bool {
    views(s.script_allow@).contains(b) || (s.commands.has(b) && s.commands.value(b).script_allow == Some(true))
}

/// The scope of the declaration of `b`: a global declaration wins.
pub open spec fn declared_scope(local: MergedScope, global: MergedScope, b: Seq<char>) -> Option<DeclScope> {
    if declared_in(global, b) {
        Some(DeclScope::Global)
    } else if declared_in(local, b) {
        Some(DeclScope::Local)
    } else {
        None
    }
}

pub fn merge_with_labels(layers: Layers<'_>, labels: LayerLabels) -> (r: MergedRules)
    requires
        layers.global matches Some(f) ==> rules_file_wf(*f),
        layers.user matches Some(f) ==> rules_file_wf(*f),
        layers.project matches Some(f) ==> rules_file_wf(*f),
    ensures
        r.default == top_default(layer_files(layers)),
        r.precedence@ == (match top_precedence(layer_files(layers)) {
            Some(p) => p,
            None => default_precedence(),
        }),
        merged_wf(r),
        views(r.local.allow@) == resolve_spec(head_chain(layer_files(layers), false, Decision::Allow)),
        views(r.local.confirm@) == resolve_spec(head_chain(layer_files(layers), false, Decision::Confirm)),
        views(r.local.deny@) == resolve_spec(head_chain(layer_files(layers), false, Decision::Deny)),
        views(r.global.allow@) == resolve_spec(head_chain(layer_files(layers), true, Decision::Allow)),
        views(r.global.confirm@) == resolve_spec(head_chain(layer_files(layers), true, Decision::Confirm)),
        views(r.global.deny@) == resolve_spec(head_chain(layer_files(layers), true, Decision::Deny)),
        views(r.local.script_allow@) == resolve_spec(script_allow_chain(layer_scopes(layer_files(layers), false))),
        views(r.global.script_allow@) == resolve_spec(script_allow_chain(layer_scopes(layer_files(layers), true))),
        forall|name: Seq<char>| #[trigger] r.local.commands.has(name)
            <==> named_sections(layer_scopes(layer_files(layers), false), name).len() > 0,
        forall|name: Seq<char>| #[trigger] r.local.commands.has(name)
            ==> merged_command_of(r.local.commands.value(name), named_sections(layer_scopes(layer_files(layers), false), name)),
        forall|name: Seq<char>| #[trigger] r.global.commands.has(name)
            <==> named_sections(layer_scopes(layer_files(layers), true), name).len() > 0,
        forall|name: Seq<char>| #[trigger] r.global.commands.has(name)
            ==> merged_command_of(r.global.commands.value(name), named_sections(layer_scopes(layer_files(layers), true), name)),
        forall|b: Seq<char>| #[trigger] r.script_allow.scope_spec(b) == declared_scope(r.local, r.global, b),
        scope_prov(r.local, layers, labels, false),
        scope_prov(r.global, layers, labels, true),
        r.default_layer == default_layer_upto(layers, labels, 3),
{
    let files = [layers.global, layers.user, layers.project];
    let names = [labels.global, labels.user, labels.project];
    // Scalars: the highest definition wins.
    let mut default: Option<Decision> = None;
    let mut default_layer: Option<&'static str> = None;
    let mut precedence: Option<&Vec<Decision>> = None;
    let mut i: usize = 0;
    while i < 3
        invariant
            files@ == seq![layers.global, layers.user, layers.project],
            names@ == seq![labels.global, labels.user, labels.project],
            i <= 3,
            default == top_default(layer_files(layers).subrange(0, i as int)),
            default_layer == default_layer_upto(layers, labels, i as int),
            (match precedence {
                Some(p) => top_precedence(layer_files(layers).subrange(0, i as int)) == Some(p@),
                None => top_precedence(layer_files(layers).subrange(0, i as int)) is None,
            }),
            precedence matches Some(p) ==> crate::config::schema::is_bucket_permutation(p@),
            layers.global matches Some(f) ==> rules_file_wf(*f),
            layers.user matches Some(f) ==> rules_file_wf(*f),
            layers.project matches Some(f) ==> rules_file_wf(*f),
        decreases 3 - i,
    {
        proof {
            assert(layer_files(layers).subrange(0, i + 1).drop_last() =~= layer_files(layers).subrange(0, i as int));
            assert(layer_files(layers).subrange(0, i + 1).last() == layer_files(layers)[i as int]);
        }
        match files[i] {
            Some(f) => {
                if f.default.is_some() {
                    default = f.default;
                    default_layer = Some(names[i]);
                }
                match &f.precedence {
                    Some(p) => {
                        precedence = Some(p);
                    },
                    None => {},
                }
            },
            None => {},
        }
        i = i + 1;
    }
    proof {
        assert(layer_files(layers).subrange(0, 3) =~= layer_files(layers));
    }
    let precedence = match precedence {
        Some(p) => p.clone(),
        None => default_precedence_vec(),
    };
    proof {
        if top_precedence(layer_files(layers)) is None {
            assert(crate::config::schema::is_bucket_permutation(default_precedence())) by {
                assert(default_precedence()[2] == Decision::Allow);
                assert(default_precedence()[1] == Decision::Confirm);
                assert(default_precedence()[0] == Decision::Deny);
            }
        }
    }
    let local = merge_scope(&layers, labels, false);
    let global = merge_scope(&layers, labels, true);
    // script_allow declarations: top list ∪ sections with `script_allow = true`.
    let ghost lv = views(local.script_allow@);
    let ghost gv = views(global.script_allow@);
    let mut script_allow = ScriptAllowDecls::new();
    let mut k: usize = 0;
    while k < local.script_allow.len()
        invariant
            lv == views(local.script_allow@),
            k <= lv.len(),
            script_allow.wf(),
            forall|b: Seq<char>| #[trigger] script_allow.scope_spec(b)
                == (if lv.take(k as int).contains(b) { Some(DeclScope::Local) } else { None }),
        decreases local.script_allow@.len() - k,
    {
        let ghost x = local.script_allow@[k as int]@;
        let ghost before = script_allow;
        script_allow.declare_local(local.script_allow[k].as_str());
        proof {
            assert(lv.take(k + 1) =~= lv.take(k as int).push(x));
            assert forall|b: Seq<char>| #[trigger] script_allow.scope_spec(b)
                == (if lv.take(k + 1).contains(b) { Some(DeclScope::Local) } else { None }) by {
                if b == x {
                    assert(before.scope_spec(x) != Some(DeclScope::Global));
                    assert(lv.take(k + 1)[k as int] == x);
                } else {
                    assert(lv.take(k + 1).contains(b) == lv.take(k as int).contains(b)) by {
                        if lv.take(k + 1).contains(b) {
                            let i = choose|i: int| 0 <= i < lv.take(k + 1).len() && #[trigger] lv.take(k + 1)[i] == b;
                            assert(lv.take(k as int)[i] == b);
                        }
                        if lv.take(k as int).contains(b) {
                            let i = choose|i: int| 0 <= i < lv.take(k as int).len() && #[trigger] lv.take(k as int)[i] == b;
                            assert(lv.take(k + 1)[i] == b);
                        }
                    }
                }
            }
        }
        k = k + 1;
    }
    proof {
        assert(lv.take(lv.len() as int) =~= lv);
    }
    k = 0;
    while k < global.script_allow.len()
        invariant
            lv == views(local.script_allow@),
            gv == views(global.script_allow@),
            k <= gv.len(),
            script_allow.wf(),
            forall|b: Seq<char>| #[trigger] script_allow.scope_spec(b)
                == (if gv.take(k as int).contains(b) { Some(DeclScope::Global) } else if lv.contains(b) { Some(DeclScope::Local) } else { None }),
        decreases global.script_allow@.len() - k,
    {
        let ghost x = global.script_allow@[k as int]@;
        script_allow.declare_global(global.script_allow[k].as_str());
        proof {
            assert(gv.take(k + 1) =~= gv.take(k as int).push(x));
            assert forall|b: Seq<char>| #[trigger] script_allow.scope_spec(b)
                == (if gv.take(k + 1).contains(b) { Some(DeclScope::Global) } else if lv.contains(b) { Some(DeclScope::Local) } else { None }) by {
                if b == x {
                    assert(gv.take(k + 1)[k as int] == x);
                } else {
                    assert(gv.take(k + 1).contains(b) == gv.take(k as int).contains(b)) by {
                        if gv.take(k + 1).contains(b) {
                            let i = choose|i: int| 0 <= i < gv.take(k + 1).len() && #[trigger] gv.take(k + 1)[i] == b;
                            assert(gv.take(k as int)[i] == b);
                        }
                        if gv.take(k as int).contains(b) {
                            let i = choose|i: int| 0 <= i < gv.take(k as int).len() && #[trigger] gv.take(k as int)[i] == b;
                            assert(gv.take(k + 1)[i] == b);
                        }
                    }
                }
            }
        }
        k = k + 1;
    }
    proof {
        assert(gv.take(gv.len() as int) =~= gv);
    }
    let lc = local.commands.entries();
    k = 0;
    while k < lc.len()
        invariant
            lv == views(local.script_allow@),
            gv == views(global.script_allow@),
            lc@ == local.commands.spec_entries(),
            k <= lc@.len(),
            script_allow.wf(),
            forall|b: Seq<char>| #[trigger] script_allow.scope_spec(b)
                == (if gv.contains(b) { Some(DeclScope::Global) } else if lv.contains(b) || flagged_prefix(lc@, k as int, b) {
                    Some(DeclScope::Local)
                } else {
                    None
                }),
        decreases lc@.len() - k,
    {
        let ghost x = lc@[k as int].0@;
        let ghost before = script_allow;
        if lc[k].1.script_allow == Some(true) {
            script_allow.declare_local(lc[k].0.as_str());
        }
        proof {
            assert forall|b: Seq<char>| #[trigger] script_allow.scope_spec(b)
                == (if gv.contains(b) { Some(DeclScope::Global) } else if lv.contains(b) || flagged_prefix(lc@, k + 1, b) {
                    Some(DeclScope::Local)
                } else {
                    None
                }) by {
                if flagged_prefix(lc@, k + 1, b) && !flagged_prefix(lc@, k as int, b) {
                    let kk = choose|kk: int| 0 <= kk < k + 1 && #[trigger] lc@[kk].0@ == b && lc@[kk].1.script_allow == Some(true);
                    assert(kk == k);
                }
                if flagged_prefix(lc@, k as int, b) {
                    let kk = choose|kk: int| 0 <= kk < k && #[trigger] lc@[kk].0@ == b && lc@[kk].1.script_allow == Some(true);
                    assert(lc@[kk].0@ == b);
                }
                if b == x && lc@[k as int].1.script_allow == Some(true) {
                    assert(lc@[k as int].0@ == b);
                    assert(flagged_prefix(lc@, k + 1, b));
                    if before.scope_spec(x) == Some(DeclScope::Global) {
                    } else {
                        assert(!before.global_set().has(x));
                    }
                }
            }
        }
        k = k + 1;
    }
    let gc = global.commands.entries();
    k = 0;
    while k < gc.len()
        invariant
            lv == views(local.script_allow@),
            gv == views(global.script_allow@),
            lc@ == local.commands.spec_entries(),
            gc@ == global.commands.spec_entries(),
            k <= gc@.len(),
            script_allow.wf(),
            forall|b: Seq<char>| #[trigger] script_allow.scope_spec(b)
                == (if gv.contains(b) || flagged_prefix(gc@, k as int, b) { Some(DeclScope::Global) } else if lv.contains(b)
                    || flagged_prefix(lc@, lc@.len() as int, b) {
                    Some(DeclScope::Local)
                } else {
                    None
                }),
        decreases gc@.len() - k,
    {
        let ghost x = gc@[k as int].0@;
        if gc[k].1.script_allow == Some(true) {
            script_allow.declare_global(gc[k].0.as_str());
        }
        proof {
            assert forall|b: Seq<char>| #[trigger] script_allow.scope_spec(b)
                == (if gv.contains(b) || flagged_prefix(gc@, k + 1, b) { Some(DeclScope::Global) } else if lv.contains(b)
                    || flagged_prefix(lc@, lc@.len() as int, b) {
                    Some(DeclScope::Local)
                } else {
                    None
                }) by {
                if flagged_prefix(gc@, k + 1, b) && !flagged_prefix(gc@, k as int, b) {
                    let kk = choose|kk: int| 0 <= kk < k + 1 && #[trigger] gc@[kk].0@ == b && gc@[kk].1.script_allow == Some(true);
                    assert(kk == k);
                }
                if flagged_prefix(gc@, k as int, b) {
                    let kk = choose|kk: int| 0 <= kk < k && #[trigger] gc@[kk].0@ == b && gc@[kk].1.script_allow == Some(true);
                    assert(gc@[kk].0@ == b);
                }
                if b == x && gc@[k as int].1.script_allow == Some(true) {
                    assert(gc@[k as int].0@ == b);
                    assert(flagged_prefix(gc@, k + 1, b));
                }
            }
        }
        k = k + 1;
    }
    proof {
        assert forall|b: Seq<char>| #[trigger] script_allow.scope_spec(b) == declared_scope(local, global, b) by {
            lemma_flagged_all(local.commands, b);
            lemma_flagged_all(global.commands, b);
        }
    }
    MergedRules { default, default_layer, precedence, script_allow, local, global }
}

/// The head bucket of a scope table.
pub open spec fn head_field(t: ScopeTable, bucket: Decision) -> Option<ListField> {
    match bucket {
        Decision::Allow => t.buckets.allow,
        Decision::Confirm => t.buckets.confirm,
        Decision::Deny => t.buckets.deny,
    }
}

fn head_of<'a>(t: &'a ScopeTable, bucket: Decision) -> (r: Option<&'a ListField>)
    ensures
        match r {
            Some(x) => head_field(*t, bucket) == Some(*x),
            None => head_field(*t, bucket) is None,
        },
{
    match bucket {
        Decision::Allow => t.buckets.allow.as_ref(),
        Decision::Confirm => t.buckets.confirm.as_ref(),
        Decision::Deny => t.buckets.deny.as_ref(),
    }
}

fn scope_of_file<'a>(f: &'a RulesFile, global_scope: bool) -> (r: &'a ScopeTable)
    ensures
        *r == (if global_scope { f.global } else { f.local }),
{
    if global_scope { &f.global } else { &f.local }
}

fn head_chain_exec<'a>(layers: &Layers<'a>, labels: LayerLabels, global_scope: bool, bucket: Decision)
    -> (r: Vec<(Option<&'a ListField>, &'static str)>)
    ensures
        chain_fields(r@) == head_chain(layer_files(*layers), global_scope, bucket),
        chain_labels(r@) == present_labels(*layers, labels),
{
    let mut v: Vec<(Option<&'a ListField>, &'static str)> = Vec::new();
    let ghost s = layer_files(*layers);
    proof {
        assert(s.subrange(0, 0) =~= Seq::<Option<RulesFile>>::empty());
        assert(head_chain(s.subrange(0, 0), global_scope, bucket) =~= Seq::<Option<ListFieldV>>::empty());
        assert(chain_fields(v@) =~= Seq::<Option<ListFieldV>>::empty());
    }
    match layers.global {
        Some(f) => {
            let h = head_of(scope_of_file(f, global_scope), bucket);
            v.push((h, labels.global));
            proof {
                assert(s[0] == Some(*f));
                assert(chain_fields(v@)[0] == (match h { Some(x) => Some(x@), None => None }));
            }
        },
        None => {},
    }
    proof {
        assert(s.subrange(0, 1).drop_last() =~= s.subrange(0, 0));
        assert(s.subrange(0, 1).last() == s[0]);
        assert(chain_fields(v@) =~= head_chain(s.subrange(0, 1), global_scope, bucket));
        assert(chain_labels(v@) =~= (if layers.global is Some { seq![labels.global] } else { Seq::empty() }));
    }
    match layers.user {
        Some(f) => v.push((head_of(scope_of_file(f, global_scope), bucket), labels.user)),
        None => {},
    }
    proof {
        assert(s.subrange(0, 2).drop_last() =~= s.subrange(0, 1));
        assert(s.subrange(0, 2).last() == s[1]);
        assert(chain_fields(v@) =~= head_chain(s.subrange(0, 2), global_scope, bucket));
        assert(chain_labels(v@) =~= (if layers.global is Some { seq![labels.global] } else { Seq::empty() })
            + (if layers.user is Some { seq![labels.user] } else { Seq::empty() }));
    }
    match layers.project {
        Some(f) => v.push((head_of(scope_of_file(f, global_scope), bucket), labels.project)),
        None => {},
    }
    proof {
        assert(s.subrange(0, 3).drop_last() =~= s.subrange(0, 2));
        assert(s.subrange(0, 3).last() == s[2]);
        assert(chain_fields(v@) =~= head_chain(s.subrange(0, 3), global_scope, bucket));
        assert(chain_labels(v@) =~= present_labels(*layers, labels));
        assert(s.subrange(0, 3) =~= s);
    }
    v
}

/// The scope tables (`[global]` or `[local]`) of the present layers, low
/// to high.
pub open spec fn layer_scopes(files: Seq<Option<RulesFile>>, global_scope: bool) -> Seq<ScopeTable>
    decreases files.len(),
{
    if files.len() == 0 {
        Seq::empty()
    } else {
        let prev = layer_scopes(files.drop_last(), global_scope);
        match files.last() {
            Some(f) => prev.push(if global_scope { f.global } else { f.local }),
            None => prev,
        }
    }
}

/// The `script_allow` list chain of scope tables.
pub open spec fn script_allow_chain(scopes: Seq<ScopeTable>) -> Seq<Option<ListFieldV>> {
    scopes.map_values(|t: ScopeTable| match t.script_allow {
        Some(x) => Some(x@),
        None => None,
    })
}

/// The sections named `name` of scope tables, low to high.
pub open spec fn named_sections(scopes: Seq<ScopeTable>, name: Seq<char>) -> Seq<CommandSection>
    decreases scopes.len(),
{
    if scopes.len() == 0 {
        Seq::empty()
    } else {
        let prev = named_sections(scopes.drop_last(), name);
        if scopes.last().commands.has(name) {
            prev.push(scopes.last().commands.value(name))
        } else {
            prev
        }
    }
}

proof fn lemma_named_sections_nonempty(scopes: Seq<ScopeTable>, name: Seq<char>)
    ensures
        named_sections(scopes, name).len() > 0 <==> exists|i: int| 0 <= i < scopes.len() && (#[trigger] scopes[i]).commands.has(name),
    decreases scopes.len(),
{
    if scopes.len() > 0 {
        lemma_named_sections_nonempty(scopes.drop_last(), name);
        if exists|i: int| 0 <= i < scopes.len() && (#[trigger] scopes[i]).commands.has(name) {
            let i = choose|i: int| 0 <= i < scopes.len() && (#[trigger] scopes[i]).commands.has(name);
            if i < scopes.len() - 1 {
                assert(scopes.drop_last()[i] == scopes[i]);
            }
        }
        if exists|i: int| 0 <= i < scopes.drop_last().len() && (#[trigger] scopes.drop_last()[i]).commands.has(name) {
            let i = choose|i: int| 0 <= i < scopes.drop_last().len() && (#[trigger] scopes.drop_last()[i]).commands.has(name);
            assert(scopes[i] == scopes.drop_last()[i]);
        }
    }
}

/// The labels of the layers (labels `ls`) whose scope tables have a
/// section named `name`, low to high.
pub open spec fn named_labels(scopes: Seq<ScopeTable>, ls: Seq<&'static str>, name: Seq<char>) -> Seq<&'static str>
    decreases scopes.len(),
{
    if scopes.len() == 0 {
        Seq::empty()
    } else {
        let prev = named_labels(scopes.drop_last(), ls.drop_last(), name);
        if scopes.last().commands.has(name) {
            prev.push(ls[scopes.len() - 1])
        } else {
            prev
        }
    }
}

/// The scope tables of a list of (table, layer) pairs.
pub open spec fn table_values(tables: Seq<(&ScopeTable, &'static str)>) -> Seq<ScopeTable> {
    tables.map_values(|p: (&ScopeTable, &'static str)| *p.0)
}

/// The layer labels of a list of (table, layer) pairs.
pub open spec fn table_labels(tables: Seq<(&ScopeTable, &'static str)>) -> Seq<&'static str> {
    tables.map_values(|p: (&ScopeTable, &'static str)| p.1)
}

/// Invariants of the layers: each present file is well formed.
pub open spec fn layers_wf(layers: Layers) -> bool {
    &&& (layers.global matches Some(f) ==> rules_file_wf(*f))
    &&& (layers.user matches Some(f) ==> rules_file_wf(*f))
    &&& (layers.project matches Some(f) ==> rules_file_wf(*f))
}

fn present_tables<'a>(layers: &Layers<'a>, labels: LayerLabels, global_scope: bool) -> (r: Vec<(&'a ScopeTable, &'static str)>)
    requires
        layers_wf(*layers),
    ensures
        table_values(r@) == layer_scopes(layer_files(*layers), global_scope),
        table_labels(r@) == present_labels(*layers, labels),
        forall|i: int| 0 <= i < r@.len() ==> (#[trigger] r@[i]).0.commands.wf(),
{
    let ghost s = layer_files(*layers);
    let mut tables: Vec<(&'a ScopeTable, &'static str)> = Vec::new();
    proof {
        assert(s.subrange(0, 0) =~= Seq::<Option<RulesFile>>::empty());
        assert(table_values(tables@) =~= layer_scopes(s.subrange(0, 0), global_scope));
    }
    match layers.global {
        Some(f) => tables.push((scope_of_file(f, global_scope), labels.global)),
        None => {},
    }
    proof {
        assert(s.subrange(0, 1).drop_last() =~= s.subrange(0, 0));
        assert(s.subrange(0, 1).last() == s[0]);
        assert(table_values(tables@) =~= layer_scopes(s.subrange(0, 1), global_scope));
        assert(table_labels(tables@) =~= (if layers.global is Some { seq![labels.global] } else { Seq::empty() }));
    }
    match layers.user {
        Some(f) => tables.push((scope_of_file(f, global_scope), labels.user)),
        None => {},
    }
    proof {
        assert(s.subrange(0, 2).drop_last() =~= s.subrange(0, 1));
        assert(s.subrange(0, 2).last() == s[1]);
        assert(table_values(tables@) =~= layer_scopes(s.subrange(0, 2), global_scope));
        assert(table_labels(tables@) =~= (if layers.global is Some { seq![labels.global] } else { Seq::empty() })
            + (if layers.user is Some { seq![labels.user] } else { Seq::empty() }));
    }
    match layers.project {
        Some(f) => tables.push((scope_of_file(f, global_scope), labels.project)),
        None => {},
    }
    proof {
        assert(s.subrange(0, 3).drop_last() =~= s.subrange(0, 2));
        assert(s.subrange(0, 3).last() == s[2]);
        assert(table_values(tables@) =~= layer_scopes(s.subrange(0, 3), global_scope));
        assert(table_labels(tables@) =~= present_labels(*layers, labels));
        assert(s.subrange(0, 3) =~= s);
    }
    tables
}

fn merge_scope(layers: &Layers<'_>, labels: LayerLabels, global_scope: bool) -> (r: MergedScope)
    requires
        layers_wf(*layers),
    ensures
        views(r.allow@) == resolve_spec(head_chain(layer_files(*layers), global_scope, Decision::Allow)),
        views(r.confirm@) == resolve_spec(head_chain(layer_files(*layers), global_scope, Decision::Confirm)),
        views(r.deny@) == resolve_spec(head_chain(layer_files(*layers), global_scope, Decision::Deny)),
        views(r.script_allow@) == resolve_spec(script_allow_chain(layer_scopes(layer_files(*layers), global_scope))),
        prov_map(r.prov.allow) == resolve_prov(head_chain(layer_files(*layers), global_scope, Decision::Allow), present_labels(*layers, labels)),
        prov_map(r.prov.confirm) == resolve_prov(head_chain(layer_files(*layers), global_scope, Decision::Confirm), present_labels(*layers, labels)),
        prov_map(r.prov.deny) == resolve_prov(head_chain(layer_files(*layers), global_scope, Decision::Deny), present_labels(*layers, labels)),
        prov_map(r.prov.script_allow) == resolve_prov(script_allow_chain(layer_scopes(layer_files(*layers), global_scope)), present_labels(*layers, labels)),
        r.commands.wf(),
        forall|name: Seq<char>| #[trigger] r.commands.has(name)
            <==> named_sections(layer_scopes(layer_files(*layers), global_scope), name).len() > 0,
        forall|name: Seq<char>| #[trigger] r.commands.has(name)
            ==> merged_command_of(r.commands.value(name), named_sections(layer_scopes(layer_files(*layers), global_scope), name)),
        forall|name: Seq<char>| #[trigger] r.commands.has(name)
            ==> command_prov(r.commands.value(name), named_sections(layer_scopes(layer_files(*layers), global_scope), name),
                named_labels(layer_scopes(layer_files(*layers), global_scope), present_labels(*layers, labels), name)),
{
    let ca = head_chain_exec(layers, labels, global_scope, Decision::Allow);
    let cc = head_chain_exec(layers, labels, global_scope, Decision::Confirm);
    let cd = head_chain_exec(layers, labels, global_scope, Decision::Deny);
    let (allow, allow_prov) = resolve_chain(&ca);
    let (confirm, confirm_prov) = resolve_chain(&cc);
    let (deny, deny_prov) = resolve_chain(&cd);
    let tables = present_tables(layers, labels, global_scope);
    let ghost scopes = table_values(tables@);
    // script_allow top list.
    let mut cs: Vec<(Option<&ListField>, &'static str)> = Vec::new();
    let mut u: usize = 0;
    while u < tables.len()
        invariant
            scopes == table_values(tables@),
            u <= tables@.len(),
            chain_fields(cs@) == script_allow_chain(scopes.take(u as int)),
            chain_labels(cs@) == table_labels(tables@).take(u as int),
        decreases tables@.len() - u,
    {
        let ghost c0 = cs@;
        cs.push((tables[u].0.script_allow.as_ref(), tables[u].1));
        proof {
            assert(chain_labels(cs@) =~= chain_labels(c0).push(tables@[u as int].1));
            assert(table_labels(tables@).take(u + 1) =~= table_labels(tables@).take(u as int).push(tables@[u as int].1));
            assert(chain_fields(cs@) =~= chain_fields(c0).push(match tables@[u as int].0.script_allow {
                Some(x) => Some(x@),
                None => None,
            }));
            assert(script_allow_chain(scopes.take(u + 1)) =~= script_allow_chain(scopes.take(u as int)).push(match scopes[u as int].script_allow {
                Some(x) => Some(x@),
                None => None,
            }));
        }
        u = u + 1;
    }
    proof {
        assert(scopes.take(tables@.len() as int) =~= scopes);
        assert(table_labels(tables@).take(tables@.len() as int) =~= table_labels(tables@));
    }
    let (script_allow, script_allow_prov) = resolve_chain(&cs);
    // Command sections: union of names, merged field by field.
    let mut commands: StrMap<MergedCommand> = StrMap::new();
    let mut t: usize = 0;
    while t < tables.len()
        invariant
            scopes == table_values(tables@),
            forall|i: int| 0 <= i < tables@.len() ==> (#[trigger] tables@[i]).0.commands.wf(),
            t <= tables@.len(),
            commands.wf(),
            forall|x: Seq<char>| #[trigger] commands.has(x) ==> named_sections(scopes, x).len() > 0
                && merged_command_of(commands.value(x), named_sections(scopes, x)),
            forall|x: Seq<char>| #[trigger] commands.has(x) ==> command_prov(commands.value(x), named_sections(scopes, x), named_labels(scopes, table_labels(tables@), x)),
            forall|tt: int, x: Seq<char>| 0 <= tt < t && #[trigger] scopes[tt].commands.has(x) ==> commands.has(x),
        decreases tables@.len() - t,
    {
        let names = tables[t].0.commands.entries();
        let mut j: usize = 0;
        while j < names.len()
            invariant
                scopes == table_values(tables@),
                forall|i: int| 0 <= i < tables@.len() ==> (#[trigger] tables@[i]).0.commands.wf(),
                t < tables@.len(),
                names@ == tables@[t as int].0.commands.spec_entries(),
                j <= names@.len(),
                commands.wf(),
                forall|x: Seq<char>| #[trigger] commands.has(x) ==> named_sections(scopes, x).len() > 0
                    && merged_command_of(commands.value(x), named_sections(scopes, x)),
                forall|x: Seq<char>| #[trigger] commands.has(x) ==> command_prov(commands.value(x), named_sections(scopes, x), named_labels(scopes, table_labels(tables@), x)),
                forall|tt: int, x: Seq<char>| 0 <= tt < t && #[trigger] scopes[tt].commands.has(x) ==> commands.has(x),
                forall|jj: int| 0 <= jj < j ==> commands.has(#[trigger] names@[jj].0@),
            decreases names@.len() - j,
        {
            let name = names[j].0.as_str();
            if !commands.contains_key(name) {
                let mut secs: Vec<(&CommandSection, &'static str)> = Vec::new();
                let mut u: usize = 0;
                proof {
                    assert(scopes.take(0) =~= Seq::<ScopeTable>::empty());
                    assert(sec_values(secs@) =~= Seq::<CommandSection>::empty());
                }
                while u < tables.len()
                    invariant
                        scopes == table_values(tables@),
                        forall|i: int| 0 <= i < tables@.len() ==> (#[trigger] tables@[i]).0.commands.wf(),
                        u <= tables@.len(),
                        sec_values(secs@) == named_sections(scopes.take(u as int), name@),
                        sec_labels(secs@) == named_labels(scopes.take(u as int), table_labels(tables@).take(u as int), name@),
                    decreases tables@.len() - u,
                {
                    proof {
                        assert(scopes.take(u + 1).drop_last() =~= scopes.take(u as int));
                        assert(scopes.take(u + 1).last() == *tables@[u as int].0);
                        assert(table_labels(tables@).take(u + 1).drop_last() =~= table_labels(tables@).take(u as int));
                        assert(table_labels(tables@).take(u + 1)[u as int] == tables@[u as int].1);
                    }
                    let ghost s0 = secs@;
                    match section_of(tables[u].0, name) {
                        Some(sec) => {
                            secs.push((sec, tables[u].1));
                            proof {
                                assert(sec_values(secs@) =~= sec_values(s0).push(*sec));
                                assert(sec_labels(secs@) =~= sec_labels(s0).push(tables@[u as int].1));
                            }
                        },
                        None => {},
                    }
                    u = u + 1;
                }
                proof {
                    assert(scopes.take(tables@.len() as int) =~= scopes);
                    assert(table_labels(tables@).take(tables@.len() as int) =~= table_labels(tables@));
                    assert(tables@[t as int].0.commands.spec_entries()[j as int].0@ == name@);
                    assert(scopes[t as int].commands.has(name@));
                    lemma_named_sections_nonempty(scopes, name@);
                }
                let merged = merge_command(&secs);
                let ghost before = commands;
                commands.insert(owned(name), merged);
                proof {
                    assert forall|x: Seq<char>| #[trigger] commands.has(x) implies named_sections(scopes, x).len() > 0
                        && merged_command_of(commands.value(x), named_sections(scopes, x)) by {
                        if x != name@ {
                            assert(before.has(x));
                        }
                    }
                    assert forall|x: Seq<char>| #[trigger] commands.has(x) implies command_prov(commands.value(x), named_sections(scopes, x),
                        named_labels(scopes, table_labels(tables@), x)) by {
                        if x != name@ {
                            assert(before.has(x));
                        }
                    }
                }
            }
            j = j + 1;
        }
        proof {
            assert forall|tt: int, x: Seq<char>| 0 <= tt < t + 1 && #[trigger] scopes[tt].commands.has(x) implies commands.has(x) by {
                if tt == t {
                    let jj = choose|jj: int| 0 <= jj < names@.len() && #[trigger] tables@[t as int].0.commands.spec_entries()[jj].0@ == x;
                    assert(commands.has(names@[jj].0@));
                }
            }
        }
        t = t + 1;
    }
    proof {
        assert forall|name: Seq<char>| #[trigger] commands.has(name) <==> named_sections(scopes, name).len() > 0 by {
            lemma_named_sections_nonempty(scopes, name);
            if named_sections(scopes, name).len() > 0 {
                let i = choose|i: int| 0 <= i < scopes.len() && (#[trigger] scopes[i]).commands.has(name);
            }
        }
    }
    MergedScope {
        allow,
        confirm,
        deny,
        script_allow,
        prov: ScopeProvenance {
            allow: allow_prov,
            confirm: confirm_prov,
            deny: deny_prov,
            script_allow: script_allow_prov,
        },
        commands,
    }
}

fn section_of<'a>(t: &'a ScopeTable, name: &str) -> (r: Option<&'a CommandSection>)
    requires
        t.commands.wf(),
    ensures
        match r {
            Some(sec) => t.commands.has(name@) && *sec == t.commands.value(name@),
            None => !t.commands.has(name@),
        },
{
    match t.commands.position(name) {
        Some(i) => {
            proof {
                t.commands.lemma_value_at(i as int);
            }
            Some(&t.commands.entries()[i].1)
        },
        None => None,
    }
}

/// One bucket of a section.
pub open spec fn section_bucket(s: CommandSection, bucket: Decision) -> Option<BucketSpec> {
    match bucket {
        Decision::Allow => s.allow,
        Decision::Confirm => s.confirm,
        Decision::Deny => s.deny,
    }
}

fn bucket_of<'a>(s: &'a CommandSection, bucket: Decision) -> (r: Option<&'a BucketSpec>)
    ensures
        match r {
            Some(b) => section_bucket(*s, bucket) == Some(*b),
            None => section_bucket(*s, bucket) is None,
        },
{
    match bucket {
        Decision::Allow => s.allow.as_ref(),
        Decision::Confirm => s.confirm.as_ref(),
        Decision::Deny => s.deny.as_ref(),
    }
}

/// The sections of a list of (section, layer) pairs.
pub open spec fn sec_values(secs: Seq<(&CommandSection, &'static str)>) -> Seq<CommandSection> {
    secs.map_values(|p: (&CommandSection, &'static str)| *p.0)
}

/// The chain of one dimension (`sub` or `flag`) of one bucket across
/// sections, low to high; a section without the bucket adds no link.
pub open spec fn dims_chain(secs: Seq<CommandSection>, bucket: Decision, sub: bool) -> Seq<Option<ListFieldV>>
    decreases secs.len(),
{
    if secs.len() == 0 {
        Seq::empty()
    } else {
        let prev = dims_chain(secs.drop_last(), bucket, sub);
        match section_bucket(secs.last(), bucket) {
            Some(b) => prev.push(match (if sub { b.sub } else { b.flag }) {
                Some(x) => Some(x@),
                None => None,
            }),
            None => prev,
        }
    }
}

/// The layer labels of a list of (section, layer) pairs.
pub open spec fn sec_labels(secs: Seq<(&CommandSection, &'static str)>) -> Seq<&'static str> {
    secs.map_values(|p: (&CommandSection, &'static str)| p.1)
}

/// The labels of the links of [`dims_chain`]: the layers of the sections
/// (labels `ls`) that have the bucket.
pub open spec fn dims_labels(secs: Seq<CommandSection>, ls: Seq<&'static str>, bucket: Decision) -> Seq<&'static str>
    decreases secs.len(),
{
    if secs.len() == 0 {
        Seq::empty()
    } else {
        let prev = dims_labels(secs.drop_last(), ls.drop_last(), bucket);
        match section_bucket(secs.last(), bucket) {
            Some(_) => prev.push(ls[secs.len() - 1]),
            None => prev,
        }
    }
}

/// The layer each token of one dimension of a merged bucket came from.
pub open spec fn dims_prov(secs: Seq<CommandSection>, ls: Seq<&'static str>, bucket: Decision, sub: bool) -> Map<Seq<char>, &'static str> {
    resolve_prov(dims_chain(secs, bucket, sub), dims_labels(secs, ls, bucket))
}

/// The provenance of a merged command section: each dimension of each
/// bucket, and the layer of the default.
pub open spec fn command_prov(c: MergedCommand, secs: Seq<CommandSection>, ls: Seq<&'static str>) -> bool {
    &&& prov_map(c.allow.sub_prov) == dims_prov(secs, ls, Decision::Allow, true)
    &&& prov_map(c.allow.flag_prov) == dims_prov(secs, ls, Decision::Allow, false)
    &&& prov_map(c.confirm.sub_prov) == dims_prov(secs, ls, Decision::Confirm, true)
    &&& prov_map(c.confirm.flag_prov) == dims_prov(secs, ls, Decision::Confirm, false)
    &&& prov_map(c.deny.sub_prov) == dims_prov(secs, ls, Decision::Deny, true)
    &&& prov_map(c.deny.flag_prov) == dims_prov(secs, ls, Decision::Deny, false)
    &&& c.default_layer == top_section_default_layer(secs, ls)
}

/// The label of the highest section that sets `default`.
pub open spec fn top_section_default_layer(secs: Seq<CommandSection>, ls: Seq<&'static str>) -> Option<&'static str>
    decreases secs.len(),
{
    if secs.len() == 0 {
        None
    } else if secs.last().default is Some {
        Some(ls[secs.len() - 1])
    } else {
        top_section_default_layer(secs.drop_last(), ls.drop_last())
    }
}

/// One bucket of a section merged across the layers that define it.
pub fn merge_dims(secs: &Vec<(&CommandSection, &'static str)>, bucket: Decision) -> (r: Dims)
    ensures
        views(r.sub@) == resolve_spec(dims_chain(sec_values(secs@), bucket, true)),
        views(r.flag@) == resolve_spec(dims_chain(sec_values(secs@), bucket, false)),
        r.sub_prov.wf(),
        r.flag_prov.wf(),
        prov_map(r.sub_prov) == dims_prov(sec_values(secs@), sec_labels(secs@), bucket, true),
        prov_map(r.flag_prov) == dims_prov(sec_values(secs@), sec_labels(secs@), bucket, false),
{
    let ghost sv = sec_values(secs@);
    let ghost sl = sec_labels(secs@);
    let mut sub_chain: Vec<(Option<&ListField>, &'static str)> = Vec::new();
    let mut flag_chain: Vec<(Option<&ListField>, &'static str)> = Vec::new();
    let mut i: usize = 0;
    proof {
        assert(sv.take(0) =~= Seq::<CommandSection>::empty());
        assert(chain_fields(sub_chain@) =~= Seq::<Option<ListFieldV>>::empty());
        assert(chain_fields(flag_chain@) =~= Seq::<Option<ListFieldV>>::empty());
    }
    while i < secs.len()
        invariant
            sv == sec_values(secs@),
            i <= secs@.len(),
            chain_fields(sub_chain@) == dims_chain(sv.take(i as int), bucket, true),
            chain_fields(flag_chain@) == dims_chain(sv.take(i as int), bucket, false),
            sl == sec_labels(secs@),
            chain_labels(sub_chain@) == dims_labels(sv.take(i as int), sl.take(i as int), bucket),
            chain_labels(flag_chain@) == dims_labels(sv.take(i as int), sl.take(i as int), bucket),
        decreases secs@.len() - i,
    {
        proof {
            assert(sv.take(i + 1).drop_last() =~= sv.take(i as int));
            assert(sv.take(i + 1).last() == *secs@[i as int].0);
            assert(sl.take(i + 1).drop_last() =~= sl.take(i as int));
            assert(sl.take(i + 1)[i as int] == secs@[i as int].1);
        }
        match bucket_of(secs[i].0, bucket) {
            Some(b) => {
                let ghost s0 = sub_chain@;
                let ghost f0 = flag_chain@;
                sub_chain.push((b.sub.as_ref(), secs[i].1));
                flag_chain.push((b.flag.as_ref(), secs[i].1));
                proof {
                    assert(chain_fields(sub_chain@) =~= chain_fields(s0).push(match b.sub { Some(x) => Some(x@), None => None }));
                    assert(chain_fields(flag_chain@) =~= chain_fields(f0).push(match b.flag { Some(x) => Some(x@), None => None }));
                    assert(chain_labels(sub_chain@) =~= chain_labels(s0).push(secs@[i as int].1));
                    assert(chain_labels(flag_chain@) =~= chain_labels(f0).push(secs@[i as int].1));
                }
            },
            None => {},
        }
        i = i + 1;
    }
    proof {
        assert(sv.take(secs@.len() as int) =~= sv);
        assert(sl.take(secs@.len() as int) =~= sl);
    }
    let (sub, sub_prov) = resolve_chain(&sub_chain);
    let (flag, flag_prov) = resolve_chain(&flag_chain);
    Dims { sub, flag, sub_prov, flag_prov }
}

/// The highest section default among `secs` (low to high).
pub open spec fn top_section_default(secs: Seq<CommandSection>) -> Option<Decision>
    decreases secs.len(),
{
    if secs.len() == 0 {
        None
    } else if secs.last().default is Some {
        secs.last().default
    } else {
        top_section_default(secs.drop_last())
    }
}

/// The highest section `script_allow` key among `secs` (low to high).
pub open spec fn top_section_script_allow(secs: Seq<CommandSection>) -> Option<bool>
    decreases secs.len(),
{
    if secs.len() == 0 {
        None
    } else if secs.last().script_allow is Some {
        secs.last().script_allow
    } else {
        top_section_script_allow(secs.drop_last())
    }
}

/// `c` is the merge of the sections `secs` (low to high): each dimension of
/// each bucket resolved along the chain of the sections that define the
/// bucket; the scalars from the highest section that sets them.
pub open spec fn merged_command_of(c: MergedCommand, secs: Seq<CommandSection>) -> bool {
    &&& views(c.allow.sub@) == resolve_spec(dims_chain(secs, Decision::Allow, true))
    &&& views(c.allow.flag@) == resolve_spec(dims_chain(secs, Decision::Allow, false))
    &&& views(c.confirm.sub@) == resolve_spec(dims_chain(secs, Decision::Confirm, true))
    &&& views(c.confirm.flag@) == resolve_spec(dims_chain(secs, Decision::Confirm, false))
    &&& views(c.deny.sub@) == resolve_spec(dims_chain(secs, Decision::Deny, true))
    &&& views(c.deny.flag@) == resolve_spec(dims_chain(secs, Decision::Deny, false))
    &&& c.default == top_section_default(secs)
    &&& c.script_allow == top_section_script_allow(secs)
}

/// Merges one command section across the layers that define it (low to high).
pub fn merge_command(secs: &Vec<(&CommandSection, &'static str)>) -> (r: MergedCommand)
    ensures
        merged_command_of(r, sec_values(secs@)),
        command_prov(r, sec_values(secs@), sec_labels(secs@)),
{
    let ghost sv = sec_values(secs@);
    let ghost sl = sec_labels(secs@);
    let mut default: Option<Decision> = None;
    let mut default_layer: Option<&'static str> = None;
    let mut script_allow: Option<bool> = None;
    let mut i: usize = 0;
    while i < secs.len()
        invariant
            sv == sec_values(secs@),
            i <= secs@.len(),
            default == top_section_default(sv.take(i as int)),
            script_allow == top_section_script_allow(sv.take(i as int)),
            sl == sec_labels(secs@),
            default_layer == top_section_default_layer(sv.take(i as int), sl.take(i as int)),
        decreases secs@.len() - i,
    {
        proof {
            assert(sv.take(i + 1).drop_last() =~= sv.take(i as int));
            assert(sv.take(i + 1).last() == *secs@[i as int].0);
            assert(sl.take(i + 1).drop_last() =~= sl.take(i as int));
            assert(sl.take(i + 1)[i as int] == secs@[i as int].1);
        }
        if secs[i].0.default.is_some() {
            default = secs[i].0.default;
            default_layer = Some(secs[i].1);
        }
        if secs[i].0.script_allow.is_some() {
            script_allow = secs[i].0.script_allow;
        }
        i = i + 1;
    }
    proof {
        assert(sv.take(secs@.len() as int) =~= sv);
        assert(sl.take(secs@.len() as int) =~= sl);
    }
    MergedCommand {
        allow: merge_dims(secs, Decision::Allow),
        confirm: merge_dims(secs, Decision::Confirm),
        deny: merge_dims(secs, Decision::Deny),
        default,
        script_allow,
        default_layer,
    }
}

// ---------------------------------------------------------------------------
// script_allow declarations
// ---------------------------------------------------------------------------

/// The `script_allow` declaration set: the bins that a script may activate
/// with `allow("bin")`, with the scope each was declared in.
#[derive(Debug, Clone, PartialEq, Eq)]
pub struct ScriptAllowDecls {
    local: StrMap<()>,
    global: StrMap<()>,
}

/// Scope of a declaration.
#[derive(Debug, Clone, Copy, PartialEq, Eq, Structural)]
pub enum DeclScope {
    /// Local: the activation runs the path-escape check on the arguments.
    Local,
    /// Global: exempt from the escape check; wins when both scopes declare.
    Global,
}

/// The names of `ks` that `global` does not hold, in order.
pub open spec fn only_local(ks: Seq<Seq<char>>, global: StrMap<()>) -> Seq<Seq<char>>
    decreases ks.len(),
{
    if ks.len() == 0 {
        Seq::empty()
    } else {
        let p = only_local(ks.drop_last(), global);
        if global.has(ks.last()) { p } else { p.push(ks.last()) }
    }
}

impl ScriptAllowDecls {
    pub open spec fn wf(&self) -> bool {
        self.local_set().wf() && self.global_set().wf()
    }

    pub closed spec fn local_set(&self) -> StrMap<()> {
        self.local
    }

    pub closed spec fn global_set(&self) -> StrMap<()> {
        self.global
    }

    /// The scope of `bin`: global wins over local; undeclared is `None`.
    pub open spec fn scope_spec(&self, bin: Seq<char>) -> Option<DeclScope> {
        if self.global_set().has(bin) {
            Some(DeclScope::Global)
        } else if self.local_set().has(bin) {
            Some(DeclScope::Local)
        } else {
            None
        }
    }

    pub fn new() -> (r: ScriptAllowDecls)
        ensures
            r.wf(),
            forall|b: Seq<char>| r.scope_spec(b) is None,
    {
        ScriptAllowDecls { local: StrMap::new(), global: StrMap::new() }
    }

    /// Records a local declaration.
    pub fn declare_local(&mut self, bin: &str)
        requires
            old(self).wf(),
        ensures
            final(self).wf(),
            final(self).local_set().has(bin@),
            forall|b: Seq<char>| b != bin@ ==> final(self).scope_spec(b) == old(self).scope_spec(b),
            final(self).global_set() == old(self).global_set(),
    {
        self.local.insert(owned(bin), ());
    }

    /// Records a global declaration.
    pub fn declare_global(&mut self, bin: &str)
        requires
            old(self).wf(),
        ensures
            final(self).wf(),
            final(self).scope_spec(bin@) == Some(DeclScope::Global),
            forall|b: Seq<char>| b != bin@ ==> final(self).scope_spec(b) == old(self).scope_spec(b),
            final(self).local_set() == old(self).local_set(),
    {
        self.global.insert(owned(bin), ());
    }

    /// Scope of the declaration of `bin`; `None` = not declared.
    pub fn scope_of(&self, bin: &str) -> (r: Option<DeclScope>)
        ensures
            r == self.scope_spec(bin@),
    {
        if self.global.contains_key(bin) {
            Some(DeclScope::Global)
        } else if self.local.contains_key(bin) {
            Some(DeclScope::Local)
        } else {
            None
        }
    }

    /// Every declared bin, each once: the global ones, then the local ones
    /// that are not also global.
    pub fn bins(&self) -> (r: Vec<String>)
        ensures
            views(r@) == self.global_set().keys_view() + only_local(self.local_set().keys_view(), self.global_set()),
            forall|i: int| 0 <= i < r@.len() ==> self.scope_spec(#[trigger] r@[i]@) is Some,
    {
        let mut out: Vec<String> = Vec::new();
        let g = self.global.entries();
        let mut i: usize = 0;
        while i < g.len()
            invariant
                g@ == self.global_set().spec_entries(),
                i <= g@.len(),
                views(out@) == self.global_set().keys_view().take(i as int),
                forall|k: int| 0 <= k < out@.len() ==> self.scope_spec(#[trigger] out@[k]@) is Some,
            decreases g@.len() - i,
        {
            let ghost before = out@;
            out.push(g[i].0.clone());
            proof {
                assert(self.global_set().has(g@[i as int].0@));
                assert(views(out@) =~= views(before).push(g@[i as int].0@));
                assert(self.global_set().keys_view().take(i + 1) =~= self.global_set().keys_view().take(i as int).push(g@[i as int].0@));
            }
            i = i + 1;
        }
        proof {
            assert(self.global_set().keys_view().take(g@.len() as int) =~= self.global_set().keys_view());
        }
        let ghost gk = views(out@);
        let l = self.local.entries();
        i = 0;
        while i < l.len()
            invariant
                l@ == self.local_set().spec_entries(),
                i <= l@.len(),
                gk == self.global_set().keys_view(),
                views(out@) == gk + only_local(self.local_set().keys_view().take(i as int), self.global_set()),
                forall|k: int| 0 <= k < out@.len() ==> self.scope_spec(#[trigger] out@[k]@) is Some,
            decreases l@.len() - i,
        {
            let ghost before = out@;
            proof {
                assert(self.local_set().keys_view().take(i + 1).drop_last() =~= self.local_set().keys_view().take(i as int));
                assert(self.local_set().keys_view().take(i + 1).last() == l@[i as int].0@);
            }
            if !self.global.contains_key(l[i].0.as_str()) {
                out.push(l[i].0.clone());
                proof {
                    assert(self.local_set().has(l@[i as int].0@));
                    assert(views(out@) =~= views(before).push(l@[i as int].0@));
                }
            }
            i = i + 1;
        }
        proof {
            assert(self.local_set().keys_view().take(l@.len() as int) =~= self.local_set().keys_view());
        }
        out
    }

    pub fn is_empty(&self) -> (r: bool)
        ensures
            r == (self.local_set().spec_entries().len() == 0 && self.global_set().spec_entries().len() == 0),
    {
        self.local.is_empty() && self.global.is_empty()
    }

    /// The declaration set with every name rewritten by `canon`: a
    /// canonical name is global when some global declaration maps to it,
    /// otherwise local when some local one does.
    pub fn map_names(self, canon: &crate::knowledge::CanonMaps) -> (r: ScriptAllowDecls)
        requires
            canon.wf(),
            self.wf(),
        ensures
            r.wf(),
            forall|c: Seq<char>| #[trigger] r.scope_spec(c) == (if exists|g: Seq<char>| self.global_set().has(g) && #[trigger] canon.canon_bin_spec(g) == c {
                Some(DeclScope::Global)
            } else if exists|l: Seq<char>| self.local_set().has(l) && #[trigger] canon.canon_bin_spec(l) == c {
                Some(DeclScope::Local)
            } else {
                None
            }),
    {
        let mut out = ScriptAllowDecls::new();
        let g = self.global.entries();
        let ghost ge = g@;
        let mut i: usize = 0;
        while i < g.len()
            invariant
                g@ == ge,
                ge == self.global_set().spec_entries(),
                i <= ge.len(),
                out.wf(),
                canon.wf(),
                forall|c: Seq<char>| #[trigger] out.scope_spec(c) == (if exists|j: int| 0 <= j < i && #[trigger] canon.canon_bin_spec(ge[j].0@) == c {
                    Some(DeclScope::Global)
                } else {
                    None
                }),
            decreases g@.len() - i,
        {
            let c = canon.canon_bin(g[i].0.as_str());
            out.declare_global(c.as_str());
            proof {
                assert forall|x: Seq<char>| #[trigger] out.scope_spec(x) == (if exists|j: int| 0 <= j < i + 1 && #[trigger] canon.canon_bin_spec(ge[j].0@) == x {
                    Some(DeclScope::Global)
                } else {
                    None
                }) by {
                    if x == c@ {
                        assert(canon.canon_bin_spec(ge[i as int].0@) == x);
                    } else {
                        if exists|j: int| 0 <= j < i + 1 && #[trigger] canon.canon_bin_spec(ge[j].0@) == x {
                            let j = choose|j: int| 0 <= j < i + 1 && #[trigger] canon.canon_bin_spec(ge[j].0@) == x;
                            assert(j < i);
                        }
                    }
                }
            }
            i = i + 1;
        }
        let l = self.local.entries();
        let ghost le = l@;
        i = 0;
        while i < l.len()
            invariant
                l@ == le,
                le == self.local_set().spec_entries(),
                ge == self.global_set().spec_entries(),
                i <= le.len(),
                out.wf(),
                canon.wf(),
                forall|c: Seq<char>| #[trigger] out.scope_spec(c) == (if exists|j: int| 0 <= j < ge.len() && #[trigger] canon.canon_bin_spec(ge[j].0@) == c {
                    Some(DeclScope::Global)
                } else if exists|j: int| 0 <= j < i && #[trigger] canon.canon_bin_spec(le[j].0@) == c {
                    Some(DeclScope::Local)
                } else {
                    None
                }),
            decreases l@.len() - i,
        {
            let c = canon.canon_bin(l[i].0.as_str());
            let ghost before = out;
            out.declare_local(c.as_str());
            proof {
                assert forall|x: Seq<char>| #[trigger] out.scope_spec(x) == (if exists|j: int| 0 <= j < ge.len() && #[trigger] canon.canon_bin_spec(ge[j].0@) == x {
                    Some(DeclScope::Global)
                } else if exists|j: int| 0 <= j < i + 1 && #[trigger] canon.canon_bin_spec(le[j].0@) == x {
                    Some(DeclScope::Local)
                } else {
                    None
                }) by {
                    if x == c@ {
                        assert(canon.canon_bin_spec(le[i as int].0@) == x);
                        if before.scope_spec(x) != Some(DeclScope::Global) {
                            assert(!before.global_set().has(x));
                        }
                    } else {
                        if exists|j: int| 0 <= j < i + 1 && #[trigger] canon.canon_bin_spec(le[j].0@) == x {
                            let j = choose|j: int| 0 <= j < i + 1 && #[trigger] canon.canon_bin_spec(le[j].0@) == x;
                            assert(j < i);
                        }
                    }
                }
            }
            i = i + 1;
        }
        proof {
            assert forall|c: Seq<char>| #[trigger] out.scope_spec(c) == (if exists|g: Seq<char>| self.global_set().has(g) && #[trigger] canon.canon_bin_spec(g) == c {
                Some(DeclScope::Global)
            } else if exists|l: Seq<char>| self.local_set().has(l) && #[trigger] canon.canon_bin_spec(l) == c {
                Some(DeclScope::Local)
            } else {
                None
            }) by {
                if exists|g: Seq<char>| self.global_set().has(g) && #[trigger] canon.canon_bin_spec(g) == c {
                    let g = choose|g: Seq<char>| self.global_set().has(g) && #[trigger] canon.canon_bin_spec(g) == c;
                    let j = choose|j: int| 0 <= j < ge.len() && #[trigger] self.global_set().spec_entries()[j].0@ == g;
                    assert(canon.canon_bin_spec(ge[j].0@) == c);
                }
                if exists|j: int| 0 <= j < ge.len() && #[trigger] canon.canon_bin_spec(ge[j].0@) == c {
                    let j = choose|j: int| 0 <= j < ge.len() && #[trigger] canon.canon_bin_spec(ge[j].0@) == c;
                    assert(self.global_set().has(ge[j].0@));
                }
                if exists|l: Seq<char>| self.local_set().has(l) && #[trigger] canon.canon_bin_spec(l) == c {
                    let l = choose|l: Seq<char>| self.local_set().has(l) && #[trigger] canon.canon_bin_spec(l) == c;
                    let j = choose|j: int| 0 <= j < le.len() && #[trigger] self.local_set().spec_entries()[j].0@ == l;
                    assert(canon.canon_bin_spec(le[j].0@) == c);
                }
                if exists|j: int| 0 <= j < le.len() && #[trigger] canon.canon_bin_spec(le[j].0@) == c {
                    let j = choose|j: int| 0 <= j < le.len() && #[trigger] canon.canon_bin_spec(le[j].0@) == c;
                    assert(self.local_set().has(le[j].0@));
                }
            }
        }
        out
    }
}

/// Law: a bin declared in both scopes is a global declaration, whatever the
/// order of the declarations.
pub proof fn law_global_declaration_wins(d: ScriptAllowDecls, bin: Seq<char>)
    requires
        d.global_set().has(bin),
    ensures
        d.scope_spec(bin) == Some(DeclScope::Global),
{
}

} // verus!
