//! The command knowledge base (`knowledge.toml`): facts about commands that
//! never decide anything by themselves.
//!
//! - One table per command (`[bin]`); `sub` and `flag` open sub-entries.
//! - Runtime normalisation slots: `alias_of` (command / subcommand),
//!   `same_flag` and `takes_value` (flag). Lint and script data slots:
//!   `may_write`, `write_flags`, `write_tokens`, `write_arg_count`,
//!   `irreversible`, `delegates`, `wraps`.
//! - Normalisation only renames (`pip3` → `pip`, `npm exec` → `npx`,
//!   `--force` → `-f`); alias and same_flag chains must be acyclic.
use vstd::prelude::*;
use crate::config::schema::{
    ConfigError, check_keys, decode_string_list, entry_value, find_entry, keys_within, last_value, lemma_keys_named,
    lemma_stray_named, stray_key_error, string_list_error, string_list_of,
};
use crate::strmap::StrMap;
use crate::text::{cat, cat3, decimal, i64_decimal, join_spec, join_with, owned, str_eq, u64_decimal, vec_has, views};
use crate::toml_doc::{TomlNode, entries_view, parse_toml_document, toml_doc_spec};

verus! {

/// The knowledge schema version this build reads.
pub const KB_SUPPORTED_VERSION: u64 = 1;

/// A whole `knowledge.toml`.
#[derive(Debug, Clone, PartialEq, Eq)]
pub struct KnowledgeBase {
    pub version: u64,
    pub bins: StrMap<BinEntry>,
}

/// Facts about one command (`[git]`).
#[derive(Debug, Clone, PartialEq, Eq)]
pub struct BinEntry {
    pub alias_of: Option<String>,
    pub may_write: Option<bool>,
    pub write_flags: Option<Vec<String>>,
    pub delegates: Option<String>,
    pub wraps: Option<String>,
    pub subs: StrMap<SubEntry>,
    pub flags: StrMap<FlagEntry>,
}

/// Facts about one subcommand (`sub.branch = { ... }`).
#[derive(Debug, Clone, Default, PartialEq, Eq)]
pub struct SubEntry {
    /// bin + subcommand → target bin (`npm exec` → `npx`).
    pub alias_of: Option<String>,
    pub may_write: Option<bool>,
    pub write_flags: Option<Vec<String>>,
    pub write_tokens: Option<Vec<String>>,
    pub write_arg_count: Option<u64>,
}

/// Facts about one flag (`flag."--hard" = { ... }`).
#[derive(Debug, Clone, Default, PartialEq, Eq)]
pub struct FlagEntry {
    /// Equivalent flag (the canonical form).
    pub same_flag: Option<String>,
    /// The flag takes the next token as its value.
    pub takes_value: Option<bool>,
    /// Destructive / irreversible flag.
    pub irreversible: Option<bool>,
}

/// The command alias of `b`, if `b` has an entry with `alias_of`.
pub open spec fn alias_spec(kb: KnowledgeBase, b: Seq<char>) -> Option<Seq<char>> {
    match kb.bins.lookup(b) {
        Some(e) => match e.alias_of {
            Some(t) => Some(t@),
            None => None,
        },
        None => None,
    }
}

/// `n` alias steps from `b`.
pub open spec fn walk(kb: KnowledgeBase, b: Seq<char>, n: nat) -> Option<Seq<char>>
    decreases n,
{
    if n == 0 {
        Some(b)
    } else {
        match walk(kb, b, (n - 1) as nat) {
            Some(c) => alias_spec(kb, c),
            None => None,
        }
    }
}

/// The alias chain from `b` never revisits a command.
pub open spec fn chain_acyclic(kb: KnowledgeBase, b: Seq<char>) -> bool {
    forall|i: nat, j: nat|
        i < j && #[trigger] walk(kb, b, i) is Some && #[trigger] walk(kb, b, j) is Some ==> walk(kb, b, i) != walk(kb, b, j)
}

/// The names that the alias walk from `b` visits in its first `n` steps.
pub open spec fn walk_names(kb: KnowledgeBase, b: Seq<char>, n: nat) -> Seq<Seq<char>> {
    Seq::new(n, |i: int| walk(kb, b, i as nat)->0)
}

/// Step `n` of the alias walk from `b` is the first that revisits a name.
pub open spec fn first_revisit(kb: KnowledgeBase, b: Seq<char>, n: nat) -> bool {
    &&& walk(kb, b, n) is Some
    &&& exists|j: nat| j < n && #[trigger] walk(kb, b, j) == walk(kb, b, n)
    &&& forall|i: nat, j: nat| i < j < n ==> #[trigger] walk(kb, b, i) != #[trigger] walk(kb, b, j)
}

/// The message of the alias cycle that the walk from `b` closes at step `n`.
pub open spec fn alias_cycle_message(kb: KnowledgeBase, b: Seq<char>, n: nat) -> Seq<char> {
    "knowledge alias cycle: "@ + join_spec(walk_names(kb, b, n), " → "@) + " → "@ + walk(kb, b, n)->0
}

/// The end of the alias chain from `c`, following at most `n` steps.
pub open spec fn chase(kb: KnowledgeBase, c: Seq<char>, n: nat) -> Seq<char>
    decreases n,
{
    if n == 0 {
        c
    } else {
        match alias_spec(kb, c) {
            Some(t) => chase(kb, t, (n - 1) as nat),
            None => c,
        }
    }
}

/// The canonical name of a command: for a command of the base, the end of
/// its alias chain (at most one step per command of the base); any other
/// name is its own.
pub open spec fn canon_bin_of(kb: KnowledgeBase, b: Seq<char>) -> Seq<char> {
    if kb.bins.has(b) {
        chase(kb, b, kb.bins.spec_entries().len())
    } else {
        b
    }
}

/// The end of the `same_flag` chain from `c` among `flags`, following at
/// most `n` steps.
pub open spec fn flag_chase(flags: StrMap<FlagEntry>, c: Seq<char>, n: nat) -> Seq<char>
    decreases n,
{
    if n == 0 {
        c
    } else {
        match flags.lookup(c) {
            Some(fe) => match fe.same_flag {
                Some(t) => flag_chase(flags, t@, (n - 1) as nat),
                None => c,
            },
            None => c,
        }
    }
}

/// The canonical form of a flag of a command: for a flag the base lists
/// under the command, the end of its `same_flag` chain (at most one step per
/// listed flag); any other flag is its own.
pub open spec fn canon_flag_of(kb: KnowledgeBase, b: Seq<char>, f: Seq<char>) -> Seq<char> {
    if kb.bins.has(b) && kb.bins.value(b).flags.has(f) {
        flag_chase(kb.bins.value(b).flags, f, kb.bins.value(b).flags.spec_entries().len())
    } else {
        f
    }
}

/// `f` is the canonical form of a value-taking flag of command `b`.
pub open spec fn takes_value_of(kb: KnowledgeBase, b: Seq<char>, f: Seq<char>) -> bool {
    kb.bins.has(b) && exists|g: Seq<char>|
        kb.bins.value(b).flags.has(g) && #[trigger] kb.bins.value(b).flags.value(g).takes_value == Some(true)
            && canon_flag_of(kb, b, g) == f
}

/// The command a subcommand of `b` is an alias of.
pub open spec fn sub_alias_of(kb: KnowledgeBase, b: Seq<char>, s: Seq<char>) -> Option<Seq<char>> {
    if kb.bins.has(b) && kb.bins.value(b).subs.has(s) {
        match kb.bins.value(b).subs.value(s).alias_of {
            Some(t) => Some(t@),
            None => None,
        }
    } else {
        None
    }
}

/// Normalisation maps that follow a knowledge base: with none, every name
/// is its own canonical form and nothing takes a value or is a subcommand
/// alias; with one, the forms it defines.
pub open spec fn canon_agrees(kb: Option<KnowledgeBase>, c: CanonMaps) -> bool {
    match kb {
        None => {
            &&& forall|b: Seq<char>| #[trigger] c.canon_bin_spec(b) == b
            &&& forall|b: Seq<char>, f: Seq<char>| #[trigger] c.canon_flag_spec(b, f) == f
            &&& forall|b: Seq<char>, f: Seq<char>| !#[trigger] c.takes_value_spec(b, f)
            &&& forall|b: Seq<char>, s: Seq<char>| #[trigger] c.sub_alias_spec(b, s) is None
        },
        Some(k) => {
            &&& forall|b: Seq<char>| #[trigger] c.canon_bin_spec(b) == canon_bin_of(k, b)
            &&& forall|b: Seq<char>, f: Seq<char>| #[trigger] c.canon_flag_spec(b, f) == canon_flag_of(k, b, f)
            &&& forall|b: Seq<char>, f: Seq<char>| #[trigger] c.takes_value_spec(b, f) == takes_value_of(k, b, f)
            &&& forall|b: Seq<char>, s: Seq<char>| #[trigger] c.sub_alias_spec(b, s) == sub_alias_of(k, b, s)
        },
    }
}

/// The value under `k` of a map of strings, or `k` itself.
pub open spec fn map_or_self(m: StrMap<String>, k: Seq<char>) -> Seq<char> {
    match m.lookup(k) {
        Some(t) => t@,
        None => k,
    }
}

/// The value under `b` then `k` of a map of maps of strings, if any.
pub open spec fn nested_lookup(m: StrMap<StrMap<String>>, b: Seq<char>, k: Seq<char>) -> Option<Seq<char>> {
    match m.lookup(b) {
        Some(mm) => match mm.lookup(k) {
            Some(t) => Some(t@),
            None => None,
        },
        None => None,
    }
}

/// The value under `b` then `k` of a map of maps of strings, or `k` itself.
pub open spec fn nested_or_self(m: StrMap<StrMap<String>>, b: Seq<char>, k: Seq<char>) -> Seq<char> {
    match nested_lookup(m, b, k) {
        Some(t) => t,
        None => k,
    }
}

/// `f` is listed under `b` in a map of string lists.
pub open spec fn listed_under(m: StrMap<Vec<String>>, b: Seq<char>, f: Seq<char>) -> bool {
    match m.lookup(b) {
        Some(v) => views(v@).contains(f),
        None => false,
    }
}

/// `r` is what loading the entries gives: a parse error, with the message
/// of the first faulty entry, unless they are well formed with a version;
/// otherwise the base they describe when its version is supported and its
/// chains are acyclic, else an error (a semantic one, with its message, for
/// an unsupported version).
pub open spec fn kb_loaded(es: Seq<(String, TomlNode)>, r: Result<KnowledgeBase, ConfigError>) -> bool {
    &&& (!(kb_entries_ok(es) && last_value(es, "version"@) is Some) ==> (r matches Err(ConfigError::Parse(m))
        && kb_parse_error(es, m@)))
    &&& ((kb_entries_ok(es) && last_value(es, "version"@) is Some) ==> exists|kb0: KnowledgeBase| #[trigger] kb_matches(kb0, es)
        && kb0.bins.wf()
        && (r is Ok <==> kb0.version == KB_SUPPORTED_VERSION && kb_acyclic(kb0))
        && (kb0.version != KB_SUPPORTED_VERSION ==> (r matches Err(ConfigError::Semantic(m))
            && m@ == kb_version_message(kb0.version as nat)))
        && (kb0.version == KB_SUPPORTED_VERSION && !kb_acyclic(kb0) ==> (r matches Err(ConfigError::Semantic(m))
            && kb_cycle_error(kb0, m@)))
        && (r matches Ok(kb) ==> kb == kb0))
}

/// `r` is what loading knowledge text `text` gives: a parse error when it
/// is not TOML; otherwise what loading its document's entries gives.
pub open spec fn kb_text_loads(text: Seq<char>, r: Result<KnowledgeBase, ConfigError>) -> bool {
    &&& (toml_doc_spec(text) is None ==> r matches Err(ConfigError::Parse(_)))
    &&& (toml_doc_spec(text) matches Some(d) ==> exists|es: Seq<(String, TomlNode)>| #[trigger] entries_view(es) == d
        && kb_loaded(es, r))
}

impl KnowledgeBase {
    /// Parses and checks a `knowledge.toml` text (version, acyclic chains).
    pub fn parse_toml(text: &str) -> (r: Result<KnowledgeBase, ConfigError>)
        ensures
            r matches Ok(kb) ==> kb.version == KB_SUPPORTED_VERSION && kb.bins.wf(),
            r matches Ok(kb) ==> kb_acyclic(kb),
            r matches Ok(kb) ==> forall|b: Seq<char>| kb.bins.has(b) ==> #[trigger] kb.bins.value(b).subs.wf(),
            r matches Ok(kb) ==> forall|b: Seq<char>| kb.bins.has(b) ==> #[trigger] kb.bins.value(b).flags.wf(),
            toml_doc_spec(text@) is None ==> r matches Err(ConfigError::Parse(_)),
            toml_doc_spec(text@) matches Some(d) ==> exists|es: Seq<(String, TomlNode)>| #[trigger] entries_view(es) == d
                && kb_loaded(es, r),
            kb_text_loads(text@, r),
    {
        let entries = match parse_toml_document(text) {
            Ok(e) => e,
            Err(m) => return Err(ConfigError::Parse(m)),
        };
        let kb = match decode_knowledge(&entries) {
            Ok(kb) => kb,
            Err(e) => {
                proof {
                    assert(kb_loaded(entries@, Err(e)));
                }
                return Err(e);
            },
        };
        if kb.version != KB_SUPPORTED_VERSION {
            let d = u64_decimal(kb.version);
            let mut m = cat3("knowledge schema version ", d.as_str(), " is not supported by this build (expected ");
            m.append("version 1); upgrade crush-tether or regenerate the file");
            let r = Err(ConfigError::Semantic(m));
            proof {
                assert(kb_loaded(entries@, r));
            }
            return r;
        }
        proof {
            assert(kb_matches(kb, entries@));
        }
        let r = match kb.validate() {
            Ok(()) => Ok(kb),
            Err(e) => Err(e),
        };
        proof {
            assert(kb_loaded(entries@, r));
        }
        r
    }

    /// The alias target of `bin`, if any.
    pub fn alias_target(&self, bin: &str) -> (r: Option<String>)
        requires
            self.bins.wf(),
        ensures
            match r {
                Some(t) => alias_spec(*self, bin@) == Some(t@),
                None => alias_spec(*self, bin@) is None,
            },
    {
        match self.bins.get(bin) {
            Some(e) => match &e.alias_of {
                Some(t) => Some(t.clone()),
                None => None,
            },
            None => None,
        }
    }

    /// One normalisation step: a subcommand alias first (the subcommand slot
    /// is absorbed by the target bin), then the command alias (the
    /// subcommand stays). `None` when there is no alias edge.
    pub fn step(&self, bin: &str, sub: Option<&str>) -> (r: Option<(String, Option<String>)>)
        requires
            self.bins.wf(),
        ensures
            sub is None ==> match r {
                Some((t, s)) => alias_spec(*self, bin@) == Some(t@) && s is None,
                None => alias_spec(*self, bin@) is None,
            },
    {
        let entry = match self.bins.get(bin) {
            Some(e) => e,
            None => return None,
        };
        match sub {
            Some(s) => {
                match entry.subs.position(s) {
                    Some(i) => match &entry.subs.entries()[i].1.alias_of {
                        Some(t) => return Some((t.clone(), None)),
                        None => {},
                    },
                    None => {},
                }
            },
            None => {},
        }
        match &entry.alias_of {
            Some(t) => Some(
                (
                    t.clone(),
                    match sub {
                        Some(s) => Some(owned(s)),
                        None => None,
                    },
                ),
            ),
            None => None,
        }
    }

    /// Load-time cycle check: command alias chains and same_flag chains must
    /// reach a fixed point; revisiting a node is a configuration error.
    pub fn validate(&self) -> (r: Result<(), ConfigError>)
        requires
            kb_wf(Some(*self)),
        ensures
            r is Ok <==> kb_acyclic(*self),
            r matches Err(e) ==> e is Semantic,
            !kb_acyclic(*self) ==> (r matches Err(ConfigError::Semantic(m)) && kb_cycle_error(*self, m@)),
    {
        let keys = self.bins.entries();
        let ghost ks = self.bins.spec_entries();
        let mut k: usize = 0;
        while k < keys.len()
            invariant
                kb_wf(Some(*self)),
                keys@ == ks,
                ks == self.bins.spec_entries(),
                forall|kk: int| 0 <= kk < k ==> chain_acyclic(*self, #[trigger] keys@[kk].0@),
            decreases keys@.len() - k,
        {
            let b = keys[k].0.as_str();
            proof {
                assert(self.bins.has(b@)) by {
                    assert(self.bins.spec_entries()[k as int].0@ == b@);
                }
            }
            let mut seen: Vec<String> = vec![owned(b)];
            let mut cur = owned(b);
            loop
                invariant
                    kb_wf(Some(*self)),
                    keys@ == ks,
                    ks == self.bins.spec_entries(),
                    k < keys@.len(),
                    b@ == keys@[k as int].0@,
                    self.bins.has(b@),
                    forall|kk: int| 0 <= kk < k ==> chain_acyclic(*self, #[trigger] keys@[kk].0@),
                    seen@.len() >= 1,
                    seen@.len() <= keys@.len() + 1,
                    cur@ == seen@[seen@.len() - 1]@,
                    forall|i: int| 0 <= i < seen@.len() ==> walk(*self, b@, i as nat) == Some(#[trigger] seen@[i]@),
                    forall|i: int, j: int| 0 <= i < j < seen@.len() ==> #[trigger] seen@[i]@ != #[trigger] seen@[j]@,
                    forall|i: int| 0 <= i < seen@.len() - 1 ==> self.bins.has(#[trigger] seen@[i]@),
                ensures
                    chain_acyclic(*self, b@),
                decreases keys@.len() + 2 - seen@.len(),
            {
                match self.alias_target(cur.as_str()) {
                    None => {
                        proof {
                            lemma_walk_stops(*self, b@, (seen@.len() - 1) as nat);
                            assert forall|i: nat, j: nat|
                                i < j && #[trigger] walk(*self, b@, i) is Some && #[trigger] walk(*self, b@, j) is Some
                                implies walk(*self, b@, i) != walk(*self, b@, j) by {
                                assert(j < seen@.len());
                                assert(walk(*self, b@, i) == Some(seen@[i as int]@));
                                assert(walk(*self, b@, j) == Some(seen@[j as int]@));
                            }
                        }
                        break;
                    },
                    Some(next) => {
                        proof {
                            assert(self.bins.has(cur@));
                            assert forall|i: int| 0 <= i < seen@.len() implies self.bins.has(#[trigger] views(seen@)[i]) by {
                                assert(views(seen@)[i] == seen@[i]@);
                                if i == seen@.len() - 1 {
                                    assert(seen@[i]@ == cur@);
                                }
                            }
                            assert forall|i: int, j: int| 0 <= i < j < views(seen@).len() implies #[trigger] views(seen@)[i] != #[trigger] views(seen@)[j] by {
                                assert(views(seen@)[i] == seen@[i]@ && views(seen@)[j] == seen@[j]@);
                            }
                            lemma_distinct_keys_bound(views(seen@), self.bins);
                            assert(walk(*self, b@, seen@.len() as nat) == Some(next@));
                        }
                        if vec_has(&seen, next.as_str()) {
                            proof {
                                let j = choose|j: int| 0 <= j < views(seen@).len() && views(seen@)[j] == next@;
                                assert(seen@[j]@ == next@);
                                assert(walk(*self, b@, j as nat) == Some(next@));
                                assert(walk(*self, b@, j as nat) is Some && walk(*self, b@, seen@.len() as nat) is Some);
                                assert(!chain_acyclic(*self, b@));
                                assert(!kb_acyclic(*self));
                            }
                            let chain = join_with(&seen, " → ");
                            let m = cat3("knowledge alias cycle: ", chain.as_str(), " → ");
                            let m2 = cat(m.as_str(), next.as_str());
                            proof {
                                let n = seen@.len() as nat;
                                assert(!aliases_acyclic(*self));
                                assert(views(seen@) =~= walk_names(*self, b@, n)) by {
                                    assert forall|i: int| 0 <= i < n implies views(seen@)[i] == walk_names(*self, b@, n)[i] by {
                                        assert(walk(*self, b@, i as nat) == Some(seen@[i]@));
                                    }
                                }
                                let j = choose|j: int| 0 <= j < views(seen@).len() && views(seen@)[j] == next@;
                                assert(walk(*self, b@, j as nat) == walk(*self, b@, n));
                                assert forall|i: nat, jj: nat| i < jj < n implies #[trigger] walk(*self, b@, i) != #[trigger] walk(*self, b@, jj) by {
                                    assert(walk(*self, b@, i) == Some(seen@[i as int]@));
                                    assert(walk(*self, b@, jj) == Some(seen@[jj as int]@));
                                }
                                assert(first_revisit(*self, b@, n));
                                assert(m2@ == alias_cycle_message(*self, self.bins.spec_entries()[k as int].0@, n));
                            }
                            return Err(ConfigError::Semantic(m2));
                        }
                        proof {
                            assert forall|i: int| 0 <= i < seen@.len() implies seen@[i]@ != next@ by {
                                assert(views(seen@)[i] == seen@[i]@);
                            }
                        }
                        cur = next.clone();
                        seen.push(next);
                    },
                }
            }
            k = k + 1;
        }
        // same_flag chains, per bin.
        let mut k: usize = 0;
        while k < keys.len()
            invariant
                kb_wf(Some(*self)),
                keys@ == ks,
                ks == self.bins.spec_entries(),
                forall|b: Seq<char>| self.bins.has(b) ==> chain_acyclic(*self, b),
                forall|kk: int, f: Seq<char>| 0 <= kk < k && #[trigger] ks[kk].1.flags.has(f) ==> flag_chain_acyclic(ks[kk].1.flags, f),
            decreases keys@.len() - k,
        {
            let bin = keys[k].0.as_str();
            let flags = &keys[k].1.flags;
            proof {
                self.bins.lemma_value_at(k as int);
                assert(flags.wf());
                assert(self.bins.spec_entries()[k as int].0@ == bin@);
                assert(self.bins.has(bin@));
                assert(self.bins.value(bin@).flags == *flags);
            }
            let fkeys = flags.entries();
            let ghost fs = flags.spec_entries();
            let mut f: usize = 0;
            while f < fkeys.len()
                invariant
                    fkeys@ == fs,
                    fs == flags.spec_entries(),
                    flags.wf(),
                    k < ks.len(),
                    ks == self.bins.spec_entries(),
                    bin@ == ks[k as int].0@,
                    *flags == ks[k as int].1.flags,
                    forall|kk: int, fl: Seq<char>| 0 <= kk < k && #[trigger] ks[kk].1.flags.has(fl) ==> flag_chain_acyclic(ks[kk].1.flags, fl),
                    aliases_acyclic(*self),
                    self.bins.has(bin@),
                    self.bins.value(bin@).flags == *flags,
                    forall|ff: int| 0 <= ff < f ==> flag_chain_acyclic(*flags, #[trigger] fs[ff].0@),
                decreases fkeys@.len() - f,
            {
                let start = fkeys[f].0.as_str();
                proof {
                    assert(flags.has(start@)) by {
                        assert(flags.spec_entries()[f as int].0@ == start@);
                    }
                }
                let mut seen: Vec<String> = vec![fkeys[f].0.clone()];
                let mut cur = fkeys[f].0.clone();
                loop
                    invariant
                        fkeys@ == fs,
                        fs == flags.spec_entries(),
                        flags.wf(),
                        k < ks.len(),
                        ks == self.bins.spec_entries(),
                        bin@ == ks[k as int].0@,
                        *flags == ks[k as int].1.flags,
                        forall|kk: int, fl: Seq<char>| 0 <= kk < k && #[trigger] ks[kk].1.flags.has(fl) ==> flag_chain_acyclic(ks[kk].1.flags, fl),
                        aliases_acyclic(*self),
                        self.bins.has(bin@),
                        self.bins.value(bin@).flags == *flags,
                        flags.has(start@),
                        f < fs.len(),
                        start@ == fs[f as int].0@,
                        forall|ff: int| 0 <= ff < f ==> flag_chain_acyclic(*flags, #[trigger] fs[ff].0@),
                        seen@.len() >= 1,
                        seen@.len() <= fkeys@.len() + 1,
                        cur@ == seen@[seen@.len() - 1]@,
                        forall|i: int| 0 <= i < seen@.len() ==> flag_walk(*flags, start@, i as nat) == Some(#[trigger] seen@[i]@),
                        forall|i: int, j: int| 0 <= i < j < seen@.len() ==> #[trigger] seen@[i]@ != #[trigger] seen@[j]@,
                        forall|i: int| 0 <= i < seen@.len() - 1 ==> flags.has(#[trigger] seen@[i]@),
                    ensures
                        flag_chain_acyclic(*flags, start@),
                    decreases fkeys@.len() + 2 - seen@.len(),
                {
                    let next = match flags.position(cur.as_str()) {
                        Some(p) => {
                            proof {
                                flags.lemma_value_at(p as int);
                            }
                            match &fkeys[p].1.same_flag {
                                Some(t) => t.clone(),
                                None => {
                                    proof {
                                        lemma_flag_walk_stops(*flags, start@, (seen@.len() - 1) as nat);
                                        lemma_flag_walk_distinct(*flags, start@, views(seen@));
                                    }
                                    break;
                                },
                            }
                        },
                        None => {
                            proof {
                                lemma_flag_walk_stops(*flags, start@, (seen@.len() - 1) as nat);
                                lemma_flag_walk_distinct(*flags, start@, views(seen@));
                            }
                            break;
                        },
                    };
                    proof {
                        assert(flags.has(cur@));
                        assert forall|i: int| 0 <= i < seen@.len() implies flags.has(#[trigger] views(seen@)[i]) by {
                            assert(views(seen@)[i] == seen@[i]@);
                            if i == seen@.len() - 1 {
                                assert(seen@[i]@ == cur@);
                            }
                        }
                        assert forall|i: int, j: int| 0 <= i < j < views(seen@).len() implies #[trigger] views(seen@)[i] != #[trigger] views(seen@)[j] by {
                            assert(views(seen@)[i] == seen@[i]@ && views(seen@)[j] == seen@[j]@);
                        }
                        lemma_distinct_keys_bound(views(seen@), *flags);
                        assert(flag_walk(*flags, start@, seen@.len() as nat) == Some(next@));
                    }
                    if vec_has(&seen, next.as_str()) {
                        proof {
                            let j = choose|j: int| 0 <= j < views(seen@).len() && views(seen@)[j] == next@;
                            assert(seen@[j]@ == next@);
                            assert(flag_walk(*flags, start@, j as nat) == Some(next@));
                            assert(flag_walk(*flags, start@, j as nat) is Some && flag_walk(*flags, start@, seen@.len() as nat) is Some);
                            assert(!flag_chain_acyclic(*flags, start@));
                            assert(!kb_acyclic(*self));
                        }
                        let chain = join_with(&seen, " → ");
                        let mut m = cat3("knowledge same_flag cycle in [", bin, "]: ");
                        m.append(chain.as_str());
                        m.append(" → ");
                        m.append(next.as_str());
                        proof {
                            let n = seen@.len() as nat;
                            assert(views(seen@) =~= flag_walk_names(*flags, start@, n)) by {
                                assert forall|i: int| 0 <= i < n implies views(seen@)[i] == flag_walk_names(*flags, start@, n)[i] by {
                                    assert(flag_walk(*flags, start@, i as nat) == Some(seen@[i]@));
                                }
                            }
                            let j = choose|j: int| 0 <= j < views(seen@).len() && views(seen@)[j] == next@;
                            assert(flag_walk(*flags, start@, j as nat) == flag_walk(*flags, start@, n));
                            assert forall|i: nat, jj: nat| i < jj < n implies #[trigger] flag_walk(*flags, start@, i) != #[trigger] flag_walk(*flags, start@, jj) by {
                                assert(flag_walk(*flags, start@, i) == Some(seen@[i as int]@));
                                assert(flag_walk(*flags, start@, jj) == Some(seen@[jj as int]@));
                            }
                            assert(flag_first_revisit(*flags, start@, n));
                            assert(m@ == flag_cycle_message(bin@, *flags, start@, n));
                            assert(flag_first_revisit(ks[k as int].1.flags, ks[k as int].1.flags.spec_entries()[f as int].0@, n));
                        }
                        return Err(ConfigError::Semantic(m));
                    }
                    proof {
                        assert forall|i: int| 0 <= i < seen@.len() implies seen@[i]@ != next@ by {
                            assert(views(seen@)[i] == seen@[i]@);
                        }
                    }
                    cur = next.clone();
                    seen.push(next);
                }
                f = f + 1;
            }
            proof {
                assert forall|kk: int, fl: Seq<char>| 0 <= kk < k + 1 && #[trigger] ks[kk].1.flags.has(fl) implies flag_chain_acyclic(ks[kk].1.flags, fl) by {
                    if kk == k {
                        let ff = choose|ff: int| 0 <= ff < fs.len() && #[trigger] flags.spec_entries()[ff].0@ == fl;
                        assert(fs[ff].0@ == fl);
                    }
                }
            }
            k = k + 1;
        }
        proof {
            assert forall|b: Seq<char>, fl: Seq<char>| self.bins.has(b) && #[trigger] self.bins.value(b).flags.has(fl)
                implies flag_chain_acyclic(self.bins.value(b).flags, fl) by {
                let kk = choose|kk: int| 0 <= kk < ks.len() && #[trigger] self.bins.spec_entries()[kk].0@ == b;
                self.bins.lemma_value_at(kk);
                assert(ks[kk].1.flags.has(fl));
            }
        }
        Ok(())
    }

    /// Normalisation maps (chains followed to their fixed point).
    pub fn canon_maps(&self) -> (r: CanonMaps)
        requires
            kb_wf(Some(*self)),
        ensures
            r.wf(),
            forall|b: Seq<char>| #[trigger] r.canon_bin_spec(b) == canon_bin_of(*self, b),
            forall|b: Seq<char>, f: Seq<char>| #[trigger] r.canon_flag_spec(b, f) == canon_flag_of(*self, b, f),
            forall|b: Seq<char>, f: Seq<char>| #[trigger] r.takes_value_spec(b, f) == takes_value_of(*self, b, f),
            forall|b: Seq<char>, s: Seq<char>| #[trigger] r.sub_alias_spec(b, s) == sub_alias_of(*self, b, s),
    {
        let mut bin: StrMap<String> = StrMap::new();
        let mut sub_alias: StrMap<StrMap<String>> = StrMap::new();
        let mut flag: StrMap<StrMap<String>> = StrMap::new();
        let mut takes_value: StrMap<Vec<String>> = StrMap::new();
        let keys = self.bins.entries();
        let ghost ks = self.bins.spec_entries();
        let limit = keys.len();
        let mut k: usize = 0;
        while k < keys.len()
            invariant
                kb_wf(Some(*self)),
                keys@ == ks,
                ks == self.bins.spec_entries(),
                limit == ks.len(),
                k <= ks.len(),
                bin.wf(),
                sub_alias.wf(),
                forall|i: int| 0 <= i < sub_alias.spec_entries().len() ==> (#[trigger] sub_alias.spec_entries()[i]).1.wf(),
                flag.wf(),
                forall|i: int| 0 <= i < flag.spec_entries().len() ==> (#[trigger] flag.spec_entries()[i]).1.wf(),
                takes_value.wf(),
                forall|x: Seq<char>| bin.has(x) ==> self.bins.has(x),
                forall|x: Seq<char>| sub_alias.has(x) ==> self.bins.has(x),
                forall|x: Seq<char>| flag.has(x) ==> self.bins.has(x),
                forall|x: Seq<char>| takes_value.has(x) ==> self.bins.has(x),
                forall|kk: int| k <= kk < ks.len() ==> !bin.has(#[trigger] ks[kk].0@) && !sub_alias.has(ks[kk].0@)
                    && !flag.has(ks[kk].0@) && !takes_value.has(ks[kk].0@),
                forall|kk: int| 0 <= kk < k ==> map_or_self(bin, #[trigger] ks[kk].0@) == canon_bin_of(*self, ks[kk].0@),
                forall|kk: int, x: Seq<char>| 0 <= kk < k ==> #[trigger] nested_lookup(sub_alias, ks[kk].0@, x) == sub_alias_of(*self, ks[kk].0@, x),
                forall|kk: int, x: Seq<char>| 0 <= kk < k ==> #[trigger] nested_or_self(flag, ks[kk].0@, x) == canon_flag_of(*self, ks[kk].0@, x),
                forall|kk: int, x: Seq<char>| 0 <= kk < k ==> #[trigger] listed_under(takes_value, ks[kk].0@, x) == takes_value_of(*self, ks[kk].0@, x),
            decreases ks.len() - k,
        {
            let b = keys[k].0.as_str();
            let entry = &keys[k].1;
            proof {
                self.bins.lemma_value_at(k as int);
                assert(self.bins.value(b@) == *entry);
                assert(entry.subs.wf());
                assert(entry.flags.wf());
                assert forall|kk: int| 0 <= kk < ks.len() && kk != k implies #[trigger] ks[kk].0@ != b@ by {
                    if kk < k {
                        assert(ks[kk].0@ != ks[k as int].0@);
                    } else {
                        assert(ks[k as int].0@ != ks[kk].0@);
                    }
                }
            }
            // Command alias chain to its fixed point.
            let mut cur = owned(b);
            let mut steps: usize = 0;
            while steps < limit
                invariant
                    kb_wf(Some(*self)),
                    steps <= limit,
                    chase(*self, cur@, (limit - steps) as nat) == chase(*self, b@, limit as nat),
                ensures
                    cur@ == chase(*self, b@, limit as nat),
                decreases limit - steps,
            {
                match self.alias_target(cur.as_str()) {
                    Some(next) => cur = next,
                    None => break,
                }
                steps = steps + 1;
            }
            let ghost old_bin = bin;
            if !str_eq(cur.as_str(), b) {
                bin.insert(owned(b), cur);
            }
            proof {
                assert forall|kk: int| 0 <= kk < k + 1 implies map_or_self(bin, #[trigger] ks[kk].0@) == canon_bin_of(*self, ks[kk].0@) by {
                    if kk < k {
                        assert(ks[kk].0@ != b@);
                        assert(map_or_self(bin, ks[kk].0@) == map_or_self(old_bin, ks[kk].0@));
                    }
                }
                assert forall|kk: int| k + 1 <= kk < ks.len() implies !bin.has(#[trigger] ks[kk].0@) by {
                    assert(ks[kk].0@ != b@);
                }
            }
            // Subcommand aliases.
            let subs = entry.subs.entries();
            let ghost se = entry.subs.spec_entries();
            let mut sm: StrMap<String> = StrMap::new();
            let mut s: usize = 0;
            while s < subs.len()
                invariant
                    subs@ == se,
                    se == entry.subs.spec_entries(),
                    entry.subs.wf(),
                    s <= se.len(),
                    sm.wf(),
                    forall|x: Seq<char>| sm.has(x) ==> entry.subs.has(x),
                    forall|q: int| s <= q < se.len() ==> !sm.has(#[trigger] se[q].0@),
                    forall|q: int| 0 <= q < s ==> #[trigger] sm.lookup(se[q].0@) == se[q].1.alias_of,
                decreases se.len() - s,
            {
                proof {
                    assert forall|q: int| 0 <= q < se.len() && q != s implies #[trigger] se[q].0@ != se[s as int].0@ by {
                        if q < s {
                            assert(se[q].0@ != se[s as int].0@);
                        } else {
                            assert(se[s as int].0@ != se[q].0@);
                        }
                    }
                }
                let ghost old_sm = sm;
                match &subs[s].1.alias_of {
                    Some(t) => {
                        sm.insert(subs[s].0.clone(), t.clone());
                    },
                    None => {},
                }
                proof {
                    assert(entry.subs.has(se[s as int].0@)) by {
                        assert(entry.subs.spec_entries()[s as int].0@ == se[s as int].0@);
                    }
                    assert forall|q: int| 0 <= q < s + 1 implies #[trigger] sm.lookup(se[q].0@) == se[q].1.alias_of by {
                        if q < s {
                            assert(sm.lookup(se[q].0@) == old_sm.lookup(se[q].0@));
                        }
                    }
                }
                s = s + 1;
            }
            proof {
                assert forall|x: Seq<char>| #[trigger] sm.lookup(x) == (if entry.subs.has(x) { entry.subs.value(x).alias_of } else { None }) by {
                    if entry.subs.has(x) {
                        let q = choose|q: int| 0 <= q < se.len() && #[trigger] entry.subs.spec_entries()[q].0@ == x;
                        entry.subs.lemma_value_at(q);
                        assert(sm.lookup(se[q].0@) == se[q].1.alias_of);
                    }
                }
            }
            let ghost old_sa = sub_alias;
            if !sm.is_empty() {
                sub_alias.insert(owned(b), sm);
                proof {
                    assert forall|i: int| 0 <= i < sub_alias.spec_entries().len() implies (#[trigger] sub_alias.spec_entries()[i]).1.wf() by {
                        let key = sub_alias.spec_entries()[i].0@;
                        assert(sub_alias.spec_entries()[i].0@ == key);
                        sub_alias.lemma_value_at(i);
                        if key != b@ {
                            let j = choose|j: int| 0 <= j < old_sa.spec_entries().len() && #[trigger] old_sa.spec_entries()[j].0@ == key;
                            old_sa.lemma_value_at(j);
                        }
                    }
                }
            } else {
                proof {
                    assert forall|x: Seq<char>| !sm.has(x) by {
                        if sm.has(x) {
                            let q = choose|q: int| 0 <= q < sm.spec_entries().len() && #[trigger] sm.spec_entries()[q].0@ == x;
                        }
                    }
                }
            }
            proof {
                assert forall|kk: int, x: Seq<char>| 0 <= kk < k + 1 implies #[trigger] nested_lookup(sub_alias, ks[kk].0@, x) == sub_alias_of(*self, ks[kk].0@, x) by {
                    if kk < k {
                        assert(ks[kk].0@ != b@);
                        assert(sub_alias.lookup(ks[kk].0@) == old_sa.lookup(ks[kk].0@));
                        assert(nested_lookup(old_sa, ks[kk].0@, x) == sub_alias_of(*self, ks[kk].0@, x));
                    } else {
                        assert(ks[kk].0@ == b@);
                        assert(sm.lookup(x) == (if entry.subs.has(x) { entry.subs.value(x).alias_of } else { None }));
                    }
                }
                assert forall|kk: int| k + 1 <= kk < ks.len() implies !sub_alias.has(#[trigger] ks[kk].0@) by {
                    assert(ks[kk].0@ != b@);
                }
            }
            // Flag classes and value-taking flags (recorded by canonical form).
            let fkeys = entry.flags.entries();
            let ghost fe = entry.flags.spec_entries();
            let flimit = fkeys.len();
            let mut fm: StrMap<String> = StrMap::new();
            let mut tv: Vec<String> = Vec::new();
            let mut f: usize = 0;
            while f < fkeys.len()
                invariant
                    fkeys@ == fe,
                    fe == entry.flags.spec_entries(),
                    flimit == fe.len(),
                    entry.flags.wf(),
                    f <= fe.len(),
                    fm.wf(),
                    forall|x: Seq<char>| fm.has(x) ==> entry.flags.has(x),
                    forall|q: int| f <= q < fe.len() ==> !fm.has(#[trigger] fe[q].0@),
                    forall|q: int| 0 <= q < f ==> #[trigger] map_or_self(fm, fe[q].0@) == flag_chase(entry.flags, fe[q].0@, flimit as nat),
                    forall|x: Seq<char>| #[trigger] views(tv@).contains(x) <==> exists|q: int| 0 <= q < f && fe[q].1.takes_value == Some(true)
                        && #[trigger] flag_chase(entry.flags, fe[q].0@, flimit as nat) == x,
                decreases fe.len() - f,
            {
                let name = fkeys[f].0.as_str();
                proof {
                    assert forall|q: int| 0 <= q < fe.len() && q != f implies #[trigger] fe[q].0@ != name@ by {
                        if q < f {
                            assert(fe[q].0@ != fe[f as int].0@);
                        } else {
                            assert(fe[f as int].0@ != fe[q].0@);
                        }
                    }
                }
                let mut c = owned(name);
                let mut steps: usize = 0;
                while steps < flimit
                    invariant
                        fkeys@ == fe,
                        fe == entry.flags.spec_entries(),
                        entry.flags.wf(),
                        steps <= flimit,
                        flag_chase(entry.flags, c@, (flimit - steps) as nat) == flag_chase(entry.flags, name@, flimit as nat),
                    ensures
                        c@ == flag_chase(entry.flags, name@, flimit as nat),
                    decreases flimit - steps,
                {
                    match entry.flags.position(c.as_str()) {
                        Some(p) => {
                            proof {
                                entry.flags.lemma_value_at(p as int);
                            }
                            match &fkeys[p].1.same_flag {
                                Some(t) => c = t.clone(),
                                None => break,
                            }
                        },
                        None => break,
                    }
                    steps = steps + 1;
                }
                let ghost old_tv = tv@;
                if fkeys[f].1.takes_value == Some(true) && !vec_has(&tv, c.as_str()) {
                    tv.push(c.clone());
                }
                proof {
                    assert forall|x: Seq<char>| #[trigger] views(tv@).contains(x) <==> exists|q: int| 0 <= q < f + 1 && fe[q].1.takes_value == Some(true)
                        && #[trigger] flag_chase(entry.flags, fe[q].0@, flimit as nat) == x by {
                        if fe[f as int].1.takes_value == Some(true) && !views(old_tv).contains(c@) {
                            assert(views(tv@) =~= views(old_tv).push(c@));
                        } else {
                            assert(views(tv@) =~= views(old_tv));
                        }
                        if views(tv@).contains(x) {
                            if !views(old_tv).contains(x) {
                                assert(x == c@);
                                assert(flag_chase(entry.flags, fe[f as int].0@, flimit as nat) == x);
                            }
                        }
                        if exists|q: int| 0 <= q < f + 1 && fe[q].1.takes_value == Some(true)
                            && #[trigger] flag_chase(entry.flags, fe[q].0@, flimit as nat) == x {
                            let q = choose|q: int| 0 <= q < f + 1 && fe[q].1.takes_value == Some(true)
                                && #[trigger] flag_chase(entry.flags, fe[q].0@, flimit as nat) == x;
                            if q == f {
                                assert(x == c@);
                                if views(old_tv).contains(c@) {
                                } else {
                                    assert(views(tv@)[views(tv@).len() - 1] == c@);
                                }
                            } else {
                                assert(views(old_tv).contains(x));
                                let i = choose|i: int| 0 <= i < views(old_tv).len() && views(old_tv)[i] == x;
                                assert(views(tv@)[i] == x);
                            }
                        }
                    }
                }
                let ghost old_fm = fm;
                if !str_eq(c.as_str(), name) {
                    fm.insert(owned(name), c);
                }
                proof {
                    assert(entry.flags.has(fe[f as int].0@)) by {
                        assert(entry.flags.spec_entries()[f as int].0@ == fe[f as int].0@);
                    }
                    assert forall|q: int| 0 <= q < f + 1 implies #[trigger] map_or_self(fm, fe[q].0@) == flag_chase(entry.flags, fe[q].0@, flimit as nat) by {
                        if q < f {
                            assert(fe[q].0@ != name@);
                            assert(map_or_self(fm, fe[q].0@) == map_or_self(old_fm, fe[q].0@));
                        }
                    }
                    assert forall|q: int| f + 1 <= q < fe.len() implies !fm.has(#[trigger] fe[q].0@) by {
                        assert(fe[q].0@ != name@);
                    }
                }
                f = f + 1;
            }
            proof {
                assert forall|x: Seq<char>| #[trigger] map_or_self(fm, x) == canon_flag_of(*self, b@, x) by {
                    if entry.flags.has(x) {
                        let q = choose|q: int| 0 <= q < fe.len() && #[trigger] entry.flags.spec_entries()[q].0@ == x;
                        assert(map_or_self(fm, fe[q].0@) == flag_chase(entry.flags, fe[q].0@, flimit as nat));
                    }
                }
                assert forall|x: Seq<char>| #[trigger] views(tv@).contains(x) == takes_value_of(*self, b@, x) by {
                    if views(tv@).contains(x) {
                        let q = choose|q: int| 0 <= q < fe.len() && fe[q].1.takes_value == Some(true)
                            && #[trigger] flag_chase(entry.flags, fe[q].0@, flimit as nat) == x;
                        entry.flags.lemma_value_at(q);
                        assert(entry.flags.value(fe[q].0@).takes_value == Some(true));
                        assert(canon_flag_of(*self, b@, fe[q].0@) == x);
                    }
                    if takes_value_of(*self, b@, x) {
                        let g = choose|g: Seq<char>| entry.flags.has(g) && #[trigger] entry.flags.value(g).takes_value == Some(true)
                            && canon_flag_of(*self, b@, g) == x;
                        let q = choose|q: int| 0 <= q < fe.len() && #[trigger] entry.flags.spec_entries()[q].0@ == g;
                        entry.flags.lemma_value_at(q);
                        assert(fe[q].1.takes_value == Some(true) && flag_chase(entry.flags, fe[q].0@, flimit as nat) == x);
                    }
                }
            }
            let ghost old_flag = flag;
            if !fm.is_empty() {
                flag.insert(owned(b), fm);
                proof {
                    assert forall|i: int| 0 <= i < flag.spec_entries().len() implies (#[trigger] flag.spec_entries()[i]).1.wf() by {
                        let key = flag.spec_entries()[i].0@;
                        assert(flag.spec_entries()[i].0@ == key);
                        flag.lemma_value_at(i);
                        if key != b@ {
                            let j = choose|j: int| 0 <= j < old_flag.spec_entries().len() && #[trigger] old_flag.spec_entries()[j].0@ == key;
                            old_flag.lemma_value_at(j);
                        }
                    }
                }
            } else {
                proof {
                    assert forall|x: Seq<char>| !fm.has(x) by {
                        if fm.has(x) {
                            let q = choose|q: int| 0 <= q < fm.spec_entries().len() && #[trigger] fm.spec_entries()[q].0@ == x;
                        }
                    }
                }
            }
            let ghost old_tvm = takes_value;
            let ghost tvv = tv@;
            if tv.len() > 0 {
                takes_value.insert(owned(b), tv);
            }
            proof {
                assert forall|kk: int, x: Seq<char>| 0 <= kk < k + 1 implies #[trigger] nested_or_self(flag, ks[kk].0@, x) == canon_flag_of(*self, ks[kk].0@, x) by {
                    if kk < k {
                        assert(ks[kk].0@ != b@);
                        assert(flag.lookup(ks[kk].0@) == old_flag.lookup(ks[kk].0@));
                        assert(nested_or_self(old_flag, ks[kk].0@, x) == canon_flag_of(*self, ks[kk].0@, x));
                    } else {
                        assert(ks[kk].0@ == b@);
                        assert(map_or_self(fm, x) == canon_flag_of(*self, b@, x));
                    }
                }
                assert forall|kk: int, x: Seq<char>| 0 <= kk < k + 1 implies #[trigger] listed_under(takes_value, ks[kk].0@, x) == takes_value_of(*self, ks[kk].0@, x) by {
                    if kk < k {
                        assert(ks[kk].0@ != b@);
                        assert(takes_value.lookup(ks[kk].0@) == old_tvm.lookup(ks[kk].0@));
                        assert(listed_under(old_tvm, ks[kk].0@, x) == takes_value_of(*self, ks[kk].0@, x));
                    } else {
                        assert(ks[kk].0@ == b@);
                        assert(views(tvv).contains(x) == takes_value_of(*self, b@, x));
                        if tvv.len() == 0 {
                            assert(!views(tvv).contains(x));
                        }
                    }
                }
                assert forall|kk: int| k + 1 <= kk < ks.len() implies !flag.has(#[trigger] ks[kk].0@) && !takes_value.has(ks[kk].0@) by {
                    assert(ks[kk].0@ != b@);
                }
                assert(self.bins.has(b@));
            }
            k = k + 1;
        }
        let r = CanonMaps { bin, sub_alias, flag, takes_value };
        proof {
            assert forall|b: Seq<char>| #[trigger] r.canon_bin_spec(b) == canon_bin_of(*self, b) by {
                if self.bins.has(b) {
                    let kk = choose|kk: int| 0 <= kk < ks.len() && #[trigger] self.bins.spec_entries()[kk].0@ == b;
                    assert(map_or_self(r.bin, ks[kk].0@) == canon_bin_of(*self, ks[kk].0@));
                }
            }
            assert forall|b: Seq<char>, f: Seq<char>| #[trigger] r.canon_flag_spec(b, f) == canon_flag_of(*self, b, f) by {
                if self.bins.has(b) {
                    let kk = choose|kk: int| 0 <= kk < ks.len() && #[trigger] self.bins.spec_entries()[kk].0@ == b;
                    assert(nested_or_self(r.flag, ks[kk].0@, f) == canon_flag_of(*self, ks[kk].0@, f));
                }
            }
            assert forall|b: Seq<char>, f: Seq<char>| #[trigger] r.takes_value_spec(b, f) == takes_value_of(*self, b, f) by {
                if self.bins.has(b) {
                    let kk = choose|kk: int| 0 <= kk < ks.len() && #[trigger] self.bins.spec_entries()[kk].0@ == b;
                    assert(listed_under(r.takes_value, ks[kk].0@, f) == takes_value_of(*self, ks[kk].0@, f));
                }
            }
            assert forall|b: Seq<char>, x: Seq<char>| #[trigger] r.sub_alias_spec(b, x) == sub_alias_of(*self, b, x) by {
                if self.bins.has(b) {
                    let kk = choose|kk: int| 0 <= kk < ks.len() && #[trigger] self.bins.spec_entries()[kk].0@ == b;
                    assert(nested_lookup(r.sub_alias, ks[kk].0@, x) == sub_alias_of(*self, ks[kk].0@, x));
                }
            }
        }
        r
    }
}

/// One `same_flag` step from `c` among `flags`.
pub open spec fn flag_step(flags: StrMap<FlagEntry>, c: Seq<char>) -> Option<Seq<char>> {
    match flags.lookup(c) {
        Some(fe) => opt_str_view(fe.same_flag),
        None => None,
    }
}

/// `n` `same_flag` steps from `f`.
pub open spec fn flag_walk(flags: StrMap<FlagEntry>, f: Seq<char>, n: nat) -> Option<Seq<char>>
    decreases n,
{
    if n == 0 {
        Some(f)
    } else {
        match flag_walk(flags, f, (n - 1) as nat) {
            Some(c) => flag_step(flags, c),
            None => None,
        }
    }
}

/// The flags that the `same_flag` walk from `f` visits in its first `n`
/// steps.
pub open spec fn flag_walk_names(flags: StrMap<FlagEntry>, f: Seq<char>, n: nat) -> Seq<Seq<char>> {
    Seq::new(n, |i: int| flag_walk(flags, f, i as nat)->0)
}

/// Step `n` of the `same_flag` walk from `f` is the first that revisits a
/// flag.
pub open spec fn flag_first_revisit(flags: StrMap<FlagEntry>, f: Seq<char>, n: nat) -> bool {
    &&& flag_walk(flags, f, n) is Some
    &&& exists|j: nat| j < n && #[trigger] flag_walk(flags, f, j) == flag_walk(flags, f, n)
    &&& forall|i: nat, j: nat| i < j < n ==> #[trigger] flag_walk(flags, f, i) != #[trigger] flag_walk(flags, f, j)
}

/// The message of the `same_flag` cycle of command `bin` that the walk from
/// `f` closes at step `n`.
pub open spec fn flag_cycle_message(bin: Seq<char>, flags: StrMap<FlagEntry>, f: Seq<char>, n: nat) -> Seq<char> {
    "knowledge same_flag cycle in ["@ + bin + "]: "@ + join_spec(flag_walk_names(flags, f, n), " → "@) + " → "@
        + flag_walk(flags, f, n)->0
}

/// The `same_flag` chain from `f` never revisits a flag.
pub open spec fn flag_chain_acyclic(flags: StrMap<FlagEntry>, f: Seq<char>) -> bool {
    forall|i: nat, j: nat|
        i < j && #[trigger] flag_walk(flags, f, i) is Some && #[trigger] flag_walk(flags, f, j) is Some ==> flag_walk(flags, f, i) != flag_walk(flags, f, j)
}

/// Every command alias chain reaches a fixed point.
pub open spec fn aliases_acyclic(kb: KnowledgeBase) -> bool {
    forall|b: Seq<char>| kb.bins.has(b) ==> chain_acyclic(kb, b)
}

/// `m` reports the first cycle of the base: the alias cycle of the first
/// command (in table order) whose alias walk revisits a name; when there is
/// none, the `same_flag` cycle of the first flag (in table order) of the
/// first command whose flag walks revisit a flag.
pub open spec fn kb_cycle_error(kb: KnowledgeBase, m: Seq<char>) -> bool {
    let ks = kb.bins.spec_entries();
    if !aliases_acyclic(kb) {
        exists|k: int, n: nat|
            #![trigger first_revisit(kb, ks[k].0@, n)]
            0 <= k < ks.len() && (forall|kk: int| 0 <= kk < k ==> chain_acyclic(kb, #[trigger] ks[kk].0@))
                && first_revisit(kb, ks[k].0@, n) && m == alias_cycle_message(kb, ks[k].0@, n)
    } else {
        exists|k: int, f: int, n: nat|
            #![trigger flag_first_revisit(ks[k].1.flags, ks[k].1.flags.spec_entries()[f].0@, n)]
            0 <= k < ks.len() && (forall|kk: int, fl: Seq<char>| 0 <= kk < k && #[trigger] ks[kk].1.flags.has(fl)
                ==> flag_chain_acyclic(ks[kk].1.flags, fl)) && 0 <= f < ks[k].1.flags.spec_entries().len() && (forall|ff: int|
                0 <= ff < f ==> flag_chain_acyclic(ks[k].1.flags, #[trigger] ks[k].1.flags.spec_entries()[ff].0@))
                && flag_first_revisit(ks[k].1.flags, ks[k].1.flags.spec_entries()[f].0@, n) && m == flag_cycle_message(
                ks[k].0@,
                ks[k].1.flags,
                ks[k].1.flags.spec_entries()[f].0@,
                n,
            )
    }
}

/// Every alias chain and every `same_flag` chain of the base reaches a
/// fixed point without revisiting a node.
pub open spec fn kb_acyclic(kb: KnowledgeBase) -> bool {
    &&& forall|b: Seq<char>| kb.bins.has(b) ==> chain_acyclic(kb, b)
    &&& forall|b: Seq<char>, f: Seq<char>| kb.bins.has(b) && #[trigger] kb.bins.value(b).flags.has(f)
        ==> flag_chain_acyclic(kb.bins.value(b).flags, f)
}

/// Distinct keys of a map are at most as many as its entries.
proof fn lemma_distinct_keys_bound<T>(seen: Seq<Seq<char>>, m: StrMap<T>)
    requires
        forall|i: int, j: int| 0 <= i < j < seen.len() ==> #[trigger] seen[i] != #[trigger] seen[j],
        forall|i: int| 0 <= i < seen.len() ==> m.has(#[trigger] seen[i]),
    ensures
        seen.len() <= m.spec_entries().len(),
{
    let kv = m.keys_view();
    assert(seen.no_duplicates());
    seen.unique_seq_to_set();
    kv.lemma_cardinality_of_set();
    assert forall|x: Seq<char>| seen.to_set().contains(x) implies kv.to_set().contains(x) by {
        let i = choose|i: int| 0 <= i < seen.len() && seen[i] == x;
        assert(m.has(seen[i]));
        let j = choose|j: int| 0 <= j < m.spec_entries().len() && #[trigger] m.spec_entries()[j].0@ == x;
        assert(kv[j] == x);
    }
    vstd::set_lib::lemma_len_subset(seen.to_set(), kv.to_set());
}

proof fn lemma_flag_walk_distinct(flags: StrMap<FlagEntry>, f: Seq<char>, seen: Seq<Seq<char>>)
    requires
        seen.len() >= 1,
        forall|i: int| 0 <= i < seen.len() ==> flag_walk(flags, f, i as nat) == Some(#[trigger] seen[i]),
        forall|i: int, j: int| 0 <= i < j < seen.len() ==> #[trigger] seen[i] != #[trigger] seen[j],
        forall|m: nat| m > (seen.len() - 1) as nat ==> #[trigger] flag_walk(flags, f, m) is None,
    ensures
        flag_chain_acyclic(flags, f),
{
    assert forall|i: nat, j: nat|
        i < j && #[trigger] flag_walk(flags, f, i) is Some && #[trigger] flag_walk(flags, f, j) is Some
        implies flag_walk(flags, f, i) != flag_walk(flags, f, j) by {
        assert(j < seen.len());
        assert(flag_walk(flags, f, i) == Some(seen[i as int]));
        assert(flag_walk(flags, f, j) == Some(seen[j as int]));
    }
}

proof fn lemma_flag_walk_stops(flags: StrMap<FlagEntry>, f: Seq<char>, n: nat)
    requires
        flag_walk(flags, f, n) is Some,
        flag_step(flags, flag_walk(flags, f, n).unwrap()) is None,
    ensures
        forall|m: nat| m > n ==> #[trigger] flag_walk(flags, f, m) is None,
{
    assert forall|m: nat| m > n implies #[trigger] flag_walk(flags, f, m) is None by {
        lemma_flag_walk_none_after(flags, f, n, m);
    }
}

proof fn lemma_flag_walk_none_after(flags: StrMap<FlagEntry>, f: Seq<char>, n: nat, m: nat)
    requires
        flag_walk(flags, f, n) is Some,
        flag_step(flags, flag_walk(flags, f, n).unwrap()) is None,
        m > n,
    ensures
        flag_walk(flags, f, m) is None,
    decreases m,
{
    if m > n + 1 {
        lemma_flag_walk_none_after(flags, f, n, (m - 1) as nat);
    }
}

proof fn lemma_walk_stops(kb: KnowledgeBase, b: Seq<char>, n: nat)
    requires
        walk(kb, b, n) is Some,
        alias_spec(kb, walk(kb, b, n).unwrap()) is None,
    ensures
        forall|m: nat| m > n ==> #[trigger] walk(kb, b, m) is None,
{
    assert forall|m: nat| m > n implies #[trigger] walk(kb, b, m) is None by {
        lemma_walk_none_after(kb, b, n, m);
    }
}

proof fn lemma_walk_none_after(kb: KnowledgeBase, b: Seq<char>, n: nat, m: nat)
    requires
        walk(kb, b, n) is Some,
        alias_spec(kb, walk(kb, b, n).unwrap()) is None,
        m > n,
    ensures
        walk(kb, b, m) is None,
    decreases m,
{
    if m > n + 1 {
        lemma_walk_none_after(kb, b, n, (m - 1) as nat);
    }
}

/// Normalisation maps; empty maps mean literal lookup (no knowledge base).
#[derive(Debug, Clone)]
pub struct CanonMaps {
    /// Command alias → canonical command (end of the chain).
    pub bin: StrMap<String>,
    /// bin → subcommand → target bin (the subcommand slot is absorbed).
    pub sub_alias: StrMap<StrMap<String>>,
    /// bin → flag alias → canonical flag.
    pub flag: StrMap<StrMap<String>>,
    /// bin → value-taking flags (canonical forms).
    pub takes_value: StrMap<Vec<String>>,
}

impl CanonMaps {
    pub open spec fn wf(&self) -> bool {
        &&& self.bin.wf()
        &&& self.sub_alias.wf()
        &&& forall|i: int| 0 <= i < self.sub_alias.spec_entries().len() ==> (#[trigger] self.sub_alias.spec_entries()[i]).1.wf()
        &&& self.flag.wf()
        &&& forall|i: int| 0 <= i < self.flag.spec_entries().len() ==> (#[trigger] self.flag.spec_entries()[i]).1.wf()
        &&& self.takes_value.wf()
    }

    /// Canonical form of a command name.
    pub open spec fn canon_bin_spec(&self, b: Seq<char>) -> Seq<char> {
        map_or_self(self.bin, b)
    }

    /// Canonical form of a flag of a command.
    pub open spec fn canon_flag_spec(&self, b: Seq<char>, f: Seq<char>) -> Seq<char> {
        nested_or_self(self.flag, b, f)
    }

    /// Whether a canonical flag of a command takes a value.
    pub open spec fn takes_value_spec(&self, b: Seq<char>, f: Seq<char>) -> bool {
        listed_under(self.takes_value, b, f)
    }

    /// Target bin of a subcommand alias.
    pub open spec fn sub_alias_spec(&self, b: Seq<char>, s: Seq<char>) -> Option<Seq<char>> {
        nested_lookup(self.sub_alias, b, s)
    }

    pub fn empty() -> (r: CanonMaps)
        ensures
            r.wf(),
            forall|b: Seq<char>| r.canon_bin_spec(b) == b,
            forall|b: Seq<char>, f: Seq<char>| r.canon_flag_spec(b, f) == f,
            forall|b: Seq<char>, f: Seq<char>| !r.takes_value_spec(b, f),
            forall|b: Seq<char>, s: Seq<char>| r.sub_alias_spec(b, s) is None,
            r.bin.spec_entries().len() == 0 && r.sub_alias.spec_entries().len() == 0,
            r.flag.spec_entries().len() == 0 && r.takes_value.spec_entries().len() == 0,
    {
        CanonMaps {
            bin: StrMap::new(),
            sub_alias: StrMap::new(),
            flag: StrMap::new(),
            takes_value: StrMap::new(),
        }
    }

    pub fn canon_bin(&self, bin: &str) -> (r: String)
        requires
            self.wf(),
        ensures
            r@ == self.canon_bin_spec(bin@),
    {
        match self.bin.get(bin) {
            Some(t) => t.clone(),
            None => owned(bin),
        }
    }

    pub fn canon_flag(&self, bin: &str, flag: &str) -> (r: String)
        requires
            self.wf(),
        ensures
            r@ == self.canon_flag_spec(bin@, flag@),
    {
        match self.flag.get(bin) {
            Some(m) => {
                proof {
                    let i = choose|i: int| 0 <= i < self.flag.spec_entries().len() && #[trigger] self.flag.spec_entries()[i].0@ == bin@;
                    assert(self.flag.spec_entries()[i].1.wf());
                }
                match m.get(flag) {
                    Some(t) => t.clone(),
                    None => owned(flag),
                }
            },
            None => owned(flag),
        }
    }

    /// Does the (canonical) `flag` of `bin` take a value?
    pub fn flag_takes_value(&self, bin: &str, canon_flag: &str) -> (r: bool)
        requires
            self.wf(),
        ensures
            r == self.takes_value_spec(bin@, canon_flag@),
    {
        match self.takes_value.get(bin) {
            Some(v) => vec_has(v, canon_flag),
            None => false,
        }
    }

    /// Target bin of the subcommand alias `bin sub`, if any.
    pub fn sub_alias_target(&self, bin: &str, sub: &str) -> (r: Option<String>)
        requires
            self.wf(),
        ensures
            match r {
                Some(t) => self.sub_alias_spec(bin@, sub@) == Some(t@),
                None => self.sub_alias_spec(bin@, sub@) is None,
            },
    {
        match self.sub_alias.get(bin) {
            Some(m) => {
                proof {
                    let i = choose|i: int| 0 <= i < self.sub_alias.spec_entries().len() && #[trigger] self.sub_alias.spec_entries()[i].0@ == bin@;
                    assert(self.sub_alias.spec_entries()[i].1.wf());
                }
                match m.get(sub) {
                    Some(t) => Some(t.clone()),
                    None => None,
                }
            },
            None => None,
        }
    }
}

// ---------------------------------------------------------------------------
// Decoding
// ---------------------------------------------------------------------------

/// The message of a knowledge value of the wrong kind under `path`.
pub open spec fn kb_type_text(expected: Seq<char>, path: Seq<char>) -> Seq<char> {
    "invalid type, expected "@ + expected + " for key `"@ + path + "`"@
}

/// The message of a negative count.
pub open spec fn negative_count_text(c: int) -> Seq<char> {
    "invalid value: integer `"@ + seq!['-'] + decimal((-c) as nat) + "`, expected u64"@
}

fn kb_type(expected: &str, path: &str) -> (r: String)
    ensures
        r@ == kb_type_text(expected@, path@),
{
    cat3("invalid type, expected ", expected, cat(" for key `", cat(path, "`").as_str()).as_str())
}

/// An optional string under a key: `Some(None)` when absent, `None` when it
/// is not a string.
pub open spec fn opt_str_node(v: Option<TomlNode>) -> Option<Option<Seq<char>>> {
    match v {
        None => Some(None),
        Some(TomlNode::Str(s)) => Some(Some(s@)),
        Some(_) => None,
    }
}

/// An optional boolean under a key (as [`opt_str_node`]).
pub open spec fn opt_bool_node(v: Option<TomlNode>) -> Option<Option<bool>> {
    match v {
        None => Some(None),
        Some(TomlNode::Bool(b)) => Some(Some(b)),
        Some(_) => None,
    }
}

/// An optional list of strings under a key (as [`opt_str_node`]).
pub open spec fn opt_strings_node(v: Option<TomlNode>) -> Option<Option<Seq<Seq<char>>>> {
    match v {
        None => Some(None),
        Some(n) => match string_list_of(n) {
            Some(l) => Some(Some(l)),
            None => None,
        },
    }
}

/// An optional non-negative integer under a key (as [`opt_str_node`]).
pub open spec fn opt_count_node(v: Option<TomlNode>) -> Option<Option<u64>> {
    match v {
        None => Some(None),
        Some(TomlNode::Int(c)) => if c >= 0 { Some(Some(c as u64)) } else { None },
        Some(_) => None,
    }
}

pub open spec fn opt_str_view(o: Option<String>) -> Option<Seq<char>> {
    match o {
        Some(s) => Some(s@),
        None => None,
    }
}

/// A subcommand entry as plain values.
pub struct SubEntryV {
    pub alias_of: Option<Seq<char>>,
    pub may_write: Option<bool>,
    pub write_flags: Option<Seq<Seq<char>>>,
    pub write_tokens: Option<Seq<Seq<char>>>,
    pub write_arg_count: Option<u64>,
}

pub open spec fn sub_view(s: SubEntry) -> SubEntryV {
    SubEntryV {
        alias_of: opt_str_view(s.alias_of),
        may_write: s.may_write,
        write_flags: crate::config::schema::opt_views(s.write_flags),
        write_tokens: crate::config::schema::opt_views(s.write_tokens),
        write_arg_count: s.write_arg_count,
    }
}

/// A flag entry as plain values.
pub struct FlagEntryV {
    pub same_flag: Option<Seq<char>>,
    pub takes_value: Option<bool>,
    pub irreversible: Option<bool>,
}

pub open spec fn flag_view(f: FlagEntry) -> FlagEntryV {
    FlagEntryV { same_flag: opt_str_view(f.same_flag), takes_value: f.takes_value, irreversible: f.irreversible }
}

pub open spec fn sub_keys() -> Seq<Seq<char>> {
    seq!["alias_of"@, "may_write"@, "write_flags"@, "write_tokens"@, "write_arg_count"@]
}

pub open spec fn flag_keys() -> Seq<Seq<char>> {
    seq!["same_flag"@, "takes_value"@, "irreversible"@]
}

pub open spec fn bin_keys() -> Seq<Seq<char>> {
    seq!["alias_of"@, "may_write"@, "write_flags"@, "delegates"@, "wraps"@, "sub"@, "flag"@]
}

/// The subcommand entry a node decodes to.
pub open spec fn sub_entry_spec(n: TomlNode) -> Option<SubEntryV> {
    match n {
        TomlNode::Table(es) => {
            let a = opt_str_node(entry_value(es@, "alias_of"@));
            let m = opt_bool_node(entry_value(es@, "may_write"@));
            let wf = opt_strings_node(entry_value(es@, "write_flags"@));
            let wt = opt_strings_node(entry_value(es@, "write_tokens"@));
            let c = opt_count_node(entry_value(es@, "write_arg_count"@));
            if keys_within(es@, sub_keys()) && a is Some && m is Some && wf is Some && wt is Some && c is Some {
                Some(SubEntryV {
                    alias_of: a.unwrap(),
                    may_write: m.unwrap(),
                    write_flags: wf.unwrap(),
                    write_tokens: wt.unwrap(),
                    write_arg_count: c.unwrap(),
                })
            } else {
                None
            }
        },
        _ => None,
    }
}

/// The flag entry a node decodes to.
pub open spec fn flag_entry_spec(n: TomlNode) -> Option<FlagEntryV> {
    match n {
        TomlNode::Table(es) => {
            let s = opt_str_node(entry_value(es@, "same_flag"@));
            let t = opt_bool_node(entry_value(es@, "takes_value"@));
            let i = opt_bool_node(entry_value(es@, "irreversible"@));
            if keys_within(es@, flag_keys()) && s is Some && t is Some && i is Some {
                Some(FlagEntryV { same_flag: s.unwrap(), takes_value: t.unwrap(), irreversible: i.unwrap() })
            } else {
                None
            }
        },
        _ => None,
    }
}

/// `m` is the error of reading `n` at `path` as a subcommand entry: a stray
/// key, then its slots in the order `alias_of`, `may_write`, `write_flags`,
/// `write_tokens`, `write_arg_count`.
pub open spec fn sub_entry_error(n: TomlNode, path: Seq<char>, m: Seq<char>) -> bool {
    match n {
        TomlNode::Table(es) => {
            let wf = entry_value(es@, "write_flags"@);
            let wt = entry_value(es@, "write_tokens"@);
            if !keys_within(es@, sub_keys()) {
                stray_key_error(es@, sub_keys(),
                    "one of `alias_of`, `may_write`, `write_flags`, `write_tokens`, `write_arg_count`"@, path, m)
            } else if opt_str_node(entry_value(es@, "alias_of"@)) is None {
                m == kb_type_text("a string"@, path + "."@ + "alias_of"@)
            } else if opt_bool_node(entry_value(es@, "may_write"@)) is None {
                m == kb_type_text("a boolean"@, path + "."@ + "may_write"@)
            } else if opt_strings_node(wf) is None {
                string_list_error(wf->0, path + "."@ + "write_flags"@, m)
            } else if opt_strings_node(wt) is None {
                string_list_error(wt->0, path + "."@ + "write_tokens"@, m)
            } else {
                match entry_value(es@, "write_arg_count"@) {
                    Some(TomlNode::Int(c)) => c < 0 && m == negative_count_text(c as int),
                    Some(_) => m == kb_type_text("u64"@, path + ".write_arg_count"@),
                    None => false,
                }
            }
        },
        _ => m == kb_type_text("a subcommand entry table"@, path),
    }
}

/// `m` is the error of reading `n` at `path` as a flag entry: a stray key,
/// then `same_flag`, `takes_value`, `irreversible`.
pub open spec fn flag_entry_error(n: TomlNode, path: Seq<char>, m: Seq<char>) -> bool {
    match n {
        TomlNode::Table(es) => {
            if !keys_within(es@, flag_keys()) {
                stray_key_error(es@, flag_keys(), "one of `same_flag`, `takes_value`, `irreversible`"@, path, m)
            } else if opt_str_node(entry_value(es@, "same_flag"@)) is None {
                m == kb_type_text("a string"@, path + "."@ + "same_flag"@)
            } else if opt_bool_node(entry_value(es@, "takes_value"@)) is None {
                m == kb_type_text("a boolean"@, path + "."@ + "takes_value"@)
            } else {
                opt_bool_node(entry_value(es@, "irreversible"@)) is None
                    && m == kb_type_text("a boolean"@, path + "."@ + "irreversible"@)
            }
        },
        _ => m == kb_type_text("a flag entry table"@, path),
    }
}

/// `m` is the error of the first entry of the `sub` table of the command
/// entry at `path` that does not decode.
pub open spec fn subs_error(se: Seq<(String, TomlNode)>, path: Seq<char>, m: Seq<char>) -> bool {
    exists|i: int|
        0 <= i < se.len() && (#[trigger] sub_entry_spec(se[i].1)) is None && (forall|k: int| 0 <= k < i ==> (
        #[trigger] sub_entry_spec(se[k].1)) is Some) && sub_entry_error(se[i].1, path + ".sub."@ + se[i].0@, m)
}

/// `m` is the error of the first entry of the `flag` table of the command
/// entry at `path` that does not decode.
pub open spec fn flags_error(fe: Seq<(String, TomlNode)>, path: Seq<char>, m: Seq<char>) -> bool {
    exists|i: int|
        0 <= i < fe.len() && (#[trigger] flag_entry_spec(fe[i].1)) is None && (forall|k: int| 0 <= k < i ==> (
        #[trigger] flag_entry_spec(fe[k].1)) is Some) && flag_entry_error(fe[i].1, path + ".flag."@ + fe[i].0@, m)
}

/// Every entry of a `sub` table decodes.
pub open spec fn subs_ok(es: Seq<(String, TomlNode)>) -> bool {
    forall|i: int| 0 <= i < es.len() ==> #[trigger] sub_entry_spec(es[i].1) is Some
}

/// Every entry of a `flag` table decodes.
pub open spec fn flags_ok(es: Seq<(String, TomlNode)>) -> bool {
    forall|i: int| 0 <= i < es.len() ==> #[trigger] flag_entry_spec(es[i].1) is Some
}

/// The `sub` (or `flag`) map of a command entry: absent is empty; otherwise
/// a table whose entries all decode.
pub open spec fn sub_table_ok(v: Option<TomlNode>) -> bool {
    match v {
        None => true,
        Some(TomlNode::Table(es)) => subs_ok(es@),
        Some(_) => false,
    }
}

pub open spec fn flag_table_ok(v: Option<TomlNode>) -> bool {
    match v {
        None => true,
        Some(TomlNode::Table(es)) => flags_ok(es@),
        Some(_) => false,
    }
}

/// The entries of a `sub` (or `flag`) map node (none when absent).
pub open spec fn table_entries(v: Option<TomlNode>) -> Seq<(String, TomlNode)> {
    match v {
        Some(TomlNode::Table(es)) => es@,
        _ => Seq::empty(),
    }
}

/// A node that decodes as a command entry.
pub open spec fn bin_entry_ok(n: TomlNode) -> bool {
    match n {
        TomlNode::Table(es) => {
            &&& keys_within(es@, bin_keys())
            &&& opt_str_node(entry_value(es@, "alias_of"@)) is Some
            &&& opt_bool_node(entry_value(es@, "may_write"@)) is Some
            &&& opt_strings_node(entry_value(es@, "write_flags"@)) is Some
            &&& opt_str_node(entry_value(es@, "delegates"@)) is Some
            &&& opt_str_node(entry_value(es@, "wraps"@)) is Some
            &&& sub_table_ok(entry_value(es@, "sub"@))
            &&& flag_table_ok(entry_value(es@, "flag"@))
        },
        _ => false,
    }
}

/// What a command entry is expected to be.
pub open spec fn bin_entry_expected() -> Seq<char> {
    "a knowledge entry: alias_of/may_write/write_flags/delegates/wraps slots plus reserved sub/flag maps"@
}

/// `m` is the error of reading `n` at `path` as a command entry: a stray
/// key, then `alias_of`, `may_write`, `write_flags`, `delegates`, `wraps`,
/// the `sub` map and the `flag` map.
pub open spec fn bin_entry_error(n: TomlNode, path: Seq<char>, m: Seq<char>) -> bool {
    match n {
        TomlNode::Table(es) => {
            let wf = entry_value(es@, "write_flags"@);
            let sub = entry_value(es@, "sub"@);
            let flag = entry_value(es@, "flag"@);
            if !keys_within(es@, bin_keys()) {
                stray_key_error(es@, bin_keys(),
                    "one of `alias_of`, `may_write`, `write_flags`, `delegates`, `wraps`, `sub`, `flag`"@, path, m)
            } else if opt_str_node(entry_value(es@, "alias_of"@)) is None {
                m == kb_type_text("a string"@, path + "."@ + "alias_of"@)
            } else if opt_bool_node(entry_value(es@, "may_write"@)) is None {
                m == kb_type_text("a boolean"@, path + "."@ + "may_write"@)
            } else if opt_strings_node(wf) is None {
                string_list_error(wf->0, path + "."@ + "write_flags"@, m)
            } else if opt_str_node(entry_value(es@, "delegates"@)) is None {
                m == kb_type_text("a string"@, path + "."@ + "delegates"@)
            } else if opt_str_node(entry_value(es@, "wraps"@)) is None {
                m == kb_type_text("a string"@, path + "."@ + "wraps"@)
            } else if !sub_table_ok(sub) {
                match sub {
                    Some(TomlNode::Table(se)) => subs_error(se@, path, m),
                    _ => m == kb_type_text("a table of subcommand entries"@, path + ".sub"@),
                }
            } else {
                match flag {
                    Some(TomlNode::Table(fe)) => flags_error(fe@, path, m),
                    Some(_) => m == kb_type_text("a table of flag entries"@, path + ".flag"@),
                    None => false,
                }
            }
        },
        _ => m == kb_type_text(bin_entry_expected(), path),
    }
}

/// A decoded command entry against the node it came from: each slot from
/// its key; each subcommand and flag from the last entry under its name.
pub open spec fn bin_entry_matches(e: BinEntry, n: TomlNode) -> bool {
    match n {
        TomlNode::Table(es) => {
            let se = table_entries(entry_value(es@, "sub"@));
            let fe = table_entries(entry_value(es@, "flag"@));
            &&& Some(opt_str_view(e.alias_of)) == opt_str_node(entry_value(es@, "alias_of"@))
            &&& Some(e.may_write) == opt_bool_node(entry_value(es@, "may_write"@))
            &&& Some(crate::config::schema::opt_views(e.write_flags)) == opt_strings_node(entry_value(es@, "write_flags"@))
            &&& Some(opt_str_view(e.delegates)) == opt_str_node(entry_value(es@, "delegates"@))
            &&& Some(opt_str_view(e.wraps)) == opt_str_node(entry_value(es@, "wraps"@))
            &&& forall|k: Seq<char>| #[trigger] e.subs.has(k) <==> last_value(se, k) is Some
            &&& forall|k: Seq<char>| #[trigger] e.subs.has(k) ==> sub_entry_spec(last_value(se, k).unwrap()) == Some(sub_view(e.subs.value(k)))
            &&& forall|k: Seq<char>| #[trigger] e.flags.has(k) <==> last_value(fe, k) is Some
            &&& forall|k: Seq<char>| #[trigger] e.flags.has(k) ==> flag_entry_spec(last_value(fe, k).unwrap()) == Some(flag_view(e.flags.value(k)))
        },
        _ => false,
    }
}

fn opt_string(entries: &Vec<(String, TomlNode)>, key: &str, path: &str) -> (r: Result<Option<String>, String>)
    ensures
        match r {
            Ok(o) => opt_str_node(entry_value(entries@, key@)) == Some(opt_str_view(o)),
            Err(m) => opt_str_node(entry_value(entries@, key@)) is None
                && m@ == kb_type_text("a string"@, path@ + "."@ + key@),
        },
{
    match find_entry(entries, key) {
        Some(TomlNode::Str(s)) => Ok(Some(s.clone())),
        Some(_) => Err(kb_type("a string", cat3(path, ".", key).as_str())),
        None => Ok(None),
    }
}

fn opt_bool(entries: &Vec<(String, TomlNode)>, key: &str, path: &str) -> (r: Result<Option<bool>, String>)
    ensures
        match r {
            Ok(o) => opt_bool_node(entry_value(entries@, key@)) == Some(o),
            Err(m) => opt_bool_node(entry_value(entries@, key@)) is None
                && m@ == kb_type_text("a boolean"@, path@ + "."@ + key@),
        },
{
    match find_entry(entries, key) {
        Some(TomlNode::Bool(b)) => Ok(Some(*b)),
        Some(_) => Err(kb_type("a boolean", cat3(path, ".", key).as_str())),
        None => Ok(None),
    }
}

fn opt_strings(entries: &Vec<(String, TomlNode)>, key: &str, path: &str) -> (r: Result<Option<Vec<String>>, String>)
    ensures
        match r {
            Ok(o) => opt_strings_node(entry_value(entries@, key@)) == Some(crate::config::schema::opt_views(o)),
            Err(m) => opt_strings_node(entry_value(entries@, key@)) is None
                && string_list_error(entry_value(entries@, key@)->0, path@ + "."@ + key@, m@),
        },
{
    match find_entry(entries, key) {
        Some(v) => {
            let p = cat3(path, ".", key);
            match decode_string_list(v, p.as_str()) {
                Ok(l) => Ok(Some(l)),
                Err(e) => Err(e),
            }
        },
        None => Ok(None),
    }
}

fn decode_sub_entry(n: &TomlNode, path: &str) -> (r: Result<SubEntry, String>)
    ensures
        match r {
            Ok(s) => sub_entry_spec(*n) == Some(sub_view(s)),
            Err(m) => sub_entry_spec(*n) is None && sub_entry_error(*n, path@, m@),
        },
{
    match n {
        TomlNode::Table(e) => {
            let allowed = vec!["alias_of", "may_write", "write_flags", "write_tokens", "write_arg_count"];
            let ck = check_keys(e, &allowed, "one of `alias_of`, `may_write`, `write_flags`, `write_tokens`, `write_arg_count`", path);
            proof {
                assert(allowed@[0]@ == sub_keys()[0]);
                assert(allowed@[1]@ == sub_keys()[1]);
                assert(allowed@[2]@ == sub_keys()[2]);
                assert(allowed@[3]@ == sub_keys()[3]);
                assert(allowed@[4]@ == sub_keys()[4]);
                lemma_keys_named(e@, allowed@, sub_keys());
            }
            match ck {
                Err(m) => {
                    proof {
                        lemma_stray_named(e@, allowed@, sub_keys(),
                            "one of `alias_of`, `may_write`, `write_flags`, `write_tokens`, `write_arg_count`"@, path@, m@);
                    }
                    return Err(m);
                },
                Ok(()) => {},
            }
            let alias_of = match opt_string(e, "alias_of", path) { Ok(v) => v, Err(m) => return Err(m) };
            let may_write = match opt_bool(e, "may_write", path) { Ok(v) => v, Err(m) => return Err(m) };
            let write_flags = match opt_strings(e, "write_flags", path) { Ok(v) => v, Err(m) => return Err(m) };
            let write_tokens = match opt_strings(e, "write_tokens", path) { Ok(v) => v, Err(m) => return Err(m) };
            let write_arg_count = match find_entry(e, "write_arg_count") {
                Some(TomlNode::Int(c)) => {
                    if *c < 0 {
                        let d = i64_decimal(*c);
                        let m = cat3("invalid value: integer `", d.as_str(), "`, expected u64");
                        proof {
                            assert(m@ =~= negative_count_text(*c as int));
                        }
                        return Err(m);
                    }
                    Some(*c as u64)
                },
                Some(_) => return Err(kb_type("u64", cat(path, ".write_arg_count").as_str())),
                None => None,
            };
            Ok(SubEntry { alias_of, may_write, write_flags, write_tokens, write_arg_count })
        },
        _ => Err(kb_type("a subcommand entry table", path)),
    }
}

fn decode_flag_entry(n: &TomlNode, path: &str) -> (r: Result<FlagEntry, String>)
    ensures
        match r {
            Ok(f) => flag_entry_spec(*n) == Some(flag_view(f)),
            Err(m) => flag_entry_spec(*n) is None && flag_entry_error(*n, path@, m@),
        },
{
    match n {
        TomlNode::Table(e) => {
            let allowed = vec!["same_flag", "takes_value", "irreversible"];
            let ck = check_keys(e, &allowed, "one of `same_flag`, `takes_value`, `irreversible`", path);
            proof {
                assert(allowed@[0]@ == flag_keys()[0]);
                assert(allowed@[1]@ == flag_keys()[1]);
                assert(allowed@[2]@ == flag_keys()[2]);
                lemma_keys_named(e@, allowed@, flag_keys());
            }
            match ck {
                Err(m) => {
                    proof {
                        lemma_stray_named(e@, allowed@, flag_keys(),
                            "one of `same_flag`, `takes_value`, `irreversible`"@, path@, m@);
                    }
                    return Err(m);
                },
                Ok(()) => {},
            }
            let same_flag = match opt_string(e, "same_flag", path) { Ok(v) => v, Err(m) => return Err(m) };
            let takes_value = match opt_bool(e, "takes_value", path) { Ok(v) => v, Err(m) => return Err(m) };
            let irreversible = match opt_bool(e, "irreversible", path) { Ok(v) => v, Err(m) => return Err(m) };
            Ok(FlagEntry { same_flag, takes_value, irreversible })
        },
        _ => Err(kb_type("a flag entry table", path)),
    }
}

/// Decodes the `sub` table of a command entry.
fn decode_subs(se: &Vec<(String, TomlNode)>, path: &str) -> (r: Result<StrMap<SubEntry>, String>)
    ensures
        r is Ok <==> subs_ok(se@),
        r matches Err(m) ==> subs_error(se@, path@, m@),
        r matches Ok(m) ==> m.wf() && (forall|k: Seq<char>| #[trigger] m.has(k) <==> last_value(se@, k) is Some)
            && (forall|k: Seq<char>| #[trigger] m.has(k) ==> sub_entry_spec(last_value(se@, k).unwrap()) == Some(sub_view(m.value(k)))),
{
    let mut subs: StrMap<SubEntry> = StrMap::new();
    let mut i: usize = 0;
    proof {
        assert(se@.take(0) =~= Seq::<(String, TomlNode)>::empty());
    }
    while i < se.len()
        invariant
            i <= se@.len(),
            subs.wf(),
            forall|q: int| 0 <= q < i ==> #[trigger] sub_entry_spec(se@[q].1) is Some,
            forall|k: Seq<char>| #[trigger] subs.has(k) <==> last_value(se@.take(i as int), k) is Some,
            forall|k: Seq<char>| #[trigger] subs.has(k) ==> sub_entry_spec(last_value(se@.take(i as int), k).unwrap()) == Some(sub_view(subs.value(k))),
        decreases se@.len() - i,
    {
        let ghost es1 = se@.take(i + 1);
        let ghost es0 = se@.take(i as int);
        let ghost key = se@[i as int].0@;
        proof {
            assert(es1.drop_last() =~= es0);
            assert(es1.last() == se@[i as int]);
        }
        let p = cat3(path, ".sub.", se[i].0.as_str());
        match decode_sub_entry(&se[i].1, p.as_str()) {
            Ok(s) => {
                let ghost before = subs;
                subs.insert(se[i].0.clone(), s);
                proof {
                    assert forall|k: Seq<char>| #[trigger] subs.has(k) <==> last_value(es1, k) is Some by {
                        if k != key {
                            assert(subs.has(k) == before.has(k));
                        }
                    }
                    assert forall|k: Seq<char>| #[trigger] subs.has(k) implies sub_entry_spec(last_value(es1, k).unwrap()) == Some(sub_view(subs.value(k))) by {
                        if k != key {
                            assert(before.has(k));
                        }
                    }
                }
            },
            Err(m) => {
                proof {
                    assert(subs_error(se@, path@, m@));
                }
                return Err(m);
            },
        }
        i = i + 1;
    }
    proof {
        assert(se@.take(se@.len() as int) =~= se@);
    }
    Ok(subs)
}

/// Decodes the `flag` table of a command entry.
fn decode_flags(fe: &Vec<(String, TomlNode)>, path: &str) -> (r: Result<StrMap<FlagEntry>, String>)
    ensures
        r is Ok <==> flags_ok(fe@),
        r matches Err(m) ==> flags_error(fe@, path@, m@),
        r matches Ok(m) ==> m.wf() && (forall|k: Seq<char>| #[trigger] m.has(k) <==> last_value(fe@, k) is Some)
            && (forall|k: Seq<char>| #[trigger] m.has(k) ==> flag_entry_spec(last_value(fe@, k).unwrap()) == Some(flag_view(m.value(k)))),
{
    let mut flags: StrMap<FlagEntry> = StrMap::new();
    let mut i: usize = 0;
    proof {
        assert(fe@.take(0) =~= Seq::<(String, TomlNode)>::empty());
    }
    while i < fe.len()
        invariant
            i <= fe@.len(),
            flags.wf(),
            forall|q: int| 0 <= q < i ==> #[trigger] flag_entry_spec(fe@[q].1) is Some,
            forall|k: Seq<char>| #[trigger] flags.has(k) <==> last_value(fe@.take(i as int), k) is Some,
            forall|k: Seq<char>| #[trigger] flags.has(k) ==> flag_entry_spec(last_value(fe@.take(i as int), k).unwrap()) == Some(flag_view(flags.value(k))),
        decreases fe@.len() - i,
    {
        let ghost es1 = fe@.take(i + 1);
        let ghost es0 = fe@.take(i as int);
        let ghost key = fe@[i as int].0@;
        proof {
            assert(es1.drop_last() =~= es0);
            assert(es1.last() == fe@[i as int]);
        }
        let p = cat3(path, ".flag.", fe[i].0.as_str());
        match decode_flag_entry(&fe[i].1, p.as_str()) {
            Ok(f) => {
                let ghost before = flags;
                flags.insert(fe[i].0.clone(), f);
                proof {
                    assert forall|k: Seq<char>| #[trigger] flags.has(k) <==> last_value(es1, k) is Some by {
                        if k != key {
                            assert(flags.has(k) == before.has(k));
                        }
                    }
                    assert forall|k: Seq<char>| #[trigger] flags.has(k) implies flag_entry_spec(last_value(es1, k).unwrap()) == Some(flag_view(flags.value(k))) by {
                        if k != key {
                            assert(before.has(k));
                        }
                    }
                }
            },
            Err(m) => {
                proof {
                    assert(flags_error(fe@, path@, m@));
                }
                return Err(m);
            },
        }
        i = i + 1;
    }
    proof {
        assert(fe@.take(fe@.len() as int) =~= fe@);
    }
    Ok(flags)
}

fn decode_bin_entry(n: &TomlNode, path: &str) -> (r: Result<BinEntry, String>)
    ensures
        r is Ok <==> bin_entry_ok(*n),
        r matches Err(m) ==> bin_entry_error(*n, path@, m@),
        r matches Ok(e) ==> e.subs.wf() && e.flags.wf() && bin_entry_matches(e, *n),
{
    match n {
        TomlNode::Table(e) => {
            let allowed = vec!["alias_of", "may_write", "write_flags", "delegates", "wraps", "sub", "flag"];
            let ck = check_keys(e, &allowed, "one of `alias_of`, `may_write`, `write_flags`, `delegates`, `wraps`, `sub`, `flag`", path);
            proof {
                assert(allowed@[0]@ == bin_keys()[0]);
                assert(allowed@[1]@ == bin_keys()[1]);
                assert(allowed@[2]@ == bin_keys()[2]);
                assert(allowed@[3]@ == bin_keys()[3]);
                assert(allowed@[4]@ == bin_keys()[4]);
                assert(allowed@[5]@ == bin_keys()[5]);
                assert(allowed@[6]@ == bin_keys()[6]);
                lemma_keys_named(e@, allowed@, bin_keys());
            }
            match ck {
                Err(m) => {
                    proof {
                        lemma_stray_named(e@, allowed@, bin_keys(),
                            "one of `alias_of`, `may_write`, `write_flags`, `delegates`, `wraps`, `sub`, `flag`"@, path@, m@);
                    }
                    return Err(m);
                },
                Ok(()) => {},
            }
            let alias_of = match opt_string(e, "alias_of", path) { Ok(v) => v, Err(m) => return Err(m) };
            let may_write = match opt_bool(e, "may_write", path) { Ok(v) => v, Err(m) => return Err(m) };
            let write_flags = match opt_strings(e, "write_flags", path) { Ok(v) => v, Err(m) => return Err(m) };
            let delegates = match opt_string(e, "delegates", path) { Ok(v) => v, Err(m) => return Err(m) };
            let wraps = match opt_string(e, "wraps", path) { Ok(v) => v, Err(m) => return Err(m) };
            let subs = match find_entry(e, "sub") {
                Some(TomlNode::Table(se)) => match decode_subs(se, path) {
                    Ok(m) => m,
                    Err(m) => return Err(m),
                },
                Some(_) => return Err(kb_type("a table of subcommand entries", cat(path, ".sub").as_str())),
                None => StrMap::new(),
            };
            let flags = match find_entry(e, "flag") {
                Some(TomlNode::Table(fe)) => match decode_flags(fe, path) {
                    Ok(m) => m,
                    Err(m) => return Err(m),
                },
                Some(_) => return Err(kb_type("a table of flag entries", cat(path, ".flag").as_str())),
                None => StrMap::new(),
            };
            let r = BinEntry { alias_of, may_write, write_flags, delegates, wraps, subs, flags };
            proof {
                assert forall|k: Seq<char>| #[trigger] r.subs.has(k) <==> last_value(table_entries(entry_value(e@, "sub"@)), k) is Some by {
                    if entry_value(e@, "sub"@) is None {
                        assert(!r.subs.has(k)) by {
                            if r.subs.has(k) {
                                let j = choose|j: int| 0 <= j < r.subs.spec_entries().len() && #[trigger] r.subs.spec_entries()[j].0@ == k;
                            }
                        }
                    }
                }
                assert forall|k: Seq<char>| #[trigger] r.flags.has(k) <==> last_value(table_entries(entry_value(e@, "flag"@)), k) is Some by {
                    if entry_value(e@, "flag"@) is None {
                        assert(!r.flags.has(k)) by {
                            if r.flags.has(k) {
                                let j = choose|j: int| 0 <= j < r.flags.spec_entries().len() && #[trigger] r.flags.spec_entries()[j].0@ == k;
                            }
                        }
                    }
                }
            }
            Ok(r)
        },
        _ => Err(kb_type(
            "a knowledge entry: alias_of/may_write/write_flags/delegates/wraps slots plus reserved sub/flag maps",
            path,
        )),
    }
}

/// One top-level entry of a knowledge file decodes: `version` a
/// non-negative integer, any other key a command entry.
pub open spec fn kb_entry_ok(e: (String, TomlNode)) -> bool {
    if e.0@ == "version"@ {
        e.1 matches TomlNode::Int(v) && v >= 0
    } else {
        bin_entry_ok(e.1)
    }
}

pub open spec fn kb_entries_ok(es: Seq<(String, TomlNode)>) -> bool {
    forall|i: int| 0 <= i < es.len() ==> #[trigger] kb_entry_ok(es[i])
}

/// A decoded knowledge base against the entries it came from: the version
/// and each command from the last entry under its key.
pub open spec fn kb_matches(kb: KnowledgeBase, es: Seq<(String, TomlNode)>) -> bool {
    &&& (last_value(es, "version"@) matches Some(TomlNode::Int(v)) && kb.version as int == v)
    &&& forall|b: Seq<char>| #[trigger] kb.bins.has(b) <==> (b != "version"@ && last_value(es, b) is Some)
    &&& forall|b: Seq<char>| #[trigger] kb.bins.has(b) ==> bin_entry_matches(kb.bins.value(b), last_value(es, b).unwrap())
}

/// `m` is the error of the top-level entry `k = v` of a knowledge file.
pub open spec fn kb_entry_error(k: Seq<char>, v: TomlNode, m: Seq<char>) -> bool {
    if k == "version"@ {
        match v {
            TomlNode::Int(c) => m == negative_count_text(c as int),
            _ => m == kb_type_text("u64"@, "version"@),
        }
    } else {
        bin_entry_error(v, k, m)
    }
}

/// `m` is the parse error of a knowledge file's top-level entries: that of
/// its first entry that does not decode, else a missing version.
pub open spec fn kb_parse_error(es: Seq<(String, TomlNode)>, m: Seq<char>) -> bool {
    if kb_entries_ok(es) {
        m == "missing field `version`"@
    } else {
        exists|i: int|
            0 <= i < es.len() && !#[trigger] kb_entry_ok(es[i]) && (forall|k: int| 0 <= k < i ==> #[trigger] kb_entry_ok(
            es[k])) && kb_entry_error(es[i].0@, es[i].1, m)
    }
}

/// The message of an unsupported knowledge schema version.
pub open spec fn kb_version_message(v: nat) -> Seq<char> {
    "knowledge schema version "@ + decimal(v) + " is not supported by this build (expected "@
        + "version 1); upgrade crush-tether or regenerate the file"@
}

/// Decodes a knowledge base from its top-level table: `version` plus one
/// table per command.
pub fn decode_knowledge(entries: &Vec<(String, TomlNode)>) -> (r: Result<KnowledgeBase, ConfigError>)
    ensures
        r is Ok <==> kb_entries_ok(entries@) && last_value(entries@, "version"@) is Some,
        r matches Err(e) ==> e is Parse,
        r matches Err(ConfigError::Parse(m)) ==> kb_parse_error(entries@, m@),
        r matches Ok(kb) ==> kb_matches(kb, entries@),
        r matches Ok(kb) ==> kb.bins.wf(),
        r matches Ok(kb) ==> forall|b: Seq<char>| kb.bins.has(b) ==> #[trigger] kb.bins.value(b).subs.wf(),
        r matches Ok(kb) ==> forall|b: Seq<char>| kb.bins.has(b) ==> #[trigger] kb.bins.value(b).flags.wf(),
{
    let mut version: Option<u64> = None;
    let mut bins: StrMap<BinEntry> = StrMap::new();
    let mut i: usize = 0;
    proof {
        assert(entries@.take(0) =~= Seq::<(String, TomlNode)>::empty());
    }
    while i < entries.len()
        invariant
            i <= entries@.len(),
            bins.wf(),
            forall|b: Seq<char>| bins.has(b) ==> #[trigger] bins.value(b).subs.wf(),
            forall|b: Seq<char>| bins.has(b) ==> #[trigger] bins.value(b).flags.wf(),
            forall|q: int| 0 <= q < i ==> #[trigger] kb_entry_ok(entries@[q]),
            match version {
                Some(v) => last_value(entries@.take(i as int), "version"@) matches Some(TomlNode::Int(w)) && v as int == w,
                None => last_value(entries@.take(i as int), "version"@) is None,
            },
            forall|b: Seq<char>| #[trigger] bins.has(b) <==> (b != "version"@ && last_value(entries@.take(i as int), b) is Some),
            forall|b: Seq<char>| #[trigger] bins.has(b) ==> bin_entry_matches(bins.value(b), last_value(entries@.take(i as int), b).unwrap()),
        decreases entries@.len() - i,
    {
        let key = entries[i].0.as_str();
        let ghost es1 = entries@.take(i + 1);
        let ghost es0 = entries@.take(i as int);
        proof {
            assert(es1.drop_last() =~= es0);
            assert(es1.last() == entries@[i as int]);
        }
        if str_eq(key, "version") {
            match &entries[i].1 {
                TomlNode::Int(v) => {
                    if *v < 0 {
                        let d = i64_decimal(*v);
                        let m = cat3("invalid value: integer `", d.as_str(), "`, expected u64");
                        proof {
                            assert(!kb_entry_ok(entries@[i as int]));
                            assert(m@ =~= negative_count_text(*v as int));
                            assert(kb_entry_error(entries@[i as int].0@, entries@[i as int].1, m@));
                        }
                        return Err(ConfigError::Parse(m));
                    }
                    version = Some(*v as u64);
                },
                _ => {
                    let m = kb_type("u64", "version");
                    proof {
                        assert(!kb_entry_ok(entries@[i as int]));
                        assert(kb_entry_error(entries@[i as int].0@, entries@[i as int].1, m@));
                    }
                    return Err(ConfigError::Parse(m));
                },
            }
            proof {
                assert forall|b: Seq<char>| #[trigger] bins.has(b) <==> (b != "version"@ && last_value(es1, b) is Some) by {
                    if b != "version"@ {
                        assert(last_value(es1, b) == last_value(es0, b));
                    }
                }
                assert forall|b: Seq<char>| #[trigger] bins.has(b) implies bin_entry_matches(bins.value(b), last_value(es1, b).unwrap()) by {
                    assert(last_value(es1, b) == last_value(es0, b));
                }
            }
        } else {
            match decode_bin_entry(&entries[i].1, key) {
                Ok(e) => {
                    let ghost before = bins;
                    bins.insert(owned(key), e);
                    proof {
                        assert(last_value(es1, "version"@) == last_value(es0, "version"@));
                        assert forall|b: Seq<char>| #[trigger] bins.has(b) <==> (b != "version"@ && last_value(es1, b) is Some) by {
                            if b != key@ {
                                assert(bins.has(b) == before.has(b));
                            }
                        }
                        assert forall|b: Seq<char>| #[trigger] bins.has(b) implies bin_entry_matches(bins.value(b), last_value(es1, b).unwrap()) by {
                            if b != key@ {
                                assert(before.has(b));
                            }
                        }
                        assert forall|b: Seq<char>| bins.has(b) implies #[trigger] bins.value(b).subs.wf() by {
                            if b != key@ {
                                assert(before.has(b));
                            }
                        }
                        assert forall|b: Seq<char>| bins.has(b) implies #[trigger] bins.value(b).flags.wf() by {
                            if b != key@ {
                                assert(before.has(b));
                            }
                        }
                    }
                },
                Err(m) => {
                    proof {
                        assert(!kb_entry_ok(entries@[i as int]));
                        assert(kb_entry_error(entries@[i as int].0@, entries@[i as int].1, m@));
                    }
                    return Err(ConfigError::Parse(m));
                },
            }
        }
        proof {
            assert(kb_entry_ok(entries@[i as int]));
        }
        i = i + 1;
    }
    proof {
        assert(entries@.take(entries@.len() as int) =~= entries@);
    }
    match version {
        Some(v) => Ok(KnowledgeBase { version: v, bins }),
        None => Err(ConfigError::Parse(owned("missing field `version`"))),
    }
}

// ---------------------------------------------------------------------------
// Queries for rule scripts
// ---------------------------------------------------------------------------

/// An absent knowledge base, or one whose tables are keyed once each.
pub open spec fn kb_wf(kb: Option<KnowledgeBase>) -> bool {
    kb matches Some(k) ==> {
        &&& k.bins.wf()
        &&& forall|b: Seq<char>| k.bins.has(b) ==> #[trigger] k.bins.value(b).subs.wf()
        &&& forall|b: Seq<char>| k.bins.has(b) ==> #[trigger] k.bins.value(b).flags.wf()
    }
}

/// The entry of `bin`.
pub open spec fn bin_of(kb: Option<KnowledgeBase>, bin: Seq<char>) -> Option<BinEntry> {
    match kb {
        Some(k) => k.bins.lookup(bin),
        None => None,
    }
}

/// The entry of subcommand `sub` of `bin`.
pub open spec fn sub_of(kb: Option<KnowledgeBase>, bin: Seq<char>, sub: Seq<char>) -> Option<SubEntry> {
    match bin_of(kb, bin) {
        Some(e) => e.subs.lookup(sub),
        None => None,
    }
}

fn sub_entry<'a>(kb: &'a Option<KnowledgeBase>, bin: &str, sub: &str) -> (r: Option<&'a SubEntry>)
    requires
        kb_wf(*kb),
    ensures
        match r {
            Some(e) => sub_of(*kb, bin@, sub@) == Some(*e),
            None => sub_of(*kb, bin@, sub@) is None,
        },
{
    match kb {
        Some(k) => match k.bins.get(bin) {
            Some(e) => {
                proof {
                    assert(k.bins.has(bin@));
                    assert(k.bins.value(bin@).subs.wf());
                }
                e.subs.get(sub)
            },
            None => None,
        },
        None => None,
    }
}

/// The write tokens of `bin sub` (none when unknown).
pub fn kb_write_tokens(kb: &Option<KnowledgeBase>, bin: &str, sub: &str) -> (r: Vec<String>)
    requires
        kb_wf(*kb),
    ensures
        views(r@) == match sub_of(*kb, bin@, sub@) {
            Some(e) => match e.write_tokens {
                Some(t) => views(t@),
                None => Seq::empty(),
            },
            None => Seq::empty(),
        },
{
    match sub_entry(kb, bin, sub) {
        Some(e) => match &e.write_tokens {
            Some(t) => crate::text::copy_vec(t),
            None => Vec::new(),
        },
        None => Vec::new(),
    }
}

/// How many positional arguments of `bin sub` are written to (0 when
/// unknown).
pub fn kb_write_arg_count(kb: &Option<KnowledgeBase>, bin: &str, sub: &str) -> (r: u64)
    requires
        kb_wf(*kb),
    ensures
        r == match sub_of(*kb, bin@, sub@) {
            Some(e) => match e.write_arg_count {
                Some(n) => n,
                None => 0,
            },
            None => 0,
        },
{
    match sub_entry(kb, bin, sub) {
        Some(e) => match e.write_arg_count {
            Some(n) => n,
            None => 0,
        },
        None => 0,
    }
}

/// Whether `bin` is marked `may_write`.
pub fn kb_may_write(kb: &Option<KnowledgeBase>, bin: &str) -> (r: bool)
    requires
        kb_wf(*kb),
    ensures
        r == (bin_of(*kb, bin@) matches Some(e) && e.may_write == Some(true)),
{
    match kb {
        Some(k) => match k.bins.get(bin) {
            Some(e) => e.may_write == Some(true),
            None => false,
        },
        None => false,
    }
}

/// Whether the knowledge base has an entry for `bin`.
pub fn kb_known(kb: &Option<KnowledgeBase>, bin: &str) -> (r: bool)
    requires
        kb_wf(*kb),
    ensures
        r == (bin_of(*kb, bin@) is Some),
{
    match kb {
        Some(k) => k.bins.contains_key(bin),
        None => false,
    }
}

/// Whether `flag` of `bin` is marked irreversible.
pub fn kb_irreversible(kb: &Option<KnowledgeBase>, bin: &str, flag: &str) -> (r: bool)
    requires
        kb_wf(*kb),
    ensures
        r == (bin_of(*kb, bin@) matches Some(e) && e.flags.lookup(flag@) matches Some(f) && f.irreversible == Some(true)),
{
    match kb {
        Some(k) => match k.bins.get(bin) {
            Some(e) => {
                proof {
                    assert(k.bins.has(bin@));
                    assert(k.bins.value(bin@).flags.wf());
                }
                match e.flags.get(flag) {
                    Some(f) => f.irreversible == Some(true),
                    None => false,
                }
            },
            None => false,
        },
        None => false,
    }
}


/// One alias step from `c` shifts the walk by one.
proof fn lemma_walk_shift(kb: KnowledgeBase, c: Seq<char>, t: Seq<char>, k: nat)
    requires
        alias_spec(kb, c) == Some(t),
    ensures
        walk(kb, c, k + 1) == walk(kb, t, k),
    decreases k,
{
    if k > 0 {
        lemma_walk_shift(kb, c, t, (k - 1) as nat);
        assert(walk(kb, c, k + 1) == match walk(kb, c, k) { Some(x) => alias_spec(kb, x), None => None });
        assert(walk(kb, t, k) == match walk(kb, t, (k - 1) as nat) { Some(x) => alias_spec(kb, x), None => None });
    } else {
        assert(walk(kb, c, 0) == Some(c));
        assert(walk(kb, c, 1) == match walk(kb, c, 0) { Some(x) => alias_spec(kb, x), None => None });
    }
}

/// Chasing `n` steps from `c` either stops at a command without an alias,
/// or has taken `n` steps, every one of them defined.
proof fn lemma_chase_walk(kb: KnowledgeBase, c: Seq<char>, n: nat)
    ensures
        alias_spec(kb, chase(kb, c, n)) is None
            || (walk(kb, c, n) == Some(chase(kb, c, n)) && forall|k: nat| k <= n ==> #[trigger] walk(kb, c, k) is Some),
    decreases n,
{
    if n > 0 {
        match alias_spec(kb, c) {
            Some(t) => {
                lemma_chase_walk(kb, t, (n - 1) as nat);
                if alias_spec(kb, chase(kb, c, n)) is Some {
                    lemma_walk_shift(kb, c, t, (n - 1) as nat);
                    assert forall|k: nat| k <= n implies #[trigger] walk(kb, c, k) is Some by {
                        if k > 0 {
                            lemma_walk_shift(kb, c, t, (k - 1) as nat);
                        }
                    }
                }
            },
            None => {},
        }
    }
}

/// A command with an alias is a command of the base.
proof fn lemma_alias_has(kb: KnowledgeBase, c: Seq<char>)
    requires
        alias_spec(kb, c) is Some,
    ensures
        kb.bins.has(c),
{
}

/// In an acyclic base, the canonical name of a command has no alias.
proof fn lemma_canon_has_no_alias(kb: KnowledgeBase, b: Seq<char>)
    requires
        kb.bins.wf(),
        kb_acyclic(kb),
    ensures
        alias_spec(kb, canon_bin_of(kb, b)) is None,
{
    if kb.bins.has(b) {
        let n = kb.bins.spec_entries().len();
        lemma_chase_walk(kb, b, n);
        if alias_spec(kb, chase(kb, b, n)) is Some {
            let seen = Seq::new(n + 1, |i: int| walk(kb, b, i as nat).unwrap());
            assert forall|i: int| 0 <= i < seen.len() implies kb.bins.has(#[trigger] seen[i]) by {
                if i < n {
                    lemma_walk_shift_some(kb, b, i as nat);
                    lemma_alias_has(kb, seen[i]);
                } else {
                    lemma_alias_has(kb, seen[i]);
                }
            }
            assert forall|i: int, j: int| 0 <= i < j < seen.len() implies #[trigger] seen[i] != #[trigger] seen[j] by {
                assert(walk(kb, b, i as nat) is Some && walk(kb, b, j as nat) is Some);
                assert(chain_acyclic(kb, b));
            }
            lemma_distinct_keys_bound(seen, kb.bins);
        }
    }
}

/// `walk` one step further is defined only through an alias.
proof fn lemma_walk_shift_some(kb: KnowledgeBase, b: Seq<char>, i: nat)
    requires
        walk(kb, b, i + 1) is Some,
    ensures
        walk(kb, b, i) is Some,
        alias_spec(kb, walk(kb, b, i).unwrap()) is Some,
{
}

/// Canonical names are a fixed point: the canonical name of a canonical
/// name is itself (in an acyclic knowledge base).
pub proof fn law_canonical_name_is_fixed(kb: KnowledgeBase, b: Seq<char>)
    requires
        kb.bins.wf(),
        kb_acyclic(kb),
    ensures
        canon_bin_of(kb, canon_bin_of(kb, b)) == canon_bin_of(kb, b),
{
    lemma_canon_has_no_alias(kb, b);
    let e = canon_bin_of(kb, b);
    if kb.bins.has(e) && kb.bins.spec_entries().len() > 0 {
        assert(chase(kb, e, kb.bins.spec_entries().len()) == e);
    }
}


/// One `same_flag` step from `c` shifts the walk by one.
proof fn lemma_flag_walk_shift(flags: StrMap<FlagEntry>, c: Seq<char>, t: Seq<char>, k: nat)
    requires
        flag_step(flags, c) == Some(t),
    ensures
        flag_walk(flags, c, k + 1) == flag_walk(flags, t, k),
    decreases k,
{
    if k > 0 {
        lemma_flag_walk_shift(flags, c, t, (k - 1) as nat);
        assert(flag_walk(flags, c, k + 1) == match flag_walk(flags, c, k) { Some(x) => flag_step(flags, x), None => None });
        assert(flag_walk(flags, t, k) == match flag_walk(flags, t, (k - 1) as nat) { Some(x) => flag_step(flags, x), None => None });
    } else {
        assert(flag_walk(flags, c, 0) == Some(c));
        assert(flag_walk(flags, c, 1) == match flag_walk(flags, c, 0) { Some(x) => flag_step(flags, x), None => None });
    }
}

/// Chasing `n` steps from `c` either stops at a flag without `same_flag`,
/// or has taken `n` steps, every one of them defined.
proof fn lemma_flag_chase_walk(flags: StrMap<FlagEntry>, c: Seq<char>, n: nat)
    ensures
        flag_step(flags, flag_chase(flags, c, n)) is None
            || (flag_walk(flags, c, n) == Some(flag_chase(flags, c, n)) && forall|k: nat| k <= n ==> #[trigger] flag_walk(flags, c, k) is Some),
    decreases n,
{
    if n > 0 {
        match flag_step(flags, c) {
            Some(t) => {
                lemma_flag_chase_walk(flags, t, (n - 1) as nat);
                if flag_step(flags, flag_chase(flags, c, n)) is Some {
                    lemma_flag_walk_shift(flags, c, t, (n - 1) as nat);
                    assert forall|k: nat| k <= n implies #[trigger] flag_walk(flags, c, k) is Some by {
                        if k > 0 {
                            lemma_flag_walk_shift(flags, c, t, (k - 1) as nat);
                        }
                    }
                }
            },
            None => {},
        }
    }
}

/// A walk one step further is defined only through a `same_flag` step.
proof fn lemma_flag_walk_back(flags: StrMap<FlagEntry>, f: Seq<char>, i: nat)
    requires
        flag_walk(flags, f, i + 1) is Some,
    ensures
        flag_walk(flags, f, i) is Some,
        flag_step(flags, flag_walk(flags, f, i).unwrap()) is Some,
{
}

/// In an acyclic chain, its end has no `same_flag`.
proof fn lemma_flag_end(flags: StrMap<FlagEntry>, f: Seq<char>)
    requires
        flags.wf(),
        flags.has(f),
        flag_chain_acyclic(flags, f),
    ensures
        flag_step(flags, flag_chase(flags, f, flags.spec_entries().len())) is None,
{
    let n = flags.spec_entries().len();
    lemma_flag_chase_walk(flags, f, n);
    if flag_step(flags, flag_chase(flags, f, n)) is Some {
        let seen = Seq::new(n + 1, |i: int| flag_walk(flags, f, i as nat).unwrap());
        assert forall|i: int| 0 <= i < seen.len() implies flags.has(#[trigger] seen[i]) by {
            if i < n {
                lemma_flag_walk_back(flags, f, i as nat);
            }
            assert(flag_step(flags, seen[i]) is Some);
        }
        assert forall|i: int, j: int| 0 <= i < j < seen.len() implies #[trigger] seen[i] != #[trigger] seen[j] by {
            assert(flag_walk(flags, f, i as nat) is Some && flag_walk(flags, f, j as nat) is Some);
        }
        lemma_distinct_keys_bound(seen, flags);
    }
}

/// Canonical flags are a fixed point: the canonical form of a canonical
/// flag of a command is itself (in an acyclic knowledge base).
pub proof fn law_canonical_flag_is_fixed(kb: KnowledgeBase, b: Seq<char>, f: Seq<char>)
    requires
        kb_wf(Some(kb)),
        kb_acyclic(kb),
    ensures
        canon_flag_of(kb, b, canon_flag_of(kb, b, f)) == canon_flag_of(kb, b, f),
{
    if kb.bins.has(b) && kb.bins.value(b).flags.has(f) {
        let flags = kb.bins.value(b).flags;
        assert(flags.wf());
        assert(flag_chain_acyclic(flags, f));
        lemma_flag_end(flags, f);
        let e = canon_flag_of(kb, b, f);
        if flags.has(e) {
            assert(flags.spec_entries().len() > 0);
            assert(flag_chase(flags, e, flags.spec_entries().len()) == e);
        }
    }
}


/// The normalisation maps of an acyclic knowledge base resolve each chain
/// to its fixed point: mapping a canonical command name or a canonical flag
/// again changes nothing.
pub proof fn law_canon_maps_reach_fixed_point(kb: KnowledgeBase, c: CanonMaps, b: Seq<char>, f: Seq<char>)
    requires
        kb_wf(Some(kb)),
        kb_acyclic(kb),
        canon_agrees(Some(kb), c),
    ensures
        c.canon_bin_spec(c.canon_bin_spec(b)) == c.canon_bin_spec(b),
        c.canon_flag_spec(b, c.canon_flag_spec(b, f)) == c.canon_flag_spec(b, f),
{
    law_canonical_name_is_fixed(kb, b);
    law_canonical_flag_is_fixed(kb, b, f);
    assert(c.canon_bin_spec(b) == canon_bin_of(kb, b));
    assert(c.canon_bin_spec(canon_bin_of(kb, b)) == canon_bin_of(kb, canon_bin_of(kb, b)));
    assert(c.canon_flag_spec(b, f) == canon_flag_of(kb, b, f));
    assert(c.canon_flag_spec(b, canon_flag_of(kb, b, f)) == canon_flag_of(kb, b, canon_flag_of(kb, b, f)));
}

} // verus!
