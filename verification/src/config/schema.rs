//! The `rules.toml` data model (schema version 1) and its strict decoder.
//!
//! - Bare keys: `version` (required), `default` (fallback tier) and
//!   `precedence` (a permutation of the three buckets).
//! - `[local]` / `[global]` scope tables: head bare-list buckets, the
//!   `script_allow` declaration list and any number of command sections.
//! - Command sections: `allow` / `confirm` / `deny` buckets with `sub` and
//!   `flag` dimensions, an optional `default` and an optional `script_allow`.
//! - List values: an array overrides, `{ add = [...], remove = [...] }`
//!   inherits from the lower layer and edits it.
//!
//! Unknown keys are errors: a misspelt key must not silently change policy.
use vstd::prelude::*;
use crate::model::{Decision, parse_decision_spec};
use crate::strmap::StrMap;
use crate::text::{cat, cat3, decimal, i64_decimal, owned, str_eq, u64_decimal, views};
use crate::toml_doc::{TomlNode, entries_view, parse_toml_document, toml_doc_spec};

verus! {

/// The configuration schema version this build reads.
pub const SUPPORTED_VERSION: u64 = 1;

/// A configuration error: TOML syntax / structure (`Parse`) or a valid
/// structure with an unsupported meaning (`Semantic`).
#[derive(Debug, Clone, PartialEq, Eq)]
pub enum ConfigError {
    Parse(String),
    Semantic(String),
}

/// The message of a configuration error.
pub open spec fn config_error_text(e: ConfigError) -> Seq<char> {
    match e {
        ConfigError::Parse(m) => m@,
        ConfigError::Semantic(m) => m@,
    }
}

impl ConfigError {
    /// The message of the error (what `Display` would print).
    pub fn to_string(&self) -> (r: String)
        ensures
            r@ == config_error_text(*self),
    {
        match self {
            ConfigError::Parse(m) => m.clone(),
            ConfigError::Semantic(m) => m.clone(),
        }
    }
}

/// A list value: `Set` overrides, `Delta` edits the inherited list.
#[derive(Debug, Clone, PartialEq, Eq)]
pub enum ListField {
    List(Vec<String>),
    Delta { add: Option<Vec<String>>, remove: Option<Vec<String>> },
}

/// Plain model of a list value.
pub enum ListFieldV {
    List(Seq<Seq<char>>),
    Delta(Option<Seq<Seq<char>>>, Option<Seq<Seq<char>>>),
}

pub open spec fn opt_views(o: Option<Vec<String>>) -> Option<Seq<Seq<char>>> {
    match o {
        Some(v) => Some(views(v@)),
        None => None,
    }
}

impl View for ListField {
    type V = ListFieldV;

    open spec fn view(&self) -> ListFieldV {
        match self {
            ListField::List(v) => ListFieldV::List(views(v@)),
            ListField::Delta { add, remove } => ListFieldV::Delta(opt_views(*add), opt_views(*remove)),
        }
    }
}

/// The `sub` and `flag` dimensions of one bucket of a command section.
#[derive(Debug, Clone, Default, PartialEq, Eq)]
pub struct BucketSpec {
    pub sub: Option<ListField>,
    pub flag: Option<ListField>,
}

/// One command section (`[local.git]`).
#[derive(Debug, Clone, Default, PartialEq, Eq)]
pub struct CommandSection {
    pub allow: Option<BucketSpec>,
    pub confirm: Option<BucketSpec>,
    pub deny: Option<BucketSpec>,
    /// Section fallback tier.
    pub default: Option<Decision>,
    /// Section `script_allow` key (`false` revokes a lower-layer `true`).
    pub script_allow: Option<bool>,
}

/// The head bare-list buckets of a scope table (whole-command entries).
#[derive(Debug, Clone, Default, PartialEq, Eq)]
pub struct ScopeBuckets {
    pub allow: Option<ListField>,
    pub confirm: Option<ListField>,
    pub deny: Option<ListField>,
}

/// A scope table (`[local]` or `[global]`).
#[derive(Debug, Clone, PartialEq, Eq)]
pub struct ScopeTable {
    pub buckets: ScopeBuckets,
    /// Top-level `script_allow` declaration list of the scope.
    pub script_allow: Option<ListField>,
    /// Command sections by command name.
    pub commands: StrMap<CommandSection>,
}

impl ScopeTable {
    pub fn empty() -> (r: ScopeTable)
        ensures
            r.buckets.allow.is_none() && r.buckets.confirm.is_none() && r.buckets.deny.is_none(),
            r.script_allow.is_none(),
            r.commands.spec_entries().len() == 0,
            r.commands.wf(),
    {
        ScopeTable {
            buckets: ScopeBuckets { allow: None, confirm: None, deny: None },
            script_allow: None,
            commands: StrMap::new(),
        }
    }
}

/// A whole `rules.toml`.
#[derive(Debug, Clone, PartialEq, Eq)]
pub struct RulesFile {
    pub version: u64,
    pub default: Option<Decision>,
    pub precedence: Option<Vec<Decision>>,
    pub local: ScopeTable,
    pub global: ScopeTable,
}

/// `p` lists each of the three buckets exactly once.
pub open spec fn is_bucket_permutation(p: Seq<Decision>) -> bool {
    p.len() == 3 && p.contains(Decision::Allow) && p.contains(Decision::Confirm) && p.contains(
        Decision::Deny,
    )
}

/// The well-formedness every decoded rules file has.
pub open spec fn rules_file_wf(f: RulesFile) -> bool {
    &&& f.version == SUPPORTED_VERSION
    &&& (f.precedence matches Some(p) ==> is_bucket_permutation(p@))
    &&& f.local.commands.wf()
    &&& f.global.commands.wf()
}

fn contains_decision(p: &Vec<Decision>, d: Decision) -> (r: bool)
    ensures
        r == p@.contains(d),
{
    let mut i: usize = 0;
    while i < p.len()
        invariant
            i <= p@.len(),
            forall|k: int| 0 <= k < i ==> p@[k] != d,
        decreases p@.len() - i,
    {
        if p[i] == d {
            return true;
        }
        i = i + 1;
    }
    false
}

/// The variant name of a decision (`Allow`, `Confirm`, `Deny`).
pub open spec fn decision_variant(d: Decision) -> Seq<char> {
    match d {
        Decision::Allow => "Allow"@,
        Decision::Confirm => "Confirm"@,
        Decision::Deny => "Deny"@,
    }
}

/// The variant names of a decision list, separated by `, `.
pub open spec fn decisions_list_text(p: Seq<Decision>) -> Seq<char>
    decreases p.len(),
{
    if p.len() == 0 {
        Seq::empty()
    } else if p.len() == 1 {
        decision_variant(p[0])
    } else {
        decisions_list_text(p.drop_last()) + ", "@ + decision_variant(p.last())
    }
}

/// Debug-style rendering of a decision list (`[Deny, Confirm]`).
fn decisions_debug(p: &Vec<Decision>) -> (r: String)
    ensures
        r@ == "["@ + decisions_list_text(p@) + "]"@,
{
    let mut out = owned("[");
    let mut i: usize = 0;
    while i < p.len()
        invariant
            i <= p@.len(),
            out@ == "["@ + decisions_list_text(p@.take(i as int)),
        decreases p@.len() - i,
    {
        proof {
            assert(p@.take(i + 1).drop_last() =~= p@.take(i as int));
            assert(p@.take(i + 1).last() == p@[i as int]);
        }
        if i > 0 {
            out.append(", ");
        }
        let name = match p[i] {
            Decision::Allow => "Allow",
            Decision::Confirm => "Confirm",
            Decision::Deny => "Deny",
        };
        out.append(name);
        i = i + 1;
    }
    proof {
        assert(p@.take(p@.len() as int) =~= p@);
    }
    out.append("]");
    out
}

/// A decision list as written in messages (`[Deny, Confirm]`).
pub open spec fn precedence_text(p: Seq<Decision>) -> Seq<char> {
    "["@ + decisions_list_text(p) + "]"@
}

/// The message of an unsupported configuration schema version.
pub open spec fn version_message(v: nat) -> Seq<char> {
    "config schema version "@ + decimal(v) + " is not supported by this build (expected version "@
        + "1); upgrade crush-tether or regenerate the file"@
}

/// `precedence` must list allow/confirm/deny exactly once each.
pub fn validate_precedence(p: &Vec<Decision>) -> (r: Result<(), ConfigError>)
    ensures
        r is Ok <==> is_bucket_permutation(p@),
        r matches Err(e) ==> e is Semantic,
        !is_bucket_permutation(p@) ==> (r matches Err(ConfigError::Semantic(m))
            && m@ == "`precedence` must list each of allow/confirm/deny exactly once, got "@ + precedence_text(p@)),
{
    let complete = p.len() == 3 && contains_decision(p, Decision::Allow) && contains_decision(
        p,
        Decision::Confirm,
    ) && contains_decision(p, Decision::Deny);
    if complete {
        Ok(())
    } else {
        let listed = decisions_debug(p);
        Err(
            ConfigError::Semantic(
                cat(
                    "`precedence` must list each of allow/confirm/deny exactly once, got ",
                    listed.as_str(),
                ),
            ),
        )
    }
}

// ---------------------------------------------------------------------------
// Decoding from the TOML tree
// ---------------------------------------------------------------------------

/// The strings of an array of string nodes.
pub open spec fn node_strings(items: Seq<TomlNode>) -> Option<Seq<Seq<char>>>
    decreases items.len(),
{
    if items.len() == 0 {
        Some(Seq::empty())
    } else {
        match (items.last(), node_strings(items.drop_last())) {
            (TomlNode::Str(s), Some(rest)) => Some(rest.push(s@)),
            _ => None,
        }
    }
}

/// The string list that a node holds, if it is an array of strings.
pub open spec fn string_list_of(n: TomlNode) -> Option<Seq<Seq<char>>> {
    match n {
        TomlNode::Array(items) => node_strings(items@),
        _ => None,
    }
}

/// Keys of a table that are not in `allowed`.
pub open spec fn keys_within(entries: Seq<(String, TomlNode)>, allowed: Seq<Seq<char>>) -> bool {
    forall|i: int| 0 <= i < entries.len() ==> allowed.contains(#[trigger] entries[i].0@)
}

/// The value under `k` in a table's entries (first occurrence).
pub open spec fn entry_value(entries: Seq<(String, TomlNode)>, k: Seq<char>) -> Option<TomlNode>
    decreases entries.len(),
{
    if entries.len() == 0 {
        None
    } else if entries[0].0@ == k {
        Some(entries[0].1)
    } else {
        entry_value(entries.drop_first(), k)
    }
}

/// The list value that a node holds.
pub open spec fn list_field_of(n: TomlNode) -> Option<ListFieldV> {
    match n {
        TomlNode::Array(_) => match string_list_of(n) {
            Some(v) => Some(ListFieldV::List(v)),
            None => None,
        },
        TomlNode::Table(entries) => {
            let add = entry_value(entries@, "add"@);
            let remove = entry_value(entries@, "remove"@);
            if keys_within(entries@, seq!["add"@, "remove"@])
                && (add matches Some(a) ==> string_list_of(a) is Some)
                && (remove matches Some(r) ==> string_list_of(r) is Some) {
                Some(ListFieldV::Delta(
                    match add { Some(a) => string_list_of(a), None => None },
                    match remove { Some(r) => string_list_of(r), None => None },
                ))
            } else {
                None
            }
        },
        _ => None,
    }
}

/// The decision that a node names.
pub open spec fn decision_of(n: TomlNode) -> Option<Decision> {
    match n {
        TomlNode::Str(s) => parse_decision_spec(s@),
        _ => None,
    }
}

/// serde-style description of the kind of a node.
pub open spec fn unexpected_text(n: TomlNode) -> Seq<char> {
    match n {
        TomlNode::Str(s) => "string \""@ + s@ + "\""@,
        TomlNode::Int(i) => "integer `"@ + (if i < 0 { seq!['-'] + decimal((-i) as nat) } else { decimal(i as nat) }) + "`"@,
        TomlNode::Bool(b) => if b { "boolean `true`"@ } else { "boolean `false`"@ },
        TomlNode::Float => "floating point"@,
        TomlNode::Datetime => "datetime"@,
        TomlNode::Array(_) => "sequence"@,
        TomlNode::Table(_) => "map"@,
    }
}

/// serde-style description of the kind of a node (`string "x"`, `sequence`…).
fn unexpected(n: &TomlNode) -> (r: String)
    ensures
        r@ == unexpected_text(*n),
{
    match n {
        TomlNode::Str(s) => cat3("string \"", s.as_str(), "\""),
        TomlNode::Int(i) => {
            let d = i64_decimal(*i);
            cat3("integer `", d.as_str(), "`")
        },
        TomlNode::Bool(b) => if *b {
            owned("boolean `true`")
        } else {
            owned("boolean `false`")
        },
        TomlNode::Float => owned("floating point"),
        TomlNode::Datetime => owned("datetime"),
        TomlNode::Array(_) => owned("sequence"),
        TomlNode::Table(_) => owned("map"),
    }
}

fn invalid_type(n: &TomlNode, expected: &str, path: &str) -> (r: String)
    ensures
        r@ == invalid_type_text(*n, expected@, path@),
{
    let u = unexpected(n);
    let mut m = cat3("invalid type: ", u.as_str(), ", expected ");
    m.append(expected);
    m.append(" for key `");
    m.append(path);
    m.append("`");
    m
}

/// The message of a key that the schema does not know.
pub open spec fn unknown_field_text(key: Seq<char>, expected: Seq<char>, path: Seq<char>) -> Seq<char> {
    "unknown field `"@ + key + "`, expected "@ + expected + " in `"@ + path + "`"@
}

fn unknown_field(key: &str, expected: &str, path: &str) -> (r: String)
    ensures
        r@ == unknown_field_text(key@, expected@, path@),
{
    let mut m = cat3("unknown field `", key, "`, expected ");
    m.append(expected);
    m.append(" in `");
    m.append(path);
    m.append("`");
    m
}

fn join_path(path: &str, key: &str) -> (r: String)
    ensures
        r@ == key_path(path@, key@),
{
    if path.unicode_len() == 0 {
        owned(key)
    } else {
        cat3(path, ".", key)
    }
}

/// The path of `key` inside the table at `path` (dotted; a top-level key is
/// its own path).
pub open spec fn key_path(path: Seq<char>, key: Seq<char>) -> Seq<char> {
    if path.len() == 0 { key } else { path + "."@ + key }
}

/// The message of a value of the wrong kind under `path`.
pub open spec fn invalid_type_text(n: TomlNode, expected: Seq<char>, path: Seq<char>) -> Seq<char> {
    "invalid type: "@ + unexpected_text(n) + ", expected "@ + expected + " for key `"@ + path + "`"@
}

/// `m` reports the first key of `es` that is not one of `names`.
pub open spec fn stray_key_error(
    es: Seq<(String, TomlNode)>,
    names: Seq<Seq<char>>,
    expected: Seq<char>,
    path: Seq<char>,
    m: Seq<char>,
) -> bool {
    exists|i: int|
        0 <= i < es.len() && !names.contains(#[trigger] es[i].0@) && (forall|k: int| 0 <= k < i ==> names.contains(
            #[trigger] es[k].0@,
        )) && m == unknown_field_text(es[i].0@, expected, path)
}

/// `m` is the error of reading `n` at `path` as an array of strings: the
/// first item that is not a string, or the node itself.
pub open spec fn string_list_error(n: TomlNode, path: Seq<char>, m: Seq<char>) -> bool {
    match n {
        TomlNode::Array(items) => exists|i: int|
            0 <= i < items@.len() && !(#[trigger] items@[i] is Str) && (forall|k: int| 0 <= k < i ==> (
            #[trigger] items@[k]) is Str) && m == invalid_type_text(items@[i], "a string"@, path),
        _ => m == invalid_type_text(n, "an array of strings"@, path),
    }
}

/// What a list value is expected to be.
pub open spec fn list_field_expected() -> Seq<char> {
    "an array of tokens, or a table `{ add = [...], remove = [...] }`"@
}

/// `m` is the error of reading `n` at `path` as a list value: a stray key of
/// its table, then its `add` list, then its `remove` list.
pub open spec fn list_field_error(n: TomlNode, path: Seq<char>, m: Seq<char>) -> bool {
    match n {
        TomlNode::Array(_) => string_list_error(n, path, m),
        TomlNode::Table(es) => {
            let add = entry_value(es@, "add"@);
            let remove = entry_value(es@, "remove"@);
            if !keys_within(es@, seq!["add"@, "remove"@]) {
                stray_key_error(es@, seq!["add"@, "remove"@], "`add` or `remove`"@, path, m)
            } else if add matches Some(a) && string_list_of(a) is None {
                string_list_error(add->0, key_path(path, "add"@), m)
            } else {
                remove matches Some(rm) && string_list_error(rm, key_path(path, "remove"@), m)
            }
        },
        _ => m == invalid_type_text(n, list_field_expected(), path),
    }
}

/// `m` is the error of reading `n` at `path` as a bucket: a stray key, then
/// its `sub` list, then its `flag` list.
pub open spec fn bucket_error(n: TomlNode, path: Seq<char>, m: Seq<char>) -> bool {
    match n {
        TomlNode::Table(es) => {
            let sub = entry_value(es@, "sub"@);
            let flag = entry_value(es@, "flag"@);
            if !keys_within(es@, seq!["sub"@, "flag"@]) {
                stray_key_error(es@, seq!["sub"@, "flag"@], "`sub` or `flag`"@, path, m)
            } else if sub matches Some(v) && list_field_of(v) is None {
                list_field_error(sub->0, key_path(path, "sub"@), m)
            } else {
                flag matches Some(v) && list_field_error(v, key_path(path, "flag"@), m)
            }
        },
        _ => m == invalid_type_text(n, "a bucket: `sub` and/or `flag` lists"@, path),
    }
}

/// `m` is the error of reading `n` at `path` as a decision word.
pub open spec fn decision_error(n: TomlNode, path: Seq<char>, m: Seq<char>) -> bool {
    match n {
        TomlNode::Str(s) => m == "unknown variant `"@ + s@ + "`, expected one of `allow`, `confirm`, `deny` for key `"@
            + path + "`"@,
        _ => m == invalid_type_text(n, "`allow`, `confirm` or `deny`"@, path),
    }
}

/// Decodes an array of strings.
pub fn decode_string_list(n: &TomlNode, path: &str) -> (r: Result<Vec<String>, String>)
    ensures
        r is Ok <==> string_list_of(*n) is Some,
        r matches Ok(v) ==> views(v@) == string_list_of(*n).unwrap(),
        r matches Err(m) ==> string_list_error(*n, path@, m@),
{
    match n {
        TomlNode::Array(items) => {
            let mut out: Vec<String> = Vec::new();
            let mut i: usize = 0;
            while i < items.len()
                invariant
                    *n == TomlNode::Array(*items),
                    i <= items@.len(),
                    node_strings(items@.subrange(0, i as int)) == Some(views(out@)),
                    forall|k: int| 0 <= k < i ==> (#[trigger] items@[k]) is Str,
                decreases items@.len() - i,
            {
                proof {
                    assert(items@.subrange(0, i + 1).drop_last() =~= items@.subrange(0, i as int));
                }
                match &items[i] {
                    TomlNode::Str(s) => {
                        out.push(s.clone());
                        proof {
                            assert(views(out@) =~= views(out@.drop_last()).push(s@));
                        }
                    },
                    other => {
                        proof {
                            assert(!(items@[i as int] is Str));
                            lemma_node_strings_prefix_fail(items@, i as int);
                        }
                        let e = invalid_type(other, "a string", path);
                        proof {
                            assert(string_list_error(*n, path@, e@));
                        }
                        return Err(e);
                    },
                }
                i = i + 1;
            }
            proof {
                assert(items@.subrange(0, items@.len() as int) =~= items@);
            }
            Ok(out)
        },
        _ => Err(invalid_type(n, "an array of strings", path)),
    }
}

proof fn lemma_node_strings_prefix_fail(items: Seq<TomlNode>, i: int)
    requires
        0 <= i < items.len(),
        !(items[i] is Str),
    ensures
        node_strings(items) is None,
    decreases items.len(),
{
    if i == items.len() - 1 {
    } else {
        lemma_node_strings_prefix_fail(items.drop_last(), i);
    }
}

/// Looks up `key` in a table's entries (first occurrence).
pub fn find_entry<'a>(entries: &'a Vec<(String, TomlNode)>, key: &str) -> (r: Option<&'a TomlNode>)
    ensures
        match r {
            Some(v) => entry_value(entries@, key@) == Some(*v),
            None => entry_value(entries@, key@) is None,
        },
{
    let mut i: usize = 0;
    proof {
        assert(entries@.subrange(0, entries@.len() as int) =~= entries@);
    }
    while i < entries.len()
        invariant
            i <= entries@.len(),
            entry_value(entries@, key@) == entry_value(entries@.subrange(i as int, entries@.len() as int), key@),
        decreases entries@.len() - i,
    {
        proof {
            let rest = entries@.subrange(i as int, entries@.len() as int);
            assert(rest.drop_first() =~= entries@.subrange(i + 1, entries@.len() as int));
        }
        if str_eq(entries[i].0.as_str(), key) {
            return Some(&entries[i].1);
        }
        i = i + 1;
    }
    None
}

/// Decodes a list value (array or `{ add, remove }` table).
pub fn decode_list_field(n: &TomlNode, path: &str) -> (r: Result<ListField, String>)
    ensures
        r is Ok <==> list_field_of(*n) is Some,
        r matches Ok(f) ==> f@ == list_field_of(*n).unwrap(),
        r matches Err(m) ==> list_field_error(*n, path@, m@),
{
    let expected = "an array of tokens, or a table `{ add = [...], remove = [...] }`";
    match n {
        TomlNode::Array(_) => match decode_string_list(n, path) {
            Ok(v) => Ok(ListField::List(v)),
            Err(e) => Err(e),
        },
        TomlNode::Table(entries) => {
            let mut i: usize = 0;
            while i < entries.len()
                invariant
                    *n == TomlNode::Table(*entries),
                    i <= entries@.len(),
                    forall|k: int| 0 <= k < i ==> seq!["add"@, "remove"@].contains(#[trigger] entries@[k].0@),
                decreases entries@.len() - i,
            {
                let k = entries[i].0.as_str();
                if !(str_eq(k, "add") || str_eq(k, "remove")) {
                    proof {
                        reveal_strlit("add");
                        reveal_strlit("remove");
                        assert(!seq!["add"@, "remove"@].contains(entries@[i as int].0@)) by {
                            if seq!["add"@, "remove"@].contains(entries@[i as int].0@) {
                                let j = choose|j: int| 0 <= j < 2 && seq!["add"@, "remove"@][j] == entries@[i as int].0@;
                            }
                        }
                        assert(!keys_within(entries@, seq!["add"@, "remove"@]));
                    }
                    let e = unknown_field(k, "`add` or `remove`", path);
                    proof {
                        assert(stray_key_error(entries@, seq!["add"@, "remove"@], "`add` or `remove`"@, path@, e@));
                    }
                    return Err(e);
                }
                proof {
                    assert(seq!["add"@, "remove"@][0] == "add"@);
                    assert(seq!["add"@, "remove"@][1] == "remove"@);
                }
                i = i + 1;
            }
            proof {
                assert(keys_within(entries@, seq!["add"@, "remove"@]));
            }
            let add = match find_entry(entries, "add") {
                Some(a) => {
                    let p = join_path(path, "add");
                    match decode_string_list(a, p.as_str()) {
                        Ok(v) => Some(v),
                        Err(e) => return Err(e),
                    }
                },
                None => None,
            };
            let remove = match find_entry(entries, "remove") {
                Some(rm) => {
                    let p = join_path(path, "remove");
                    match decode_string_list(rm, p.as_str()) {
                        Ok(v) => Some(v),
                        Err(e) => return Err(e),
                    }
                },
                None => None,
            };
            Ok(ListField::Delta { add, remove })
        },
        _ => Err(invalid_type(n, expected, path)),
    }
}

/// Decodes a decision word.
pub fn decode_decision(n: &TomlNode, path: &str) -> (r: Result<Decision, String>)
    ensures
        r is Ok <==> decision_of(*n) is Some,
        r matches Ok(d) ==> decision_of(*n) == Some(d),
        r matches Err(m) ==> decision_error(*n, path@, m@),
{
    match n {
        TomlNode::Str(s) => match Decision::parse(s.as_str()) {
            Some(d) => Ok(d),
            None => {
                let mut m = cat3("unknown variant `", s.as_str(), "`, expected one of `allow`, `confirm`, `deny` for key `");
                m.append(path);
                m.append("`");
                Err(m)
            },
        },
        _ => Err(invalid_type(n, "`allow`, `confirm` or `deny`", path)),
    }
}

/// The bucket a node holds.
pub open spec fn bucket_ok(n: TomlNode) -> bool {
    match n {
        TomlNode::Table(entries) => {
            &&& keys_within(entries@, seq!["sub"@, "flag"@])
            &&& (entry_value(entries@, "sub"@) matches Some(v) ==> list_field_of(v) is Some)
            &&& (entry_value(entries@, "flag"@) matches Some(v) ==> list_field_of(v) is Some)
        },
        _ => false,
    }
}

/// A decoded optional list value against the node it came from.
pub open spec fn field_matches(f: Option<ListField>, v: Option<TomlNode>) -> bool {
    match (f, v) {
        (Some(f), Some(v)) => list_field_of(v) == Some(f@),
        (None, None) => true,
        _ => false,
    }
}

/// A decoded optional bucket against the node it came from.
pub open spec fn bucket_matches(b: Option<BucketSpec>, v: Option<TomlNode>) -> bool {
    match (b, v) {
        (Some(b), Some(TomlNode::Table(es))) => field_matches(b.sub, entry_value(es@, "sub"@))
            && field_matches(b.flag, entry_value(es@, "flag"@)),
        (None, None) => true,
        _ => false,
    }
}

fn opt_list_field(entries: &Vec<(String, TomlNode)>, key: &str, path: &str) -> (r: Result<Option<ListField>, String>)
    ensures
        r is Ok <==> (entry_value(entries@, key@) matches Some(v) ==> list_field_of(v) is Some),
        r matches Ok(o) ==> field_matches(o, entry_value(entries@, key@)),
        r matches Err(m) ==> entry_value(entries@, key@) matches Some(v) && list_field_error(v, key_path(path@, key@), m@),
{
    match find_entry(entries, key) {
        Some(v) => {
            let p = join_path(path, key);
            match decode_list_field(v, p.as_str()) {
                Ok(f) => Ok(Some(f)),
                Err(e) => Err(e),
            }
        },
        None => Ok(None),
    }
}

/// `k` is one of `allowed`.
pub open spec fn key_allowed(allowed: Seq<&str>, k: Seq<char>) -> bool {
    exists|j: int| 0 <= j < allowed.len() && allowed[j]@ == k
}

/// Every key of `entries` is one of `allowed` (checked in order; the first
/// stray key is reported).
pub(crate) fn check_keys(entries: &Vec<(String, TomlNode)>, allowed: &Vec<&str>, expected: &str, path: &str) -> (r: Result<(), String>)
    ensures
        r is Ok <==> forall|i: int| 0 <= i < entries@.len() ==> key_allowed(allowed@, #[trigger] entries@[i].0@),
        r matches Err(m) ==> exists|i: int| 0 <= i < entries@.len() && !key_allowed(allowed@, #[trigger] entries@[i].0@)
            && (forall|k: int| 0 <= k < i ==> key_allowed(allowed@, #[trigger] entries@[k].0@))
            && m@ == unknown_field_text(entries@[i].0@, expected@, path@),
{
    let mut i: usize = 0;
    while i < entries.len()
        invariant
            i <= entries@.len(),
            forall|k: int| 0 <= k < i ==> key_allowed(allowed@, #[trigger] entries@[k].0@),
        decreases entries@.len() - i,
    {
        let k = entries[i].0.as_str();
        let mut found = false;
        let mut j: usize = 0;
        while j < allowed.len()
            invariant
                j <= allowed@.len(),
                found ==> exists|jj: int| 0 <= jj < allowed@.len() && allowed@[jj]@ == k@,
                !found ==> forall|jj: int| 0 <= jj < j ==> allowed@[jj]@ != k@,
            decreases allowed@.len() - j,
        {
            if str_eq(allowed[j], k) {
                found = true;
            }
            j = j + 1;
        }
        if !found {
            proof {
                assert(!key_allowed(allowed@, entries@[i as int].0@));
            }
            return Err(unknown_field(k, expected, path));
        }
        i = i + 1;
    }
    Ok(())
}

fn opt_bucket(entries: &Vec<(String, TomlNode)>, key: &str, path: &str) -> (r: Result<Option<BucketSpec>, String>)
    ensures
        r is Ok <==> (entry_value(entries@, key@) matches Some(v) ==> bucket_ok(v)),
        r matches Ok(o) ==> bucket_matches(o, entry_value(entries@, key@)),
        r matches Err(m) ==> entry_value(entries@, key@) matches Some(v) && bucket_error(v, key_path(path@, key@), m@),
{
    match find_entry(entries, key) {
        Some(v) => {
            let p = join_path(path, key);
            match decode_bucket(v, p.as_str()) {
                Ok(b) => Ok(Some(b)),
                Err(e) => Err(e),
            }
        },
        None => Ok(None),
    }
}

/// Decodes a bucket (`{ sub = …, flag = … }`).
pub fn decode_bucket(n: &TomlNode, path: &str) -> (r: Result<BucketSpec, String>)
    ensures
        r is Ok <==> bucket_ok(*n),
        r matches Ok(b) ==> bucket_matches(Some(b), Some(*n)),
        r matches Err(m) ==> bucket_error(*n, path@, m@),
{
    match n {
        TomlNode::Table(entries) => {
            let allowed = vec!["sub", "flag"];
            let ck = check_keys(entries, &allowed, "`sub` or `flag`", path);
            proof {
                reveal_strlit("sub");
                reveal_strlit("flag");
                assert(allowed@[0]@ == "sub"@);
                assert(allowed@[1]@ == "flag"@);
                lemma_keys_two(entries@, allowed@, "sub"@, "flag"@);
            }
            match ck {
                Err(e) => {
                    proof {
                        lemma_stray_named(entries@, allowed@, seq!["sub"@, "flag"@], "`sub` or `flag`"@, path@, e@);
                    }
                    return Err(e);
                },
                Ok(()) => {},
            }
            let sub = match opt_list_field(entries, "sub", path) {
                Ok(o) => o,
                Err(e) => return Err(e),
            };
            let flag = match opt_list_field(entries, "flag", path) {
                Ok(o) => o,
                Err(e) => return Err(e),
            };
            Ok(BucketSpec { sub, flag })
        },
        _ => Err(invalid_type(n, "a bucket: `sub` and/or `flag` lists", path)),
    }
}

proof fn lemma_keys_two(entries: Seq<(String, TomlNode)>, allowed: Seq<&str>, a: Seq<char>, b: Seq<char>)
    requires
        allowed.len() == 2,
        allowed[0]@ == a,
        allowed[1]@ == b,
    ensures
        (forall|i: int| 0 <= i < entries.len() ==> key_allowed(allowed, #[trigger] entries[i].0@))
            <==> keys_within(entries, seq![a, b]),
{
    if forall|i: int| 0 <= i < entries.len() ==> key_allowed(allowed, #[trigger] entries[i].0@) {
        assert forall|i: int| 0 <= i < entries.len() implies seq![a, b].contains(#[trigger] entries[i].0@) by {
            assert(key_allowed(allowed, entries[i].0@));
            let j = choose|j: int| 0 <= j < allowed.len() && allowed[j]@ == entries[i].0@;
            assert(seq![a, b][j] == entries[i].0@);
        }
    }
    if keys_within(entries, seq![a, b]) {
        assert forall|i: int| 0 <= i < entries.len() implies key_allowed(allowed, #[trigger] entries[i].0@) by {
            assert(seq![a, b].contains(entries[i].0@));
            let j = choose|j: int| 0 <= j < 2 && seq![a, b][j] == entries[i].0@;
            assert(allowed[j]@ == entries[i].0@);
        }
    }
}

/// The first stray key that `check_keys` reports is the first key of
/// `entries` outside `names`, the views of `allowed`.
pub(crate) proof fn lemma_stray_named(
    entries: Seq<(String, TomlNode)>,
    allowed: Seq<&str>,
    names: Seq<Seq<char>>,
    expected: Seq<char>,
    path: Seq<char>,
    m: Seq<char>,
)
    requires
        allowed.len() == names.len(),
        forall|j: int| 0 <= j < allowed.len() ==> (#[trigger] allowed[j])@ == names[j],
        exists|i: int| 0 <= i < entries.len() && !key_allowed(allowed, #[trigger] entries[i].0@)
            && (forall|k: int| 0 <= k < i ==> key_allowed(allowed, #[trigger] entries[k].0@))
            && m == unknown_field_text(entries[i].0@, expected, path),
    ensures
        stray_key_error(entries, names, expected, path, m),
{
    let i = choose|i: int| 0 <= i < entries.len() && !key_allowed(allowed, #[trigger] entries[i].0@)
        && (forall|k: int| 0 <= k < i ==> key_allowed(allowed, #[trigger] entries[k].0@))
        && m == unknown_field_text(entries[i].0@, expected, path);
    if names.contains(entries[i].0@) {
        let j = choose|j: int| 0 <= j < names.len() && names[j] == entries[i].0@;
        assert(allowed[j]@ == entries[i].0@);
    }
    assert forall|k: int| 0 <= k < i implies names.contains(#[trigger] entries[k].0@) by {
        assert(key_allowed(allowed, entries[k].0@));
        let j = choose|j: int| 0 <= j < allowed.len() && allowed[j]@ == entries[k].0@;
        assert(names[j] == entries[k].0@);
    }
}

/// Every key of `entries` names one of `names`, the views of `allowed`.
pub(crate) proof fn lemma_keys_named(entries: Seq<(String, TomlNode)>, allowed: Seq<&str>, names: Seq<Seq<char>>)
    requires
        allowed.len() == names.len(),
        forall|j: int| 0 <= j < allowed.len() ==> (#[trigger] allowed[j])@ == names[j],
    ensures
        (forall|i: int| 0 <= i < entries.len() ==> key_allowed(allowed, #[trigger] entries[i].0@))
            <==> keys_within(entries, names),
{
    if forall|i: int| 0 <= i < entries.len() ==> key_allowed(allowed, #[trigger] entries[i].0@) {
        assert forall|i: int| 0 <= i < entries.len() implies names.contains(#[trigger] entries[i].0@) by {
            assert(key_allowed(allowed, entries[i].0@));
            let j = choose|j: int| 0 <= j < allowed.len() && allowed[j]@ == entries[i].0@;
            assert(names[j] == entries[i].0@);
        }
    }
    if keys_within(entries, names) {
        assert forall|i: int| 0 <= i < entries.len() implies key_allowed(allowed, #[trigger] entries[i].0@) by {
            assert(names.contains(entries[i].0@));
            let j = choose|j: int| 0 <= j < names.len() && names[j] == entries[i].0@;
            assert(allowed[j]@ == entries[i].0@);
        }
    }
}

/// The keys of a command section.
pub open spec fn section_keys() -> Seq<Seq<char>> {
    seq!["allow"@, "confirm"@, "deny"@, "default"@, "script_allow"@]
}

/// A node that decodes as a command section.
pub open spec fn section_ok(n: TomlNode) -> bool {
    match n {
        TomlNode::Table(es) => {
            &&& keys_within(es@, section_keys())
            &&& (entry_value(es@, "allow"@) matches Some(v) ==> bucket_ok(v))
            &&& (entry_value(es@, "confirm"@) matches Some(v) ==> bucket_ok(v))
            &&& (entry_value(es@, "deny"@) matches Some(v) ==> bucket_ok(v))
            &&& (entry_value(es@, "default"@) matches Some(v) ==> decision_of(v) is Some)
            &&& (entry_value(es@, "script_allow"@) matches Some(v) ==> v is Bool)
        },
        _ => false,
    }
}

/// A decoded command section against the node it came from.
pub open spec fn section_matches(s: CommandSection, n: TomlNode) -> bool {
    match n {
        TomlNode::Table(es) => {
            &&& bucket_matches(s.allow, entry_value(es@, "allow"@))
            &&& bucket_matches(s.confirm, entry_value(es@, "confirm"@))
            &&& bucket_matches(s.deny, entry_value(es@, "deny"@))
            &&& s.default == (match entry_value(es@, "default"@) {
                Some(v) => decision_of(v),
                None => None,
            })
            &&& s.script_allow == (match entry_value(es@, "script_allow"@) {
                Some(TomlNode::Bool(b)) => Some(b),
                _ => None,
            })
        },
        _ => false,
    }
}

/// `m` is the error of reading `n` at `path` as a command section: a stray
/// key, then its `allow`, `confirm` and `deny` buckets, its `default` and its
/// `script_allow`, in that order.
pub open spec fn section_error(n: TomlNode, path: Seq<char>, m: Seq<char>) -> bool {
    match n {
        TomlNode::Table(es) => {
            let allow = entry_value(es@, "allow"@);
            let confirm = entry_value(es@, "confirm"@);
            let deny = entry_value(es@, "deny"@);
            let default = entry_value(es@, "default"@);
            let script = entry_value(es@, "script_allow"@);
            if !keys_within(es@, section_keys()) {
                stray_key_error(es@, section_keys(), "one of `allow`, `confirm`, `deny`, `default`, `script_allow`"@, path, m)
            } else if allow matches Some(v) && !bucket_ok(v) {
                bucket_error(allow->0, key_path(path, "allow"@), m)
            } else if confirm matches Some(v) && !bucket_ok(v) {
                bucket_error(confirm->0, key_path(path, "confirm"@), m)
            } else if deny matches Some(v) && !bucket_ok(v) {
                bucket_error(deny->0, key_path(path, "deny"@), m)
            } else if default matches Some(v) && decision_of(v) is None {
                decision_error(default->0, key_path(path, "default"@), m)
            } else {
                script matches Some(v) && !(v is Bool) && m == invalid_type_text(v, "a boolean"@, key_path(path, "script_allow"@))
            }
        },
        _ => m == invalid_type_text(n, "a command section: allow/confirm/deny buckets (sub/flag) plus an optional default"@, path),
    }
}

/// Decodes a command section.
pub fn decode_section(n: &TomlNode, path: &str) -> (r: Result<CommandSection, String>)
    ensures
        r is Ok <==> section_ok(*n),
        r matches Ok(s) ==> section_matches(s, *n),
        r matches Err(m) ==> section_error(*n, path@, m@),
{
    let expected = "a command section: allow/confirm/deny buckets (sub/flag) plus an optional default";
    match n {
        TomlNode::Table(entries) => {
            let allowed = vec!["allow", "confirm", "deny", "default", "script_allow"];
            let ck = check_keys(
                entries,
                &allowed,
                "one of `allow`, `confirm`, `deny`, `default`, `script_allow`",
                path,
            );
            proof {
                assert(allowed@[0]@ == section_keys()[0]);
                assert(allowed@[1]@ == section_keys()[1]);
                assert(allowed@[2]@ == section_keys()[2]);
                assert(allowed@[3]@ == section_keys()[3]);
                assert(allowed@[4]@ == section_keys()[4]);
                lemma_keys_named(entries@, allowed@, section_keys());
            }
            match ck {
                Err(e) => {
                    proof {
                        lemma_stray_named(entries@, allowed@, section_keys(),
                            "one of `allow`, `confirm`, `deny`, `default`, `script_allow`"@, path@, e@);
                    }
                    return Err(e);
                },
                Ok(()) => {},
            }
            let allow = match opt_bucket(entries, "allow", path) {
                Ok(o) => o,
                Err(e) => return Err(e),
            };
            let confirm = match opt_bucket(entries, "confirm", path) {
                Ok(o) => o,
                Err(e) => return Err(e),
            };
            let deny = match opt_bucket(entries, "deny", path) {
                Ok(o) => o,
                Err(e) => return Err(e),
            };
            let default = match find_entry(entries, "default") {
                Some(v) => {
                    let p = join_path(path, "default");
                    match decode_decision(v, p.as_str()) {
                        Ok(d) => Some(d),
                        Err(e) => return Err(e),
                    }
                },
                None => None,
            };
            let script_allow = match find_entry(entries, "script_allow") {
                Some(TomlNode::Bool(b)) => Some(*b),
                Some(other) => {
                    let p = join_path(path, "script_allow");
                    return Err(invalid_type(other, "a boolean", p.as_str()));
                },
                None => None,
            };
            Ok(CommandSection { allow, confirm, deny, default, script_allow })
        },
        _ => Err(invalid_type(n, expected, path)),
    }
}

/// The list keys of a scope table; every other key is a command section.
pub open spec fn scope_list_key(k: Seq<char>) -> bool {
    k == "allow"@ || k == "confirm"@ || k == "deny"@ || k == "script_allow"@
}

/// One entry of a scope table decodes.
pub open spec fn scope_entry_ok(e: (String, TomlNode)) -> bool {
    scope_entry_ok_kv(e.0@, e.1)
}

pub open spec fn scope_entry_ok_kv(k: Seq<char>, v: TomlNode) -> bool {
    if scope_list_key(k) {
        list_field_of(v) is Some
    } else {
        section_ok(v)
    }
}

/// A node that decodes as a scope table.
pub open spec fn scope_ok(n: TomlNode) -> bool {
    match n {
        TomlNode::Table(es) => entries_scope_ok(es@),
        _ => false,
    }
}

/// Every entry of a scope table decodes.
pub open spec fn entries_scope_ok(es: Seq<(String, TomlNode)>) -> bool {
    forall|i: int| 0 <= i < es.len() ==> #[trigger] scope_entry_ok(es[i])
}

/// The value under `k` in a table's entries (last occurrence).
pub open spec fn last_value(es: Seq<(String, TomlNode)>, k: Seq<char>) -> Option<TomlNode>
    decreases es.len(),
{
    if es.len() == 0 {
        None
    } else if es.last().0@ == k {
        Some(es.last().1)
    } else {
        last_value(es.drop_last(), k)
    }
}

/// A decoded scope table against the entries it came from: each list from
/// the last entry under its key, a section for every other key.
pub open spec fn scope_entries_match(t: ScopeTable, es: Seq<(String, TomlNode)>) -> bool {
    &&& field_matches(t.buckets.allow, last_value(es, "allow"@))
    &&& field_matches(t.buckets.confirm, last_value(es, "confirm"@))
    &&& field_matches(t.buckets.deny, last_value(es, "deny"@))
    &&& field_matches(t.script_allow, last_value(es, "script_allow"@))
    &&& forall|k: Seq<char>| #[trigger] t.commands.has(k) <==> (!scope_list_key(k) && last_value(es, k) is Some)
    &&& forall|k: Seq<char>| #[trigger] t.commands.has(k) ==> section_matches(t.commands.value(k), last_value(es, k).unwrap())
}

/// A decoded scope table against the node it came from.
pub open spec fn scope_matches(t: ScopeTable, n: TomlNode) -> bool {
    match n {
        TomlNode::Table(es) => scope_entries_match(t, es@),
        _ => false,
    }
}

/// What a scope table is expected to be.
pub open spec fn scope_expected() -> Seq<char> {
    "a scope table ([local]/[global]): allow/confirm/deny bare lists plus per-command sections"@
}

/// `m` is the error of the scope entry `k = v` of the table at `path`: a
/// list under a list key, a command section under any other.
pub open spec fn scope_entry_error(k: Seq<char>, v: TomlNode, path: Seq<char>, m: Seq<char>) -> bool {
    if scope_list_key(k) {
        list_field_error(v, key_path(path, k), m)
    } else {
        section_error(v, key_path(path, k), m)
    }
}

/// `m` is the error of reading `n` at `path` as a scope table: that of its
/// first entry that does not decode.
pub open spec fn scope_error(n: TomlNode, path: Seq<char>, m: Seq<char>) -> bool {
    match n {
        TomlNode::Table(es) => exists|i: int|
            0 <= i < es@.len() && !#[trigger] scope_entry_ok(es@[i]) && (forall|k: int| 0 <= k < i ==> #[trigger] scope_entry_ok(
            es@[k])) && scope_entry_error(es@[i].0@, es@[i].1, path, m),
        _ => m == invalid_type_text(n, scope_expected(), path),
    }
}

proof fn lemma_scope_ok_entry(n: TomlNode, es: Vec<(String, TomlNode)>, i: int)
    requires
        n == TomlNode::Table(es),
        scope_ok(n),
        0 <= i < es@.len(),
    ensures
        scope_entry_ok(es@[i]),
{
}

/// Decodes one entry of a scope table into `out`: a list under its key, or
/// a command section.
fn decode_scope_entry(out: &mut ScopeTable, key: &str, value: &TomlNode, path: &str) -> (r: Result<(), String>)
    requires
        old(out).commands.wf(),
    ensures
        r is Ok <==> scope_entry_ok_kv(key@, *value),
        r matches Err(m) ==> scope_entry_error(key@, *value, path@, m@),
        r is Ok ==> final(out).commands.wf(),
        r is Ok ==> (if key@ == "allow"@ { field_matches(final(out).buckets.allow, Some(*value)) } else { final(out).buckets.allow == old(out).buckets.allow }),
        r is Ok ==> (if key@ == "confirm"@ { field_matches(final(out).buckets.confirm, Some(*value)) } else { final(out).buckets.confirm == old(out).buckets.confirm }),
        r is Ok ==> (if key@ == "deny"@ { field_matches(final(out).buckets.deny, Some(*value)) } else { final(out).buckets.deny == old(out).buckets.deny }),
        r is Ok ==> (if key@ == "script_allow"@ { field_matches(final(out).script_allow, Some(*value)) } else { final(out).script_allow == old(out).script_allow }),
        r is Ok && scope_list_key(key@) ==> final(out).commands == old(out).commands,
        r is Ok && !scope_list_key(key@) ==> final(out).commands.has(key@) && section_matches(final(out).commands.value(key@), *value),
        r is Ok && !scope_list_key(key@) ==> forall|k: Seq<char>| k != key@ ==> (#[trigger] final(out).commands.has(k) == old(out).commands.has(k)),
        r is Ok && !scope_list_key(key@) ==> forall|k: Seq<char>| k != key@ && old(out).commands.has(k) ==> #[trigger] final(out).commands.value(k) == old(out).commands.value(k),
{
    proof {
        reveal_strlit("allow");
        reveal_strlit("confirm");
        reveal_strlit("deny");
        reveal_strlit("script_allow");
        assert("allow"@[0] != "confirm"@[0] && "allow"@[0] != "deny"@[0] && "allow"@[0] != "script_allow"@[0]);
        assert("confirm"@[0] != "deny"@[0] && "confirm"@[0] != "script_allow"@[0] && "deny"@[0] != "script_allow"@[0]);
    }
    let p = join_path(path, key);
    if str_eq(key, "allow") {
        match decode_list_field(value, p.as_str()) {
            Ok(f) => {
                out.buckets.allow = Some(f);
                Ok(())
            },
            Err(e) => Err(e),
        }
    } else if str_eq(key, "confirm") {
        match decode_list_field(value, p.as_str()) {
            Ok(f) => {
                out.buckets.confirm = Some(f);
                Ok(())
            },
            Err(e) => Err(e),
        }
    } else if str_eq(key, "deny") {
        match decode_list_field(value, p.as_str()) {
            Ok(f) => {
                out.buckets.deny = Some(f);
                Ok(())
            },
            Err(e) => Err(e),
        }
    } else if str_eq(key, "script_allow") {
        match decode_list_field(value, p.as_str()) {
            Ok(f) => {
                out.script_allow = Some(f);
                Ok(())
            },
            Err(e) => Err(e),
        }
    } else {
        match decode_section(value, p.as_str()) {
            Ok(sec) => {
                out.commands.insert(owned(key), sec);
                Ok(())
            },
            Err(e) => Err(e),
        }
    }
}

/// Decodes a scope table: `allow`/`confirm`/`deny`/`script_allow` are lists,
/// every other key is a command section.
pub fn decode_scope(n: &TomlNode, path: &str) -> (r: Result<ScopeTable, String>)
    ensures
        r is Ok <==> scope_ok(*n),
        r matches Ok(t) ==> t.commands.wf() && scope_matches(t, *n),
        r matches Err(m) ==> scope_error(*n, path@, m@),
{
    match n {
        TomlNode::Table(entries) => {
            let mut out = ScopeTable::empty();
            let mut i: usize = 0;
            proof {
                assert(entries@.take(0) =~= Seq::<(String, TomlNode)>::empty());
            }
            while i < entries.len()
                invariant
                    *n == TomlNode::Table(*entries),
                    out.commands.wf(),
                    i <= entries@.len(),
                    forall|q: int| 0 <= q < i ==> #[trigger] scope_entry_ok(entries@[q]),
                    scope_entries_match(out, entries@.take(i as int)),
                decreases entries@.len() - i,
            {
                let key = entries[i].0.as_str();
                let value = &entries[i].1;
                let ghost es0 = entries@.take(i as int);
                let ghost es1 = entries@.take(i + 1);
                let ghost before = out;
                proof {
                    assert(es1.drop_last() =~= es0);
                    assert(es1.last() == entries@[i as int]);
                }
                match decode_scope_entry(&mut out, key, value, path) {
                    Ok(()) => {},
                    Err(e) => {
                        proof {
                            assert(!scope_entry_ok(entries@[i as int]));
                            if scope_ok(*n) {
                                lemma_scope_ok_entry(*n, *entries, i as int);
                            }
                            assert(scope_entry_error(entries@[i as int].0@, entries@[i as int].1, path@, e@));
                        }
                        return Err(e);
                    },
                }
                proof {
                    assert(scope_entry_ok(entries@[i as int]));
                    assert forall|k: Seq<char>| #[trigger] last_value(es1, k)
                        == (if key@ == k { Some(*value) } else { last_value(es0, k) }) by {}
                    assert forall|k: Seq<char>| #[trigger] out.commands.has(k) <==> (!scope_list_key(k) && last_value(es1, k) is Some) by {
                        assert(last_value(es1, k) == (if key@ == k { Some(*value) } else { last_value(es0, k) }));
                        if k != key@ && !scope_list_key(key@) {
                            assert(out.commands.has(k) == before.commands.has(k));
                        }
                    }
                    assert forall|k: Seq<char>| #[trigger] out.commands.has(k) implies section_matches(out.commands.value(k), last_value(es1, k).unwrap()) by {
                        assert(last_value(es1, k) == (if key@ == k { Some(*value) } else { last_value(es0, k) }));
                        if k != key@ {
                            if !scope_list_key(key@) {
                                assert(before.commands.has(k));
                            }
                        } else {
                            assert(!scope_list_key(k));
                        }
                    }
                    assert(last_value(es1, "allow"@) == (if key@ == "allow"@ { Some(*value) } else { last_value(es0, "allow"@) }));
                    assert(last_value(es1, "confirm"@) == (if key@ == "confirm"@ { Some(*value) } else { last_value(es0, "confirm"@) }));
                    assert(last_value(es1, "deny"@) == (if key@ == "deny"@ { Some(*value) } else { last_value(es0, "deny"@) }));
                    assert(last_value(es1, "script_allow"@) == (if key@ == "script_allow"@ { Some(*value) } else { last_value(es0, "script_allow"@) }));
                }
                i = i + 1;
            }
            proof {
                assert(entries@.take(entries@.len() as int) =~= entries@);
            }
            Ok(out)
        },
        _ => Err(
            invalid_type(
                n,
                "a scope table ([local]/[global]): allow/confirm/deny bare lists plus per-command sections",
                path,
            ),
        ),
    }
}

/// The top-level keys of a rules file.
pub open spec fn file_keys() -> Seq<Seq<char>> {
    seq!["version"@, "default"@, "precedence"@, "local"@, "global"@]
}

/// The decisions of an array of decision words.
pub open spec fn node_decisions(items: Seq<TomlNode>) -> Option<Seq<Decision>>
    decreases items.len(),
{
    if items.len() == 0 {
        Some(Seq::empty())
    } else {
        match (node_decisions(items.drop_last()), decision_of(items.last())) {
            (Some(rest), Some(d)) => Some(rest.push(d)),
            _ => None,
        }
    }
}

/// The `version` of a file, when it is a non-negative integer.
pub open spec fn file_version(es: Seq<(String, TomlNode)>) -> Option<int> {
    match entry_value(es, "version"@) {
        Some(TomlNode::Int(v)) => if v >= 0 { Some(v as int) } else { None },
        _ => None,
    }
}

/// The `precedence` of a file: `Some(None)` when absent, `None` when it is
/// not an array of decision words.
pub open spec fn file_precedence_of(es: Seq<(String, TomlNode)>) -> Option<Option<Seq<Decision>>> {
    match entry_value(es, "precedence"@) {
        None => Some(None),
        Some(TomlNode::Array(items)) => match node_decisions(items@) {
            Some(p) => Some(Some(p)),
            None => None,
        },
        Some(_) => None,
    }
}

/// The entries of a rules file have the structure of one (keys, types,
/// words): otherwise it is a parse error.
pub open spec fn file_parse_ok(es: Seq<(String, TomlNode)>) -> bool {
    &&& keys_within(es, file_keys())
    &&& file_version(es) is Some
    &&& (entry_value(es, "default"@) matches Some(v) ==> decision_of(v) is Some)
    &&& file_precedence_of(es) is Some
    &&& (entry_value(es, "local"@) matches Some(v) ==> scope_ok(v))
    &&& (entry_value(es, "global"@) matches Some(v) ==> scope_ok(v))
}

/// The structure has a supported meaning: version 1 and, when given, a
/// complete precedence.
pub open spec fn file_semantic_ok(es: Seq<(String, TomlNode)>) -> bool {
    &&& file_version(es) == Some(1int)
    &&& (file_precedence_of(es) matches Some(Some(p)) ==> is_bucket_permutation(p))
}

/// A decoded optional scope table against its node (absent: empty).
pub open spec fn opt_scope_matches(t: ScopeTable, v: Option<TomlNode>) -> bool {
    match v {
        Some(n) => scope_matches(t, n),
        None => t.buckets.allow is None && t.buckets.confirm is None && t.buckets.deny is None && t.script_allow is None
            && t.commands.spec_entries().len() == 0,
    }
}

/// A decoded rules file against the entries it came from.
pub open spec fn file_matches(f: RulesFile, es: Seq<(String, TomlNode)>) -> bool {
    &&& file_version(es) == Some(f.version as int)
    &&& f.default == (match entry_value(es, "default"@) {
        Some(v) => decision_of(v),
        None => None,
    })
    &&& file_precedence_of(es) == Some(match f.precedence {
        Some(p) => Some(p@),
        None => None,
    })
    &&& opt_scope_matches(f.local, entry_value(es, "local"@))
    &&& opt_scope_matches(f.global, entry_value(es, "global"@))
}

/// Decodes an optional scope table under `key`.
fn opt_scope(entries: &Vec<(String, TomlNode)>, key: &str) -> (r: Result<ScopeTable, String>)
    ensures
        r is Ok <==> (entry_value(entries@, key@) matches Some(v) ==> scope_ok(v)),
        r matches Ok(t) ==> t.commands.wf() && opt_scope_matches(t, entry_value(entries@, key@)),
        r matches Err(m) ==> entry_value(entries@, key@) matches Some(v) && scope_error(v, key@, m@),
{
    match find_entry(entries, key) {
        Some(v) => decode_scope(v, key),
        None => Ok(ScopeTable::empty()),
    }
}

/// `r` is what loading rules text `text` gives: a parse error when it is not
/// TOML; otherwise what decoding its document gives.
pub open spec fn rules_text_loads(text: Seq<char>, r: Result<RulesFile, ConfigError>) -> bool {
    &&& (toml_doc_spec(text) is None ==> r matches Err(ConfigError::Parse(_)))
    &&& (toml_doc_spec(text) matches Some(d) ==> exists|es: Seq<(String, TomlNode)>| #[trigger] entries_view(es) == d
        && rules_decoded(es, r))
}

/// `r` is what decoding the entries gives: a file exactly when the entries
/// are well formed and pass the semantic checks, a parse error exactly when
/// they are not well formed, and the file the entries describe.
pub open spec fn rules_decoded(entries: Seq<(String, TomlNode)>, r: Result<RulesFile, ConfigError>) -> bool {
    &&& (r is Ok <==> file_parse_ok(entries) && file_semantic_ok(entries))
    &&& (r matches Err(ConfigError::Parse(_)) <==> !file_parse_ok(entries))
    &&& (r matches Ok(f) ==> rules_file_wf(f) && file_matches(f, entries))
    &&& rules_messages(entries, r)
}

/// `m` is the error of the first item of a `precedence` array that is not a
/// decision word.
pub open spec fn precedence_item_error(items: Seq<TomlNode>, m: Seq<char>) -> bool {
    exists|i: int|
        0 <= i < items.len() && (#[trigger] decision_of(items[i])) is None && (forall|k: int| 0 <= k < i ==> (
        #[trigger] decision_of(items[k])) is Some) && decision_error(items[i], "precedence"@, m)
}

/// `m` is the parse error of a rules file's top-level entries, checked in
/// this order: a stray key; `version` (missing, not an integer, negative);
/// `default`; `precedence`; the `[local]` table; the `[global]` table.
pub open spec fn file_parse_error(es: Seq<(String, TomlNode)>, m: Seq<char>) -> bool {
    let version = entry_value(es, "version"@);
    let default = entry_value(es, "default"@);
    let precedence = entry_value(es, "precedence"@);
    let local = entry_value(es, "local"@);
    let global = entry_value(es, "global"@);
    if !keys_within(es, file_keys()) {
        stray_key_error(es, file_keys(), "one of `version`, `default`, `precedence`, `local`, `global`"@, ""@, m)
    } else if version is None {
        m == "missing field `version`"@
    } else if !(version->0 is Int) {
        m == invalid_type_text(version->0, "u64"@, "version"@)
    } else if version matches Some(TomlNode::Int(v)) && v < 0 {
        match version {
            Some(TomlNode::Int(v)) => m == "invalid value: integer `"@ + seq!['-'] + decimal((-v) as nat)
                + "`, expected u64 for key `version`"@,
            _ => false,
        }
    } else if default matches Some(v) && decision_of(v) is None {
        decision_error(default->0, "default"@, m)
    } else if precedence matches Some(v) && !(v is Array) {
        m == invalid_type_text(precedence->0, "a sequence"@, "precedence"@)
    } else if precedence matches Some(TomlNode::Array(items)) && node_decisions(items@) is None {
        match precedence {
            Some(TomlNode::Array(items)) => precedence_item_error(items@, m),
            _ => false,
        }
    } else if local matches Some(v) && !scope_ok(v) {
        scope_error(local->0, "local"@, m)
    } else {
        global matches Some(v) && scope_error(v, "global"@, m)
    }
}

/// The messages of the errors that decoding gives: the first structural
/// fault; an unsupported version; an incomplete precedence.
pub open spec fn rules_messages(entries: Seq<(String, TomlNode)>, r: Result<RulesFile, ConfigError>) -> bool {
    &&& (!file_parse_ok(entries) ==> (r matches Err(ConfigError::Parse(m)) && file_parse_error(entries, m@)))
    &&& (file_parse_ok(entries) && file_version(entries) != Some(1int)
        ==> (r matches Err(ConfigError::Semantic(m)) && m@ == version_message(file_version(entries)->0 as nat)))
    &&& (file_parse_ok(entries) && file_version(entries) == Some(1int) && (file_precedence_of(entries) matches Some(Some(p))
        && !is_bucket_permutation(p)) ==> (r matches Err(ConfigError::Semantic(m))
        && m@ == "`precedence` must list each of allow/confirm/deny exactly once, got "@ + precedence_text(file_precedence_of(entries)->0->0)))
}

/// Decodes a whole rules file from its top-level table and checks its
/// meaning (supported version, complete precedence).
pub fn decode_rules_file(entries: &Vec<(String, TomlNode)>) -> (r: Result<RulesFile, ConfigError>)
    ensures
        r is Ok <==> file_parse_ok(entries@) && file_semantic_ok(entries@),
        r matches Err(ConfigError::Parse(_)) <==> !file_parse_ok(entries@),
        r matches Ok(f) ==> rules_file_wf(f) && file_matches(f, entries@),
        rules_messages(entries@, r),
{
    proof {
        reveal_strlit("version");
    }
    let allowed = vec!["version", "default", "precedence", "local", "global"];
    let ck = check_keys(
        entries,
        &allowed,
        "one of `version`, `default`, `precedence`, `local`, `global`",
        "",
    );
    proof {
        assert(allowed@[0]@ == file_keys()[0]);
        assert(allowed@[1]@ == file_keys()[1]);
        assert(allowed@[2]@ == file_keys()[2]);
        assert(allowed@[3]@ == file_keys()[3]);
        assert(allowed@[4]@ == file_keys()[4]);
        lemma_keys_named(entries@, allowed@, file_keys());
    }
    match ck {
        Err(e) => {
            proof {
                lemma_stray_named(entries@, allowed@, file_keys(),
                    "one of `version`, `default`, `precedence`, `local`, `global`"@, ""@, e@);
            }
            return Err(ConfigError::Parse(e));
        },
        Ok(()) => {},
    }
    let version: u64 = match find_entry(entries, "version") {
        None => return Err(ConfigError::Parse(owned("missing field `version`"))),
        Some(TomlNode::Int(v)) => {
            if *v < 0 {
                let d = i64_decimal(*v);
                let e = cat3("invalid value: integer `", d.as_str(), "`, expected u64 for key `version`");
                proof {
                    assert(e@ =~= "invalid value: integer `"@ + seq!['-'] + decimal((-*v) as nat)
                        + "`, expected u64 for key `version`"@);
                }
                return Err(ConfigError::Parse(e));
            }
            *v as u64
        },
        Some(other) => return Err(ConfigError::Parse(invalid_type(other, "u64", "version"))),
    };
    let default = match find_entry(entries, "default") {
        Some(v) => match decode_decision(v, "default") {
            Ok(d) => Some(d),
            Err(e) => return Err(ConfigError::Parse(e)),
        },
        None => None,
    };
    let precedence = match find_entry(entries, "precedence") {
        Some(TomlNode::Array(items)) => {
            let mut p: Vec<Decision> = Vec::new();
            let mut i: usize = 0;
            proof {
                assert(items@.take(0) =~= Seq::<TomlNode>::empty());
            }
            while i < items.len()
                invariant
                    entry_value(entries@, "precedence"@) == Some(TomlNode::Array(*items)),
                    keys_within(entries@, file_keys()),
                    entry_value(entries@, "version"@) is Some,
                    file_version(entries@) is Some,
                    entry_value(entries@, "default"@) matches Some(v) ==> decision_of(v) is Some,
                    i <= items@.len(),
                    node_decisions(items@.take(i as int)) == Some(p@),
                    forall|k: int| 0 <= k < i ==> (#[trigger] decision_of(items@[k])) is Some,
                decreases items@.len() - i,
            {
                proof {
                    assert(items@.take(i + 1).drop_last() =~= items@.take(i as int));
                    assert(items@.take(i + 1).last() == items@[i as int]);
                }
                match decode_decision(&items[i], "precedence") {
                    Ok(d) => p.push(d),
                    Err(e) => {
                        proof {
                            lemma_node_decisions_fail(items@, i as int);
                            assert(precedence_item_error(items@, e@));
                        }
                        return Err(ConfigError::Parse(e));
                    },
                }
                i = i + 1;
            }
            proof {
                assert(items@.take(items@.len() as int) =~= items@);
            }
            Some(p)
        },
        Some(other) => return Err(ConfigError::Parse(invalid_type(other, "a sequence", "precedence"))),
        None => None,
    };
    let local = match opt_scope(entries, "local") {
        Ok(t) => t,
        Err(e) => return Err(ConfigError::Parse(e)),
    };
    let global = match opt_scope(entries, "global") {
        Ok(t) => t,
        Err(e) => return Err(ConfigError::Parse(e)),
    };
    if version != SUPPORTED_VERSION {
        let d = u64_decimal(version);
        let mut m = cat3("config schema version ", d.as_str(), " is not supported by this build (expected version ");
        m.append("1); upgrade crush-tether or regenerate the file");
        return Err(ConfigError::Semantic(m));
    }
    match &precedence {
        Some(p) => match validate_precedence(p) {
            Ok(()) => {},
            Err(e) => return Err(e),
        },
        None => {},
    }
    Ok(RulesFile { version, default, precedence, local, global })
}

proof fn lemma_node_decisions_fail(items: Seq<TomlNode>, i: int)
    requires
        0 <= i < items.len(),
        decision_of(items[i]) is None,
    ensures
        node_decisions(items) is None,
    decreases items.len(),
{
    if i < items.len() - 1 {
        lemma_node_decisions_fail(items.drop_last(), i);
    }
}

impl RulesFile {
    /// Parses and checks a `rules.toml` text.
    pub fn parse_toml(text: &str) -> (r: Result<RulesFile, ConfigError>)
        ensures
            r matches Ok(f) ==> rules_file_wf(f),
            toml_doc_spec(text@) is None ==> r matches Err(ConfigError::Parse(_)),
            toml_doc_spec(text@) matches Some(d) ==> exists|es: Seq<(String, TomlNode)>| #[trigger] entries_view(es) == d
                && rules_decoded(es, r),
            rules_text_loads(text@, r),
    {
        match parse_toml_document(text) {
            Ok(entries) => {
                let r = decode_rules_file(&entries);
                proof {
                    assert(rules_decoded(entries@, r));
                }
                r
            },
            Err(m) => Err(ConfigError::Parse(m)),
        }
    }
}

} // verus!
