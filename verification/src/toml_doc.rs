//! TOML documents as plain values.
//!
//! The `toml` crate parses the text. Each node of the document is read by
//! its position (entry or element indices from the top table) as one level
//! of plain values, and the tree is rebuilt from those levels as
//! [`TomlNode`], which the configuration decoders of this crate read. Keys
//! keep their document order.
use vstd::prelude::*;
use toml::Value;
use crate::toml_doc::TomlShape::{Array, Bool, Datetime, Float, Int, Str, Table};

verus! {

/// One level of a TOML value: scalars by value, an array by its length, a
/// table by its keys in document order.
pub enum TomlShape {
    Str(String),
    Int(i64),
    Bool(bool),
    Float,
    Datetime,
    Array(usize),
    Table(Vec<String>),
}

/// [`TomlShape`] as plain values.
pub enum TomlShapeV {
    Str(Seq<char>),
    Int(i64),
    Bool(bool),
    Float,
    Datetime,
    Array(nat),
    Table(Seq<Seq<char>>),
}

impl View for TomlShape {
    type V = TomlShapeV;

    open spec fn view(&self) -> TomlShapeV {
        match self {
            TomlShape::Str(s) => TomlShapeV::Str(s@),
            TomlShape::Int(i) => TomlShapeV::Int(*i),
            TomlShape::Bool(b) => TomlShapeV::Bool(*b),
            TomlShape::Float => TomlShapeV::Float,
            TomlShape::Datetime => TomlShapeV::Datetime,
            TomlShape::Array(n) => TomlShapeV::Array(*n as nat),
            TomlShape::Table(ks) => TomlShapeV::Table(crate::text::views(ks@)),
        }
    }
}

/// The node of the TOML document `text` reached from its top table by the
/// indices of `path` (the i-th entry of a table in document order, the i-th
/// element of an array), as one level of plain values; `None` when the text
/// is not a TOML document or there is no such node.
pub uninterp spec fn toml_node_spec(text: Seq<char>, path: Seq<usize>) -> Option<TomlShapeV>;

/// Parses `text` with `toml::from_str` into a table and reads the node that
/// `path` leads to (`into_iter().nth(i)` on tables and arrays, one arm per
/// variant of `toml::Value`). The parser is deterministic: the result is a
/// function of the text and the path.
#[verifier::external_body]
fn toml_node_at(text: &str, path: &Vec<usize>) -> (r: Option<TomlShape>)
    ensures
        match r {
            Some(s) => toml_node_spec(text@, path@) == Some(s@),
            None => toml_node_spec(text@, path@) is None,
        },
{
    let mut v = Value::Table(toml::from_str(text).ok()?);
    for &i in path {
        v = match v { Value::Array(a) => a.into_iter().nth(i), Value::Table(t) => t.into_iter().nth(i).map(|e| e.1), _ => None }?;
    }
    Some(match v {
        Value::String(s) => Str(s), Value::Integer(n) => Int(n), Value::Float(_) => Float, Value::Boolean(b) => Bool(b),
        Value::Datetime(_) => Datetime, Value::Array(a) => Array(a.len()), Value::Table(t) => Table(t.into_iter().map(|e| e.0).collect()),
    })
}

/// The message of the error that `toml::from_str` gives for `text` as a
/// table (its `Display` text, with line and column), if it gives one. Its
/// wording is the crate's.
#[verifier::external_body]
fn toml_error_message(text: &str) -> Option<String> {
    toml::from_str::<toml::Table>(text).err().map(|e| e.to_string())
}

/// A TOML value as plain data (floats and datetimes are kept as markers only;
/// no configuration key of this crate accepts them).
#[derive(Debug)]
pub enum TomlNode {
    Str(String),
    Int(i64),
    Bool(bool),
    Float,
    Datetime,
    Array(Vec<TomlNode>),
    Table(Vec<(String, TomlNode)>),
}

/// [`TomlNode`] as plain values.
pub enum TomlNodeV {
    Str(Seq<char>),
    Int(i64),
    Bool(bool),
    Float,
    Datetime,
    Array(Seq<TomlNodeV>),
    Table(Seq<(Seq<char>, TomlNodeV)>),
}

pub open spec fn node_view(n: TomlNode) -> TomlNodeV
    decreases n,
{
    match n {
        TomlNode::Str(s) => TomlNodeV::Str(s@),
        TomlNode::Int(i) => TomlNodeV::Int(i),
        TomlNode::Bool(b) => TomlNodeV::Bool(b),
        TomlNode::Float => TomlNodeV::Float,
        TomlNode::Datetime => TomlNodeV::Datetime,
        TomlNode::Array(items) => TomlNodeV::Array(nodes_view(items@)),
        TomlNode::Table(entries) => TomlNodeV::Table(entries_view(entries@)),
    }
}

pub open spec fn nodes_view(items: Seq<TomlNode>) -> Seq<TomlNodeV>
    decreases items,
{
    if items.len() == 0 {
        Seq::empty()
    } else {
        nodes_view(items.drop_last()).push(node_view(items.last()))
    }
}

pub open spec fn entries_view(entries: Seq<(String, TomlNode)>) -> Seq<(Seq<char>, TomlNodeV)>
    decreases entries,
{
    if entries.len() == 0 {
        Seq::empty()
    } else {
        entries_view(entries.drop_last()).push((entries.last().0@, node_view(entries.last().1)))
    }
}

/// Deepest nesting that the copy keeps; deeper tables and arrays become empty
/// ones. No configuration schema of this crate nests more than five levels.
pub const MAX_TOML_DEPTH: usize = 32;

/// The value at `path`, rebuilt from its levels, at most `fuel` levels of
/// tables and arrays deep below it (deeper ones are kept empty).
pub open spec fn toml_tree_spec(text: Seq<char>, path: Seq<usize>, fuel: nat) -> Option<TomlNodeV>
    decreases fuel, 0nat,
{
    match toml_node_spec(text, path) {
        None => None,
        Some(TomlShapeV::Str(s)) => Some(TomlNodeV::Str(s)),
        Some(TomlShapeV::Int(i)) => Some(TomlNodeV::Int(i)),
        Some(TomlShapeV::Bool(b)) => Some(TomlNodeV::Bool(b)),
        Some(TomlShapeV::Float) => Some(TomlNodeV::Float),
        Some(TomlShapeV::Datetime) => Some(TomlNodeV::Datetime),
        Some(TomlShapeV::Array(n)) => if fuel == 0 {
            Some(TomlNodeV::Array(Seq::empty()))
        } else {
            match toml_items_spec(text, path, n, 0, (fuel - 1) as nat) {
                Some(xs) => Some(TomlNodeV::Array(xs)),
                None => None,
            }
        },
        Some(TomlShapeV::Table(keys)) => if fuel == 0 {
            Some(TomlNodeV::Table(Seq::empty()))
        } else {
            match toml_entries_spec(text, path, keys, 0, (fuel - 1) as nat) {
                Some(es) => Some(TomlNodeV::Table(es)),
                None => None,
            }
        },
    }
}

/// The elements `i..n` of the array at `path`.
pub open spec fn toml_items_spec(text: Seq<char>, path: Seq<usize>, n: nat, i: nat, fuel: nat) -> Option<Seq<TomlNodeV>>
    decreases fuel, (if i < n { n - i } else { 0 }) + 1,
{
    if i >= n {
        Some(Seq::empty())
    } else {
        match toml_tree_spec(text, path.push(i as usize), fuel) {
            None => None,
            Some(x) => match toml_items_spec(text, path, n, i + 1, fuel) {
                Some(rest) => Some(seq![x] + rest),
                None => None,
            },
        }
    }
}

/// The entries `i..` of the table at `path`, whose keys are `keys`.
pub open spec fn toml_entries_spec(text: Seq<char>, path: Seq<usize>, keys: Seq<Seq<char>>, i: nat, fuel: nat) -> Option<Seq<(Seq<char>, TomlNodeV)>>
    decreases fuel, (if i < keys.len() { keys.len() - i } else { 0 }) + 1,
{
    if i >= keys.len() {
        Some(Seq::empty())
    } else {
        match toml_tree_spec(text, path.push(i as usize), fuel) {
            None => None,
            Some(x) => match toml_entries_spec(text, path, keys, i + 1, fuel) {
                Some(rest) => Some(seq![(keys[i as int], x)] + rest),
                None => None,
            },
        }
    }
}

/// The TOML document of `text`: the entries of its top table in document
/// order; `None` when the text is not TOML.
pub open spec fn toml_doc_spec(text: Seq<char>) -> Option<Seq<(Seq<char>, TomlNodeV)>> {
    match toml_node_spec(text, Seq::empty()) {
        Some(TomlShapeV::Table(keys)) => toml_entries_spec(text, Seq::empty(), keys, 0, MAX_TOML_DEPTH as nat),
        _ => None,
    }
}

proof fn lemma_nodes_view_push(items: Seq<TomlNode>, x: TomlNode)
    ensures
        nodes_view(items.push(x)) == nodes_view(items).push(node_view(x)),
{
    assert(items.push(x).drop_last() =~= items);
}

proof fn lemma_entries_view_push(entries: Seq<(String, TomlNode)>, x: (String, TomlNode))
    ensures
        entries_view(entries.push(x)) == entries_view(entries).push((x.0@, node_view(x.1))),
{
    assert(entries.push(x).drop_last() =~= entries);
}

/// The value at `path`, rebuilt.
fn build_node(text: &str, path: &Vec<usize>, fuel: usize) -> (r: Option<TomlNode>)
    ensures
        match r {
            Some(n) => toml_tree_spec(text@, path@, fuel as nat) == Some(node_view(n)),
            None => toml_tree_spec(text@, path@, fuel as nat) is None,
        },
    decreases fuel, 0nat,
{
    match toml_node_at(text, path) {
        None => None,
        Some(TomlShape::Str(s)) => Some(TomlNode::Str(s)),
        Some(TomlShape::Int(i)) => Some(TomlNode::Int(i)),
        Some(TomlShape::Bool(b)) => Some(TomlNode::Bool(b)),
        Some(TomlShape::Float) => Some(TomlNode::Float),
        Some(TomlShape::Datetime) => Some(TomlNode::Datetime),
        Some(TomlShape::Array(n)) => {
            if fuel == 0 {
                proof {
                    assert(nodes_view(Seq::<TomlNode>::empty()) =~= Seq::<TomlNodeV>::empty());
                }
                return Some(TomlNode::Array(Vec::new()));
            }
            let mut out: Vec<TomlNode> = Vec::new();
            let mut i: usize = 0;
            proof {
                assert(nodes_view(out@) =~= Seq::<TomlNodeV>::empty());
                assert(seq![] + Seq::<TomlNodeV>::empty() =~= Seq::<TomlNodeV>::empty());
            }
            while i < n
                invariant
                    i <= n,
                    fuel > 0,
                    toml_node_spec(text@, path@) == Some(TomlShapeV::Array(n as nat)),
                    toml_items_spec(text@, path@, n as nat, 0, (fuel - 1) as nat) == match toml_items_spec(text@, path@, n as nat, i as nat, (fuel - 1) as nat) {
                        Some(rest) => Some(nodes_view(out@) + rest),
                        None => None,
                    },
                decreases n - i,
            {
                let mut cp = path.clone();
                cp.push(i);
                proof {
                    assert(cp@ == path@.push(i));
                }
                match build_node(text, &cp, fuel - 1) {
                    Some(x) => {
                        let ghost before = out@;
                        out.push(x);
                        proof {
                            lemma_nodes_view_push(before, x);
                            let rest = toml_items_spec(text@, path@, n as nat, (i + 1) as nat, (fuel - 1) as nat);
                            if rest is Some {
                                assert(nodes_view(before) + (seq![node_view(x)] + rest->0) =~= nodes_view(out@) + rest->0);
                            }
                        }
                    },
                    None => {
                        return None;
                    },
                }
                i = i + 1;
            }
            proof {
                assert(nodes_view(out@) + Seq::<TomlNodeV>::empty() =~= nodes_view(out@));
            }
            Some(TomlNode::Array(out))
        },
        Some(TomlShape::Table(keys)) => {
            if fuel == 0 {
                proof {
                    assert(entries_view(Seq::<(String, TomlNode)>::empty()) =~= Seq::<(Seq<char>, TomlNodeV)>::empty());
                }
                return Some(TomlNode::Table(Vec::new()));
            }
            match build_entries(text, path, &keys, fuel - 1) {
                Some(es) => Some(TomlNode::Table(es)),
                None => None,
            }
        },
    }
}

/// The entries of the table at `path` (keys `keys`), rebuilt.
fn build_entries(text: &str, path: &Vec<usize>, keys: &Vec<String>, fuel: usize) -> (r: Option<Vec<(String, TomlNode)>>)
    ensures
        match r {
            Some(es) => toml_entries_spec(text@, path@, crate::text::views(keys@), 0, fuel as nat) == Some(entries_view(es@)),
            None => toml_entries_spec(text@, path@, crate::text::views(keys@), 0, fuel as nat) is None,
        },
    decreases fuel, 1nat,
{
    let ghost kv = crate::text::views(keys@);
    let mut out: Vec<(String, TomlNode)> = Vec::new();
    let mut i: usize = 0;
    proof {
        assert(entries_view(out@) =~= Seq::<(Seq<char>, TomlNodeV)>::empty());
        assert(Seq::<(Seq<char>, TomlNodeV)>::empty() + Seq::<(Seq<char>, TomlNodeV)>::empty() =~= Seq::<(Seq<char>, TomlNodeV)>::empty());
    }
    while i < keys.len()
        invariant
            i <= keys@.len(),
            kv == crate::text::views(keys@),
            toml_entries_spec(text@, path@, kv, 0, fuel as nat) == match toml_entries_spec(text@, path@, kv, i as nat, fuel as nat) {
                Some(rest) => Some(entries_view(out@) + rest),
                None => None,
            },
        decreases keys@.len() - i,
    {
        let mut cp = path.clone();
        cp.push(i);
        proof {
            assert(cp@ == path@.push(i));
            assert(kv[i as int] == keys@[i as int]@);
        }
        match build_node(text, &cp, fuel) {
            Some(x) => {
                let ghost before = out@;
                let k = keys[i].clone();
                out.push((k, x));
                proof {
                    lemma_entries_view_push(before, (k, x));
                    let rest = toml_entries_spec(text@, path@, kv, (i + 1) as nat, fuel as nat);
                    if rest is Some {
                        assert(entries_view(before) + (seq![(kv[i as int], node_view(x))] + rest->0) =~= entries_view(out@) + rest->0);
                    }
                }
            },
            None => {
                return None;
            },
        }
        i = i + 1;
    }
    proof {
        assert(entries_view(out@) + Seq::<(Seq<char>, TomlNodeV)>::empty() =~= entries_view(out@));
    }
    Some(out)
}

/// Parses TOML text into its top-level table of plain nodes, or the parser's
/// error message.
pub fn parse_toml_document(text: &str) -> (r: Result<Vec<(String, TomlNode)>, String>)
    ensures
        match toml_doc_spec(text@) {
            Some(d) => r matches Ok(es) && entries_view(es@) == d,
            None => r is Err,
        },
{
    let root: Vec<usize> = Vec::new();
    proof {
        assert(root@ =~= Seq::<usize>::empty());
    }
    match toml_node_at(text, &root) {
        None => Err(match toml_error_message(text) {
            Some(m) => m,
            None => String::new(),
        }),
        Some(TomlShape::Table(keys)) => match build_entries(text, &root, &keys, MAX_TOML_DEPTH) {
            Some(es) => Ok(es),
            None => Err(String::new()),
        },
        Some(_) => Err(String::new()),
    }
}

} // verus!
