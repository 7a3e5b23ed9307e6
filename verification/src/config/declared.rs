//! The declared-rule skeleton of a rules file: `[[rule]]` tables naming a
//! bin, an optional subcommand and the decision they lead to.
use vstd::prelude::*;
use crate::config::schema::{entry_value, find_entry};
use crate::toml_doc::{TomlNode, entries_view, parse_toml_document, toml_doc_spec};
use crate::text::owned;

verus! {

/// One declared rule.
#[derive(Debug, Clone, PartialEq, Eq)]
pub struct DeclaredRule {
    /// The bin it matches (the first word, exactly).
    pub bin: String,
    /// The subcommand it matches, if any.
    pub subcommand: Option<String>,
    /// The decision on a match (the `then` key).
    pub decision: String,
}

/// The declared rules of a file (`rule`, absent = none).
#[derive(Debug, Clone, PartialEq, Eq)]
pub struct RulesConfig {
    pub rules: Vec<DeclaredRule>,
}

pub struct DeclaredRuleV {
    pub bin: Seq<char>,
    pub subcommand: Option<Seq<char>>,
    pub decision: Seq<char>,
}

/// A rule table: the strings `bin` and `then`, and `subcommand` absent or a
/// string; other keys are ignored.
pub open spec fn declared_rule_of(n: TomlNode) -> Option<DeclaredRuleV> {
    match n {
        TomlNode::Table(es) => match (entry_value(es@, "bin"@), entry_value(es@, "subcommand"@), entry_value(es@, "then"@)) {
            (Some(TomlNode::Str(b)), None, Some(TomlNode::Str(t))) => Some(DeclaredRuleV { bin: b@, subcommand: None, decision: t@ }),
            (Some(TomlNode::Str(b)), Some(TomlNode::Str(s)), Some(TomlNode::Str(t))) => Some(
                DeclaredRuleV { bin: b@, subcommand: Some(s@), decision: t@ },
            ),
            _ => None,
        },
        _ => None,
    }
}

pub open spec fn declared_view(r: DeclaredRule) -> DeclaredRuleV {
    DeclaredRuleV {
        bin: r.bin@,
        subcommand: match r.subcommand {
            Some(s) => Some(s@),
            None => None,
        },
        decision: r.decision@,
    }
}

/// `rules` are what the `rule` key of `entries` declares (none when the key
/// is absent).
pub open spec fn declares(entries: Seq<(String, TomlNode)>, rules: Seq<DeclaredRule>) -> bool {
    match entry_value(entries, "rule"@) {
        None => rules.len() == 0,
        Some(TomlNode::Array(items)) => rules.len() == items@.len()
            && forall|i: int| 0 <= i < items@.len() ==> declared_rule_of(items@[i]) == Some(declared_view(#[trigger] rules[i])),
        Some(_) => false,
    }
}

/// `r` is what decoding the `rule` key of the entries gives: no key is no
/// rule; an array is decoded when each element is a rule table; anything
/// else is an error.
pub open spec fn config_decoded(entries: Seq<(String, TomlNode)>, r: Result<RulesConfig, String>) -> bool {
    &&& (entry_value(entries, "rule"@) is None ==> (r matches Ok(c) && c.rules@.len() == 0))
    &&& (entry_value(entries, "rule"@) matches Some(TomlNode::Array(items)) ==> (
        (forall|i: int| 0 <= i < items@.len() ==> (#[trigger] declared_rule_of(items@[i])) is Some) <==> r is Ok))
    &&& (entry_value(entries, "rule"@) matches Some(n) ==> (!(n is Array) ==> r is Err))
    &&& (r matches Ok(c) ==> declares(entries, c.rules@))
}

fn declared_rule(n: &TomlNode) -> (r: Option<DeclaredRule>)
    ensures
        match r {
            Some(d) => declared_rule_of(*n) == Some(declared_view(d)),
            None => declared_rule_of(*n) is None,
        },
{
    match n {
        TomlNode::Table(es) => {
            let bin = match find_entry(es, "bin") {
                Some(TomlNode::Str(b)) => b.clone(),
                _ => {
                    return None;
                },
            };
            let decision = match find_entry(es, "then") {
                Some(TomlNode::Str(t)) => t.clone(),
                _ => {
                    return None;
                },
            };
            let subcommand = match find_entry(es, "subcommand") {
                None => None,
                Some(TomlNode::Str(s)) => Some(s.clone()),
                Some(_) => {
                    return None;
                },
            };
            Some(DeclaredRule { bin, subcommand, decision })
        },
        _ => None,
    }
}

impl RulesConfig {
    /// The declared rules of a decoded file: no `rule` key gives none; a
    /// `rule` that is not an array of rule tables is an error.
    pub fn decode(entries: &Vec<(String, TomlNode)>) -> (r: Result<RulesConfig, String>)
        ensures
            entry_value(entries@, "rule"@) is None ==> (r matches Ok(c) && c.rules@.len() == 0),
            entry_value(entries@, "rule"@) matches Some(TomlNode::Array(items)) ==> (
                (forall|i: int| 0 <= i < items@.len() ==> (#[trigger] declared_rule_of(items@[i])) is Some) <==> r is Ok),
            entry_value(entries@, "rule"@) matches Some(TomlNode::Array(items)) ==> (r matches Ok(c) ==> c.rules@.len()
                == items@.len() && forall|i: int| 0 <= i < items@.len() ==> declared_rule_of(items@[i]) == Some(
                declared_view(#[trigger] c.rules@[i]),
            )),
            entry_value(entries@, "rule"@) matches Some(n) ==> (!(n is Array) ==> r is Err),
            r matches Ok(c) ==> declares(entries@, c.rules@),
    {
        let items = match find_entry(entries, "rule") {
            None => {
                return Ok(RulesConfig { rules: Vec::new() });
            },
            Some(TomlNode::Array(items)) => items,
            Some(_) => {
                return Err(owned("invalid type for `rule`: expected an array of tables"));
            },
        };
        let mut rules: Vec<DeclaredRule> = Vec::new();
        let mut i: usize = 0;
        while i < items.len()
            invariant
                i <= items@.len(),
                rules@.len() == i,
                forall|k: int| 0 <= k < i ==> declared_rule_of(items@[k]) == Some(declared_view(#[trigger] rules@[k])),
                forall|k: int| 0 <= k < i ==> (#[trigger] declared_rule_of(items@[k])) is Some,
                entry_value(entries@, "rule"@) == Some(TomlNode::Array(*items)),
            decreases items@.len() - i,
        {
            match declared_rule(&items[i]) {
                Some(d) => rules.push(d),
                None => {
                    return Err(owned("each rule needs the strings `bin` and `then` (and `subcommand` a string if present)"));
                },
            }
            i = i + 1;
        }
        Ok(RulesConfig { rules })
    }

    /// Parses the declared rules of a rules file text (see [`RulesConfig::decode`];
    /// text that is not TOML is an error with the parser's message).
    pub fn parse_toml(text: &str) -> (r: Result<RulesConfig, String>)
        ensures
            toml_doc_spec(text@) is None ==> r is Err,
            toml_doc_spec(text@) matches Some(d) ==> exists|es: Seq<(String, TomlNode)>| #[trigger] entries_view(es) == d
                && config_decoded(es, r),
    {
        match parse_toml_document(text) {
            Ok(entries) => {
                let r = RulesConfig::decode(&entries);
                proof {
                    assert(config_decoded(entries@, r));
                }
                r
            },
            Err(m) => Err(m),
        }
    }
}

} // verus!
