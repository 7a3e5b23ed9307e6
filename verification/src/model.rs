//! Core types: the three-way decision and the verdict of one simple command.
use vstd::prelude::*;
use crate::text::{cat, owned, str_eq};

verus! {

/// The three classification tiers.
#[derive(Debug, Clone, Copy, PartialEq, Eq, Structural)]
pub enum Decision {
    Allow,
    Confirm,
    Deny,
}

/// Severity rank of a decision (allow < confirm < deny).
pub open spec fn rank(d: Decision) -> int {
    match d {
        Decision::Allow => 0,
        Decision::Confirm => 1,
        Decision::Deny => 2,
    }
}

/// The canonical lower-case name of a decision.
pub open spec fn decision_name(d: Decision) -> Seq<char> {
    match d {
        Decision::Allow => "allow"@,
        Decision::Confirm => "confirm"@,
        Decision::Deny => "deny"@,
    }
}

/// The decision that a word names, if any.
pub open spec fn parse_decision_spec(s: Seq<char>) -> Option<Decision> {
    if s == "allow"@ {
        Some(Decision::Allow)
    } else if s == "confirm"@ {
        Some(Decision::Confirm)
    } else if s == "deny"@ {
        Some(Decision::Deny)
    } else {
        None
    }
}

impl Decision {
    /// Protocol string of the decision; confirm has no protocol form (empty).
    pub fn as_str(self) -> (r: &'static str)
        ensures
            r@ == (match self {
                Decision::Allow => "allow"@,
                Decision::Confirm => ""@,
                Decision::Deny => "deny"@,
            }),
    {
        match self {
            Decision::Allow => "allow",
            Decision::Confirm => "",
            Decision::Deny => "deny",
        }
    }

    /// The lower-case name (`allow` / `confirm` / `deny`).
    pub fn label(self) -> (r: &'static str)
        ensures
            r@ == decision_name(self),
    {
        match self {
            Decision::Allow => "allow",
            Decision::Confirm => "confirm",
            Decision::Deny => "deny",
        }
    }

    /// The lower-case name as an owned string (what `Display` prints).
    pub fn to_string(self) -> (r: String)
        ensures
            r@ == decision_name(self),
    {
        owned(self.label())
    }

    /// Single vocabulary source: parses `allow` / `confirm` / `deny`.
    pub fn parse(s: &str) -> (r: Option<Decision>)
        ensures
            r == parse_decision_spec(s@),
    {
        if str_eq(s, "allow") {
            Some(Decision::Allow)
        } else if str_eq(s, "confirm") {
            Some(Decision::Confirm)
        } else if str_eq(s, "deny") {
            Some(Decision::Deny)
        } else {
            None
        }
    }
}

/// The classification of one simple command, with an optional reason.
#[derive(Debug, Clone, PartialEq, Eq)]
pub struct Verdict {
    pub decision: Decision,
    pub reason: Option<String>,
}

/// The reason text of a verdict as a character sequence, if any.
pub open spec fn reason_of(v: Verdict) -> Option<Seq<char>> {
    match v.reason {
        Some(s) => Some(s@),
        None => None,
    }
}

/// Index of the first deny verdict.
pub open spec fn first_deny(vs: Seq<Verdict>) -> Option<int>
    decreases vs.len(),
{
    if vs.len() == 0 {
        None
    } else if vs[0].decision == Decision::Deny {
        Some(0)
    } else {
        match first_deny(vs.drop_first()) {
            Some(i) => Some(i + 1),
            None => None,
        }
    }
}

/// Whether some verdict is a confirm.
pub open spec fn any_confirm(vs: Seq<Verdict>) -> bool {
    exists|i: int| 0 <= i < vs.len() && vs[i].decision == Decision::Confirm
}

/// Decision and reason of the combination of verdicts: the first deny,
/// else a confirm naming a component, else allow.
pub open spec fn combined_view(vs: Seq<Verdict>) -> (Decision, Option<Seq<char>>) {
    match first_deny(vs) {
        Some(i) => (vs[i].decision, reason_of(vs[i])),
        None => if any_confirm(vs) {
            (Decision::Confirm, Some("component requires confirmation"@))
        } else {
            (Decision::Allow, None)
        },
    }
}

/// The decision of a combination: deny if any deny, else confirm if any
/// confirm, else allow.
pub open spec fn combined_decision(ds: Seq<Decision>) -> Decision {
    if ds.contains(Decision::Deny) {
        Decision::Deny
    } else if ds.contains(Decision::Confirm) {
        Decision::Confirm
    } else {
        Decision::Allow
    }
}

/// The decisions of a sequence of verdicts.
pub open spec fn decisions(vs: Seq<Verdict>) -> Seq<Decision> {
    vs.map_values(|v: Verdict| v.decision)
}

impl Verdict {
    pub fn allow() -> (r: Verdict)
        ensures
            r.decision == Decision::Allow,
            r.reason.is_none(),
    {
        Verdict { decision: Decision::Allow, reason: None }
    }

    pub fn confirm(reason: &str) -> (r: Verdict)
        ensures
            r.decision == Decision::Confirm,
            reason_of(r) == Some(reason@),
    {
        Verdict { decision: Decision::Confirm, reason: Some(owned(reason)) }
    }

    pub fn deny(reason: &str) -> (r: Verdict)
        ensures
            r.decision == Decision::Deny,
            reason_of(r) == Some(reason@),
    {
        Verdict { decision: Decision::Deny, reason: Some(owned(reason)) }
    }

    /// A verdict with the given decision and reason text.
    pub fn with(decision: Decision, reason: String) -> (r: Verdict)
        ensures
            r.decision == decision,
            reason_of(r) == Some(reason@),
    {
        Verdict { decision, reason: Some(reason) }
    }

    /// Combines the verdicts of several simple commands: the first deny wins;
    /// otherwise any confirm gives confirm; otherwise allow.
    pub fn combine(verdicts: Vec<Verdict>) -> (r: Verdict)
        ensures
            match first_deny(verdicts@) {
                Some(i) => r == verdicts@[i],
                None => if any_confirm(verdicts@) {
                    r.decision == Decision::Confirm && reason_of(r) == Some(
                        "component requires confirmation"@,
                    )
                } else {
                    r.decision == Decision::Allow && r.reason.is_none()
                },
            },
            r.decision == combined_decision(decisions(verdicts@)),
    {
        let ghost vs = verdicts@;
        let mut saw_confirm = false;
        let mut i: usize = 0;
        let n = verdicts.len();
        while i < n
            invariant
                n == vs.len(),
                verdicts@ == vs,
                i <= n,
                forall|k: int| 0 <= k < i ==> vs[k].decision != Decision::Deny,
                saw_confirm == exists|k: int| 0 <= k < i && vs[k].decision == Decision::Confirm,
            decreases n - i,
        {
            if verdicts[i].decision == Decision::Deny {
                proof {
                    lemma_first_deny_at(vs, i as int);
                    lemma_combined_deny(vs, i as int);
                }
                let mut vv = verdicts;
                return vv.remove(i);
            }
            if verdicts[i].decision == Decision::Confirm {
                saw_confirm = true;
            }
            i = i + 1;
        }
        proof {
            lemma_first_deny_none(vs);
            lemma_combined_no_deny(vs);
        }
        if saw_confirm {
            Verdict::confirm("component requires confirmation")
        } else {
            Verdict::allow()
        }
    }
}

proof fn lemma_first_deny_at(vs: Seq<Verdict>, i: int)
    requires
        0 <= i < vs.len(),
        vs[i].decision == Decision::Deny,
        forall|k: int| 0 <= k < i ==> vs[k].decision != Decision::Deny,
    ensures
        first_deny(vs) == Some(i),
    decreases i,
{
    if i > 0 {
        lemma_first_deny_at(vs.drop_first(), i - 1);
    }
}

proof fn lemma_first_deny_none(vs: Seq<Verdict>)
    requires
        forall|k: int| 0 <= k < vs.len() ==> vs[k].decision != Decision::Deny,
    ensures
        first_deny(vs) is None,
    decreases vs.len(),
{
    if vs.len() > 0 {
        lemma_first_deny_none(vs.drop_first());
    }
}

proof fn lemma_combined_deny(vs: Seq<Verdict>, i: int)
    requires
        0 <= i < vs.len(),
        vs[i].decision == Decision::Deny,
    ensures
        combined_decision(decisions(vs)) == Decision::Deny,
{
    assert(decisions(vs)[i] == Decision::Deny);
}

proof fn lemma_combined_no_deny(vs: Seq<Verdict>)
    requires
        forall|k: int| 0 <= k < vs.len() ==> vs[k].decision != Decision::Deny,
    ensures
        combined_decision(decisions(vs)) == (if any_confirm(vs) {
            Decision::Confirm
        } else {
            Decision::Allow
        }),
{
    let ds = decisions(vs);
    assert(!ds.contains(Decision::Deny)) by {
        if ds.contains(Decision::Deny) {
            let k = choose|k: int| 0 <= k < ds.len() && ds[k] == Decision::Deny;
            assert(vs[k].decision == Decision::Deny);
        }
    }
    if any_confirm(vs) {
        let k = choose|k: int| 0 <= k < vs.len() && vs[k].decision == Decision::Confirm;
        assert(ds[k] == Decision::Confirm);
    } else {
        assert(!ds.contains(Decision::Confirm)) by {
            if ds.contains(Decision::Confirm) {
                let k = choose|k: int| 0 <= k < ds.len() && ds[k] == Decision::Confirm;
                assert(vs[k].decision == Decision::Confirm);
            }
        }
    }
}

/// Combination law: the decision of a combined command line is the most
/// severe decision among its parts, whatever their order and grouping.
pub proof fn law_combine_is_most_severe(a: Seq<Decision>, b: Seq<Decision>)
    ensures
        rank(combined_decision(a + b)) == if rank(combined_decision(a)) >= rank(
            combined_decision(b),
        ) {
            rank(combined_decision(a))
        } else {
            rank(combined_decision(b))
        },
        combined_decision(a + b) == combined_decision(b + a),
{
    let ab = a + b;
    let ba = b + a;
    assert forall|d: Decision| ab.contains(d) <==> (a.contains(d) || b.contains(d)) by {
        if ab.contains(d) {
            let k = choose|k: int| 0 <= k < ab.len() && ab[k] == d;
            if k < a.len() {
                assert(a[k] == d);
            } else {
                assert(b[k - a.len()] == d);
            }
        }
        if a.contains(d) {
            let k = choose|k: int| 0 <= k < a.len() && a[k] == d;
            assert(ab[k] == d);
        }
        if b.contains(d) {
            let k = choose|k: int| 0 <= k < b.len() && b[k] == d;
            assert(ab[a.len() + k] == d);
        }
    }
    assert forall|d: Decision| ba.contains(d) <==> (a.contains(d) || b.contains(d)) by {
        if ba.contains(d) {
            let k = choose|k: int| 0 <= k < ba.len() && ba[k] == d;
            if k < b.len() {
                assert(b[k] == d);
            } else {
                assert(a[k - b.len()] == d);
            }
        }
        if b.contains(d) {
            let k = choose|k: int| 0 <= k < b.len() && b[k] == d;
            assert(ba[k] == d);
        }
        if a.contains(d) {
            let k = choose|k: int| 0 <= k < a.len() && a[k] == d;
            assert(ba[b.len() + k] == d);
        }
    }
}

/// Fail-safe verdict for input that cannot be parsed: confirm, never allow.
pub fn unparseable(reason: &str) -> (r: Verdict)
    ensures
        r.decision == Decision::Confirm,
        reason_of(r) == Some("unparseable: "@ + reason@),
{
    Verdict { decision: Decision::Confirm, reason: Some(cat("unparseable: ", reason)) }
}

} // verus!
