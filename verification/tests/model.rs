use crush_tether::model::{unparseable, Decision, Verdict};

#[test]
fn combine_takes_the_most_severe() {
    let v = Verdict::combine(vec![Verdict::allow(), Verdict::deny("a"), Verdict::deny("b")]);
    assert_eq!(v, Verdict::deny("a"), "the first deny is returned as is");
    let v = Verdict::combine(vec![Verdict::allow(), Verdict::confirm("x")]);
    assert_eq!(v, Verdict::confirm("component requires confirmation"));
    assert_eq!(Verdict::combine(vec![Verdict::allow(), Verdict::allow()]), Verdict::allow());
    assert_eq!(Verdict::combine(Vec::new()), Verdict::allow());
}

#[test]
fn decisions_parse_and_print() {
    assert_eq!(Decision::parse("deny"), Some(Decision::Deny));
    assert_eq!(Decision::parse("Deny"), None);
    assert_eq!(Decision::Confirm.to_string(), "confirm");
    assert_eq!(unparseable("x").reason.unwrap(), "unparseable: x");
    assert_eq!(unparseable("x").decision, Decision::Confirm);
}
