use axia::basic::{proof_lines, prove, Axiom, Formula, ProofStep, Term};
use axia::name_map::NameMap;

#[test]
fn congruence_by_transitivity() {
    let ab = Term::con("AB");
    let cd = Term::con("CD");
    let ef = Term::con("EF");
    let given_1 = Axiom::new("Given", vec![], Formula::pred("Congruent", vec![ab.clone(), cd.clone()]));
    let given_2 = Axiom::new("Given", vec![], Formula::pred("Congruent", vec![cd.clone(), ef.clone()]));
    let x = Term::var("x");
    let y = Term::var("y");
    let z = Term::var("z");
    let transitivity = Axiom::new(
        "TransitiveProperty",
        vec![
            Formula::pred("Congruent", vec![x.clone(), y.clone()]),
            Formula::pred("Congruent", vec![y.clone(), z.clone()]),
        ],
        Formula::pred("Congruent", vec![x.clone(), z.clone()]),
    );
    let symmetry = Axiom::new(
        "SymmetricProperty",
        vec![Formula::pred("Congruent", vec![x.clone(), y.clone()])],
        Formula::pred("Congruent", vec![y.clone(), x.clone()]),
    );
    let axioms = vec![given_1, given_2, transitivity, symmetry];
    let goal = Formula::pred("Congruent", vec![ab.clone(), ef.clone()]);
    assert_eq!(goal.to_string(), "Congruent(AB, EF)");
    let proof = prove(&goal, &axioms, 0).unwrap();
    assert_eq!(proof.rule_name, "TransitiveProperty");
    let lines = proof_lines(&proof, 0);
    assert_eq!(lines[0], "• Prove: Congruent(AB, EF)");
    assert_eq!(lines[1], "  Strategy: Apply TransitiveProperty");
    // Sub-goals are shown as they were posed: the middle variable is bound
    // separately in each branch and not written back.
    assert_eq!(lines[2], " • Fact: Congruent(AB, y) (By Given)");
    assert_eq!(lines[3], " • Fact: Congruent(y, EF) (By Given)");
    assert_eq!(lines.len(), 4);
}

#[test]
fn depth_limit() {
    let goal = Formula::pred("P", vec![]);
    let axioms = vec![Axiom::new("Loop", vec![Formula::pred("P", vec![])], Formula::pred("P", vec![]))];
    assert!(prove(&goal, &axioms, 0).is_none());
    let facts = vec![Axiom::new("F", vec![], Formula::pred("P", vec![]))];
    assert!(prove(&goal, &facts, 11).is_none());
    assert!(prove(&goal, &facts, 10).is_some());
}

#[test]
fn matching_binds_pattern_variables() {
    let pattern = Formula::pred("R", vec![Term::var("x"), Term::var("x")]);
    assert!(pattern.unify(&Formula::pred("R", vec![Term::con("a"), Term::con("a")])).is_some());
    assert!(pattern.unify(&Formula::pred("R", vec![Term::con("a"), Term::con("b")])).is_none());
    let goal = Formula::pred("R", vec![Term::apply("f", vec![Term::con("a")]), Term::apply("f", vec![Term::con("a")])]);
    let b = pattern.unify(&goal).unwrap();
    assert_eq!(pattern.substitute(&b), goal);
    let eq = Formula::eq(Term::var("u"), Term::con("c"));
    let b = eq.unify(&Formula::eq(Term::con("d"), Term::var("v"))).unwrap();
    assert_eq!(b.get(&"u".to_string()).unwrap().to_string(), "d");
    assert_eq!(b.get(&"v".to_string()).unwrap().to_string(), "c");
    assert!(eq.unify(&Formula::pred("u", vec![])).is_none());
}

#[test]
fn substitution_is_one_step() {
    let mut b = NameMap::new();
    b.insert("x".to_string(), Term::var("y"));
    b.insert("y".to_string(), Term::con("c"));
    let t = Term::apply("f", vec![Term::var("x"), Term::var("y"), Term::con("k")]);
    assert_eq!(t.substitute(&b).to_string(), "f()y, c, k)");
    let f = Formula::eq(Term::var("x"), Term::var("z"));
    assert_eq!(f.substitute(&b).to_string(), "y=z");
}

#[test]
fn proof_step_constructor() {
    let s = ProofStep::new(Formula::pred("P", vec![]), "R", vec![]);
    assert_eq!(s.rule_name, "R");
    assert!(s.sub_proofs.is_empty());
    assert_eq!(proof_lines(&s, 2), vec!["  • Fact: P() (By R)".to_string()]);
}
