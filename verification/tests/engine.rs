use axia::ast::{Formula, Sort, Term};
use axia::engine::{
    fresh_skolem, instantiate_axiom, occurs_check, prove, sorts_compatible, Axiom, Bindings,
    ProofStep, Universe,
};
use axia::name_map::NameMap;

fn var(n: &str) -> Term {
    Term::Var(n.to_string(), Sort::object())
}

fn con(n: &str) -> Term {
    Term::Const(n.to_string())
}

fn pred(n: &str, args: Vec<Term>) -> Formula {
    Formula::Pred(n.to_string(), args)
}

#[test]
fn substitute_follows_chains() {
    let mut b: Bindings = NameMap::new();
    b.insert("x".to_string(), var("y"));
    b.insert("y".to_string(), Term::Apply("f".to_string(), vec![var("z")]));
    b.insert("z".to_string(), con("c"));
    let t = Term::Apply("g".to_string(), vec![var("x"), var("w")]);
    assert_eq!(t.substitute(&b).to_string(), "g(f(c), w)");
    assert_eq!(var("x").resolve(&b).to_string(), "f(z)");
    assert_eq!(var("w").resolve(&b).to_string(), "w");
}

#[test]
fn substitute_survives_cycles() {
    let mut b: Bindings = NameMap::new();
    b.insert("x".to_string(), var("y"));
    b.insert("y".to_string(), var("x"));
    let r = var("x").substitute(&b).to_string();
    assert!(r == "x" || r == "y");
}

#[test]
fn substitution_stops_at_bound_existential_variable() {
    let mut b: Bindings = NameMap::new();
    b.insert("x".to_string(), con("a"));
    let f = Formula::Exists { var: "x".to_string(), sort: Sort::object(), body: Box::new(pred("P", vec![var("x")])) };
    assert_eq!(f.substitute(&b).to_string(), "∃ x, P(x)");
    let g = Formula::And(Box::new(pred("P", vec![var("x")])), Box::new(pred("Q", vec![var("y")])));
    assert_eq!(g.substitute(&b).to_string(), "(P(a)) ∧ (Q(y))");
}

#[test]
fn term_sorts() {
    assert_eq!(Term::Var("p".to_string(), Sort("Pt".to_string())).sort(), Sort("Pt".to_string()));
    assert_eq!(con("a").sort(), Sort::object());
    assert!(sorts_compatible(&Sort("Pt".to_string()), &Sort::object()));
    assert!(sorts_compatible(&Sort("Pt".to_string()), &Sort("Pt".to_string())));
    assert!(!sorts_compatible(&Sort("Pt".to_string()), &Sort("Line".to_string())));
}

#[test]
fn unify_binds_both_sides() {
    let pattern = pred("On", vec![var("p"), con("l")]);
    let goal = pred("On", vec![con("A"), var("q")]);
    let b = pattern.unify(&goal).unwrap();
    assert_eq!(pattern.substitute(&b).to_string(), "On(A, l)");
    assert_eq!(goal.substitute(&b).to_string(), "On(A, l)");
    assert!(pred("On", vec![con("A")]).unify(&pred("On", vec![con("B")])).is_none());
    assert!(pred("On", vec![con("A")]).unify(&pred("In", vec![con("A")])).is_none());
}

#[test]
fn unify_refuses_occurring_variable_and_incompatible_sorts() {
    let mut b: Bindings = NameMap::new();
    let t = Term::Apply("f".to_string(), vec![var("x")]);
    assert!(!Formula::unify_term(&var("x"), &t, &mut b));
    assert!(occurs_check(&"x".to_string(), &t, &b));
    let mut b: Bindings = NameMap::new();
    let p = Term::Var("p".to_string(), Sort("Pt".to_string()));
    let l = Term::Var("l".to_string(), Sort("Line".to_string()));
    assert!(!Formula::unify_term(&p, &l, &mut b));
    assert!(Formula::unify_term(&p, &var("o"), &mut b));
}

#[test]
fn universe_bookkeeping() {
    let mut u = Universe::new();
    u.add_type("Pt".to_string());
    u.add_type("Pt".to_string());
    u.add_predicate("On".to_string(), vec!["Pt".to_string(), "Line".to_string()], "Prop".to_string());
    u.add_constant("A".to_string(), Sort("Pt".to_string()));
    u.add_axiom(Axiom { name: "F".to_string(), vars: vec![], premises: vec![], conclusion: pred("P", vec![]) });
    assert_eq!(u.summary(), "1 axiom(s), 1 type(s), 1 predicate(s), 1 constant(s)");
    let mut v = Universe::new();
    v.add_constant("A".to_string(), Sort("Other".to_string()));
    v.add_axiom(Axiom { name: "F".to_string(), vars: vec![], premises: vec![], conclusion: pred("Q", vec![]) });
    v.import_from(&u);
    assert_eq!(v.summary(), "1 axiom(s), 1 type(s), 1 predicate(s), 1 constant(s)");
    assert_eq!(v.constants.get(&"A".to_string()).unwrap().0, "Other");
    assert_eq!(v.axioms[0].conclusion.to_string(), "Q()");
}

#[test]
fn skolem_names_count_up() {
    let mut c: u32 = 0;
    assert_eq!(fresh_skolem(&mut c), "?w1");
    assert_eq!(fresh_skolem(&mut c), "?w2");
    assert_eq!(c, 2);
}

#[test]
fn instantiating_an_axiom_renames_its_variables() {
    let ax = Axiom {
        name: "Sym".to_string(),
        vars: vec!["x".to_string(), "y".to_string()],
        premises: vec![pred("Cong", vec![var("x"), var("y")])],
        conclusion: pred("Cong", vec![var("y"), var("x")]),
    };
    let r = instantiate_axiom(&ax, 7);
    assert_eq!(r.vars, vec!["x_7".to_string(), "y_7".to_string()]);
    assert_eq!(r.premises[0].to_string(), "Cong(x_7, y_7)");
    assert_eq!(r.conclusion.to_string(), "Cong(y_7, x_7)");
}

#[test]
fn apply_bindings_rewrites_the_tree() {
    let mut b: Bindings = NameMap::new();
    b.insert("x".to_string(), con("a"));
    let leaf = ProofStep { goal: pred("P", vec![var("x")]), rule_name: "F".to_string(), sub_proofs: vec![], witnesses: vec![] };
    let mut root = ProofStep {
        goal: pred("Q", vec![var("x")]),
        rule_name: "R".to_string(),
        sub_proofs: vec![leaf],
        witnesses: vec![("v".to_string(), var("x"))],
    };
    root.apply_bindings(&b);
    assert_eq!(root.goal.to_string(), "Q(a)");
    assert_eq!(root.sub_proofs[0].goal.to_string(), "P(a)");
    assert_eq!(root.witnesses[0].1.to_string(), "a");
}

#[test]
fn prove_uses_facts_and_rules() {
    let mut u = Universe::new();
    u.add_axiom(Axiom { name: "Fact".to_string(), vars: vec![], premises: vec![], conclusion: pred("Cong", vec![con("A"), con("B")]) });
    u.add_axiom(Axiom {
        name: "Sym".to_string(),
        vars: vec!["x".to_string(), "y".to_string()],
        premises: vec![pred("Cong", vec![var("x"), var("y")])],
        conclusion: pred("Cong", vec![var("y"), var("x")]),
    });
    let p = prove(&pred("Cong", vec![con("B"), con("A")]), &u, 5).unwrap();
    assert_eq!(p.rule_name, "Sym");
    assert_eq!(p.goal.to_string(), "Cong(B, A)");
    assert_eq!(p.sub_proofs.len(), 1);
    assert_eq!(p.sub_proofs[0].goal.to_string(), "Cong(A, B)");
    assert!(prove(&pred("Cong", vec![con("B"), con("A")]), &u, 0).is_none());
    assert!(prove(&pred("Cong", vec![con("A"), con("C")]), &u, 4).is_none());
}

#[test]
fn prove_disjunction_and_existential() {
    let mut u = Universe::new();
    u.add_axiom(Axiom { name: "Fact".to_string(), vars: vec![], premises: vec![], conclusion: pred("Q", vec![con("c")]) });
    let goal = Formula::Or(Box::new(pred("P", vec![con("c")])), Box::new(pred("Q", vec![con("c")])));
    let p = prove(&goal, &u, 3).unwrap();
    assert_eq!(p.rule_name, "Disjunction_Right");
    let goal = Formula::Exists { var: "x".to_string(), sort: Sort::object(), body: Box::new(pred("Q", vec![var("x")])) };
    let p = prove(&goal, &u, 3).unwrap();
    assert_eq!(p.rule_name, "Existential_Instantiation");
    assert_eq!(p.witnesses[0].0, "x");
    assert_eq!(p.witnesses[0].1.to_string(), "c");
}

#[test]
fn a_formula_unifies_with_itself_binding_nothing() {
    let f = Formula::And(
        Box::new(pred("On", vec![var("p"), Term::Apply("mid".to_string(), vec![con("A"), var("q")])])),
        Box::new(Formula::Eq(var("x"), con("c"))),
    );
    let b = f.unify(&f).unwrap();
    assert!(b.is_empty());
}

#[test]
fn unify_makes_both_sides_equal() {
    let g = |t: Term| Term::Apply("g".to_string(), vec![t]);
    let pattern = Formula::And(
        Box::new(pred("On", vec![var("p"), g(var("q"))])),
        Box::new(Formula::Eq(var("q"), con("c"))),
    );
    let goal = Formula::And(
        Box::new(pred("On", vec![var("r"), g(var("r"))])),
        Box::new(Formula::Eq(var("r"), var("s"))),
    );
    let b = pattern.unify(&goal).unwrap();
    assert_eq!(pattern.substitute(&b).to_string(), "(On(r, g(r))) ∧ (r = c)");
    assert_eq!(goal.substitute(&b).to_string(), "(On(r, g(r))) ∧ (r = c)");
}

#[test]
fn prove_takes_the_first_proof_and_backtracks_over_conjunctions() {
    let fact = |c: &str, p: &str| Axiom { name: format!("F{}{}", p, c), vars: vec![], premises: vec![], conclusion: pred(p, vec![con(c)]) };
    let mut u = Universe::new();
    u.add_axiom(fact("a", "P"));
    u.add_axiom(fact("b", "P"));
    u.add_axiom(fact("b", "Q"));
    let goal = Formula::Exists { var: "x".to_string(), sort: Sort::object(), body: Box::new(pred("P", vec![var("x")])) };
    let p = prove(&goal, &u, 3).unwrap();
    assert_eq!(p.witnesses[0].1.to_string(), "a");
    assert_eq!(p.sub_proofs[0].rule_name, "FPa");
    let both = Formula::And(Box::new(pred("P", vec![var("x")])), Box::new(pred("Q", vec![var("x")])));
    let goal = Formula::Exists { var: "x".to_string(), sort: Sort::object(), body: Box::new(both) };
    let p = prove(&goal, &u, 3).unwrap();
    assert_eq!(p.witnesses[0].1.to_string(), "b");
    assert_eq!(p.sub_proofs[0].rule_name, "Conjunction");
    assert_eq!(p.sub_proofs[0].goal.to_string(), "(P(b)) ∧ (Q(b))");
    assert_eq!(p.sub_proofs[0].sub_proofs[0].rule_name, "FPb");
    assert_eq!(p.sub_proofs[0].sub_proofs[1].rule_name, "FQb");
}

#[test]
fn name_map_keeps_insertion_order_and_changes_in_place() {
    let mut m: NameMap<u32> = NameMap::new();
    m.insert("b".to_string(), 1);
    m.insert("a".to_string(), 2);
    m.insert("b".to_string(), 3);
    assert_eq!(m.len(), 2);
    assert_eq!(m.key_at(0), "b");
    assert_eq!(*m.get(&"b".to_string()).unwrap(), 3);
    *m.get_mut(&"a".to_string()) += 5;
    assert_eq!(*m.get(&"a".to_string()).unwrap(), 7);
    m.remove(&"b".to_string());
    assert!(!m.contains_key(&"b".to_string()));
    assert_eq!(m.key_at(0), "a");
}

#[test]
fn renamed_axioms_never_share_variables() {
    let ax = Axiom {
        name: "T".to_string(),
        vars: vec!["x".to_string(), "x_1".to_string()],
        premises: vec![],
        conclusion: pred("P", vec![var("x")]),
    };
    let r1 = instantiate_axiom(&ax, 1);
    let r2 = instantiate_axiom(&ax, 2);
    let r12 = instantiate_axiom(&ax, 12);
    for v in &r1.vars {
        assert!(!r2.vars.contains(v));
        assert!(!r12.vars.contains(v));
    }
    assert_eq!(r1.vars, vec!["x_1".to_string(), "x_1_1".to_string()]);
}

#[test]
fn substitution_is_idempotent_and_keeps_shape() {
    let mut b: Bindings = NameMap::new();
    b.insert("x".to_string(), Term::Apply("f".to_string(), vec![var("y")]));
    b.insert("y".to_string(), con("c"));
    let t = Term::Apply("g".to_string(), vec![var("x"), con("d"), var("z")]);
    let once = t.substitute(&b);
    assert_eq!(once.to_string(), "g(f(c), d, z)");
    assert_eq!(once.substitute(&b).to_string(), once.to_string());
    assert_eq!(t.substitute(&NameMap::new()).to_string(), t.to_string());
    let f = Formula::Not(Box::new(pred("On", vec![var("x"), con("d")])));
    assert_eq!(f.substitute(&b).to_string(), "¬(On(f(c), d))");
}

#[test]
fn each_existential_gets_its_own_skolem_name() {
    let mut u = Universe::new();
    u.add_axiom(Axiom {
        name: "Any".to_string(),
        vars: vec!["u".to_string(), "v".to_string()],
        premises: vec![],
        conclusion: pred("R", vec![var("u"), var("v")]),
    });
    let inner = Formula::Exists { var: "y".to_string(), sort: Sort::object(), body: Box::new(pred("R", vec![var("x"), var("y")])) };
    let goal = Formula::Exists { var: "x".to_string(), sort: Sort::object(), body: Box::new(inner) };
    let p = prove(&goal, &u, 3).unwrap();
    let w1 = p.witnesses[0].1.to_string();
    let w2 = p.sub_proofs[0].witnesses[0].1.to_string();
    assert!(w1.starts_with("?w") && w2.starts_with("?w"));
    assert_ne!(w1, w2);
    assert_eq!(p.sub_proofs[0].sub_proofs[0].goal.to_string(), format!("R({}, {})", w1, w2));
}
