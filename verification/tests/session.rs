use axia::display::{text_of, Line};
use axia::session::{module_candidates, Request, Session};

fn texts(lines: &Vec<Line>) -> Vec<String> {
    lines.iter().map(|l| text_of(l)).collect()
}

fn run(s: &mut Session, input: &str) -> Vec<String> {
    let r = s.process_line(input);
    texts(&r.lines)
}

#[test]
fn blank_and_comment_lines_do_nothing() {
    let mut s = Session::new();
    assert!(run(&mut s, "   ").is_empty());
    assert!(run(&mut s, "-- a comment").is_empty());
    assert_eq!(run(&mut s, "universe_info")[4], "  Axioms (0):");
}

#[test]
fn help_lists_commands() {
    let mut s = Session::new();
    let out = run(&mut s, "help");
    assert_eq!(out.len(), 23);
    assert_eq!(out[0], "Commands:");
    assert_eq!(out[13], "");
    assert_eq!(run(&mut s, " ? ").len(), 23);
}

#[test]
fn create_and_use_universes() {
    let mut s = Session::new();
    assert_eq!(run(&mut s, "create_universe geo"), vec!["Universe 'geo' created."]);
    assert_eq!(run(&mut s, "create_universe geo"), vec!["Universe 'geo' already exists."]);
    assert_eq!(run(&mut s, "use nowhere"), vec!["Error: Universe 'nowhere' does not exist."]);
    assert_eq!(s.active_name(), "default");
    assert_eq!(run(&mut s, "use geo"), vec!["Switched to universe 'geo'."]);
    assert_eq!(s.active_name(), "geo");
    let list = run(&mut s, "list_universes");
    assert_eq!(
        list,
        vec![
            "  default — 0 axiom(s), 0 type(s), 0 predicate(s), 0 constant(s)",
            "  geo [active] — 0 axiom(s), 0 type(s), 0 predicate(s), 0 constant(s)",
        ]
    );
}

#[test]
fn declarations_fill_the_active_universe() {
    let mut s = Session::new();
    assert_eq!(run(&mut s, "Pt : Type"), vec!["Defined Type: Pt"]);
    assert_eq!(run(&mut s, "B : Pt"), vec!["Defined Constant: B : Pt"]);
    assert_eq!(run(&mut s, "A : Pt"), vec!["Defined Constant: A : Pt"]);
    assert_eq!(run(&mut s, "Cong : Pt -> Pt -> Prop"), vec!["Defined Function/Predicate: Cong : Pt → Pt → Prop"]);
    assert_eq!(run(&mut s, "Flag : Prop"), vec!["Defined Function/Predicate: FlagProp"]);
    assert_eq!(
        run(&mut s, "Sym : forall x y : Pt, Cong(x, y) -> Cong(y, x)"),
        vec!["Added Axiom: Sym [∀ x:Pt, y:Pt]"]
    );
    assert_eq!(run(&mut s, "Both : forall a : Obj, P(a) ∧ Q(a)"), vec!["Added Axiom: Both [∀ a:Obj]"]);
    assert_eq!(run(&mut s, "assert Cong(A, B)"), vec!["Fact added to universe 'default'."]);
    // Without `forall` a body after the colon reads as a sort.
    assert_eq!(run(&mut s, "Odd : P(a) ∧ Q(a)"), vec!["Defined Constant: Odd : P"]);
    let info = run(&mut s, "universe_info");
    assert_eq!(
        info,
        vec![
            "Active universe: 'default'",
            "  Types      : Pt",
            "  Constants  : A : Pt, B : Pt, Odd : P",
            "  Predicates : Cong, Flag",
            "  Axioms (4):",
            "    [Sym] Cong(x, y) ⊢ Cong(y, x)",
            "    [Both_L] ⊢ P(a)",
            "    [Both_R] ⊢ Q(a)",
            "    [Fact] ⊢ Cong(A, B)",
        ]
    );
}

#[test]
fn implication_chains_become_premises() {
    let mut s = Session::new();
    run(&mut s, "Trans : forall x y z : Pt, Lt(x, y) → Lt(y, z) → Lt(x, z)");
    let info = run(&mut s, "universe_info");
    assert_eq!(info[5], "    [Trans] Lt(x, y), Lt(y, z) ⊢ Lt(x, z)");
}

#[test]
fn parse_errors_are_reported() {
    let mut s = Session::new();
    assert_eq!(run(&mut s, "what is this"), vec!["Parse error: what is this"]);
    assert_eq!(run(&mut s, "prove ∧"), vec!["Could not parse goal."]);
    assert_eq!(run(&mut s, "assert →"), vec!["Could not parse fact."]);
    assert_eq!(run(&mut s, "create_universe    "), vec!["Parse error: create_universe"]);
}

#[test]
fn load_and_import_become_requests() {
    let mut s = Session::new();
    let r = s.process_line("load  geometry ");
    assert!(r.lines.is_empty());
    match r.request {
        Some(Request::Load(t)) => assert_eq!(t, "geometry"),
        other => panic!("unexpected {:?}", other),
    }
    match s.process_line("import basics").request {
        Some(Request::ImportLibrary(t)) => assert_eq!(t, "basics"),
        other => panic!("unexpected {:?}", other),
    }
    match s.process_line("import").request {
        Some(Request::ImportModule(t)) => panic!("unexpected module {}", t),
        None => {}
        other => panic!("unexpected {:?}", other),
    }
}

#[test]
fn module_candidates_in_order() {
    assert_eq!(
        module_candidates("euclid"),
        vec![
            "euclid",
            "euclid.axia",
            "lib/euclid",
            "lib/euclid.axia",
            "lib/core/euclid",
            "lib/core/euclid.axia",
            "lib/geometry/euclid",
            "lib/geometry/euclid.axia",
        ]
    );
}

#[test]
fn prove_by_transitivity() {
    let mut s = Session::new();
    run(&mut s, "Pt : Type");
    run(&mut s, "A : Pt");
    run(&mut s, "B : Pt");
    run(&mut s, "C : Pt");
    run(&mut s, "assert Cong(A, B)");
    run(&mut s, "assert Cong(B, C)");
    run(&mut s, "Trans : forall x y z : Pt, Cong(x, y) → Cong(y, z) → Cong(x, z)");
    let out = run(&mut s, "prove Cong(A, C)");
    assert_eq!(out[0], "Goal: Cong(A, C)  [universe: 'default']");
    assert_eq!(out[1], "");
    assert_eq!(out[2], "--- Q.E.D. ---");
    assert_eq!(out[3], "⊢ Cong(A, C)  (apply Trans)");
    assert_eq!(out[4], "└─ Cong(A, B) (asserted fact)");
    assert_eq!(out[5], "└─ Cong(B, C) (asserted fact)");
    assert_eq!(out[6], "");
    assert_eq!(out[7], "Q.E.D.");
    assert_eq!(out.len(), 8);
}

#[test]
fn prove_without_proof() {
    let mut s = Session::new();
    run(&mut s, "assert P(a)");
    let out = run(&mut s, "prove Q(a)");
    assert_eq!(out, vec!["Goal: Q(a)  [universe: 'default']", "No proof found."]);
}

#[test]
fn prove_conjunction_and_existential() {
    let mut s = Session::new();
    run(&mut s, "c : Obj");
    run(&mut s, "assert P(c)");
    run(&mut s, "assert Q(c)");
    let out = run(&mut s, "prove P(c) ∧ Q(c)");
    assert_eq!(out[3], "⊢ P(c) AND Q(c)  [Requires both:]");
    assert_eq!(out[4], "└─ P(c) (asserted fact)");
    assert_eq!(out[5], "└─ Q(c) (asserted fact)");
    let out = run(&mut s, "prove ∃ x, P(x)");
    assert_eq!(out[3], "Prove: ∃ x, P(x)");
    assert_eq!(out[4], "   ↳ Construct x as c.");
    assert_eq!(out[5], "└─ P(c) (asserted fact)");
}

#[test]
fn import_pulls_another_universe_into_the_active_one() {
    let mut s = Session::new();
    run(&mut s, "Pt : Type");
    run(&mut s, "create_universe geo");
    run(&mut s, "use geo");
    run(&mut s, "Line : Type");
    run(&mut s, "Pt : Type");
    run(&mut s, "assert On(a)");
    run(&mut s, "use default");
    let r = s.process_line("import geo");
    assert!(r.request.is_none());
    assert_eq!(texts(&r.lines), vec!["Imported universe 'geo' into 'default'."]);
    let info = run(&mut s, "universe_info");
    assert_eq!(info[1], "  Types      : Pt, Line");
    assert_eq!(info[4], "  Axioms (1):");
    assert_eq!(s.current().axioms[0].conclusion.to_string(), "On(a)");
    assert_eq!(s.active_name(), "default");
    run(&mut s, "use geo");
    assert_eq!(run(&mut s, "universe_info")[4], "  Axioms (1):");
}

#[test]
fn importing_twice_changes_nothing_more() {
    let mut s = Session::new();
    run(&mut s, "create_universe geo");
    run(&mut s, "use geo");
    run(&mut s, "Pt : Type");
    run(&mut s, "assert On(a)");
    run(&mut s, "use default");
    run(&mut s, "import geo");
    let once = run(&mut s, "universe_info");
    run(&mut s, "import geo");
    assert_eq!(run(&mut s, "universe_info"), once);
}

#[test]
fn load_into_names_the_target_universe() {
    let mut s = Session::new();
    run(&mut s, "create_universe geo");
    match s.process_line("load  lib/euclid   into   geo ").request {
        Some(Request::LoadInto(t, u)) => {
            assert_eq!(t, "lib/euclid");
            assert_eq!(u, "geo");
        }
        other => panic!("unexpected {:?}", other),
    }
    let r = s.process_line("load euclid into nowhere");
    assert!(r.request.is_none());
    assert_eq!(texts(&r.lines), vec!["Error: Universe 'nowhere' does not exist."]);
    match s.process_line("load intoxicating").request {
        Some(Request::Load(t)) => assert_eq!(t, "intoxicating"),
        other => panic!("unexpected {:?}", other),
    }
}
