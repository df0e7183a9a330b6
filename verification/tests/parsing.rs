use axia::ast::{Formula, Sort, Statement, Term};
use axia::engine::Universe;
use axia::parser::{lex, Parser, Token};

fn ident(s: &str) -> Token {
    Token::Ident(s.to_string())
}

fn sym(s: &str) -> Token {
    Token::Symbol(s.to_string())
}

fn kw(s: &str) -> Token {
    Token::Keyword(s.to_string())
}

#[test]
fn lex_symbols_and_identifiers() {
    let toks = lex("P(x, y) -> Q");
    assert_eq!(
        toks,
        vec![ident("P"), sym("("), ident("x"), sym(","), ident("y"), sym(")"), sym("→"), ident("Q")]
    );
}

#[test]
fn lex_word_connectives_and_keywords() {
    let toks = lex("A and B or not C forall Type Prop exists import class where");
    assert_eq!(
        toks,
        vec![
            ident("A"),
            sym("∧"),
            ident("B"),
            sym("∨"),
            sym("¬"),
            ident("C"),
            kw("forall"),
            kw("Type"),
            kw("Prop"),
            kw("exists"),
            kw("import"),
            kw("class"),
            kw("where"),
        ]
    );
}

#[test]
fn lex_comment_and_lone_dash() {
    let toks = lex("a - b -- the rest is ignored\nc");
    assert_eq!(toks, vec![ident("a"), ident("b"), ident("c")]);
}

#[test]
fn lex_unicode_and_unknown_characters() {
    let toks = lex("∀ x_1 : Nat, ∃ y, x_1 = y & é");
    assert_eq!(
        toks,
        vec![
            sym("∀"),
            ident("x_1"),
            sym(":"),
            ident("Nat"),
            sym(","),
            sym("∃"),
            ident("y"),
            sym(","),
            ident("x_1"),
            sym("="),
            ident("y"),
            ident("é"),
        ]
    );
}

#[test]
fn parse_implication_is_right_associative() {
    let mut p = Parser::with_universe(lex("A → B → C"), None);
    let f = p.parse_formula().unwrap();
    assert_eq!(f.to_string(), "(A()) → ((B()) → (C()))");
}

#[test]
fn parse_precedence_of_connectives() {
    let mut p = Parser::with_universe(lex("P(x) ∧ Q(y) ∨ ¬R(x) → S(x)"), None);
    let f = p.parse_formula().unwrap();
    assert_eq!(f.to_string(), "(((P(x)) ∧ (Q(y))) ∨ (¬(R(x)))) → (S(x))");
}

#[test]
fn parse_equality_and_juxtaposition() {
    let mut p = Parser::with_universe(lex("f(x) = g(y)"), None);
    let f = p.parse_formula().unwrap();
    assert_eq!(f.to_string(), "f(x) = g(y)");
    let mut p = Parser::with_universe(lex("Between a b c"), None);
    let f = p.parse_formula().unwrap();
    assert_eq!(f.to_string(), "Between(a, b, c)");
}

#[test]
fn parse_existential_with_and_without_sort() {
    let mut p = Parser::with_universe(lex("∃ x : Pt, On(x, l)"), None);
    let f = p.parse_formula().unwrap();
    assert_eq!(f.to_string(), "∃ x : Pt, On(x, l)");
    let mut p = Parser::with_universe(lex("exists y, P(y)"), None);
    let f = p.parse_formula().unwrap();
    assert_eq!(f.to_string(), "∃ y, P(y)");
    let mut p = Parser::with_universe(lex("∃ y P(y)"), None);
    assert!(p.parse_formula().is_none());
}

#[test]
fn parse_term_nested() {
    let mut p = Parser::with_universe(lex("f(a, g(b))"), None);
    let t = p.parse_term().unwrap();
    assert_eq!(t.to_string(), "f(a, g(b))");
    match t {
        Term::Apply(name, args) => {
            assert_eq!(name, "f");
            assert_eq!(args.len(), 2);
            assert_eq!(args[0], Term::Var("a".to_string(), Sort::object()));
        }
        _ => panic!("expected an application"),
    }
}

#[test]
fn parse_constants_from_universe() {
    let mut u = Universe::new();
    u.add_constant("A".to_string(), Sort("Pt".to_string()));
    let mut p = Parser::with_universe(lex("On(A, x)"), Some(&u));
    let f = p.parse_formula().unwrap();
    match f {
        Formula::Pred(_, args) => {
            assert_eq!(args[0], Term::Const("A".to_string()));
            assert_eq!(args[1], Term::Var("x".to_string(), Sort::object()));
        }
        _ => panic!("expected a predicate"),
    }
}

#[test]
fn parse_missing_atom_fails() {
    let mut p = Parser::with_universe(lex("→ P"), None);
    assert!(p.parse_formula().is_none());
    let mut p = Parser::with_universe(lex("P ∧"), None);
    assert!(p.parse_formula().is_none());
}

#[test]
fn parse_statements() {
    let parse = |s: &str| Parser::with_universe(lex(s), None).parse_statement();
    match parse("Nat : Type") {
        Some(Statement::TypeDecl(n)) => assert_eq!(n, "Nat"),
        other => panic!("unexpected {:?}", other),
    }
    match parse("zero : Nat") {
        Some(Statement::ConstDecl(n, s)) => {
            assert_eq!(n, "zero");
            assert_eq!(s, Sort("Nat".to_string()));
        }
        other => panic!("unexpected {:?}", other),
    }
    match parse("Lt : Nat -> Nat -> Prop") {
        Some(Statement::PredDecl(n, args, ret)) => {
            assert_eq!(n, "Lt");
            assert_eq!(args, vec![Sort("Nat".to_string()), Sort("Nat".to_string())]);
            assert_eq!(ret, Sort::prop());
        }
        other => panic!("unexpected {:?}", other),
    }
    match parse("Flag : Prop") {
        Some(Statement::PredDecl(n, args, ret)) => {
            assert_eq!(n, "Flag");
            assert!(args.is_empty());
            assert_eq!(ret, Sort::prop());
        }
        other => panic!("unexpected {:?}", other),
    }
    match parse("Kind : Type2") {
        Some(Statement::ConstDecl(n, s)) => {
            assert_eq!(n, "Kind");
            assert_eq!(s.0, "Type2");
        }
        other => panic!("unexpected {:?}", other),
    }
    match parse("Trans : forall x y z : Nat, Lt(x, y) → Lt(y, z) → Lt(x, z)") {
        Some(Statement::AxiomDecl { name, vars, body }) => {
            assert_eq!(name, "Trans");
            assert_eq!(vars.len(), 3);
            assert_eq!(vars[2].0, "z");
            assert_eq!(vars[2].1, Sort("Nat".to_string()));
            assert_eq!(body.to_string(), "(Lt(x, y)) → ((Lt(y, z)) → (Lt(x, z)))");
        }
        other => panic!("unexpected {:?}", other),
    }
    match parse("import geometry") {
        Some(Statement::Import(n)) => assert_eq!(n, "geometry"),
        other => panic!("unexpected {:?}", other),
    }
    match parse("Weird : (") {
        Some(Statement::PredDecl(n, args, ret)) => {
            assert_eq!(n, "Weird");
            assert!(args.is_empty());
            assert_eq!(ret, Sort::object());
        }
        other => panic!("unexpected {:?}", other),
    }
    assert!(parse("Nat Type").is_none());
    assert!(parse(": Type").is_none());
}

#[test]
fn lexing_two_lines_is_lexing_each() {
    let a = "P(x_1) -- note -> here";
    let b = "foo-";
    let mut both = lex(a);
    both.extend(lex(b));
    assert_eq!(lex(&format!("{}\n{}", a, b)), both);
    let a = "word-";
    let b = "-> next";
    let mut both = lex(a);
    both.extend(lex(b));
    assert_eq!(lex(&format!("{}\n{}", a, b)), both);
}

#[test]
fn parsing_undoes_display() {
    let v = |n: &str| Term::Var(n.to_string(), Sort::object());
    let f = Formula::Implies(
        Box::new(Formula::And(
            Box::new(Formula::Pred("On".to_string(), vec![v("p"), Term::Apply("mid".to_string(), vec![v("a"), v("b")])])),
            Box::new(Formula::Not(Box::new(Formula::Eq(Term::Apply("f".to_string(), vec![v("x")]), v("y"))))),
        )),
        Box::new(Formula::Exists {
            var: "z".to_string(),
            sort: Sort("Pt".to_string()),
            body: Box::new(Formula::Or(
                Box::new(Formula::Pred("P".to_string(), vec![v("z")])),
                Box::new(Formula::Exists { var: "w".to_string(), sort: Sort::object(), body: Box::new(Formula::Eq(v("w"), v("z"))) }),
            )),
        }),
    );
    let text = f.to_string();
    let mut p = Parser::with_universe(lex(&text), None);
    let g = p.parse_formula().unwrap();
    assert_eq!(format!("{:?}", g), format!("{:?}", f));
    assert_eq!(g.to_string(), text);
}
