use axia::ast::{Formula, Sort, Term};
use axia::display::{render_line, restyle_line, text_of, Color, Line, Span, Style};
use axia::formatter::{clean_rule_name, ProofFormatter};

fn con(n: &str) -> Term {
    Term::Const(n.to_string())
}

fn app(n: &str, args: Vec<Term>) -> Term {
    Term::Apply(n.to_string(), args)
}

#[test]
fn clean_rule_names() {
    assert_eq!(clean_rule_name("Both_L"), "Both");
    assert_eq!(clean_rule_name("Both_R"), "Both");
    assert_eq!(clean_rule_name("side_angle_side"), "side angle side");
    assert_eq!(clean_rule_name("_L"), "");
    assert_eq!(clean_rule_name("X_LR"), "X LR");
}

#[test]
fn numerals_show_as_digits() {
    let f = ProofFormatter::new();
    let two = app("S", vec![app("S", vec![con("0")])]);
    assert_eq!(text_of(&f.fmt_term(&two)), "2");
    assert_eq!(text_of(&f.fmt_term(&app("S", vec![con("Z")]))), "1");
    assert_eq!(text_of(&f.fmt_term(&con("Z"))), "0");
    assert_eq!(text_of(&f.fmt_term(&app("S", vec![con("k")]))), "S(k)");
}

#[test]
fn arithmetic_shows_infix() {
    let f = ProofFormatter::new();
    let t = app("Add", vec![con("a"), app("Mul", vec![con("b"), con("c")])]);
    assert_eq!(text_of(&f.fmt_term(&t)), "a + b * c");
    let t = app("Add", vec![con("a")]);
    assert_eq!(text_of(&f.fmt_term(&t)), "Add(a)");
}

#[test]
fn sorted_variables_show_their_sort() {
    let f = ProofFormatter::new();
    let v = Term::Var("x".to_string(), Sort("Pt".to_string()));
    assert_eq!(text_of(&f.fmt_term(&v)), "x:Pt");
    let v = Term::Var("y".to_string(), Sort::object());
    assert_eq!(text_of(&f.fmt_term(&v)), "y");
}

#[test]
fn formulas_use_words() {
    let f = ProofFormatter::new();
    let p = Formula::Pred("P".to_string(), vec![con("a")]);
    let q = Formula::Pred("Q".to_string(), vec![]);
    let g = Formula::Implies(
        Box::new(Formula::And(Box::new(p), Box::new(Formula::Not(Box::new(q))))),
        Box::new(Formula::Exists {
            var: "x".to_string(),
            sort: Sort("Pt".to_string()),
            body: Box::new(Formula::Eq(con("x"), con("a"))),
        }),
    );
    assert_eq!(text_of(&f.fmt_formula(&g)), "IF P(a) AND NOT Q THEN ∃ x : Pt, x = a");
}

#[test]
fn styles_of_a_term() {
    let f = ProofFormatter::new();
    let line = f.fmt_term(&app("f", vec![con("a"), con("b")]));
    let styles: Vec<Style> = line.iter().map(|s| s.style).collect();
    assert_eq!(
        styles,
        vec![
            Style::BoldFg(Color::Cyan),
            Style::BoldFg(Color::BrightBlack),
            Style::BoldFg(Color::Cyan),
            Style::Plain,
            Style::BoldFg(Color::Cyan),
            Style::BoldFg(Color::BrightBlack),
        ]
    );
}

#[test]
fn restyle_keeps_styled_spans() {
    let line: Line = vec![Span::new("a", Style::Plain), Span::new("b", Style::Fg(Color::Red))];
    let r = restyle_line(line, Style::Bold);
    assert_eq!(r[0].style, Style::Bold);
    assert_eq!(r[1].style, Style::Fg(Color::Red));
    assert_eq!(text_of(&r), "ab");
}

#[test]
fn rendering_plain_or_colored() {
    let line: Line = vec![Span::new("plain ", Style::Plain), Span::new("red", Style::Fg(Color::Red))];
    let out = render_line(&line);
    assert!(out == "plain red" || out == "plain \u{1b}[31mred\u{1b}[0m");
    let line: Line = vec![Span::new("x", Style::BoldFg(Color::Cyan))];
    let out = render_line(&line);
    assert!(out == "x" || out == "\u{1b}[1;36mx\u{1b}[0m");
}

#[test]
fn long_terms_get_aliases() {
    let mut f = ProofFormatter::new();
    let long_name = "AVeryLongFunctionNameThatKeepsGoing";
    let inner = app(long_name, vec![con("alpha"), con("beta"), con("gamma")]);
    let goal = Formula::Pred("P".to_string(), vec![inner]);
    let step = axia::engine::ProofStep {
        goal,
        rule_name: "Fact".to_string(),
        sub_proofs: vec![],
        witnesses: vec![],
    };
    f.scan(&step);
    assert_eq!(f.definitions().len(), 1);
    assert_eq!(text_of(&f.definitions()[0]), format!("Let X1 = {}(alpha, beta, gamma).", long_name));
    assert_eq!(text_of(&f.fmt_formula(&step.goal)), "P(X1)");
    let lines = axia::formatter::explain_proof(&step);
    let out: Vec<String> = lines.iter().map(|l| text_of(l)).collect();
    assert_eq!(
        out,
        vec![
            "".to_string(),
            "--- Q.E.D. ---".to_string(),
            format!("Let X1 = {}(alpha, beta, gamma).", long_name),
            "".to_string(),
            "P(X1) (asserted fact)".to_string(),
            "".to_string(),
            "Q.E.D.".to_string(),
        ]
    );
}

#[test]
fn hypothesis_and_abstract_witness_lines() {
    let f = ProofFormatter::new();
    let leaf = axia::engine::ProofStep {
        goal: Formula::Pred("P".to_string(), vec![]),
        rule_name: "Given H1".to_string(),
        sub_proofs: vec![],
        witnesses: vec![],
    };
    let step = axia::engine::ProofStep {
        goal: Formula::Exists {
            var: "x".to_string(),
            sort: Sort::object(),
            body: Box::new(Formula::Pred("P".to_string(), vec![])),
        },
        rule_name: "Existential_Instantiation".to_string(),
        sub_proofs: vec![leaf],
        witnesses: vec![("x".to_string(), Term::Var("?w1".to_string(), Sort::object()))],
    };
    let lines = axia::formatter::explain_recursive(&step, 1, &f);
    let out: Vec<String> = lines.iter().map(|l| text_of(l)).collect();
    assert_eq!(
        out,
        vec![
            "└─ Prove: ∃ x, P".to_string(),
            "      ↳ Let x be an abstract variable.".to_string(),
            "   └─ P (by hypothesis H1)".to_string(),
        ]
    );
}
