//! Parsing undoes display: the text of a formula, lexed and parsed without
//! declared constants, gives the formula back, for formulas whose names are
//! plain identifiers, whose variables all have the default sort, and whose
//! predicates and functions all take arguments.
use vstd::prelude::*;

use crate::ast::{formula_text, join_terms, object_name, prop_name, term_text, FormulaV, TermV};
use crate::parser::{
    ascii_letter_or_digit, is_sym, kw_type, parse_and_rest_spec, parse_and_spec, parse_args_spec,
    parse_atom_spec, parse_exists_spec, parse_formula_spec, parse_or_rest_spec, parse_or_spec,
    parse_term_spec, parse_unary_spec, word_token, TokenV, lex_spec, lex_from, word_end, is_word_char,
    is_space, is_single_symbol, lemma_lex_concat,
};

verus! {

// ---------------------------------------------------------------------------
// The tokens of displayed text
// ---------------------------------------------------------------------------

/// The one-character symbol `c`.
pub open spec fn sym(c: char) -> TokenV {
    TokenV::Symbol(seq![c])
}

/// The tokens of a displayed term.
pub open spec fn term_toks(t: TermV) -> Seq<TokenV>
    decreases t, 1nat,
{
    match t {
        TermV::Var(n, _) => seq![TokenV::Ident(n)],
        TermV::Const(n) => seq![TokenV::Ident(n)],
        TermV::Apply(n, args) => seq![TokenV::Ident(n), sym('(')] + args_toks(args) + seq![sym(')')],
    }
}

/// The tokens of displayed terms separated by commas.
pub open spec fn args_toks(ts: Seq<TermV>) -> Seq<TokenV>
    decreases ts, 0nat,
{
    if ts.len() == 0 {
        Seq::empty()
    } else if ts.len() == 1 {
        term_toks(ts[0])
    } else {
        args_toks(ts.drop_last()) + seq![sym(',')] + term_toks(ts.last())
    }
}

/// `( f )` as tokens.
pub open spec fn paren_toks(f: FormulaV) -> Seq<TokenV>
    decreases f, 1nat,
{
    seq![sym('(')] + formula_toks(f) + seq![sym(')')]
}

/// The tokens of a displayed formula.
pub open spec fn formula_toks(f: FormulaV) -> Seq<TokenV>
    decreases f, 0nat,
{
    match f {
        FormulaV::Eq(l, r) => term_toks(l) + seq![sym('=')] + term_toks(r),
        FormulaV::Pred(n, args) => seq![TokenV::Ident(n), sym('(')] + args_toks(args) + seq![sym(')')],
        FormulaV::And(l, r) => paren_toks(*l) + seq![sym('∧')] + paren_toks(*r),
        FormulaV::Or(l, r) => paren_toks(*l) + seq![sym('∨')] + paren_toks(*r),
        FormulaV::Not(i) => seq![sym('¬')] + paren_toks(*i),
        FormulaV::Implies(l, r) => paren_toks(*l) + seq![sym('→')] + paren_toks(*r),
        FormulaV::Exists(v, s, b) => if s == object_name() {
            seq![sym('∃'), TokenV::Ident(v), sym(',')] + formula_toks(*b)
        } else {
            seq![sym('∃'), TokenV::Ident(v), sym(':'), word_token(s), sym(',')] + formula_toks(*b)
        },
    }
}

// ---------------------------------------------------------------------------
// Formulas that display unambiguously
// ---------------------------------------------------------------------------

/// A plain identifier: letters, digits and `_`, and not a keyword or a
/// word for a connective.
pub open spec fn is_name(n: Seq<char>) -> bool {
    &&& n.len() > 0
    &&& forall|i: int| 0 <= i < n.len() ==> ascii_letter_or_digit(#[trigger] n[i]) || n[i] == '_'
    &&& word_token(n) == TokenV::Ident(n)
}

/// A sort written after `:`: a plain identifier, `Type` or `Prop`.
pub open spec fn is_sort_name(s: Seq<char>) -> bool {
    is_name(s) || s == kw_type() || s == prop_name()
}

/// A term that displays unambiguously: variables of the default sort,
/// no constants (without declared constants every name is read as a
/// variable), and applications with arguments.
pub open spec fn printable_term(t: TermV) -> bool
    decreases t, 1nat,
{
    match t {
        TermV::Var(n, s) => is_name(n) && s == object_name(),
        TermV::Const(_) => false,
        TermV::Apply(n, args) => is_name(n) && args.len() > 0 && printable_args(args),
    }
}

/// Every term of the list displays unambiguously.
pub open spec fn printable_args(ts: Seq<TermV>) -> bool
    decreases ts, 0nat,
{
    if ts.len() == 0 {
        true
    } else {
        printable_args(ts.drop_last()) && printable_term(ts.last())
    }
}

/// A formula that displays unambiguously.
pub open spec fn printable(f: FormulaV) -> bool
    decreases f,
{
    match f {
        FormulaV::Eq(l, r) => printable_term(l) && printable_term(r),
        FormulaV::Pred(n, args) => is_name(n) && args.len() > 0 && printable_args(args),
        FormulaV::And(l, r) => printable(*l) && printable(*r),
        FormulaV::Or(l, r) => printable(*l) && printable(*r),
        FormulaV::Not(i) => printable(*i),
        FormulaV::Implies(l, r) => printable(*l) && printable(*r),
        FormulaV::Exists(v, s, b) => is_name(v) && is_sort_name(s) && printable(*b),
    }
}

// ---------------------------------------------------------------------------
// Token sequences
// ---------------------------------------------------------------------------

/// `xs` stands in `toks` from position `p` on.
pub open spec fn at(toks: Seq<TokenV>, p: int, xs: Seq<TokenV>) -> bool {
    0 <= p && p + xs.len() <= toks.len() && toks.subrange(p, p + xs.len()) == xs
}

proof fn lemma_at_index(toks: Seq<TokenV>, p: int, xs: Seq<TokenV>, k: int)
    requires
        at(toks, p, xs),
        0 <= k < xs.len(),
    ensures
        toks[p + k] == xs[k],
{
    assert(toks.subrange(p, p + xs.len())[k] == toks[p + k]);
}

proof fn lemma_at_split(toks: Seq<TokenV>, p: int, xs: Seq<TokenV>, ys: Seq<TokenV>)
    requires
        at(toks, p, xs + ys),
    ensures
        at(toks, p, xs),
        at(toks, p + xs.len(), ys),
{
    let n = xs.len() + ys.len();
    assert(toks.subrange(p, p + xs.len()) =~= (xs + ys).subrange(0, xs.len() as int));
    assert((xs + ys).subrange(0, xs.len() as int) =~= xs);
    assert(toks.subrange(p + xs.len(), p + xs.len() + ys.len()) =~= (xs + ys).subrange(
        xs.len() as int,
        n as int,
    ));
    assert((xs + ys).subrange(xs.len() as int, n as int) =~= ys);
}

/// The token after position `p`, if any, is not `t`.
pub open spec fn not_next(toks: Seq<TokenV>, p: int, t: TokenV) -> bool {
    p < toks.len() ==> toks[p] != t
}

// ---------------------------------------------------------------------------
// Argument lists from the front
// ---------------------------------------------------------------------------

proof fn lemma_args_front(ts: Seq<TermV>)
    requires
        ts.len() >= 1,
    ensures
        ts.len() == 1 ==> args_toks(ts) == term_toks(ts[0]),
        ts.len() >= 2 ==> args_toks(ts) == term_toks(ts[0]) + seq![sym(',')] + args_toks(ts.drop_first()),
        printable_args(ts) <==> printable_term(ts[0]) && printable_args(ts.drop_first()),
    decreases ts.len(),
{
    if ts.len() == 1 {
        assert(ts.drop_last().len() == 0);
        assert(ts.drop_first().len() == 0);
        assert(ts.last() == ts[0]);
        assert(printable_args(ts.drop_last()));
        assert(printable_args(ts.drop_first()));
        assert(printable_args(ts) == (printable_args(ts.drop_last()) && printable_term(ts.last())));
    } else {
        let d = ts.drop_last();
        lemma_args_front(d);
        assert(d[0] == ts[0]);
        assert(d.drop_first() =~= ts.drop_first().drop_last());
        assert(ts.drop_first().last() == ts.last());
        if ts.len() == 2 {
            assert(ts.drop_first().len() == 1);
            assert(args_toks(ts.drop_first()) == term_toks(ts.drop_first()[0]));
            assert(ts.drop_first().drop_last().len() == 0);
        } else {
            assert(args_toks(ts.drop_first()) == args_toks(d.drop_first()) + seq![sym(',')] + term_toks(ts.last()));
        }
        assert(args_toks(ts) =~= term_toks(ts[0]) + seq![sym(',')] + args_toks(ts.drop_first()));
        assert(printable_args(ts.drop_first()) == (printable_args(ts.drop_first().drop_last()) && printable_term(
            ts.drop_first().last(),
        )));
        assert(printable_args(ts) == (printable_args(d) && printable_term(ts.last())));
    }
}

proof fn lemma_sym_distinct()
    ensures
        sym(',') != sym('('),
        sym(')') != sym('('),
        sym(')') != sym(','),
{
    assert(seq![','][0] != seq!['('][0]);
    assert(seq![')'][0] != seq!['('][0]);
    assert(seq![')'][0] != seq![','][0]);
}

// ---------------------------------------------------------------------------
// Parsing the tokens of a term
// ---------------------------------------------------------------------------

proof fn lemma_parse_term(t: TermV, toks: Seq<TokenV>, p: int)
    requires
        printable_term(t),
        at(toks, p, term_toks(t)),
        not_next(toks, p + term_toks(t).len(), sym('(')),
    ensures
        parse_term_spec(toks, p, Set::empty()) == (Some(t), p + term_toks(t).len()),
    decreases t, 1nat,
{
    lemma_at_index(toks, p, term_toks(t), 0);
    match t {
        TermV::Var(n, s) => {},
        TermV::Const(_) => {},
        TermV::Apply(n, args) => {
            let a = args_toks(args);
            let xs = seq![TokenV::Ident(n), sym('(')];
            assert(term_toks(t) == xs + a + seq![sym(')')]);
            lemma_at_split(toks, p, xs + a, seq![sym(')')]);
            lemma_at_split(toks, p, xs, a);
            lemma_at_index(toks, p, xs, 1);
            lemma_at_index(toks, p + xs.len() + a.len(), seq![sym(')')], 0);
            lemma_parse_args(args, toks, p + 2);
            assert(is_sym(toks, p + 1, seq!['(']));
            assert(is_sym(toks, p + 2 + a.len(), seq![')']));
        },
    }
}

proof fn lemma_parse_args(ts: Seq<TermV>, toks: Seq<TokenV>, p: int)
    requires
        ts.len() >= 1,
        printable_args(ts),
        at(toks, p, args_toks(ts)),
        p + args_toks(ts).len() < toks.len(),
        toks[p + args_toks(ts).len()] == sym(')'),
    ensures
        parse_args_spec(toks, p, Set::empty()) == (ts, p + args_toks(ts).len()),
    decreases ts, 0nat,
{
    lemma_args_front(ts);
    lemma_sym_distinct();
    let t0 = ts[0];
    let n0 = term_toks(t0).len();
    if ts.len() == 1 {
        lemma_parse_term(t0, toks, p);
        assert(seq![t0] =~= ts);
    } else {
        let rest = ts.drop_first();
        let ra = args_toks(rest);
        lemma_at_split(toks, p, term_toks(t0) + seq![sym(',')], ra);
        lemma_at_split(toks, p, term_toks(t0), seq![sym(',')]);
        lemma_at_index(toks, p + n0, seq![sym(',')], 0);
        lemma_parse_term(t0, toks, p);
        assert(is_sym(toks, p + n0, seq![',']));
        lemma_parse_args(rest, toks, p + n0 + 1);
        assert(seq![t0] + rest =~= ts);
    }
}

// ---------------------------------------------------------------------------
// Parsing the tokens of a formula
// ---------------------------------------------------------------------------

/// What may follow a displayed formula: the end, or a closing parenthesis.
pub open spec fn follows(toks: Seq<TokenV>, q: int) -> bool {
    q == toks.len() || (0 <= q < toks.len() && toks[q] == sym(')'))
}

proof fn lemma_sym_ne(a: char, b: char)
    requires
        a != b,
    ensures
        sym(a) != sym(b),
{
    assert(seq![a][0] != seq![b][0]);
}

/// A formula read as a negation, existential or atom, followed by the end
/// or a closing parenthesis, is read as the whole formula.
proof fn lemma_lift(f: FormulaV, toks: Seq<TokenV>, p: int, q: int)
    requires
        0 <= p <= q <= toks.len(),
        parse_unary_spec(toks, p, Set::empty()) == (Some(f), q),
        follows(toks, q),
    ensures
        parse_and_spec(toks, p, Set::empty()) == (Some(f), q),
        parse_formula_spec(toks, p, Set::empty()) == (Some(f), q),
{
    lemma_sym_ne(')', '∧');
    lemma_sym_ne(')', '&');
    lemma_sym_ne(')', '∨');
    lemma_sym_ne(')', '|');
    lemma_sym_ne(')', '→');
    let e = Set::<Seq<char>>::empty();
    assert(parse_and_rest_spec(f, toks, q, e) == (Some(f), q));
    assert(parse_and_spec(toks, p, e) == (Some(f), q));
    assert(parse_or_rest_spec(f, toks, q, e) == (Some(f), q));
    assert(parse_or_spec(toks, p, e) == (Some(f), q));
}

/// `( g )` is read as `g` at the level of negations and atoms.
proof fn lemma_parse_paren(g: FormulaV, toks: Seq<TokenV>, p: int)
    requires
        printable(g),
        at(toks, p, paren_toks(g)),
    ensures
        parse_unary_spec(toks, p, Set::empty()) == (Some(g), p + paren_toks(g).len()),
        parse_formula_spec(toks, p, Set::empty()) == (Some(g), p + paren_toks(g).len()) || !follows(
            toks,
            p + paren_toks(g).len(),
        ),
    decreases g, 3nat,
{
    let e = Set::<Seq<char>>::empty();
    let xs = formula_toks(g);
    lemma_at_split(toks, p, seq![sym('(')] + xs, seq![sym(')')]);
    lemma_at_split(toks, p, seq![sym('(')], xs);
    lemma_at_index(toks, p, seq![sym('(')], 0);
    lemma_at_index(toks, p + 1 + xs.len(), seq![sym(')')], 0);
    lemma_parse_formula(g, toks, p + 1);
    lemma_sym_ne('(', '¬');
    lemma_sym_ne('(', '!');
    lemma_sym_ne('(', '∃');
    assert(is_sym(toks, p, seq!['(']));
    assert(parse_atom_spec(toks, p, e) == (Some(g), p + paren_toks(g).len()));
    if follows(toks, p + paren_toks(g).len()) {
        lemma_lift(g, toks, p, p + paren_toks(g).len());
    }
}

proof fn lemma_parse_formula(f: FormulaV, toks: Seq<TokenV>, p: int)
    requires
        printable(f),
        at(toks, p, formula_toks(f)),
        follows(toks, p + formula_toks(f).len()),
    ensures
        parse_formula_spec(toks, p, Set::empty()) == (Some(f), p + formula_toks(f).len()),
    decreases f, 2nat,
{
    match f {
        FormulaV::Eq(..) => lemma_parse_eq(f, toks, p),
        FormulaV::Pred(..) => lemma_parse_pred(f, toks, p),
        FormulaV::Not(..) => lemma_parse_not(f, toks, p),
        FormulaV::Exists(..) => lemma_parse_exists(f, toks, p),
        FormulaV::And(..) => lemma_parse_and(f, toks, p),
        FormulaV::Or(..) => lemma_parse_or(f, toks, p),
        FormulaV::Implies(..) => lemma_parse_implies(f, toks, p),
    }
}

proof fn lemma_parse_eq(f: FormulaV, toks: Seq<TokenV>, p: int)
    requires
        f is Eq,
        printable(f),
        at(toks, p, formula_toks(f)),
        follows(toks, p + formula_toks(f).len()),
    ensures
        parse_formula_spec(toks, p, Set::empty()) == (Some(f), p + formula_toks(f).len()),
    decreases f, 1nat,
{
    let e = Set::<Seq<char>>::empty();
    let n = formula_toks(f).len();
    lemma_sym_ne(')', '(');
    lemma_sym_ne(')', '=');
    match f {
        FormulaV::Eq(l, r) => {
            let lt = term_toks(l);
            let rt = term_toks(r);
            lemma_at_split(toks, p, lt + seq![sym('=')], rt);
            lemma_at_split(toks, p, lt, seq![sym('=')]);
            lemma_at_index(toks, p + lt.len(), seq![sym('=')], 0);
            lemma_at_index(toks, p, lt, 0);
            lemma_parse_term(r, toks, p + lt.len() + 1);
            match l {
                TermV::Apply(g, args) => {
                    let a = args_toks(args);
                    let xs = seq![TokenV::Ident(g), sym('(')];
                    assert(lt == xs + a + seq![sym(')')]);
                    lemma_at_split(toks, p, xs + a, seq![sym(')')]);
                    lemma_at_split(toks, p, xs, a);
                    lemma_at_index(toks, p, xs, 1);
                    lemma_at_index(toks, p + xs.len() + a.len(), seq![sym(')')], 0);
                    lemma_parse_args(args, toks, p + 2);
                    assert(is_sym(toks, p + 1, seq!['(']));
                    assert(is_sym(toks, p + 2 + a.len(), seq![')']));
                    assert(is_sym(toks, p + lt.len(), seq!['=']));
                },
                _ => {
                    lemma_sym_ne('=', '(');
                    assert(!is_sym(toks, p + 1, seq!['(']));
                    assert(is_sym(toks, p + 1, seq!['=']));
                },
            }
            assert(parse_atom_spec(toks, p, e) == (Some(f), p + n));
            assert(parse_unary_spec(toks, p, e) == (Some(f), p + n));
            lemma_lift(f, toks, p, p + n);
        },
        _ => {},
    }
}

proof fn lemma_parse_pred(f: FormulaV, toks: Seq<TokenV>, p: int)
    requires
        f is Pred,
        printable(f),
        at(toks, p, formula_toks(f)),
        follows(toks, p + formula_toks(f).len()),
    ensures
        parse_formula_spec(toks, p, Set::empty()) == (Some(f), p + formula_toks(f).len()),
    decreases f, 1nat,
{
    let e = Set::<Seq<char>>::empty();
    let n = formula_toks(f).len();
    lemma_sym_ne(')', '(');
    lemma_sym_ne(')', '=');
    match f {
        FormulaV::Pred(g, args) => {
            let a = args_toks(args);
            let xs = seq![TokenV::Ident(g), sym('(')];
            lemma_at_split(toks, p, xs + a, seq![sym(')')]);
            lemma_at_split(toks, p, xs, a);
            lemma_at_index(toks, p, xs, 0);
            lemma_at_index(toks, p, xs, 1);
            lemma_at_index(toks, p + xs.len() + a.len(), seq![sym(')')], 0);
            lemma_parse_args(args, toks, p + 2);
            assert(is_sym(toks, p + 1, seq!['(']));
            assert(is_sym(toks, p + 2 + a.len(), seq![')']));
            assert(!is_sym(toks, p + n, seq!['=']));
            assert(parse_atom_spec(toks, p, e) == (Some(f), p + n));
            assert(parse_unary_spec(toks, p, e) == (Some(f), p + n));
            lemma_lift(f, toks, p, p + n);
        },
        _ => {},
    }
}

proof fn lemma_parse_not(f: FormulaV, toks: Seq<TokenV>, p: int)
    requires
        f is Not,
        printable(f),
        at(toks, p, formula_toks(f)),
        follows(toks, p + formula_toks(f).len()),
    ensures
        parse_formula_spec(toks, p, Set::empty()) == (Some(f), p + formula_toks(f).len()),
    decreases f, 1nat,
{
    let e = Set::<Seq<char>>::empty();
    let n = formula_toks(f).len();
    lemma_sym_ne(')', '(');
    lemma_sym_ne(')', '=');
    match f {
        FormulaV::Not(i) => {
            let pi = paren_toks(*i);
            lemma_at_split(toks, p, seq![sym('¬')], pi);
            lemma_at_index(toks, p, seq![sym('¬')], 0);
            lemma_parse_paren(*i, toks, p + 1);
            assert(is_sym(toks, p, seq!['¬']));
            assert(parse_unary_spec(toks, p, e) == (Some(f), p + n));
            lemma_lift(f, toks, p, p + n);
        },
        _ => {},
    }
}

proof fn lemma_parse_exists(f: FormulaV, toks: Seq<TokenV>, p: int)
    requires
        f is Exists,
        printable(f),
        at(toks, p, formula_toks(f)),
        follows(toks, p + formula_toks(f).len()),
    ensures
        parse_formula_spec(toks, p, Set::empty()) == (Some(f), p + formula_toks(f).len()),
    decreases f, 1nat,
{
    let e = Set::<Seq<char>>::empty();
    let n = formula_toks(f).len();
    lemma_sym_ne(')', '(');
    lemma_sym_ne(')', '=');
    match f {
        FormulaV::Exists(v, srt, b) => {
            let bt = formula_toks(*b);
            lemma_sym_ne('∃', '¬');
            lemma_sym_ne('∃', '!');
            lemma_sym_ne(',', ':');
            let head = if srt == object_name() {
                seq![sym('∃'), TokenV::Ident(v), sym(',')]
            } else {
                seq![sym('∃'), TokenV::Ident(v), sym(':'), word_token(srt), sym(',')]
            };
            assert(formula_toks(f) == head + bt);
            lemma_at_split(toks, p, head, bt);
            lemma_parse_formula(*b, toks, p + head.len());
            lemma_at_index(toks, p, head, 0);
            lemma_at_index(toks, p, head, 1);
            lemma_at_index(toks, p, head, 2);
            if srt != object_name() {
                lemma_at_index(toks, p, head, 3);
                lemma_at_index(toks, p, head, 4);
                assert(is_sym(toks, p + 2, seq![':']));
                assert(is_sym(toks, p + 4, seq![',']));
            } else {
                assert(!is_sym(toks, p + 2, seq![':']));
                assert(is_sym(toks, p + 2, seq![',']));
            }
            assert(is_sym(toks, p, seq!['∃']));
            assert(parse_exists_spec(toks, p, e) == (Some(f), p + n));
            assert(parse_unary_spec(toks, p, e) == (Some(f), p + n));
            lemma_lift(f, toks, p, p + n);
        },
        _ => {},
    }
}

proof fn lemma_parse_and(f: FormulaV, toks: Seq<TokenV>, p: int)
    requires
        f is And,
        printable(f),
        at(toks, p, formula_toks(f)),
        follows(toks, p + formula_toks(f).len()),
    ensures
        parse_formula_spec(toks, p, Set::empty()) == (Some(f), p + formula_toks(f).len()),
    decreases f, 1nat,
{
    let e = Set::<Seq<char>>::empty();
    let n = formula_toks(f).len();
    lemma_sym_ne(')', '(');
    lemma_sym_ne(')', '=');
    match f {
        FormulaV::And(l, r) => {
            let lt = paren_toks(*l);
            let rt = paren_toks(*r);
            lemma_at_split(toks, p, lt + seq![sym('∧')], rt);
            lemma_at_split(toks, p, lt, seq![sym('∧')]);
            lemma_at_index(toks, p + lt.len(), seq![sym('∧')], 0);
            lemma_parse_paren(*l, toks, p);
            lemma_parse_paren(*r, toks, p + lt.len() + 1);
            let q1 = p + lt.len();
            assert(is_sym(toks, q1, seq!['∧']));
            let g = FormulaV::And(Box::new(*l), Box::new(*r));
            assert(g == f);
            lemma_sym_ne(')', '∧');
            lemma_sym_ne(')', '&');
            lemma_sym_ne(')', '∨');
            lemma_sym_ne(')', '|');
            lemma_sym_ne(')', '→');
            assert(parse_and_rest_spec(f, toks, p + n, e) == (Some(f), p + n));
            assert(parse_and_rest_spec(*l, toks, q1, e) == (Some(f), p + n));
            assert(parse_and_spec(toks, p, e) == (Some(f), p + n));
            assert(parse_or_rest_spec(f, toks, p + n, e) == (Some(f), p + n));
            assert(parse_or_spec(toks, p, e) == (Some(f), p + n));
        },
        _ => {},
    }
}

proof fn lemma_parse_or(f: FormulaV, toks: Seq<TokenV>, p: int)
    requires
        f is Or,
        printable(f),
        at(toks, p, formula_toks(f)),
        follows(toks, p + formula_toks(f).len()),
    ensures
        parse_formula_spec(toks, p, Set::empty()) == (Some(f), p + formula_toks(f).len()),
    decreases f, 1nat,
{
    let e = Set::<Seq<char>>::empty();
    let n = formula_toks(f).len();
    lemma_sym_ne(')', '(');
    lemma_sym_ne(')', '=');
    match f {
        FormulaV::Or(l, r) => {
            let lt = paren_toks(*l);
            let rt = paren_toks(*r);
            lemma_at_split(toks, p, lt + seq![sym('∨')], rt);
            lemma_at_split(toks, p, lt, seq![sym('∨')]);
            lemma_at_index(toks, p + lt.len(), seq![sym('∨')], 0);
            lemma_parse_paren(*l, toks, p);
            lemma_parse_paren(*r, toks, p + lt.len() + 1);
            let q1 = p + lt.len();
            assert(is_sym(toks, q1, seq!['∨']));
            lemma_sym_ne('∨', '∧');
            lemma_sym_ne('∨', '&');
            lemma_sym_ne(')', '∧');
            lemma_sym_ne(')', '&');
            lemma_sym_ne(')', '∨');
            lemma_sym_ne(')', '|');
            lemma_sym_ne(')', '→');
            assert(parse_and_rest_spec(*l, toks, q1, e) == (Some(*l), q1));
            assert(parse_and_spec(toks, p, e) == (Some(*l), q1));
            assert(parse_and_rest_spec(*r, toks, p + n, e) == (Some(*r), p + n));
            assert(parse_and_spec(toks, q1 + 1, e) == (Some(*r), p + n));
            assert(parse_or_rest_spec(f, toks, p + n, e) == (Some(f), p + n));
            assert(parse_or_rest_spec(*l, toks, q1, e) == (Some(f), p + n));
            assert(parse_or_spec(toks, p, e) == (Some(f), p + n));
        },
        _ => {},
    }
}

proof fn lemma_parse_implies(f: FormulaV, toks: Seq<TokenV>, p: int)
    requires
        f is Implies,
        printable(f),
        at(toks, p, formula_toks(f)),
        follows(toks, p + formula_toks(f).len()),
    ensures
        parse_formula_spec(toks, p, Set::empty()) == (Some(f), p + formula_toks(f).len()),
    decreases f, 1nat,
{
    let e = Set::<Seq<char>>::empty();
    let n = formula_toks(f).len();
    lemma_sym_ne(')', '(');
    lemma_sym_ne(')', '=');
    match f {
        FormulaV::Implies(l, r) => {
            let lt = paren_toks(*l);
            let rt = paren_toks(*r);
            lemma_at_split(toks, p, lt + seq![sym('→')], rt);
            lemma_at_split(toks, p, lt, seq![sym('→')]);
            lemma_at_index(toks, p + lt.len(), seq![sym('→')], 0);
            lemma_parse_paren(*l, toks, p);
            lemma_parse_paren(*r, toks, p + lt.len() + 1);
            let q1 = p + lt.len();
            assert(is_sym(toks, q1, seq!['→']));
            lemma_sym_ne('→', '∧');
            lemma_sym_ne('→', '&');
            lemma_sym_ne('→', '∨');
            lemma_sym_ne('→', '|');
            assert(parse_and_rest_spec(*l, toks, q1, e) == (Some(*l), q1));
            assert(parse_and_spec(toks, p, e) == (Some(*l), q1));
            assert(parse_or_rest_spec(*l, toks, q1, e) == (Some(*l), q1));
            assert(parse_or_spec(toks, p, e) == (Some(*l), q1));
        },
        _ => {},
    }
}


// ---------------------------------------------------------------------------
// Lexing displayed text
// ---------------------------------------------------------------------------

/// No character of `x` is `-`.
pub open spec fn no_dash(x: Seq<char>) -> bool {
    forall|k: int| 0 <= k < x.len() ==> #[trigger] x[k] != '-'
}

proof fn lemma_cat(x: Seq<char>, y: Seq<char>)
    requires
        no_dash(x),
        no_dash(y),
        x.len() == 0 || y.len() == 0 || !is_word_char(x.last()) || !is_word_char(y[0]),
    ensures
        lex_spec(x + y) == lex_spec(x) + lex_spec(y),
        no_dash(x + y),
{
    lemma_lex_concat(x, y);
    assert forall|k: int| 0 <= k < (x + y).len() implies #[trigger] (x + y)[k] != '-' by {
        if k < x.len() {
            assert((x + y)[k] == x[k]);
        } else {
            assert((x + y)[k] == y[k - x.len()]);
        }
    }
}

proof fn lemma_word_to_end(w: Seq<char>, i: int)
    requires
        0 <= i <= w.len(),
        forall|k: int| 0 <= k < w.len() ==> is_word_char(#[trigger] w[k]),
    ensures
        word_end(w, i) == w.len(),
    decreases w.len() - i,
{
    if i < w.len() {
        lemma_word_to_end(w, i + 1);
    }
}

/// A word of ASCII letters, digits and `_` is one token.
proof fn lemma_lex_word(w: Seq<char>)
    requires
        w.len() > 0,
        forall|i: int| 0 <= i < w.len() ==> ascii_letter_or_digit(#[trigger] w[i]) || w[i] == '_',
    ensures
        lex_spec(w) == seq![word_token(w)],
        no_dash(w),
        is_word_char(w[0]),
        is_word_char(w.last()),
{
    assert forall|k: int| 0 <= k < w.len() implies is_word_char(#[trigger] w[k]) by {
        assert(ascii_letter_or_digit(w[k]) || w[k] == '_');
    }
    assert forall|k: int| 0 <= k < w.len() implies #[trigger] w[k] != '-' by {
        assert(ascii_letter_or_digit(w[k]) || w[k] == '_');
    }
    lemma_word_to_end(w, 0);
    assert(ascii_letter_or_digit(w[0]) || w[0] == '_');
    assert(!is_space(w[0]));
    assert(!is_single_symbol(w[0]));
    assert(w.subrange(0, w.len() as int) =~= w);
    assert(lex_from(w, w.len() as int) == Seq::<TokenV>::empty());
    assert(lex_spec(w) =~= seq![word_token(w)]);
}

proof fn lemma_lex_literals()
    ensures
        lex_spec(seq!['(']) == seq![sym('(')],
        lex_spec(seq![')']) == seq![sym(')')],
        lex_spec(seq![')', ' ', '∧', ' ', '(']) == seq![sym(')'), sym('∧'), sym('(')],
        lex_spec(seq![')', ' ', '∨', ' ', '(']) == seq![sym(')'), sym('∨'), sym('(')],
        lex_spec(seq![')', ' ', '→', ' ', '(']) == seq![sym(')'), sym('→'), sym('(')],
        lex_spec(seq!['¬', '(']) == seq![sym('¬'), sym('(')],
        lex_spec(seq![' ', '=', ' ']) == seq![sym('=')],
        lex_spec(seq![',', ' ']) == seq![sym(',')],
        lex_spec(seq!['∃', ' ']) == seq![sym('∃')],
        lex_spec(seq![' ', ':', ' ']) == seq![sym(':')],
{
    reveal_with_fuel(lex_from, 6);
    assert(lex_spec(seq!['(']) =~= seq![sym('(')]);
    assert(lex_spec(seq![')']) =~= seq![sym(')')]);
    assert(lex_spec(seq![')', ' ', '∧', ' ', '(']) =~= seq![sym(')'), sym('∧'), sym('(')]);
    assert(lex_spec(seq![')', ' ', '∨', ' ', '(']) =~= seq![sym(')'), sym('∨'), sym('(')]);
    assert(lex_spec(seq![')', ' ', '→', ' ', '(']) =~= seq![sym(')'), sym('→'), sym('(')]);
    assert(lex_spec(seq!['¬', '(']) =~= seq![sym('¬'), sym('(')]);
    assert(lex_spec(seq![' ', '=', ' ']) =~= seq![sym('=')]);
    assert(lex_spec(seq![',', ' ']) =~= seq![sym(',')]);
    assert(lex_spec(seq!['∃', ' ']) =~= seq![sym('∃')]);
    assert(lex_spec(seq![' ', ':', ' ']) =~= seq![sym(':')]);
}

proof fn lemma_literals_plain()
    ensures
        no_dash(seq!['(']),
        no_dash(seq![')']),
        no_dash(seq![')', ' ', '∧', ' ', '(']),
        no_dash(seq![')', ' ', '∨', ' ', '(']),
        no_dash(seq![')', ' ', '→', ' ', '(']),
        no_dash(seq!['¬', '(']),
        no_dash(seq![' ', '=', ' ']),
        no_dash(seq![',', ' ']),
        no_dash(seq!['∃', ' ']),
        no_dash(seq![' ', ':', ' ']),
        !is_word_char('('),
        !is_word_char(')'),
        !is_word_char(' '),
        !is_word_char(','),
{
}

/// A displayed term lexes to its tokens.
proof fn lemma_lex_term(t: TermV)
    requires
        printable_term(t),
    ensures
        lex_spec(term_text(t)) == term_toks(t),
        no_dash(term_text(t)),
        term_text(t).len() > 0,
    decreases t, 1nat,
{
    lemma_lex_literals();
    lemma_literals_plain();
    match t {
        TermV::Var(n, _) => {
            lemma_lex_word(n);
        },
        TermV::Const(_) => {},
        TermV::Apply(n, args) => {
            lemma_lex_word(n);
            lemma_lex_args(args);
            let open = seq!['('];
            let close = seq![')'];
            let j = join_terms(args);
            lemma_cat(n, open);
            assert((n + open).last() == '(');
            lemma_cat(n + open, j);
            if j.len() > 0 {
                assert((n + open + j).last() == j.last());
            }
            lemma_cat(n + open + j, close);
            assert(term_toks(t) =~= seq![TokenV::Ident(n)] + seq![sym('(')] + args_toks(args) + seq![sym(')')]);
        },
    }
}

/// Displayed terms joined by `, ` lex to their tokens joined by commas.
proof fn lemma_lex_args(ts: Seq<TermV>)
    requires
        printable_args(ts),
    ensures
        lex_spec(join_terms(ts)) == args_toks(ts),
        no_dash(join_terms(ts)),
    decreases ts, 0nat,
{
    lemma_lex_literals();
    lemma_literals_plain();
    if ts.len() == 0 {
        assert(lex_spec(Seq::<char>::empty()) =~= Seq::<TokenV>::empty());
    } else if ts.len() == 1 {
        lemma_lex_term(ts[0]);
        assert(ts.last() == ts[0]);
    } else {
        let d = ts.drop_last();
        let sep = seq![',', ' '];
        lemma_lex_args(d);
        lemma_lex_term(ts.last());
        let j = join_terms(d);
        lemma_cat(j, sep);
        assert((j + sep).last() == ' ');
        lemma_cat(j + sep, term_text(ts.last()));
        assert(args_toks(ts) =~= args_toks(d) + seq![sym(',')] + term_toks(ts.last()));
    }
}

/// `( x ) c ( y )` lexes piece by piece.
proof fn lemma_lex_binary(x: Seq<char>, mid: Seq<char>, y: Seq<char>)
    requires
        no_dash(x),
        no_dash(y),
        no_dash(mid),
        mid.len() > 0,
        mid[0] == ')',
        mid.last() == '(',
    ensures
        lex_spec(seq!['('] + x + mid + y + seq![')']) == lex_spec(seq!['(']) + lex_spec(x) + lex_spec(mid)
            + lex_spec(y) + lex_spec(seq![')']),
        no_dash(seq!['('] + x + mid + y + seq![')']),
{
    lemma_literals_plain();
    let o = seq!['('];
    let c = seq![')'];
    lemma_cat(o, x);
    if x.len() > 0 {
        assert((o + x).last() == x.last());
    }
    lemma_cat(o + x, mid);
    assert((o + x + mid).last() == '(');
    lemma_cat(o + x + mid, y);
    lemma_cat(o + x + mid + y, c);
}

/// A displayed formula lexes to its tokens.
proof fn lemma_lex_formula(f: FormulaV)
    requires
        printable(f),
    ensures
        lex_spec(formula_text(f)) == formula_toks(f),
        no_dash(formula_text(f)),
    decreases f,
{
    lemma_lex_literals();
    lemma_literals_plain();
    match f {
        FormulaV::Eq(l, r) => {
            lemma_lex_term(l);
            lemma_lex_term(r);
            let m = seq![' ', '=', ' '];
            lemma_cat(term_text(l), m);
            assert((term_text(l) + m).last() == ' ');
            lemma_cat(term_text(l) + m, term_text(r));
            assert(formula_toks(f) =~= term_toks(l) + seq![sym('=')] + term_toks(r));
        },
        FormulaV::Pred(n, args) => {
            lemma_lex_word(n);
            lemma_lex_args(args);
            let open = seq!['('];
            let close = seq![')'];
            let j = join_terms(args);
            lemma_cat(n, open);
            assert((n + open).last() == '(');
            lemma_cat(n + open, j);
            if j.len() > 0 {
                assert((n + open + j).last() == j.last());
            }
            lemma_cat(n + open + j, close);
            assert(formula_toks(f) =~= seq![TokenV::Ident(n)] + seq![sym('(')] + args_toks(args) + seq![sym(')')]);
        },
        FormulaV::And(l, r) => {
            lemma_lex_formula(*l);
            lemma_lex_formula(*r);
            lemma_lex_binary(formula_text(*l), seq![')', ' ', '∧', ' ', '('], formula_text(*r));
            assert(paren_toks(*l) == seq![sym('(')] + formula_toks(*l) + seq![sym(')')]);
            assert(paren_toks(*r) == seq![sym('(')] + formula_toks(*r) + seq![sym(')')]);
            assert(formula_toks(f) =~= seq![sym('(')] + formula_toks(*l) + seq![sym(')'), sym('∧'), sym('(')]
                + formula_toks(*r) + seq![sym(')')]);
        },
        FormulaV::Or(l, r) => {
            lemma_lex_formula(*l);
            lemma_lex_formula(*r);
            lemma_lex_binary(formula_text(*l), seq![')', ' ', '∨', ' ', '('], formula_text(*r));
            assert(paren_toks(*l) == seq![sym('(')] + formula_toks(*l) + seq![sym(')')]);
            assert(paren_toks(*r) == seq![sym('(')] + formula_toks(*r) + seq![sym(')')]);
            assert(formula_toks(f) =~= seq![sym('(')] + formula_toks(*l) + seq![sym(')'), sym('∨'), sym('(')]
                + formula_toks(*r) + seq![sym(')')]);
        },
        FormulaV::Implies(l, r) => {
            lemma_lex_formula(*l);
            lemma_lex_formula(*r);
            lemma_lex_binary(formula_text(*l), seq![')', ' ', '→', ' ', '('], formula_text(*r));
            assert(paren_toks(*l) == seq![sym('(')] + formula_toks(*l) + seq![sym(')')]);
            assert(paren_toks(*r) == seq![sym('(')] + formula_toks(*r) + seq![sym(')')]);
            assert(formula_toks(f) =~= seq![sym('(')] + formula_toks(*l) + seq![sym(')'), sym('→'), sym('(')]
                + formula_toks(*r) + seq![sym(')')]);
        },
        FormulaV::Not(i) => {
            lemma_lex_formula(*i);
            let o = seq!['¬', '('];
            let c = seq![')'];
            let x = formula_text(*i);
            lemma_cat(o, x);
            if x.len() > 0 {
                assert((o + x).last() == x.last());
            }
            lemma_cat(o + x, c);
            assert(paren_toks(*i) == seq![sym('(')] + formula_toks(*i) + seq![sym(')')]);
            assert(formula_toks(f) =~= seq![sym('¬'), sym('(')] + formula_toks(*i) + seq![sym(')')]);
        },
        FormulaV::Exists(v, srt, b) => {
            lemma_lex_formula(*b);
            lemma_lex_word(v);
            let q = seq!['∃', ' '];
            let cm = seq![',', ' '];
            let bt = formula_text(*b);
            lemma_cat(q, v);
            assert((q + v).last() == v.last());
            if srt == object_name() {
                lemma_cat(q + v, cm);
                assert((q + v + cm).last() == ' ');
                lemma_cat(q + v + cm, bt);
                assert(formula_toks(f) =~= seq![sym('∃')] + seq![TokenV::Ident(v)] + seq![sym(',')] + formula_toks(*b));
            } else {
                assert(srt.len() > 0 && forall|i: int| 0 <= i < srt.len() ==> ascii_letter_or_digit(#[trigger] srt[i])
                    || srt[i] == '_') by {
                    if srt == kw_type() || srt == prop_name() {
                        assert(srt.len() == 4);
                    }
                }
                lemma_lex_word(srt);
                let co = seq![' ', ':', ' '];
                lemma_cat(q + v, co);
                assert((q + v + co).last() == ' ');
                lemma_cat(q + v + co, srt);
                assert((q + v + co + srt).last() == srt.last());
                lemma_cat(q + v + co + srt, cm);
                assert((q + v + co + srt + cm).last() == ' ');
                lemma_cat(q + v + co + srt + cm, bt);
                assert(formula_toks(f) =~= seq![sym('∃')] + seq![TokenV::Ident(v)] + seq![sym(':')] + seq![
                    word_token(srt),
                ] + seq![sym(',')] + formula_toks(*b));
            }
        },
    }
}

// ---------------------------------------------------------------------------
// The law
// ---------------------------------------------------------------------------

/// Parsing undoes display: the text of a printable formula, lexed and
/// parsed as a formula with no declared constants, gives the formula back,
/// and every token is read.
pub proof fn lemma_parse_display(f: FormulaV)
    requires
        printable(f),
    ensures
        parse_formula_spec(lex_spec(formula_text(f)), 0, Set::empty()) == (
            Some(f),
            lex_spec(formula_text(f)).len() as int,
        ),
{
    lemma_lex_formula(f);
    let toks = formula_toks(f);
    assert(toks.subrange(0, toks.len() as int) =~= toks);
    lemma_parse_formula(f, toks, 0);
}

} // verus!
