//! Presenting a proof tree: long terms get short aliases, numerals built
//! from `S` show as digits, arithmetic shows infix, and each step becomes a
//! line of the explanation.
use vstd::prelude::*;

use crate::ast::{object_name, term_text, terms_view_of, Formula, FormulaV, Sort, Term, TermV};
use crate::display::{
    append_spans, copy_line, lines_view, plain, push_span, push_string, restyle, restyle_line,
    spans_view, styled, Color, Line, SpanV, Style,
};
use crate::engine::{ProofStep, StepV};
use crate::name_map::NameMap;
use crate::text::{
    decimal, ends_with, has_prefix, has_suffix, push_decimal, slice_chars, spells, starts_with,
};

verus! {

// ---------------------------------------------------------------------------
// Terms and formulas as styled text (mathematical definition)
// ---------------------------------------------------------------------------

/// Cyan, bold text.
pub open spec fn cyan_bold(t: Seq<char>) -> Seq<SpanV> {
    styled(t, Style::BoldFg(Color::Cyan))
}

/// A bold, dim parenthesis.
pub open spec fn paren(c: char) -> Seq<SpanV> {
    styled(seq![c], Style::BoldFg(Color::BrightBlack))
}

/// A bold magenta keyword.
pub open spec fn keyword(k: Seq<char>) -> Seq<SpanV> {
    styled(k, Style::BoldFg(Color::Magenta))
}

/// The number of `S(…)` wrapped around a term, and what is inside them.
pub open spec fn peano(t: TermV) -> (nat, TermV)
    decreases t,
{
    match t {
        TermV::Apply(n, args) => if n == seq!['S'] && args.len() == 1 {
            let (k, b) = peano(args[0]);
            (k + 1, b)
        } else {
            (0, t)
        },
        _ => (0, t),
    }
}

/// The value of a numeral `S(S(…S(0)…))` (the zero may also be written
/// `Z`); none for other terms.
pub open spec fn numeral(t: TermV) -> Option<nat> {
    let (k, b) = peano(t);
    if k <= u64::MAX && (b == TermV::Const(seq!['0']) || b == TermV::Const(seq!['Z'])) {
        Some(k)
    } else {
        None
    }
}

/// The infix symbol of a binary arithmetic function.
pub open spec fn op_symbol(n: Seq<char>) -> Option<Seq<char>> {
    if n == seq!['A', 'd', 'd'] {
        Some(seq!['+'])
    } else if n == seq!['S', 'u', 'b'] {
        Some(seq!['-'])
    } else if n == seq!['M', 'u', 'l'] {
        Some(seq!['*'])
    } else if n == seq!['D', 'i', 'v'] {
        Some(seq!['/'])
    } else {
        None
    }
}

/// Arithmetic functions are shown by their usual signs: `Add` as `+`,
/// `Sub` as `-`, `Mul` as `*` and `Div` as `/`; no other name is shown
/// infix, and no two names share a sign.
pub proof fn lemma_op_symbols(n1: Seq<char>, n2: Seq<char>)
    ensures
        op_symbol("Add"@) == Some("+"@),
        op_symbol("Sub"@) == Some("-"@),
        op_symbol("Mul"@) == Some("*"@),
        op_symbol("Div"@) == Some("/"@),
        op_symbol(n1) is Some <==> (n1 == "Add"@ || n1 == "Sub"@ || n1 == "Mul"@ || n1 == "Div"@),
        op_symbol(n1) is Some && op_symbol(n1) == op_symbol(n2) ==> n1 == n2,
{
    reveal_strlit("Add");
    reveal_strlit("Sub");
    reveal_strlit("Mul");
    reveal_strlit("Div");
    reveal_strlit("+");
    reveal_strlit("-");
    reveal_strlit("*");
    reveal_strlit("/");
    assert("Add"@ =~= seq!['A', 'd', 'd']);
    assert("Sub"@ =~= seq!['S', 'u', 'b']);
    assert("Mul"@ =~= seq!['M', 'u', 'l']);
    assert("Div"@ =~= seq!['D', 'i', 'v']);
    assert("+"@ =~= seq!['+']);
    assert("-"@ =~= seq!['-']);
    assert("*"@ =~= seq!['*']);
    assert("/"@ =~= seq!['/']);
    assert(seq!['+'] != seq!['-'] && seq!['+'] != seq!['*'] && seq!['+'] != seq!['/'] && seq!['-'] != seq!['*']
        && seq!['-'] != seq!['/'] && seq!['*'] != seq!['/']) by {
        assert(seq!['+'][0] != seq!['-'][0]);
        assert(seq!['+'][0] != seq!['*'][0]);
        assert(seq!['+'][0] != seq!['/'][0]);
        assert(seq!['-'][0] != seq!['*'][0]);
        assert(seq!['-'][0] != seq!['/'][0]);
        assert(seq!['*'][0] != seq!['/'][0]);
    }
}

/// A term as styled text, using the alias of its display text when it has
/// one.
pub open spec fn term_spans(t: TermV, al: Map<Seq<char>, Seq<char>>) -> Seq<SpanV>
    decreases t, 2nat,
{
    if al.contains_key(term_text(t)) {
        cyan_bold(al[term_text(t)])
    } else {
        term_spans_raw(t, al)
    }
}

/// A term as styled text, ignoring any alias of the term itself: a numeral
/// as its value, a variable of a sort other than `Object` as `x:Sort`,
/// `Add`, `Sub`, `Mul`, `Div` of two arguments infix, other applications as
/// `f(a, b)`.
pub open spec fn term_spans_raw(t: TermV, al: Map<Seq<char>, Seq<char>>) -> Seq<SpanV>
    decreases t, 1nat,
{
    match numeral(t) {
        Some(k) => cyan_bold(decimal(k)),
        None => match t {
            TermV::Var(n, s) => if s != object_name() {
                cyan_bold(n) + plain(seq![':']) + cyan_bold(s)
            } else {
                cyan_bold(n)
            },
            TermV::Const(n) => cyan_bold(n),
            TermV::Apply(n, args) => if args.len() == 2 && op_symbol(n) is Some {
                term_spans(args[0], al) + plain(seq![' ']) + styled(
                    op_symbol(n)->Some_0,
                    Style::BoldFg(Color::BrightBlue),
                ) + plain(seq![' ']) + term_spans(args[1], al)
            } else {
                cyan_bold(n) + paren('(') + args_spans(args, al) + paren(')')
            },
        },
    }
}

/// Terms as styled text separated by `, `.
pub open spec fn args_spans(ts: Seq<TermV>, al: Map<Seq<char>, Seq<char>>) -> Seq<SpanV>
    decreases ts, 0nat,
{
    if ts.len() == 0 {
        Seq::empty()
    } else if ts.len() == 1 {
        term_spans(ts[0], al)
    } else {
        args_spans(ts.drop_last(), al) + plain(seq![',', ' ']) + term_spans(ts.last(), al)
    }
}

/// A formula as styled text: connectives as the words AND, OR, NOT,
/// IF … THEN, existentials with `∃`.
pub open spec fn formula_spans(f: FormulaV, al: Map<Seq<char>, Seq<char>>) -> Seq<SpanV>
    decreases f,
{
    match f {
        FormulaV::Eq(l, r) => term_spans(l, al) + plain(seq![' ']) + styled(
            seq!['='],
            Style::BoldFg(Color::BrightBlue),
        ) + plain(seq![' ']) + term_spans(r, al),
        FormulaV::Pred(n, args) => if args.len() == 0 {
            cyan_bold(n)
        } else {
            cyan_bold(n) + paren('(') + args_spans(args, al) + paren(')')
        },
        FormulaV::And(l, r) => formula_spans(*l, al) + plain(seq![' ']) + keyword(seq!['A', 'N', 'D'])
            + plain(seq![' ']) + formula_spans(*r, al),
        FormulaV::Or(l, r) => formula_spans(*l, al) + plain(seq![' ']) + keyword(seq!['O', 'R']) + plain(
            seq![' '],
        ) + formula_spans(*r, al),
        FormulaV::Not(i) => keyword(seq!['N', 'O', 'T']) + plain(seq![' ']) + formula_spans(*i, al),
        FormulaV::Implies(l, r) => keyword(seq!['I', 'F']) + plain(seq![' ']) + formula_spans(*l, al)
            + plain(seq![' ']) + keyword(seq!['T', 'H', 'E', 'N']) + plain(seq![' ']) + formula_spans(
            *r,
            al,
        ),
        FormulaV::Exists(v, s, b) => if s == object_name() {
            keyword(seq!['∃']) + plain(seq![' ']) + cyan_bold(v) + plain(seq![',', ' ']) + formula_spans(
                *b,
                al,
            )
        } else {
            keyword(seq!['∃']) + plain(seq![' ']) + cyan_bold(v) + plain(seq![' ', ':', ' ']) + cyan_bold(
                s,
            ) + plain(seq![',', ' ']) + formula_spans(*b, al)
        },
    }
}

/// A rule name for display: without a trailing `_L` or `_R`, and with
/// underscores shown as spaces.
pub open spec fn clean_rule(raw: Seq<char>) -> Seq<char> {
    let stripped = if ends_with(raw, seq!['_', 'L']) || ends_with(raw, seq!['_', 'R']) {
        raw.take(raw.len() - 2)
    } else {
        raw
    };
    stripped.map_values(|c: char| if c == '_' { ' ' } else { c })
}

// ---------------------------------------------------------------------------
// The formatter
// ---------------------------------------------------------------------------

/// Display text longer than this many bytes gets an alias.
pub const ALIAS_THRESHOLD: usize = 50;

/// The aliases of long terms and the definitions that introduce them.
pub struct ProofFormatter {
    /// Maps the display text of a long application to its short alias.
    aliases: NameMap<String>,
    /// Preamble "Let X1 = …." lines shown before the proof narrative.
    definitions: Vec<Line>,
    counter: usize,
}

/// The formatter as a mathematical value.
pub struct FmtV {
    pub aliases: Map<Seq<char>, Seq<char>>,
    pub defs: Seq<Seq<SpanV>>,
    pub counter: nat,
}

impl View for ProofFormatter {
    type V = FmtV;

    closed spec fn view(&self) -> FmtV {
        FmtV {
            aliases: self.aliases@.map_values(|s: String| s@),
            defs: lines_view(self.definitions@),
            counter: self.counter as nat,
        }
    }
}

/// The counter after one more alias: one more, wrapping at the top.
pub open spec fn next_index(c: nat) -> nat {
    if c >= usize::MAX {
        0
    } else {
        c + 1
    }
}

/// The alias with number `c`: `X` followed by `c` in decimal.
pub open spec fn alias_name(c: nat) -> Seq<char> {
    seq!['X'] + decimal(c)
}

/// The definition line of an alias.
pub open spec fn definition_line(alias: Seq<char>, body: Seq<SpanV>) -> Seq<SpanV> {
    plain(seq!['L', 'e', 't', ' '] + alias + seq![' ', '=', ' ']) + body + plain(seq!['.'])
}

/// The length in bytes of the UTF-8 encoding of `s` (as `str::len` gives it).
pub open spec fn byte_len(s: Seq<char>) -> usize {
    vstd::utf8::encode_utf8(s).len() as usize
}

/// Register the aliases of the long applications in `t`, innermost first.
pub open spec fn scan_term_spec(t: TermV, st: FmtV) -> FmtV
    decreases t, 0int,
{
    match t {
        TermV::Apply(_, args) => {
            let st1 = scan_terms_spec(args, 0, st);
            let raw = term_text(t);
            if byte_len(raw) > ALIAS_THRESHOLD && !st1.aliases.contains_key(raw) {
                let c = next_index(st1.counter);
                let alias = alias_name(c);
                FmtV {
                    aliases: st1.aliases.insert(raw, alias),
                    defs: st1.defs.push(definition_line(alias, term_spans_raw(t, st1.aliases))),
                    counter: c,
                }
            } else {
                st1
            }
        },
        _ => st,
    }
}

/// Register the aliases in `ts[i..]`, from the left.
pub open spec fn scan_terms_spec(ts: Seq<TermV>, i: int, st: FmtV) -> FmtV
    decreases ts, ts.len() - i,
{
    if i < 0 || i >= ts.len() {
        st
    } else {
        scan_terms_spec(ts, i + 1, scan_term_spec(ts[i], st))
    }
}

/// Register the aliases in a formula, from the left.
pub open spec fn scan_formula_spec(f: FormulaV, st: FmtV) -> FmtV
    decreases f,
{
    match f {
        FormulaV::Eq(l, r) => scan_term_spec(r, scan_term_spec(l, st)),
        FormulaV::Pred(_, args) => scan_terms_spec(args, 0, st),
        FormulaV::And(l, r) => scan_formula_spec(*r, scan_formula_spec(*l, st)),
        FormulaV::Or(l, r) => scan_formula_spec(*r, scan_formula_spec(*l, st)),
        FormulaV::Implies(l, r) => scan_formula_spec(*r, scan_formula_spec(*l, st)),
        FormulaV::Not(i) => scan_formula_spec(*i, st),
        FormulaV::Exists(_, _, b) => scan_formula_spec(*b, st),
    }
}

/// Register the aliases in the witness terms `ws[i..]`.
pub open spec fn scan_witnesses_spec(ws: Seq<(Seq<char>, TermV)>, i: int, st: FmtV) -> FmtV
    decreases ws.len() - i,
{
    if i < 0 || i >= ws.len() {
        st
    } else {
        scan_witnesses_spec(ws, i + 1, scan_term_spec(ws[i].1, st))
    }
}

/// Register the aliases of a proof tree: the goal, the witnesses, then the
/// sub-proofs in order.
pub open spec fn scan_spec(s: StepV, st: FmtV) -> FmtV
    decreases s, 0int,
{
    let st1 = scan_formula_spec(s.goal, st);
    let st2 = scan_witnesses_spec(s.witnesses, 0, st1);
    scan_steps_spec(s.subs, 0, st2)
}

/// Register the aliases of the trees `ss[i..]`.
pub open spec fn scan_steps_spec(ss: Seq<StepV>, i: int, st: FmtV) -> FmtV
    decreases ss, ss.len() - i,
{
    if i < 0 || i >= ss.len() {
        st
    } else {
        scan_steps_spec(ss, i + 1, scan_spec(ss[i], st))
    }
}

/// A line of one cyan, bold span.
fn cyan_bold_line(text: String) -> (l: Line)
    ensures
        spans_view(l@) == cyan_bold(text@),
{
    let mut l: Line = Vec::new();
    push_string(&mut l, text, Style::BoldFg(Color::Cyan));
    assert(spans_view(l@) =~= cyan_bold(text@));
    l
}

/// The infix symbol of `name`, if it is a binary arithmetic function.
fn op_of(name: &String) -> (r: Option<&'static str>)
    ensures
        match r {
            Some(op) => op_symbol(name@) == Some(op@),
            None => op_symbol(name@) is None,
        },
{
    proof {
        reveal_strlit("Add");
        reveal_strlit("Sub");
        reveal_strlit("Mul");
        reveal_strlit("Div");
        reveal_strlit("+");
        reveal_strlit("-");
        reveal_strlit("*");
        reveal_strlit("/");
        assert("Add"@ =~= seq!['A', 'd', 'd']);
        assert("Sub"@ =~= seq!['S', 'u', 'b']);
        assert("Mul"@ =~= seq!['M', 'u', 'l']);
        assert("Div"@ =~= seq!['D', 'i', 'v']);
        assert("+"@ =~= seq!['+']);
        assert("-"@ =~= seq!['-']);
        assert("*"@ =~= seq!['*']);
        assert("/"@ =~= seq!['/']);
    }
    if spells(name, "Add") {
        Some("+")
    } else if spells(name, "Sub") {
        Some("-")
    } else if spells(name, "Mul") {
        Some("*")
    } else if spells(name, "Div") {
        Some("/")
    } else {
        None
    }
}

impl ProofFormatter {
    /// A formatter with no aliases.
    pub fn new() -> (f: Self)
        ensures
            f@.aliases == Map::<Seq<char>, Seq<char>>::empty(),
            f@.defs == Seq::<Seq<SpanV>>::empty(),
            f@.counter == 0,
    {
        let f = ProofFormatter { aliases: NameMap::new(), definitions: Vec::new(), counter: 0 };
        proof {
            assert(f@.aliases =~= Map::<Seq<char>, Seq<char>>::empty());
            assert(f@.defs =~= Seq::<Seq<SpanV>>::empty());
        }
        f
    }

    /// The definition lines, in the order the aliases were introduced.
    pub fn definitions(&self) -> (r: &Vec<Line>)
        ensures
            lines_view(r@) == self@.defs,
    {
        &self.definitions
    }

    /// A term as styled text, by its alias if it has one.
    pub fn fmt_term(&self, t: &Term) -> (l: Line)
        ensures
            spans_view(l@) == term_spans(t@, self@.aliases),
        decreases t, 2nat,
    {
        let raw = t.to_string();
        match self.aliases.get(&raw) {
            Some(alias) => cyan_bold_line(alias.clone()),
            None => self.fmt_term_raw(t),
        }
    }

    /// A term as styled text, ignoring any alias of the term itself.
    pub fn fmt_term_raw(&self, t: &Term) -> (l: Line)
        ensures
            spans_view(l@) == term_spans_raw(t@, self@.aliases),
        decreases t, 1nat,
    {
        let ghost al = self@.aliases;
        proof {
            reveal_strlit("S");
            reveal_strlit("0");
            reveal_strlit("Z");
            reveal_strlit(":");
            reveal_strlit(" ");
            reveal_strlit("(");
            reveal_strlit(")");
            reveal_strlit(", ");
            assert("S"@ =~= seq!['S']);
            assert("0"@ =~= seq!['0']);
            assert("Z"@ =~= seq!['Z']);
            assert(":"@ =~= seq![':']);
            assert(" "@ =~= seq![' ']);
            assert("("@ =~= seq!['(']);
            assert(")"@ =~= seq![')']);
            assert(", "@ =~= seq![',', ' ']);
        }
        // A chain of S(...) ending in 0 (or Z) shows as its value.
        let mut curr: &Term = t;
        let mut count: u64 = 0;
        loop
            invariant
                peano(t@).0 == count + peano(curr@).0,
                peano(t@).1 == peano(curr@).1,
                "S"@ == seq!['S'],
            ensures
                peano(t@).0 == count + peano(curr@).0,
                peano(t@).1 == peano(curr@).1,
                match curr@ {
                    TermV::Apply(n, a) => !(n == seq!['S'] && a.len() == 1) || count == u64::MAX,
                    _ => true,
                },
            decreases u64::MAX - count,
        {
            match curr {
                Term::Apply(n, args) => {
                    if spells(n, "S") && args.len() == 1 && count < u64::MAX {
                        proof {
                            assert(curr@ == TermV::Apply(n@, terms_view_of(*args)));
                            assert(terms_view_of(*args)[0] == args@[0]@);
                        }
                        count = count + 1;
                        curr = &args[0];
                    } else {
                        proof {
                            assert(curr@ == TermV::Apply(n@, terms_view_of(*args)));
                        }
                        break;
                    }
                },
                _ => break,
            }
        }
        let is_peano = match curr {
            Term::Const(c) => spells(c, "0") || spells(c, "Z"),
            _ => false,
        };
        if is_peano {
            let mut digits = String::new();
            push_decimal(&mut digits, count);
            proof {
                assert(digits@ =~= decimal(count as nat));
            }
            return cyan_bold_line(digits);
        }
        proof {
            assert(numeral(t@) is None);
        }
        match t {
            Term::Var(name, sort) => {
                if !sort.same(&Sort::object()) {
                    let mut l = cyan_bold_line(name.clone());
                    push_span(&mut l, ":", Style::Plain);
                    append_spans(&mut l, cyan_bold_line(sort.to_string()));
                    assert(spans_view(l@) =~= term_spans_raw(t@, al));
                    l
                } else {
                    cyan_bold_line(name.clone())
                }
            },
            Term::Const(name) => cyan_bold_line(name.clone()),
            Term::Apply(name, args) => {
                let ghost vs = terms_view_of(*args);
                proof {
                    assert(t@ == TermV::Apply(name@, vs));
                }
                if args.len() == 2 {
                    match op_of(name) {
                        Some(op) => {
                            proof {
                                assert(decreases_to!(*t => t->Apply_1));
                                assert(vs[0] == args@[0]@);
                                assert(vs[1] == args@[1]@);
                            }
                            let mut l = self.fmt_term(&args[0]);
                            push_span(&mut l, " ", Style::Plain);
                            push_span(&mut l, op, Style::BoldFg(Color::BrightBlue));
                            push_span(&mut l, " ", Style::Plain);
                            append_spans(&mut l, self.fmt_term(&args[1]));
                            assert(spans_view(l@) =~= term_spans_raw(t@, al));
                            return l;
                        },
                        None => {},
                    }
                }
                let mut l = cyan_bold_line(name.clone());
                push_span(&mut l, "(", Style::BoldFg(Color::BrightBlack));
                let ghost head = spans_view(l@);
                let mut i: usize = 0;
                proof {
                    assert(vs.take(0) =~= Seq::<TermV>::empty());
                    assert(spans_view(l@) =~= head + args_spans(vs.take(0), al));
                }
                while i < args.len()
                    invariant
                        i <= args@.len(),
                        vs == terms_view_of(*args),
                        al == self@.aliases,
                        *t == Term::Apply(*name, *args),
                        ", "@ == seq![',', ' '],
                        spans_view(l@) == head + args_spans(vs.take(i as int), al),
                    decreases args@.len() - i,
                {
                    proof {
                        assert(decreases_to!(*t => t->Apply_1));
                        assert(vs[i as int] == args@[i as int]@);
                        assert(vs.take(i + 1).drop_last() =~= vs.take(i as int));
                        assert(vs.take(i + 1).last() == vs[i as int]);
                    }
                    if i > 0 {
                        push_span(&mut l, ", ", Style::Plain);
                    }
                    append_spans(&mut l, self.fmt_term(&args[i]));
                    proof {
                        if i == 0 {
                            assert(vs.take(1) =~= seq![vs[0]]);
                        }
                        assert(spans_view(l@) =~= head + args_spans(vs.take(i + 1), al));
                    }
                    i = i + 1;
                }
                push_span(&mut l, ")", Style::BoldFg(Color::BrightBlack));
                proof {
                    assert(vs.take(args@.len() as int) =~= vs);
                    assert(spans_view(l@) =~= term_spans_raw(t@, al));
                }
                l
            },
        }
    }
}

/// A rule name for display: without a trailing `_L` or `_R`, and with
/// underscores shown as spaces.
pub fn clean_rule_name(raw: &str) -> (r: String)
    ensures
        r@ == clean_rule(raw@),
{
    proof {
        reveal_strlit("_L");
        reveal_strlit("_R");
        reveal_strlit(" ");
        assert("_L"@ =~= seq!['_', 'L']);
        assert("_R"@ =~= seq!['_', 'R']);
        assert(" "@ =~= seq![' ']);
    }
    let n = raw.unicode_len();
    let end = if has_suffix(raw, "_L") || has_suffix(raw, "_R") {
        n - 2
    } else {
        n
    };
    let ghost stripped = raw@.take(end as int);
    proof {
        assert(raw@.take(n as int) =~= raw@);
    }
    let mut r = String::new();
    let mut i: usize = 0;
    while i < end
        invariant
            i <= end <= n,
            n == raw@.len(),
            stripped == raw@.take(end as int),
            " "@ == seq![' '],
            r@ == stripped.take(i as int).map_values(|c: char| if c == '_' { ' ' } else { c }),
        decreases end - i,
    {
        let c = raw.get_char(i);
        if c == '_' {
            r.append(" ");
        } else {
            r.append(raw.substring_char(i, i + 1));
        }
        proof {
            assert(raw@.subrange(i as int, i + 1) =~= seq![c]);
            assert(stripped.take(i + 1).map_values(|c: char| if c == '_' { ' ' } else { c }) =~= stripped.take(
                i as int,
            ).map_values(|c: char| if c == '_' { ' ' } else { c }).push(if c == '_' { ' ' } else { c }));
        }
        i = i + 1;
    }
    proof {
        assert(stripped.take(end as int) =~= stripped);
    }
    r
}

impl ProofFormatter {
    /// Terms as styled text separated by `, `.
    fn fmt_args(&self, args: &Vec<Term>) -> (l: Line)
        ensures
            spans_view(l@) == args_spans(terms_view_of(*args), self@.aliases),
    {
        proof {
            reveal_strlit(", ");
            assert(", "@ =~= seq![',', ' ']);
        }
        let ghost al = self@.aliases;
        let ghost vs = terms_view_of(*args);
        let mut l: Line = Vec::new();
        let mut i: usize = 0;
        proof {
            assert(vs.take(0) =~= Seq::<TermV>::empty());
            assert(spans_view(l@) =~= args_spans(vs.take(0), al));
        }
        while i < args.len()
            invariant
                i <= args@.len(),
                vs == terms_view_of(*args),
                al == self@.aliases,
                ", "@ == seq![',', ' '],
                spans_view(l@) == args_spans(vs.take(i as int), al),
            decreases args@.len() - i,
        {
            proof {
                assert(vs[i as int] == args@[i as int]@);
                assert(vs.take(i + 1).drop_last() =~= vs.take(i as int));
                assert(vs.take(i + 1).last() == vs[i as int]);
            }
            if i > 0 {
                push_span(&mut l, ", ", Style::Plain);
            }
            append_spans(&mut l, self.fmt_term(&args[i]));
            proof {
                if i == 0 {
                    assert(vs.take(1) =~= seq![vs[0]]);
                }
                assert(spans_view(l@) =~= args_spans(vs.take(i + 1), al));
            }
            i = i + 1;
        }
        proof {
            assert(vs.take(args@.len() as int) =~= vs);
        }
        l
    }

    /// A formula as styled text.
    pub fn fmt_formula(&self, f: &Formula) -> (l: Line)
        ensures
            spans_view(l@) == formula_spans(f@, self@.aliases),
        decreases f,
    {
        let ghost al = self@.aliases;
        proof {
            reveal_strlit(" ");
            reveal_strlit("=");
            reveal_strlit("(");
            reveal_strlit(")");
            reveal_strlit("AND");
            reveal_strlit("OR");
            reveal_strlit("NOT");
            reveal_strlit("IF");
            reveal_strlit("THEN");
            reveal_strlit("∃");
            reveal_strlit(", ");
            reveal_strlit(" : ");
            assert(" "@ =~= seq![' ']);
            assert("="@ =~= seq!['=']);
            assert("("@ =~= seq!['(']);
            assert(")"@ =~= seq![')']);
            assert("AND"@ =~= seq!['A', 'N', 'D']);
            assert("OR"@ =~= seq!['O', 'R']);
            assert("NOT"@ =~= seq!['N', 'O', 'T']);
            assert("IF"@ =~= seq!['I', 'F']);
            assert("THEN"@ =~= seq!['T', 'H', 'E', 'N']);
            assert("∃"@ =~= seq!['∃']);
            assert(", "@ =~= seq![',', ' ']);
            assert(" : "@ =~= seq![' ', ':', ' ']);
        }
        let magenta = Style::BoldFg(Color::Magenta);
        match f {
            Formula::Eq(lhs, rhs) => {
                let mut l = self.fmt_term(lhs);
                push_span(&mut l, " ", Style::Plain);
                push_span(&mut l, "=", Style::BoldFg(Color::BrightBlue));
                push_span(&mut l, " ", Style::Plain);
                append_spans(&mut l, self.fmt_term(rhs));
                assert(spans_view(l@) =~= formula_spans(f@, al));
                l
            },
            Formula::Pred(name, args) => {
                if args.len() == 0 {
                    cyan_bold_line(name.clone())
                } else {
                    let mut l = cyan_bold_line(name.clone());
                    push_span(&mut l, "(", Style::BoldFg(Color::BrightBlack));
                    append_spans(&mut l, self.fmt_args(args));
                    push_span(&mut l, ")", Style::BoldFg(Color::BrightBlack));
                    assert(spans_view(l@) =~= formula_spans(f@, al));
                    l
                }
            },
            Formula::And(lhs, rhs) => {
                let mut l = self.fmt_formula(lhs);
                push_span(&mut l, " ", Style::Plain);
                push_span(&mut l, "AND", magenta);
                push_span(&mut l, " ", Style::Plain);
                append_spans(&mut l, self.fmt_formula(rhs));
                assert(spans_view(l@) =~= formula_spans(f@, al));
                l
            },
            Formula::Or(lhs, rhs) => {
                let mut l = self.fmt_formula(lhs);
                push_span(&mut l, " ", Style::Plain);
                push_span(&mut l, "OR", magenta);
                push_span(&mut l, " ", Style::Plain);
                append_spans(&mut l, self.fmt_formula(rhs));
                assert(spans_view(l@) =~= formula_spans(f@, al));
                l
            },
            Formula::Not(inner) => {
                let mut l: Line = Vec::new();
                push_span(&mut l, "NOT", magenta);
                push_span(&mut l, " ", Style::Plain);
                append_spans(&mut l, self.fmt_formula(inner));
                assert(spans_view(l@) =~= formula_spans(f@, al));
                l
            },
            Formula::Implies(lhs, rhs) => {
                let mut l: Line = Vec::new();
                push_span(&mut l, "IF", magenta);
                push_span(&mut l, " ", Style::Plain);
                append_spans(&mut l, self.fmt_formula(lhs));
                push_span(&mut l, " ", Style::Plain);
                push_span(&mut l, "THEN", magenta);
                push_span(&mut l, " ", Style::Plain);
                append_spans(&mut l, self.fmt_formula(rhs));
                assert(spans_view(l@) =~= formula_spans(f@, al));
                l
            },
            Formula::Exists { var, sort, body } => {
                let body_str = self.fmt_formula(body);
                let mut l: Line = Vec::new();
                push_span(&mut l, "∃", magenta);
                push_span(&mut l, " ", Style::Plain);
                append_spans(&mut l, cyan_bold_line(var.clone()));
                if sort.same(&Sort::object()) {
                    push_span(&mut l, ", ", Style::Plain);
                } else {
                    push_span(&mut l, " : ", Style::Plain);
                    append_spans(&mut l, cyan_bold_line(sort.to_string()));
                    push_span(&mut l, ", ", Style::Plain);
                }
                append_spans(&mut l, body_str);
                assert(spans_view(l@) =~= formula_spans(f@, al));
                l
            },
        }
    }

    /// Register the aliases of the long applications in `t`.
    fn scan_term(&mut self, t: &Term)
        ensures
            final(self)@ == scan_term_spec(t@, old(self)@),
        decreases t,
    {
        match t {
            Term::Apply(name, args) => {
                let ghost vs = terms_view_of(*args);
                let ghost st0 = self@;
                let mut i: usize = 0;
                while i < args.len()
                    invariant
                        i <= args@.len(),
                        *t == Term::Apply(*name, *args),
                        vs == terms_view_of(*args),
                        st0 == old(self)@,
                        scan_terms_spec(vs, 0, st0) == scan_terms_spec(vs, i as int, self@),
                    decreases args@.len() - i,
                {
                    proof {
                        assert(decreases_to!(*t => t->Apply_1));
                        assert(vs[i as int] == args@[i as int]@);
                    }
                    self.scan_term(&args[i]);
                    i = i + 1;
                }
                let ghost st1 = self@;
                let raw = t.to_string();
                if raw.as_str().len() > ALIAS_THRESHOLD && !self.aliases.contains_key(&raw) {
                    self.counter = if self.counter == usize::MAX {
                        0
                    } else {
                        self.counter + 1
                    };
                    proof {
                        reveal_strlit("X");
                        reveal_strlit("Let ");
                        reveal_strlit(" = ");
                        reveal_strlit(".");
                        assert("X"@ =~= seq!['X']);
                        assert("Let "@ =~= seq!['L', 'e', 't', ' ']);
                        assert(" = "@ =~= seq![' ', '=', ' ']);
                        assert("."@ =~= seq!['.']);
                    }
                    let mut alias = String::from_str("X");
                    push_decimal(&mut alias, self.counter as u64);
                    let mut head = String::from_str("Let ");
                    head.append(alias.as_str());
                    head.append(" = ");
                    let mut def: Line = Vec::new();
                    push_string(&mut def, head, Style::Plain);
                    append_spans(&mut def, self.fmt_term_raw(t));
                    push_span(&mut def, ".", Style::Plain);
                    let ghost dv = spans_view(def@);
                    let ghost av = alias@;
                    proof {
                        assert(av =~= alias_name(self.counter as nat));
                        assert(dv =~= definition_line(av, term_spans_raw(t@, st1.aliases)));
                    }
                    self.definitions.push(def);
                    self.aliases.insert(raw, alias);
                    proof {
                        assert(lines_view(self.definitions@) =~= st1.defs.push(dv));
                        assert(self@.aliases =~= st1.aliases.insert(term_text(t@), av));
                    }
                }
            },
            _ => {},
        }
    }

    /// Register the aliases of a formula's terms.
    fn scan_formula(&mut self, f: &Formula)
        ensures
            final(self)@ == scan_formula_spec(f@, old(self)@),
        decreases f,
    {
        match f {
            Formula::Eq(l, r) => {
                self.scan_term(l);
                self.scan_term(r);
            },
            Formula::Pred(_, args) => {
                let ghost vs = terms_view_of(*args);
                let ghost st0 = self@;
                let mut i: usize = 0;
                while i < args.len()
                    invariant
                        i <= args@.len(),
                        vs == terms_view_of(*args),
                        st0 == old(self)@,
                        scan_terms_spec(vs, 0, st0) == scan_terms_spec(vs, i as int, self@),
                    decreases args@.len() - i,
                {
                    proof {
                        assert(vs[i as int] == args@[i as int]@);
                    }
                    self.scan_term(&args[i]);
                    i = i + 1;
                }
            },
            Formula::And(l, r) | Formula::Or(l, r) | Formula::Implies(l, r) => {
                self.scan_formula(l);
                self.scan_formula(r);
            },
            Formula::Not(i) => self.scan_formula(i),
            Formula::Exists { body, .. } => self.scan_formula(body),
        }
    }

    /// Register the aliases of a proof tree: goal, witnesses, sub-proofs.
    pub fn scan(&mut self, step: &ProofStep)
        ensures
            final(self)@ == scan_spec(step@, old(self)@),
        decreases step,
    {
        self.scan_formula(&step.goal);
        let ghost ws = step@.witnesses;
        let ghost st1 = self@;
        let mut i: usize = 0;
        while i < step.witnesses.len()
            invariant
                i <= step.witnesses@.len(),
                ws == step@.witnesses,
                ws.len() == step.witnesses@.len(),
                scan_witnesses_spec(ws, 0, st1) == scan_witnesses_spec(ws, i as int, self@),
            decreases step.witnesses@.len() - i,
        {
            proof {
                assert(ws[i as int].1 == step.witnesses@[i as int].1@);
            }
            self.scan_term(&step.witnesses[i].1);
            i = i + 1;
        }
        let ghost subs = step@.subs;
        let ghost st2 = self@;
        let mut k: usize = 0;
        while k < step.sub_proofs.len()
            invariant
                k <= step.sub_proofs@.len(),
                subs == step@.subs,
                subs.len() == step.sub_proofs@.len(),
                scan_steps_spec(subs, 0, st2) == scan_steps_spec(subs, k as int, self@),
            decreases step.sub_proofs@.len() - k,
        {
            proof {
                assert(decreases_to!(*step => step.sub_proofs));
                assert(subs[k as int] == step.sub_proofs@[k as int]@);
            }
            self.scan(&step.sub_proofs[k]);
            k = k + 1;
        }
    }
}

// ---------------------------------------------------------------------------
// Explaining a proof (mathematical definition)
// ---------------------------------------------------------------------------

/// `3 * n` spaces.
pub open spec fn repeat3(n: nat) -> Seq<char> {
    Seq::new(3 * n, |i: int| ' ')
}

/// Dim text.
pub open spec fn dim(t: Seq<char>) -> Seq<SpanV> {
    styled(t, Style::Fg(Color::BrightBlack))
}

/// The tree branch in front of a step at `depth` (nothing at the root).
pub open spec fn branch(depth: nat) -> Seq<SpanV> {
    if depth == 0 {
        Seq::empty()
    } else {
        dim(repeat3((depth - 1) as nat) + seq!['└', '─', ' '])
    }
}

/// A rule's name as shown: cleaned, in yellow.
pub open spec fn rule_label(rule: Seq<char>) -> Seq<SpanV> {
    styled(clean_rule(rule), Style::Fg(Color::Yellow))
}

/// A witness that is still a Skolem variable `?w…`.
pub open spec fn is_abstract(t: TermV) -> bool {
    t matches TermV::Var(n, _) && starts_with(n, seq!['?', 'w'])
}

/// The line that introduces a witness of an existential step.
pub open spec fn witness_line(w: (Seq<char>, TermV), depth: nat, al: Map<Seq<char>, Seq<char>>) -> Seq<SpanV> {
    let prefix = dim(repeat3(depth) + seq![' ', ' ', ' ']);
    if is_abstract(w.1) {
        prefix + plain(seq!['↳', ' ', 'L', 'e', 't', ' ']) + styled(w.0, Style::Bold) + plain(
            seq![
                ' ', 'b', 'e', ' ', 'a', 'n', ' ', 'a', 'b', 's', 't', 'r', 'a', 'c', 't', ' ', 'v', 'a',
                'r', 'i', 'a', 'b', 'l', 'e', '.',
            ],
        )
    } else {
        prefix + plain(seq!['↳', ' ', 'C', 'o', 'n', 's', 't', 'r', 'u', 'c', 't', ' ']) + styled(
            w.0,
            Style::Bold,
        ) + plain(seq![' ', 'a', 's', ' ']) + restyle(term_spans(w.1, al), Style::BoldFg(Color::Green))
            + plain(seq!['.'])
    }
}

/// The lines of the witnesses of a step.
pub open spec fn witness_lines(ws: Seq<(Seq<char>, TermV)>, depth: nat, al: Map<Seq<char>, Seq<char>>) -> Seq<Seq<SpanV>> {
    Seq::new(ws.len(), |i: int| witness_line(ws[i], depth, al))
}

/// `Given `, the prefix of the rule of a hypothesis.
pub open spec fn given_prefix() -> Seq<char> {
    seq!['G', 'i', 'v', 'e', 'n', ' ']
}

/// The line of a step itself, before its witnesses and sub-proofs: an
/// existential step says what is to be proved; a leaf says why its goal
/// holds (a hypothesis, an asserted fact, or an axiom); a conjunction says
/// that both parts are needed; any other step names the rule it applies.
pub open spec fn step_line(s: StepV, depth: nat, al: Map<Seq<char>, Seq<char>>) -> Seq<SpanV> {
    let goal = formula_spans(s.goal, al);
    let turnstile = keyword(seq!['⊢']);
    if s.witnesses.len() > 0 {
        branch(depth) + plain(seq!['P', 'r', 'o', 'v', 'e', ':', ' ']) + goal
    } else if s.subs.len() == 0 {
        if starts_with(s.rule, given_prefix()) {
            branch(depth) + goal + plain(seq![' ']) + dim(
                seq!['(', 'b', 'y', ' ', 'h', 'y', 'p', 'o', 't', 'h', 'e', 's', 'i', 's'],
            ) + plain(seq![' ']) + dim(s.rule.skip(6) + seq![')'])
        } else if starts_with(s.rule, seq!['F', 'a', 'c', 't']) {
            branch(depth) + goal + plain(seq![' ']) + dim(
                seq!['(', 'a', 's', 's', 'e', 'r', 't', 'e', 'd', ' ', 'f', 'a', 'c', 't', ')'],
            )
        } else {
            branch(depth) + goal + plain(seq![' ', '(', 'v', 'i', 'a', ' ']) + rule_label(s.rule) + plain(
                seq![')'],
            )
        }
    } else if s.rule == seq!['C', 'o', 'n', 'j', 'u', 'n', 'c', 't', 'i', 'o', 'n'] {
        branch(depth) + turnstile + plain(seq![' ']) + goal + plain(seq![' ', ' ']) + dim(
            seq!['[', 'R', 'e', 'q', 'u', 'i', 'r', 'e', 's', ' ', 'b', 'o', 't', 'h', ':', ']'],
        )
    } else {
        branch(depth) + turnstile + plain(seq![' ']) + goal + plain(
            seq![' ', ' ', '(', 'a', 'p', 'p', 'l', 'y', ' '],
        ) + rule_label(s.rule) + plain(seq![')'])
    }
}

/// The closing lines of an explanation: an empty line and `Q.E.D.`.
pub open spec fn qed_lines() -> Seq<Seq<SpanV>> {
    seq![Seq::empty(), styled(seq!['Q', '.', 'E', '.', 'D', '.'], Style::BoldFg(Color::Green))]
}

/// The lines that explain a proof tree whose root is at `depth`.
pub open spec fn explain_spec(s: StepV, depth: nat, al: Map<Seq<char>, Seq<char>>) -> Seq<Seq<SpanV>>
    decreases s, 1nat,
{
    let head = seq![step_line(s, depth, al)];
    let ws = if s.witnesses.len() > 0 {
        witness_lines(s.witnesses, depth, al)
    } else {
        Seq::empty()
    };
    let subs = if s.witnesses.len() == 0 && s.subs.len() == 0 {
        Seq::empty()
    } else {
        explain_subs(s.subs, depth + 1, al)
    };
    let tail = if depth == 0 {
        qed_lines()
    } else {
        Seq::empty()
    };
    head + ws + subs + tail
}

/// The explanations of the trees of a list, in order.
pub open spec fn explain_subs(ss: Seq<StepV>, depth: nat, al: Map<Seq<char>, Seq<char>>) -> Seq<Seq<SpanV>>
    decreases ss, 0nat,
{
    if ss.len() == 0 {
        Seq::empty()
    } else {
        explain_subs(ss.drop_last(), depth, al) + explain_spec(ss.last(), depth, al)
    }
}

/// The height of a proof tree.
pub open spec fn height(s: StepV) -> nat
    decreases s, 1nat,
{
    1 + max_height(s.subs)
}

/// The greatest height of the trees of a list.
pub open spec fn max_height(ss: Seq<StepV>) -> nat
    decreases ss, 0nat,
{
    if ss.len() == 0 {
        0
    } else {
        let a = max_height(ss.drop_last());
        let b = height(ss.last());
        if a >= b {
            a
        } else {
            b
        }
    }
}

proof fn lemma_max_height_bounds(ss: Seq<StepV>, i: int)
    requires
        0 <= i < ss.len(),
    ensures
        height(ss[i]) <= max_height(ss),
    decreases ss.len(),
{
    if i < ss.len() - 1 {
        lemma_max_height_bounds(ss.drop_last(), i);
        assert(ss.drop_last()[i] == ss[i]);
    }
}

/// The formatter before any scan.
pub open spec fn fresh_fmt() -> FmtV {
    FmtV { aliases: Map::empty(), defs: Seq::empty(), counter: 0 }
}

/// The full explanation of a proof: a header, the definitions of the
/// aliases of its long terms, and the explanation of the tree.
pub open spec fn explain_proof_spec(s: StepV) -> Seq<Seq<SpanV>> {
    let st = scan_spec(s, fresh_fmt());
    let header = seq![
        Seq::empty(),
        styled(
            seq!['-', '-', '-', ' ', 'Q', '.', 'E', '.', 'D', '.', ' ', '-', '-', '-'],
            Style::BoldFg(Color::Green),
        ),
    ];
    let gap = if st.defs.len() > 0 {
        seq![Seq::empty()]
    } else {
        Seq::empty()
    };
    header + st.defs + gap + explain_spec(s, 0, st.aliases)
}

// ---------------------------------------------------------------------------
// Explaining a proof (code)
// ---------------------------------------------------------------------------

/// Append all the lines of `more`.
pub fn append_lines(lines: &mut Vec<Line>, more: Vec<Line>)
    ensures
        lines_view(final(lines)@) == lines_view(old(lines)@) + lines_view(more@),
{
    let mut more = more;
    let ghost m = lines_view(more@);
    lines.append(&mut more);
    assert(lines_view(lines@) =~= lines_view(old(lines)@) + m);
}

/// Append one line.
pub fn push_line(lines: &mut Vec<Line>, line: Line)
    ensures
        lines_view(final(lines)@) == lines_view(old(lines)@).push(spans_view(line@)),
{
    let ghost lv = spans_view(line@);
    lines.push(line);
    assert(lines_view(lines@) =~= lines_view(old(lines)@).push(lv));
}

/// `3 * n` spaces.
fn spaces3(n: usize) -> (s: String)
    requires
        3 * n <= usize::MAX,
    ensures
        s@ == repeat3(n as nat),
{
    let mut s = String::new();
    let mut i: usize = 0;
    while i < n
        invariant
            i <= n,
            s@ == repeat3(i as nat),
        decreases n - i,
    {
        proof {
            reveal_strlit("   ");
        }
        s.append("   ");
        proof {
            assert(s@ =~= repeat3((i + 1) as nat));
        }
        i = i + 1;
    }
    s
}

impl ProofFormatter {
    /// The line that introduces one witness.
    fn witness_line(&self, var: &String, term: &Term, depth: usize) -> (l: Line)
        requires
            3 * depth + 3 <= usize::MAX,
        ensures
            spans_view(l@) == witness_line((var@, term@), depth as nat, self@.aliases),
    {
        proof {
            reveal_strlit("   ");
            reveal_strlit("?w");
            reveal_strlit("↳ Let ");
            reveal_strlit(" be an abstract variable.");
            reveal_strlit("↳ Construct ");
            reveal_strlit(" as ");
            reveal_strlit(".");
            assert("?w"@ =~= seq!['?', 'w']);
            assert("↳ Let "@ =~= seq!['↳', ' ', 'L', 'e', 't', ' ']);
            assert(" be an abstract variable."@ =~= seq![
                ' ', 'b', 'e', ' ', 'a', 'n', ' ', 'a', 'b', 's', 't', 'r', 'a', 'c', 't', ' ', 'v', 'a',
                'r', 'i', 'a', 'b', 'l', 'e', '.',
            ]);
            assert("↳ Construct "@ =~= seq!['↳', ' ', 'C', 'o', 'n', 's', 't', 'r', 'u', 'c', 't', ' ']);
            assert(" as "@ =~= seq![' ', 'a', 's', ' ']);
            assert("."@ =~= seq!['.']);
        }
        let ghost al = self@.aliases;
        let term_str = restyle_line(self.fmt_term(term), Style::BoldFg(Color::Green));
        let is_abstract = match term {
            Term::Var(n, _) => has_prefix(n.as_str(), "?w"),
            _ => false,
        };
        let mut pad = spaces3(depth);
        pad.append("   ");
        let mut l: Line = Vec::new();
        push_string(&mut l, pad, Style::Fg(Color::BrightBlack));
        if is_abstract {
            push_span(&mut l, "↳ Let ", Style::Plain);
            push_string(&mut l, var.clone(), Style::Bold);
            push_span(&mut l, " be an abstract variable.", Style::Plain);
        } else {
            push_span(&mut l, "↳ Construct ", Style::Plain);
            push_string(&mut l, var.clone(), Style::Bold);
            push_span(&mut l, " as ", Style::Plain);
            append_spans(&mut l, term_str);
            push_span(&mut l, ".", Style::Plain);
        }
        proof {
            assert(repeat3(depth as nat) + seq![' ', ' ', ' '] =~= repeat3(depth as nat) + "   "@);
            assert(spans_view(l@) =~= witness_line((var@, term@), depth as nat, al));
        }
        l
    }

    /// The line of a step itself.
    fn step_line(&self, step: &ProofStep, depth: usize) -> (l: Line)
        requires
            3 * depth <= usize::MAX,
        ensures
            spans_view(l@) == step_line(step@, depth as nat, self@.aliases),
    {
        proof {
            reveal_strlit("└─ ");
            reveal_strlit("⊢");
            reveal_strlit("Prove: ");
            reveal_strlit("Given ");
            reveal_strlit(" ");
            reveal_strlit("(by hypothesis");
            reveal_strlit(")");
            reveal_strlit("Fact");
            reveal_strlit("(asserted fact)");
            reveal_strlit(" (via ");
            reveal_strlit("Conjunction");
            reveal_strlit("  ");
            reveal_strlit("[Requires both:]");
            reveal_strlit("  (apply ");
            assert("└─ "@ =~= seq!['└', '─', ' ']);
            assert("⊢"@ =~= seq!['⊢']);
            assert("Prove: "@ =~= seq!['P', 'r', 'o', 'v', 'e', ':', ' ']);
            assert("Given "@ =~= given_prefix());
            assert(" "@ =~= seq![' ']);
            assert("(by hypothesis"@ =~= seq!['(', 'b', 'y', ' ', 'h', 'y', 'p', 'o', 't', 'h', 'e', 's', 'i', 's']);
            assert(")"@ =~= seq![')']);
            assert("Fact"@ =~= seq!['F', 'a', 'c', 't']);
            assert("(asserted fact)"@ =~= seq!['(', 'a', 's', 's', 'e', 'r', 't', 'e', 'd', ' ', 'f', 'a', 'c', 't', ')']);
            assert(" (via "@ =~= seq![' ', '(', 'v', 'i', 'a', ' ']);
            assert("Conjunction"@ =~= seq!['C', 'o', 'n', 'j', 'u', 'n', 'c', 't', 'i', 'o', 'n']);
            assert("  "@ =~= seq![' ', ' ']);
            assert("[Requires both:]"@ =~= seq!['[', 'R', 'e', 'q', 'u', 'i', 'r', 'e', 's', ' ', 'b', 'o', 't', 'h', ':', ']']);
            assert("  (apply "@ =~= seq![' ', ' ', '(', 'a', 'p', 'p', 'l', 'y', ' ']);
        }
        let ghost al = self@.aliases;
        let ghost sv = step@;
        let mut l: Line = Vec::new();
        if depth > 0 {
            let mut b = spaces3(depth - 1);
            b.append("└─ ");
            push_string(&mut l, b, Style::Fg(Color::BrightBlack));
        }
        proof {
            assert(spans_view(l@) =~= branch(depth as nat));
        }
        let goal_text = self.fmt_formula(&step.goal);
        let magenta = Style::BoldFg(Color::Magenta);
        if step.witnesses.len() > 0 {
            push_span(&mut l, "Prove: ", Style::Plain);
            append_spans(&mut l, goal_text);
        } else if step.sub_proofs.len() == 0 {
            append_spans(&mut l, goal_text);
            if has_prefix(step.rule_name.as_str(), "Given ") {
                let n = step.rule_name.as_str().unicode_len();
                let mut hyp = slice_chars(step.rule_name.as_str(), 6, n);
                hyp.append(")");
                push_span(&mut l, " ", Style::Plain);
                push_span(&mut l, "(by hypothesis", Style::Fg(Color::BrightBlack));
                push_span(&mut l, " ", Style::Plain);
                push_string(&mut l, hyp, Style::Fg(Color::BrightBlack));
                proof {
                    assert(sv.rule.subrange(6, sv.rule.len() as int) =~= sv.rule.skip(6));
                }
            } else if has_prefix(step.rule_name.as_str(), "Fact") {
                push_span(&mut l, " ", Style::Plain);
                push_span(&mut l, "(asserted fact)", Style::Fg(Color::BrightBlack));
            } else {
                push_span(&mut l, " (via ", Style::Plain);
                push_string(&mut l, clean_rule_name(step.rule_name.as_str()), Style::Fg(Color::Yellow));
                push_span(&mut l, ")", Style::Plain);
            }
        } else if spells(&step.rule_name, "Conjunction") {
            push_span(&mut l, "⊢", magenta);
            push_span(&mut l, " ", Style::Plain);
            append_spans(&mut l, goal_text);
            push_span(&mut l, "  ", Style::Plain);
            push_span(&mut l, "[Requires both:]", Style::Fg(Color::BrightBlack));
        } else {
            push_span(&mut l, "⊢", magenta);
            push_span(&mut l, " ", Style::Plain);
            append_spans(&mut l, goal_text);
            push_span(&mut l, "  (apply ", Style::Plain);
            push_string(&mut l, clean_rule_name(step.rule_name.as_str()), Style::Fg(Color::Yellow));
            push_span(&mut l, ")", Style::Plain);
        }
        proof {
            assert(spans_view(l@) =~= step_line(sv, depth as nat, al));
        }
        l
    }
}

/// The lines that explain a proof tree whose root is at `depth`.
pub fn explain_recursive(step: &ProofStep, depth: usize, fmt: &ProofFormatter) -> (lines: Vec<Line>)
    requires
        3 * (depth + height(step@)) <= usize::MAX,
    ensures
        lines_view(lines@) == explain_spec(step@, depth as nat, fmt@.aliases),
    decreases step,
{
    let ghost al = fmt@.aliases;
    let ghost sv = step@;
    let mut lines: Vec<Line> = Vec::new();
    push_line(&mut lines, fmt.step_line(step, depth));
    let ghost head = lines_view(lines@);
    if step.witnesses.len() > 0 {
        let mut i: usize = 0;
        while i < step.witnesses.len()
            invariant
                i <= step.witnesses@.len(),
                sv == step@,
                al == fmt@.aliases,
                3 * (depth + height(step@)) <= usize::MAX,
                lines_view(lines@) == head + witness_lines(sv.witnesses, depth as nat, al).take(i as int),
            decreases step.witnesses@.len() - i,
        {
            let ghost before = lines_view(lines@);
            let wl = fmt.witness_line(&step.witnesses[i].0, &step.witnesses[i].1, depth);
            push_line(&mut lines, wl);
            proof {
                assert(sv.witnesses[i as int] == (step.witnesses@[i as int].0@, step.witnesses@[i as int].1@));
                assert(witness_lines(sv.witnesses, depth as nat, al).take(i + 1) =~= witness_lines(
                    sv.witnesses,
                    depth as nat,
                    al,
                ).take(i as int).push(witness_line(sv.witnesses[i as int], depth as nat, al)));
            }
            i = i + 1;
        }
        proof {
            assert(witness_lines(sv.witnesses, depth as nat, al).take(step.witnesses@.len() as int)
                =~= witness_lines(sv.witnesses, depth as nat, al));
        }
    }
    let ghost mid = lines_view(lines@);
    if step.witnesses.len() > 0 || step.sub_proofs.len() > 0 {
        let ghost subs = sv.subs;
        let mut k: usize = 0;
        proof {
            assert(subs.take(0) =~= Seq::<StepV>::empty());
            assert(lines_view(lines@) =~= mid + explain_subs(subs.take(0), (depth + 1) as nat, al));
        }
        while k < step.sub_proofs.len()
            invariant
                k <= step.sub_proofs@.len(),
                sv == step@,
                subs == sv.subs,
                subs.len() == step.sub_proofs@.len(),
                al == fmt@.aliases,
                3 * (depth + height(step@)) <= usize::MAX,
                lines_view(lines@) == mid + explain_subs(subs.take(k as int), (depth + 1) as nat, al),
            decreases step.sub_proofs@.len() - k,
        {
            proof {
                assert(decreases_to!(*step => step.sub_proofs));
                assert(subs[k as int] == step.sub_proofs@[k as int]@);
                lemma_max_height_bounds(subs, k as int);
            }
            let more = explain_recursive(&step.sub_proofs[k], depth + 1, fmt);
            append_lines(&mut lines, more);
            proof {
                assert(subs.take(k + 1).drop_last() =~= subs.take(k as int));
                assert(lines_view(lines@) =~= mid + explain_subs(subs.take(k + 1), (depth + 1) as nat, al));
            }
            k = k + 1;
        }
        proof {
            assert(subs.take(subs.len() as int) =~= subs);
        }
    }
    let ghost body = lines_view(lines@);
    if depth == 0 {
        let empty: Line = Vec::new();
        proof {
            assert(spans_view(empty@) =~= Seq::<SpanV>::empty());
        }
        push_line(&mut lines, empty);
        let mut q: Line = Vec::new();
        proof {
            reveal_strlit("Q.E.D.");
            assert("Q.E.D."@ =~= seq!['Q', '.', 'E', '.', 'D', '.']);
        }
        push_span(&mut q, "Q.E.D.", Style::BoldFg(Color::Green));
        push_line(&mut lines, q);
    }
    proof {
        assert(lines_view(lines@) =~= explain_spec(sv, depth as nat, al));
    }
    lines
}

/// The full explanation of a proof.
pub fn explain_proof(step: &ProofStep) -> (lines: Vec<Line>)
    requires
        3 * height(step@) <= usize::MAX,
    ensures
        lines_view(lines@) == explain_proof_spec(step@),
{
    let mut fmt = ProofFormatter::new();
    fmt.scan(step);
    let ghost st = fmt@;
    let mut lines: Vec<Line> = Vec::new();
    let empty: Line = Vec::new();
    proof {
        assert(spans_view(empty@) =~= Seq::<SpanV>::empty());
    }
    push_line(&mut lines, empty);
    let mut h: Line = Vec::new();
    proof {
        reveal_strlit("--- Q.E.D. ---");
        assert("--- Q.E.D. ---"@ =~= seq!['-', '-', '-', ' ', 'Q', '.', 'E', '.', 'D', '.', ' ', '-', '-', '-']);
    }
    push_span(&mut h, "--- Q.E.D. ---", Style::BoldFg(Color::Green));
    push_line(&mut lines, h);
    let ghost header = lines_view(lines@);
    let defs = fmt.definitions();
    let mut i: usize = 0;
    while i < defs.len()
        invariant
            i <= defs@.len(),
            lines_view(defs@) == st.defs,
            lines_view(lines@) == header + st.defs.take(i as int),
        decreases defs@.len() - i,
    {
        push_line(&mut lines, copy_line(&defs[i]));
        proof {
            assert(st.defs.take(i + 1) =~= st.defs.take(i as int).push(spans_view(defs@[i as int]@)));
        }
        i = i + 1;
    }
    proof {
        assert(st.defs.take(defs@.len() as int) =~= st.defs);
    }
    if defs.len() > 0 {
        let empty: Line = Vec::new();
        proof {
            assert(spans_view(empty@) =~= Seq::<SpanV>::empty());
        }
        push_line(&mut lines, empty);
    }
    append_lines(&mut lines, explain_recursive(step, 0, &fmt));
    proof {
        assert(lines_view(lines@) =~= explain_proof_spec(step@));
    }
    lines
}

} // verus!
