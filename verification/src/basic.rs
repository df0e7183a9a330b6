//! A small backward-chaining prover over flat formulas: equalities and
//! predicate applications, with single-step substitution.
use vstd::prelude::*;

use crate::name_map::NameMap;
use crate::text::strings_view;

verus! {

// ---------------------------------------------------------------------------
// Terms and formulas
// ---------------------------------------------------------------------------

/// A term: a variable, a constant, or a function application.
#[derive(Debug)]
pub enum Term {
    Var(String),
    Const(String),
    Apply(String, Vec<Term>),
}

/// A term as a mathematical value.
pub enum TermV {
    Var(Seq<char>),
    Const(Seq<char>),
    Apply(Seq<char>, Seq<TermV>),
}

/// The model of a term.
pub open spec fn term_view(t: Term) -> TermV
    decreases t,
{
    match t {
        Term::Var(n) => TermV::Var(n@),
        Term::Const(n) => TermV::Const(n@),
        Term::Apply(n, args) => TermV::Apply(n@, terms_view_of(args)),
    }
}

/// The models of a list of terms.
pub open spec fn terms_view_of(args: Vec<Term>) -> Seq<TermV>
    decreases args, 0nat,
{
    Seq::new(
        args@.len(),
        |i: int|
            if 0 <= i < args@.len() {
                term_view(args@[i])
            } else {
                TermV::Const(Seq::empty())
            },
    )
}

impl View for Term {
    type V = TermV;

    open spec fn view(&self) -> TermV {
        term_view(*self)
    }
}

/// A formula: an equality or a predicate application.
#[derive(Debug)]
pub enum Formula {
    Eq(Term, Term),
    Pred(String, Vec<Term>),
}

/// A formula as a mathematical value.
pub enum FormulaV {
    Eq(TermV, TermV),
    Pred(Seq<char>, Seq<TermV>),
}

impl View for Formula {
    type V = FormulaV;

    open spec fn view(&self) -> FormulaV {
        match self {
            Formula::Eq(l, r) => FormulaV::Eq(l@, r@),
            Formula::Pred(n, args) => FormulaV::Pred(n@, terms_view_of(*args)),
        }
    }
}

/// The models of a list of formulas.
pub open spec fn formulas_view(fs: Seq<Formula>) -> Seq<FormulaV> {
    Seq::new(fs.len(), |i: int| fs[i]@)
}

// ---------------------------------------------------------------------------
// Bindings and substitution
// ---------------------------------------------------------------------------

/// Variable name → term.
pub type Bindings = NameMap<Term>;

/// Bindings as a mathematical map.
pub type BindingsV = Map<Seq<char>, TermV>;

/// The model of a set of bindings.
pub open spec fn bview(b: Map<Seq<char>, Term>) -> BindingsV {
    b.map_values(|t: Term| t@)
}

/// Replace each bound variable by its binding (once: the replacement is not
/// itself substituted).
pub open spec fn subst(t: TermV, b: BindingsV) -> TermV
    decreases t,
{
    match t {
        TermV::Var(n) => if b.contains_key(n) {
            b[n]
        } else {
            t
        },
        TermV::Const(_) => t,
        TermV::Apply(f, args) => TermV::Apply(
            f,
            Seq::new(
                args.len(),
                |i: int|
                    if 0 <= i < args.len() {
                        subst(args[i], b)
                    } else {
                        TermV::Const(Seq::empty())
                    },
            ),
        ),
    }
}

/// Substitution on each term of a list.
pub open spec fn substs(ts: Seq<TermV>, b: BindingsV) -> Seq<TermV> {
    Seq::new(ts.len(), |i: int| subst(ts[i], b))
}

/// Substitution on a formula.
pub open spec fn formula_subst(f: FormulaV, b: BindingsV) -> FormulaV {
    match f {
        FormulaV::Eq(l, r) => FormulaV::Eq(subst(l, b), subst(r, b)),
        FormulaV::Pred(n, args) => FormulaV::Pred(n, substs(args, b)),
    }
}

impl Term {
    /// A variable named `name`.
    pub fn var(name: &str) -> (t: Self)
        ensures
            t@ == TermV::Var(name@),
    {
        Term::Var(String::from_str(name))
    }

    /// A constant named `name`.
    pub fn con(name: &str) -> (t: Self)
        ensures
            t@ == TermV::Const(name@),
    {
        Term::Const(String::from_str(name))
    }

    /// The application of `name` to `args`.
    pub fn apply(name: &str, args: Vec<Term>) -> (t: Self)
        ensures
            t@ == TermV::Apply(name@, terms_view_of(args)),
    {
        Term::Apply(String::from_str(name), args)
    }

    /// A copy of this term.
    pub fn duplicate(&self) -> (r: Term)
        ensures
            r@ == self@,
        decreases self,
    {
        match self {
            Term::Var(n) => Term::Var(n.clone()),
            Term::Const(n) => Term::Const(n.clone()),
            Term::Apply(n, args) => {
                let mut out: Vec<Term> = Vec::new();
                let mut i: usize = 0;
                while i < args.len()
                    invariant
                        i <= args@.len(),
                        *self == Term::Apply(*n, *args),
                        out@.len() == i,
                        forall|j: int| 0 <= j < i ==> #[trigger] out@[j]@ == args@[j]@,
                    decreases args@.len() - i,
                {
                    proof {
                        assert(decreases_to!(*self => self->Apply_1));
                    }
                    out.push(args[i].duplicate());
                    i = i + 1;
                }
                proof {
                    assert forall|j: int| 0 <= j < args@.len() implies terms_view_of(out)[j]
                        == terms_view_of(*args)[j] by {
                        assert(out@[j]@ == args@[j]@);
                    }
                    assert(terms_view_of(out) =~= terms_view_of(*args));
                }
                Term::Apply(n.clone(), out)
            },
        }
    }

    /// Structural equality.
    pub fn same(&self, other: &Term) -> (b: bool)
        ensures
            b == (self@ == other@),
        decreases self,
    {
        match (self, other) {
            (Term::Var(n1), Term::Var(n2)) => *n1 == *n2,
            (Term::Const(n1), Term::Const(n2)) => *n1 == *n2,
            (Term::Apply(n1, a1), Term::Apply(n2, a2)) => {
                assert(self@ == TermV::Apply(n1@, terms_view_of(*a1)));
                assert(other@ == TermV::Apply(n2@, terms_view_of(*a2)));
                if *n1 != *n2 || a1.len() != a2.len() {
                    assert(terms_view_of(*a1).len() == a1@.len());
                    return false;
                }
                let mut i: usize = 0;
                while i < a1.len()
                    invariant
                        i <= a1@.len(),
                        a1@.len() == a2@.len(),
                        *self == Term::Apply(*n1, *a1),
                        self@ == TermV::Apply(n1@, terms_view_of(*a1)),
                        other@ == TermV::Apply(n2@, terms_view_of(*a2)),
                        forall|j: int| 0 <= j < i ==> a1@[j]@ == a2@[j]@,
                    decreases a1@.len() - i,
                {
                    proof {
                        assert(decreases_to!(*self => self->Apply_1));
                    }
                    if !a1[i].same(&a2[i]) {
                        assert(terms_view_of(*a1)[i as int] != terms_view_of(*a2)[i as int]);
                        return false;
                    }
                    i = i + 1;
                }
                assert(terms_view_of(*a1) =~= terms_view_of(*a2));
                true
            },
            _ => false,
        }
    }

    /// Replace each bound variable by (a copy of) its binding.
    pub fn substitute(&self, bindings: &Bindings) -> (r: Term)
        ensures
            r@ == subst(self@, bview(bindings@)),
        decreases self,
    {
        match self {
            Term::Var(name) => {
                match bindings.get(name) {
                    Some(replacement) => replacement.duplicate(),
                    None => Term::Var(name.clone()),
                }
            },
            Term::Const(_) => self.duplicate(),
            Term::Apply(name, args) => {
                let ghost bv = bview(bindings@);
                let mut out: Vec<Term> = Vec::new();
                let mut i: usize = 0;
                while i < args.len()
                    invariant
                        i <= args@.len(),
                        *self == Term::Apply(*name, *args),
                        bv == bview(bindings@),
                        out@.len() == i,
                        forall|j: int| 0 <= j < i ==> #[trigger] out@[j]@ == subst(args@[j]@, bv),
                    decreases args@.len() - i,
                {
                    proof {
                        assert(decreases_to!(*self => self->Apply_1));
                    }
                    out.push(args[i].substitute(bindings));
                    i = i + 1;
                }
                let r = Term::Apply(name.clone(), out);
                proof {
                    let st = subst(self@, bv);
                    assert(st->Apply_1.len() == args@.len());
                    assert forall|j: int| 0 <= j < args@.len() implies terms_view_of(out)[j] == st->Apply_1[j] by {
                        assert(out@[j]@ == subst(args@[j]@, bv));
                    }
                    assert(terms_view_of(out) =~= st->Apply_1);
                }
                r
            },
        }
    }
}

impl Clone for Term {
    fn clone(&self) -> (r: Term)
        ensures
            r@ == self@,
    {
        self.duplicate()
    }
}

impl PartialEq for Term {
    fn eq(&self, other: &Term) -> (b: bool) {
        self.same(other)
    }
}

impl vstd::std_specs::cmp::PartialEqSpecImpl for Term {
    open spec fn obeys_eq_spec() -> bool {
        true
    }

    open spec fn eq_spec(&self, other: &Term) -> bool {
        self@ == other@
    }
}

/// Substitute in each term of a list.
fn substitute_all(args: &Vec<Term>, bindings: &Bindings) -> (r: Vec<Term>)
    ensures
        terms_view_of(r) == substs(terms_view_of(*args), bview(bindings@)),
{
    let ghost bv = bview(bindings@);
    let mut out: Vec<Term> = Vec::new();
    let mut i: usize = 0;
    while i < args.len()
        invariant
            i <= args@.len(),
            bv == bview(bindings@),
            out@.len() == i,
            forall|j: int| 0 <= j < i ==> #[trigger] out@[j]@ == subst(args@[j]@, bv),
        decreases args@.len() - i,
    {
        out.push(args[i].substitute(bindings));
        i = i + 1;
    }
    proof {
        assert forall|j: int| 0 <= j < args@.len() implies terms_view_of(out)[j]
            == substs(terms_view_of(*args), bv)[j] by {
            assert(out@[j]@ == subst(args@[j]@, bv));
        }
        assert(terms_view_of(out) =~= substs(terms_view_of(*args), bv));
    }
    out
}

/// Copies of a list of terms.
fn copy_terms(args: &Vec<Term>) -> (r: Vec<Term>)
    ensures
        terms_view_of(r) == terms_view_of(*args),
{
    let mut out: Vec<Term> = Vec::new();
    let mut i: usize = 0;
    while i < args.len()
        invariant
            i <= args@.len(),
            out@.len() == i,
            forall|j: int| 0 <= j < i ==> #[trigger] out@[j]@ == args@[j]@,
        decreases args@.len() - i,
    {
        out.push(args[i].duplicate());
        i = i + 1;
    }
    proof {
        assert forall|j: int| 0 <= j < args@.len() implies terms_view_of(out)[j]
            == terms_view_of(*args)[j] by {
            assert(out@[j]@ == args@[j]@);
        }
        assert(terms_view_of(out) =~= terms_view_of(*args));
    }
    out
}

// ---------------------------------------------------------------------------
// Matching (mathematical definition)
// ---------------------------------------------------------------------------

/// Bind the variable `n` to `val`: a variable bound already must be bound to
/// exactly `val`; an unbound one gets bound.
pub open spec fn bind(n: Seq<char>, val: TermV, b: BindingsV) -> (bool, BindingsV) {
    if b.contains_key(n) {
        (b[n] == val, b)
    } else {
        (true, b.insert(n, val))
    }
}

/// Match the pattern `p` against the target `t` under bindings `b`: the
/// outcome and the bindings after.  A pattern variable is bound to the
/// target; otherwise a target variable is bound to the pattern; constants
/// must agree; applications must agree in name and arity and their
/// arguments are matched from the left, stopping at the first failure.
pub open spec fn match_term(p: TermV, t: TermV, b: BindingsV) -> (bool, BindingsV)
    decreases p, 0int,
{
    match p {
        TermV::Var(n) => bind(n, t, b),
        _ => match t {
            TermV::Var(n) => bind(n, p, b),
            TermV::Const(c2) => match p {
                TermV::Const(c1) => (c1 == c2, b),
                _ => (false, b),
            },
            TermV::Apply(f2, a2) => match p {
                TermV::Apply(f1, a1) => if f1 == f2 && a1.len() == a2.len() {
                    match_args(a1, a2, 0, b)
                } else {
                    (false, b)
                },
                _ => (false, b),
            },
        },
    }
}

/// Match `ps[i..]` against `ts[i..]` pairwise from the left.
pub open spec fn match_args(ps: Seq<TermV>, ts: Seq<TermV>, i: int, b: BindingsV) -> (bool, BindingsV)
    decreases ps, ps.len() - i,
{
    if i < 0 || i >= ps.len() || i >= ts.len() {
        (true, b)
    } else {
        let (ok, b1) = match_term(ps[i], ts[i], b);
        if !ok {
            (false, b1)
        } else {
            match_args(ps, ts, i + 1, b1)
        }
    }
}

/// Match a formula pattern against a goal, starting from no bindings.
pub open spec fn match_formula(p: FormulaV, g: FormulaV) -> Option<BindingsV> {
    match (p, g) {
        (FormulaV::Eq(l1, r1), FormulaV::Eq(l2, r2)) => {
            let (ok1, b1) = match_term(l1, l2, Map::empty());
            let (ok2, b2) = match_term(r1, r2, b1);
            if ok1 && ok2 {
                Some(b2)
            } else {
                None
            }
        },
        (FormulaV::Pred(n1, a1), FormulaV::Pred(n2, a2)) => if n1 == n2 && a1.len() == a2.len() {
            let (ok, b) = match_args(a1, a2, 0, Map::empty());
            if ok {
                Some(b)
            } else {
                None
            }
        } else {
            None
        },
        _ => None,
    }
}

// ---------------------------------------------------------------------------
// Matching (code)
// ---------------------------------------------------------------------------

fn bind_exec(name: &String, val: &Term, bindings: &mut Bindings) -> (ok: bool)
    ensures
        (ok, bview(final(bindings)@)) == bind(name@, val@, bview(old(bindings)@)),
{
    match bindings.get(name) {
        Some(existing) => existing.same(val),
        None => {
            let ghost vv = val@;
            bindings.insert(name.clone(), val.duplicate());
            proof {
                assert(bview(bindings@) =~= bview(old(bindings)@).insert(name@, vv));
            }
            true
        },
    }
}

impl Formula {
    /// An equality.
    pub fn eq(lhs: Term, rhs: Term) -> (f: Self)
        ensures
            f@ == FormulaV::Eq(lhs@, rhs@),
    {
        Formula::Eq(lhs, rhs)
    }

    /// A predicate application.
    pub fn pred(name: &str, args: Vec<Term>) -> (f: Self)
        ensures
            f@ == FormulaV::Pred(name@, terms_view_of(args)),
    {
        Formula::Pred(String::from_str(name), args)
    }

    /// A copy of this formula.
    pub fn duplicate(&self) -> (r: Formula)
        ensures
            r@ == self@,
    {
        match self {
            Formula::Eq(l, r) => Formula::Eq(l.duplicate(), r.duplicate()),
            Formula::Pred(n, args) => Formula::Pred(n.clone(), copy_terms(args)),
        }
    }

    /// Structural equality.
    pub fn same(&self, other: &Formula) -> (b: bool)
        ensures
            b == (self@ == other@),
    {
        match (self, other) {
            (Formula::Eq(l1, r1), Formula::Eq(l2, r2)) => l1.same(l2) && r1.same(r2),
            (Formula::Pred(n1, a1), Formula::Pred(n2, a2)) => {
                if *n1 != *n2 || a1.len() != a2.len() {
                    assert(terms_view_of(*a1).len() == a1@.len());
                    return false;
                }
                let mut i: usize = 0;
                while i < a1.len()
                    invariant
                        i <= a1@.len(),
                        a1@.len() == a2@.len(),
                        self@ == FormulaV::Pred(n1@, terms_view_of(*a1)),
                        other@ == FormulaV::Pred(n2@, terms_view_of(*a2)),
                        forall|j: int| 0 <= j < i ==> a1@[j]@ == a2@[j]@,
                    decreases a1@.len() - i,
                {
                    if !a1[i].same(&a2[i]) {
                        assert(terms_view_of(*a1)[i as int] != terms_view_of(*a2)[i as int]);
                        return false;
                    }
                    i = i + 1;
                }
                assert(terms_view_of(*a1) =~= terms_view_of(*a2));
                true
            },
            _ => false,
        }
    }

    /// Replace each bound variable by its binding.
    pub fn substitute(&self, bindings: &Bindings) -> (r: Formula)
        ensures
            r@ == formula_subst(self@, bview(bindings@)),
    {
        match self {
            Formula::Eq(lhs, rhs) => Formula::Eq(lhs.substitute(bindings), rhs.substitute(bindings)),
            Formula::Pred(name, args) => Formula::Pred(name.clone(), substitute_all(args, bindings)),
        }
    }

    /// Match `self` (a pattern) against `goal`; on success the bindings.
    pub fn unify(&self, goal: &Formula) -> (r: Option<Bindings>)
        ensures
            match r {
                Some(b) => match_formula(self@, goal@) == Some(bview(b@)),
                None => match_formula(self@, goal@) is None,
            },
    {
        let mut bindings: Bindings = NameMap::new();
        proof {
            assert(bview(bindings@) =~= Map::empty());
        }
        match (self, goal) {
            (Formula::Eq(l1, r1), Formula::Eq(l2, r2)) => {
                if !Self::unify_term(l1, l2, &mut bindings) {
                    return None;
                }
                if !Self::unify_term(r1, r2, &mut bindings) {
                    return None;
                }
            },
            (Formula::Pred(n1, args1), Formula::Pred(n2, args2)) => {
                if *n1 != *n2 || args1.len() != args2.len() {
                    return None;
                }
                let ghost v1 = terms_view_of(*args1);
                let ghost v2 = terms_view_of(*args2);
                let mut i: usize = 0;
                while i < args1.len()
                    invariant
                        i <= args1@.len(),
                        args1@.len() == args2@.len(),
                        v1 == terms_view_of(*args1),
                        v2 == terms_view_of(*args2),
                        self@ == FormulaV::Pred(n1@, v1),
                        goal@ == FormulaV::Pred(n2@, v2),
                        n1@ == n2@,
                        match_args(v1, v2, 0, Map::empty()) == match_args(v1, v2, i as int, bview(bindings@)),
                    decreases args1@.len() - i,
                {
                    if !Self::unify_term(&args1[i], &args2[i], &mut bindings) {
                        return None;
                    }
                    i = i + 1;
                }
            },
            _ => return None,
        }
        Some(bindings)
    }

    fn unify_term(pattern: &Term, target: &Term, bindings: &mut Bindings) -> (ok: bool)
        ensures
            (ok, bview(final(bindings)@)) == match_term(pattern@, target@, bview(old(bindings)@)),
        decreases pattern,
    {
        match (pattern, target) {
            (Term::Var(name), val) => bind_exec(name, val, bindings),
            (val, Term::Var(name)) => bind_exec(name, val, bindings),
            (Term::Const(c1), Term::Const(c2)) => *c1 == *c2,
            (Term::Apply(n1, args1), Term::Apply(n2, args2)) => {
                if *n1 != *n2 || args1.len() != args2.len() {
                    return false;
                }
                let ghost v1 = terms_view_of(*args1);
                let ghost v2 = terms_view_of(*args2);
                let ghost b0 = bview(bindings@);
                assert(match_term(pattern@, target@, b0) == match_args(v1, v2, 0, b0));
                let mut i: usize = 0;
                while i < args1.len()
                    invariant
                        i <= args1@.len(),
                        args1@.len() == args2@.len(),
                        *pattern == Term::Apply(*n1, *args1),
                        v1 == terms_view_of(*args1),
                        v2 == terms_view_of(*args2),
                        b0 == bview(old(bindings)@),
                        match_term(pattern@, target@, b0) == match_args(v1, v2, i as int, bview(bindings@)),
                    decreases args1@.len() - i,
                {
                    proof {
                        assert(decreases_to!(*pattern => pattern->Apply_1));
                    }
                    if !Self::unify_term(&args1[i], &args2[i], bindings) {
                        return false;
                    }
                    i = i + 1;
                }
                true
            },
            _ => false,
        }
    }
}

impl Clone for Formula {
    fn clone(&self) -> (r: Formula)
        ensures
            r@ == self@,
    {
        self.duplicate()
    }
}

impl PartialEq for Formula {
    fn eq(&self, other: &Formula) -> (b: bool) {
        self.same(other)
    }
}

impl vstd::std_specs::cmp::PartialEqSpecImpl for Formula {
    open spec fn obeys_eq_spec() -> bool {
        true
    }

    open spec fn eq_spec(&self, other: &Formula) -> bool {
        self@ == other@
    }
}

// ---------------------------------------------------------------------------
// Display text
// ---------------------------------------------------------------------------

/// Display text of a list of terms, separated by `, `.
pub open spec fn join_text(ts: Seq<TermV>) -> Seq<char>
    decreases ts, 0nat,
{
    if ts.len() == 0 {
        Seq::empty()
    } else if ts.len() == 1 {
        term_text(ts[0])
    } else {
        join_text(ts.drop_last()) + seq![',', ' '] + term_text(ts.last())
    }
}

/// Display text of a term; an application `f` of `a, b` shows as
/// `f()a, b)`.
pub open spec fn term_text(t: TermV) -> Seq<char>
    decreases t, 1nat,
{
    match t {
        TermV::Var(n) => n,
        TermV::Const(n) => n,
        TermV::Apply(n, args) => n + seq!['(', ')'] + join_text(args) + seq![')'],
    }
}

/// Display text of a formula: `l=r` or `P(a, b)`.
pub open spec fn formula_text(f: FormulaV) -> Seq<char> {
    match f {
        FormulaV::Eq(l, r) => term_text(l) + seq!['='] + term_text(r),
        FormulaV::Pred(n, args) => n + seq!['('] + join_text(args) + seq![')'],
    }
}

/// `a, b, ...` for the terms of a list.
fn join_exec(args: &Vec<Term>) -> (s: String)
    ensures
        s@ == join_text(terms_view_of(*args)),
    decreases args, 0nat,
{
    let ghost vs = terms_view_of(*args);
    let mut s = String::new();
    let mut i: usize = 0;
    while i < args.len()
        invariant
            i <= args@.len(),
            vs == terms_view_of(*args),
            s@ == join_text(vs.take(i as int)),
        decreases args@.len() - i,
    {
        proof {
            assert(decreases_to!(*args => args@));
            assert(decreases_to!(args@ => args@[i as int]));
            reveal_strlit(", ");
        }
        if i > 0 {
            s.append(", ");
        }
        let t = args[i].to_string();
        s.append(t.as_str());
        proof {
            assert(vs.take(i + 1).drop_last() =~= vs.take(i as int));
        }
        i = i + 1;
    }
    proof {
        assert(vs.take(args@.len() as int) =~= vs);
    }
    s
}

impl Term {
    /// Display text.
    pub fn to_string(&self) -> (s: String)
        ensures
            s@ == term_text(self@),
        decreases self, 1nat,
    {
        match self {
            Term::Var(n) => n.clone(),
            Term::Const(n) => n.clone(),
            Term::Apply(n, args) => {
                proof {
                    assert(decreases_to!(*self => self->Apply_1));
                    reveal_strlit("()");
                    reveal_strlit(")");
                }
                let mut s = n.clone();
                s.append("()");
                let inner = join_exec(args);
                s.append(inner.as_str());
                s.append(")");
                s
            },
        }
    }
}

impl Formula {
    /// Display text.
    pub fn to_string(&self) -> (s: String)
        ensures
            s@ == formula_text(self@),
    {
        proof {
            reveal_strlit("=");
            reveal_strlit("(");
            reveal_strlit(")");
        }
        match self {
            Formula::Eq(l, r) => {
                let mut s = l.to_string();
                s.append("=");
                let rt = r.to_string();
                s.append(rt.as_str());
                s
            },
            Formula::Pred(n, args) => {
                let mut s = n.clone();
                s.append("(");
                let inner = join_exec(args);
                s.append(inner.as_str());
                s.append(")");
                s
            },
        }
    }
}

// ---------------------------------------------------------------------------
// Proof trees and axioms
// ---------------------------------------------------------------------------

/// One node of a proof tree.
#[derive(Debug)]
pub struct ProofStep {
    pub goal: Formula,
    pub rule_name: String,
    pub sub_proofs: Vec<ProofStep>,
}

/// A proof step as a mathematical value.
pub struct StepV {
    pub goal: FormulaV,
    pub rule: Seq<char>,
    pub subs: Seq<StepV>,
}

/// A placeholder step.
pub open spec fn empty_step() -> StepV {
    StepV { goal: FormulaV::Pred(Seq::empty(), Seq::empty()), rule: Seq::empty(), subs: Seq::empty() }
}

/// The model of a proof step.
pub open spec fn step_view(s: ProofStep) -> StepV
    decreases s,
{
    StepV {
        goal: s.goal@,
        rule: s.rule_name@,
        subs: Seq::new(
            s.sub_proofs@.len(),
            |i: int|
                if 0 <= i < s.sub_proofs@.len() {
                    step_view(s.sub_proofs@[i])
                } else {
                    empty_step()
                },
        ),
    }
}

impl View for ProofStep {
    type V = StepV;

    open spec fn view(&self) -> StepV {
        step_view(*self)
    }
}

impl ProofStep {
    /// A proof step for `goal` by the rule `rule_name`.
    pub fn new(goal: Formula, rule_name: &str, sub_proofs: Vec<ProofStep>) -> (s: Self)
        ensures
            s.goal == goal,
            s.rule_name@ == rule_name@,
            s.sub_proofs == sub_proofs,
    {
        ProofStep { goal, rule_name: String::from_str(rule_name), sub_proofs }
    }

    /// A copy of this proof tree.
    pub fn duplicate(&self) -> (r: ProofStep)
        ensures
            r@ == self@,
        decreases self,
    {
        let mut subs: Vec<ProofStep> = Vec::new();
        let mut i: usize = 0;
        while i < self.sub_proofs.len()
            invariant
                i <= self.sub_proofs@.len(),
                subs@.len() == i,
                forall|j: int| 0 <= j < i ==> #[trigger] subs@[j]@ == self.sub_proofs@[j]@,
            decreases self.sub_proofs@.len() - i,
        {
            proof {
                assert(decreases_to!(*self => self.sub_proofs));
            }
            subs.push(self.sub_proofs[i].duplicate());
            i = i + 1;
        }
        let r = ProofStep { goal: self.goal.duplicate(), rule_name: self.rule_name.clone(), sub_proofs: subs };
        proof {
            assert forall|j: int| 0 <= j < r@.subs.len() implies r@.subs[j] == self@.subs[j] by {
                assert(subs@[j]@ == self.sub_proofs@[j]@);
            }
            assert(r@.subs =~= self@.subs);
        }
        r
    }
}

impl Clone for ProofStep {
    fn clone(&self) -> (r: ProofStep)
        ensures
            r@ == self@,
    {
        self.duplicate()
    }
}

/// A named rule: the premises entail the conclusion.
pub struct Axiom {
    pub name: String,
    pub premises: Vec<Formula>,
    pub conclusion: Formula,
}

/// A rule as a mathematical value.
pub struct AxiomV {
    pub name: Seq<char>,
    pub premises: Seq<FormulaV>,
    pub conclusion: FormulaV,
}

impl View for Axiom {
    type V = AxiomV;

    open spec fn view(&self) -> AxiomV {
        AxiomV { name: self.name@, premises: formulas_view(self.premises@), conclusion: self.conclusion@ }
    }
}

/// The models of a list of axioms.
pub open spec fn axioms_view(axs: Seq<Axiom>) -> Seq<AxiomV> {
    Seq::new(axs.len(), |i: int| axs[i]@)
}

impl Axiom {
    /// A rule named `name`.
    pub fn new(name: &str, premises: Vec<Formula>, conclusion: Formula) -> (a: Self)
        ensures
            a.name@ == name@,
            a.premises == premises,
            a.conclusion == conclusion,
    {
        Axiom { name: String::from_str(name), premises, conclusion }
    }
}

// ---------------------------------------------------------------------------
// Proof search
// ---------------------------------------------------------------------------

/// The rule `a` justifies the step `s`: its conclusion matches the goal,
/// and the sub-proofs prove its premises under the bindings of that match,
/// in order.
pub open spec fn justifies(a: AxiomV, s: StepV) -> bool {
    match match_formula(a.conclusion, s.goal) {
        Some(b) => s.subs.len() == a.premises.len() && forall|j: int|
            0 <= j < s.subs.len() ==> #[trigger] s.subs[j].goal == formula_subst(a.premises[j], b),
        None => false,
    }
}

/// Every step of the tree is justified by an ax of its rule's name.
pub open spec fn valid(s: StepV, axioms: Seq<AxiomV>) -> bool
    decreases s, 1nat,
{
    (exists|k: int| 0 <= k < axioms.len() && #[trigger] axioms[k].name == s.rule && justifies(axioms[k], s))
        && all_valid(s.subs, axioms)
}

/// Every tree of the list is valid.
pub open spec fn all_valid(ss: Seq<StepV>, axioms: Seq<AxiomV>) -> bool
    decreases ss, 0nat,
{
    if ss.len() == 0 {
        true
    } else {
        all_valid(ss.drop_last(), axioms) && valid(ss.last(), axioms)
    }
}

proof fn lemma_all_valid_intro(ss: Seq<StepV>, axioms: Seq<AxiomV>)
    requires
        forall|i: int| 0 <= i < ss.len() ==> valid(#[trigger] ss[i], axioms),
    ensures
        all_valid(ss, axioms),
    decreases ss.len(),
{
    if ss.len() > 0 {
        assert forall|i: int| 0 <= i < ss.drop_last().len() implies valid(#[trigger] ss.drop_last()[i], axioms) by {
            assert(ss.drop_last()[i] == ss[i]);
        }
        lemma_all_valid_intro(ss.drop_last(), axioms);
        assert(valid(ss[ss.len() - 1], axioms));
    }
}

/// The proof that the depth-first search finds for `goal` at `depth`:
/// nothing beyond depth 10; otherwise the first axiom, in order, whose
/// conclusion matches the goal and all of whose premises (under the
/// bindings of the match) have a proof one level deeper.
pub open spec fn first_proof(goal: FormulaV, axs: Seq<AxiomV>, depth: nat) -> Option<StepV>
    decreases 11 - depth, 2nat, 0nat,
{
    if depth > 10 {
        None
    } else {
        try_axioms(goal, axs, 0, depth)
    }
}

/// The first proof of `goal` by one of the axioms from index `i` on.
pub open spec fn try_axioms(goal: FormulaV, axs: Seq<AxiomV>, i: nat, depth: nat) -> Option<StepV>
    decreases 11 - depth, 1nat, axs.len() - i,
{
    if depth > 10 || i >= axs.len() {
        None
    } else {
        match match_formula(axs[i as int].conclusion, goal) {
            Some(b) => match prove_all(
                axs[i as int].premises.map_values(|p: FormulaV| formula_subst(p, b)),
                axs,
                depth,
            ) {
                Some(subs) => Some(StepV { goal, rule: axs[i as int].name, subs }),
                None => try_axioms(goal, axs, i + 1, depth),
            },
            None => try_axioms(goal, axs, i + 1, depth),
        }
    }
}

/// The first proofs of each of `ps` one level below `depth`, if every one
/// has a proof.
pub open spec fn prove_all(ps: Seq<FormulaV>, axs: Seq<AxiomV>, depth: nat) -> Option<Seq<StepV>>
    decreases 11 - depth, 0nat, ps.len(),
{
    if depth > 10 {
        None
    } else if ps.len() == 0 {
        Some(Seq::empty())
    } else {
        match first_proof(ps[0], axs, depth + 1) {
            None => None,
            Some(p) => match prove_all(ps.drop_first(), axs, depth) {
                None => None,
                Some(rest) => Some(seq![p] + rest),
            },
        }
    }
}

/// The models of a list of proof steps.
pub open spec fn proofs_view(ss: Seq<ProofStep>) -> Seq<StepV> {
    Seq::new(ss.len(), |m: int| ss[m]@)
}

/// `pre` followed by the proofs of `r`, if there are any.
pub open spec fn prepend_proofs(pre: Seq<StepV>, r: Option<Seq<StepV>>) -> Option<Seq<StepV>> {
    match r {
        Some(rest) => Some(pre + rest),
        None => None,
    }
}

/// Depth-first backward chaining: try the axioms in order; the first whose
/// conclusion matches the goal and all of whose premises (under the
/// bindings of the match) can be proved gives the proof.  Gives up beyond
/// depth 10.
pub fn prove(goal: &Formula, axioms: &[Axiom], depth: u32) -> (r: Option<ProofStep>)
    ensures
        depth > 10 ==> r is None,
        match r {
            Some(p) => first_proof(goal@, axioms_view(axioms@), depth as nat) == Some(p@) && p@.goal == goal@
                && valid(p@, axioms_view(axioms@)),
            None => first_proof(goal@, axioms_view(axioms@), depth as nat) is None && no_tree_within(
                goal@,
                axioms_view(axioms@),
                11 - depth,
            ),
        },
    decreases 11 - depth,
{
    if depth > 10 {
        proof {
            assert forall|s: StepV| #[trigger] valid(s, axioms_view(axioms@)) && s.goal == goal@ implies height(
                s,
            ) > 11 - depth by {}
        }
        return None;
    }
    let ghost axs = axioms_view(axioms@);
    let mut i: usize = 0;
    while i < axioms.len()
        invariant
            i <= axioms@.len(),
            depth <= 10,
            axs == axioms_view(axioms@),
            first_proof(goal@, axs, depth as nat) == try_axioms(goal@, axs, i as nat, depth as nat),
            forall|k: int, s: StepV|
                0 <= k < i && #[trigger] justifies(axs[k], s) && s.goal == goal@ && all_valid(s.subs, axs)
                    ==> height(s) > 11 - depth,
        decreases axioms@.len() - i,
    {
        let ax = &axioms[i];
        proof {
            assert(axs[i as int] == ax@);
        }
        match ax.conclusion.unify(goal) {
            Some(bindings) => {
                let ghost bv = bview(bindings@);
                let mut required_premises: Vec<Formula> = Vec::new();
                let mut j: usize = 0;
                while j < ax.premises.len()
                    invariant
                        j <= ax.premises@.len(),
                        required_premises@.len() == j,
                        bv == bview(bindings@),
                        forall|k: int| 0 <= k < j ==> #[trigger] required_premises@[k]@
                            == formula_subst(ax.premises@[k]@, bv),
                    decreases ax.premises@.len() - j,
                {
                    required_premises.push(ax.premises[j].substitute(&bindings));
                    j = j + 1;
                }
                let mut sub_proofs: Vec<ProofStep> = Vec::new();
                let mut all_premises_proven = true;
                let ghost mut failed: int = 0;
                let ghost reqv = formulas_view(required_premises@);
                proof {
                    assert(reqv =~= axs[i as int].premises.map_values(|p: FormulaV| formula_subst(p, bv)));
                    assert(reqv.skip(0) =~= reqv);
                    assert(proofs_view(sub_proofs@) =~= Seq::<StepV>::empty());
                    assert(prepend_proofs(Seq::empty(), prove_all(reqv, axs, depth as nat)) == prove_all(
                        reqv,
                        axs,
                        depth as nat,
                    )) by {
                        match prove_all(reqv, axs, depth as nat) {
                            Some(rest) => {
                                assert(Seq::<StepV>::empty() + rest =~= rest);
                            },
                            None => {},
                        }
                    }
                }
                let mut k: usize = 0;
                while k < required_premises.len()
                    invariant
                        k <= required_premises@.len(),
                        depth <= 10,
                        axs == axioms_view(axioms@),
                        reqv == formulas_view(required_premises@),
                        all_premises_proven ==> prove_all(reqv, axs, depth as nat) == prepend_proofs(
                            proofs_view(sub_proofs@),
                            prove_all(reqv.skip(k as int), axs, depth as nat),
                        ),
                        !all_premises_proven ==> prove_all(reqv, axs, depth as nat) is None,
                        !all_premises_proven ==> 0 <= failed < required_premises@.len() && no_tree_within(
                            required_premises@[failed]@,
                            axs,
                            10 - depth,
                        ),
                        all_premises_proven ==> sub_proofs@.len() == k,
                        all_premises_proven ==> forall|m: int| 0 <= m < k ==> (#[trigger] sub_proofs@[m])@.goal
                            == required_premises@[m]@ && valid(sub_proofs@[m]@, axs),
                    ensures
                        all_premises_proven ==> prove_all(reqv, axs, depth as nat) == Some(proofs_view(sub_proofs@)),
                        !all_premises_proven ==> prove_all(reqv, axs, depth as nat) is None,
                        !all_premises_proven ==> 0 <= failed < required_premises@.len() && no_tree_within(
                            required_premises@[failed]@,
                            axs,
                            10 - depth,
                        ),
                        all_premises_proven ==> sub_proofs@.len() == required_premises@.len(),
                        all_premises_proven ==> forall|m: int| 0 <= m < required_premises@.len() ==> (#[trigger] sub_proofs@[m])@.goal
                            == required_premises@[m]@ && valid(sub_proofs@[m]@, axs),
                    decreases required_premises@.len() - k,
                {
                    let ghost sk = reqv.skip(k as int);
                    let ghost before = proofs_view(sub_proofs@);
                    proof {
                        assert(sk[0] == reqv[k as int]);
                        assert(sk.drop_first() =~= reqv.skip(k + 1));
                    }
                    match prove(&required_premises[k], axioms, depth + 1) {
                        Some(proof) => {
                            let ghost pv = proof@;
                            sub_proofs.push(proof);
                            proof {
                                assert(proofs_view(sub_proofs@) =~= before.push(pv));
                                match prove_all(reqv.skip(k + 1), axs, depth as nat) {
                                    Some(rest) => {
                                        assert(before + (seq![pv] + rest) =~= before.push(pv) + rest);
                                    },
                                    None => {},
                                }
                            }
                        },
                        None => {
                            all_premises_proven = false;
                            proof {
                                failed = k as int;
                            }
                            break;
                        },
                    }
                    k = k + 1;
                }
                proof {
                    if all_premises_proven {
                        assert(reqv.skip(required_premises@.len() as int) =~= Seq::<FormulaV>::empty());
                        assert(proofs_view(sub_proofs@) + Seq::<StepV>::empty() =~= proofs_view(sub_proofs@));
                    }
                }
                if all_premises_proven {
                    let ghost sv = proofs_view(sub_proofs@);
                    let r = ProofStep::new(goal.duplicate(), ax.name.as_str(), sub_proofs);
                    proof {
                        assert(r@.subs =~= sv);
                        assert(r@ == StepV { goal: goal@, rule: axs[i as int].name, subs: sv });
                        let s = r@;
                        assert(s.subs.len() == sub_proofs@.len());
                        assert forall|m: int| 0 <= m < s.subs.len() implies valid(#[trigger] s.subs[m], axs) by {
                            assert(s.subs[m] == sub_proofs@[m]@);
                            assert(valid(sub_proofs@[m]@, axs));
                        }
                        lemma_all_valid_intro(s.subs, axs);
                        assert forall|m: int| 0 <= m < s.subs.len() implies #[trigger] s.subs[m].goal
                            == formula_subst(axs[i as int].premises[m], bv) by {
                            assert(s.subs[m] == sub_proofs@[m]@);
                            assert(required_premises@[m]@ == formula_subst(ax.premises@[m]@, bv));
                        }
                        assert(axs[i as int].name == s.rule);
                        assert(justifies(axs[i as int], s));
                    }
                    return Some(r);
                }
                proof {
                    assert forall|s: StepV|
                        #[trigger] justifies(axs[i as int], s) && s.goal == goal@ && all_valid(s.subs, axs)
                            implies height(s) > 11 - depth by {
                        assert(match_formula(axs[i as int].conclusion, goal@) == Some(bv));
                        assert(s.subs[failed].goal == formula_subst(axs[i as int].premises[failed], bv));
                        assert(s.subs[failed].goal == required_premises@[failed]@);
                        lemma_all_valid_elim(s.subs, axs, failed);
                        lemma_height_sub(s, failed);
                    }
                }
            },
            None => {
                proof {
                    assert forall|s: StepV| #[trigger] justifies(axs[i as int], s) && s.goal == goal@ implies false by {}
                }
            },
        }
        i = i + 1;
    }
    proof {
        assert forall|s: StepV| #[trigger] valid(s, axs) && s.goal == goal@ implies height(s) > 11 - depth by {
            let k = choose|k: int| 0 <= k < axs.len() && #[trigger] axs[k].name == s.rule && justifies(axs[k], s);
            assert(justifies(axs[k], s));
        }
    }
    None
}

/// No valid proof tree of `goal` is at most `h` high.
pub open spec fn no_tree_within(goal: FormulaV, axioms: Seq<AxiomV>, h: int) -> bool {
    forall|s: StepV| #[trigger] valid(s, axioms) && s.goal == goal ==> height(s) > h
}

proof fn lemma_all_valid_elim(ss: Seq<StepV>, axioms: Seq<AxiomV>, j: int)
    requires
        all_valid(ss, axioms),
        0 <= j < ss.len(),
    ensures
        valid(ss[j], axioms),
    decreases ss.len(),
{
    if j < ss.len() - 1 {
        lemma_all_valid_elim(ss.drop_last(), axioms, j);
        assert(ss.drop_last()[j] == ss[j]);
    }
}

proof fn lemma_height_sub(s: StepV, j: int)
    requires
        0 <= j < s.subs.len(),
    ensures
        height(s) >= 1 + height(s.subs[j]),
{
    lemma_max_height_bounds(s.subs, j);
}

// ---------------------------------------------------------------------------
// Proof display
// ---------------------------------------------------------------------------

/// `n` spaces.
pub open spec fn spaces(n: nat) -> Seq<char> {
    Seq::new(n, |i: int| ' ')
}

/// The height of a proof tree.
pub open spec fn height(s: StepV) -> nat
    decreases s, 1nat,
{
    1 + max_height(s.subs)
}

/// The greatest height of the trees of a list.
pub open spec fn max_height(ss: Seq<StepV>) -> nat
    decreases ss, 0nat,
{
    if ss.len() == 0 {
        0
    } else {
        let a = max_height(ss.drop_last());
        let b = height(ss.last());
        if a >= b {
            a
        } else {
            b
        }
    }
}

/// The lines that show a proof tree indented by `depth`: a leaf is a fact
/// (`• Fact: G (By R)`); an inner step names its goal and rule, followed by
/// its sub-proofs one level deeper.
pub open spec fn proof_text(s: StepV, depth: nat) -> Seq<Seq<char>>
    decreases s, 1nat,
{
    if s.subs.len() == 0 {
        seq![spaces(depth) + seq!['•', ' ', 'F', 'a', 'c', 't', ':', ' '] + formula_text(s.goal)
            + seq![' ', '(', 'B', 'y', ' '] + s.rule + seq![')']]
    } else {
        seq![
            spaces(depth) + seq!['•', ' ', 'P', 'r', 'o', 'v', 'e', ':', ' '] + formula_text(s.goal),
            spaces(depth) + seq![' ', ' ', 'S', 't', 'r', 'a', 't', 'e', 'g', 'y', ':', ' ', 'A', 'p', 'p', 'l', 'y', ' '] + s.rule,
        ] + subs_text(s.subs, depth + 1)
    }
}

/// The lines of each tree of a list, in order.
pub open spec fn subs_text(ss: Seq<StepV>, depth: nat) -> Seq<Seq<char>>
    decreases ss, 0nat,
{
    if ss.len() == 0 {
        Seq::empty()
    } else {
        subs_text(ss.drop_last(), depth) + proof_text(ss.last(), depth)
    }
}

fn indent(depth: usize) -> (s: String)
    ensures
        s@ == spaces(depth as nat),
{
    let mut s = String::new();
    let mut i: usize = 0;
    while i < depth
        invariant
            i <= depth,
            s@ == spaces(i as nat),
        decreases depth - i,
    {
        proof {
            reveal_strlit(" ");
        }
        s.append(" ");
        proof {
            assert(s@ =~= spaces((i + 1) as nat));
        }
        i = i + 1;
    }
    s
}

proof fn lemma_max_height_bounds(ss: Seq<StepV>, i: int)
    requires
        0 <= i < ss.len(),
    ensures
        height(ss[i]) <= max_height(ss),
    decreases ss.len(),
{
    if i < ss.len() - 1 {
        lemma_max_height_bounds(ss.drop_last(), i);
        assert(ss.drop_last()[i] == ss[i]);
    }
}

/// The lines that show `step`, indented by `depth` spaces.
pub fn proof_lines(step: &ProofStep, depth: usize) -> (lines: Vec<String>)
    requires
        depth + height(step@) <= usize::MAX,
    ensures
        strings_view(lines@) == proof_text(step@, depth as nat),
    decreases step,
{
    let pad = indent(depth);
    let goal = step.goal.to_string();
    let mut lines: Vec<String> = Vec::new();
    proof {
        reveal_strlit("• Fact: ");
        reveal_strlit(" (By ");
        reveal_strlit(")");
        reveal_strlit("• Prove: ");
        reveal_strlit("  Strategy: Apply ");
        assert("• Fact: "@ =~= seq!['•', ' ', 'F', 'a', 'c', 't', ':', ' ']);
        assert(" (By "@ =~= seq![' ', '(', 'B', 'y', ' ']);
        assert(")"@ =~= seq![')']);
        assert("• Prove: "@ =~= seq!['•', ' ', 'P', 'r', 'o', 'v', 'e', ':', ' ']);
        assert("  Strategy: Apply "@ =~= seq![' ', ' ', 'S', 't', 'r', 'a', 't', 'e', 'g', 'y', ':', ' ', 'A', 'p', 'p', 'l', 'y', ' ']);
    }
    if step.sub_proofs.len() == 0 {
        let mut l = pad.clone();
        l.append("• Fact: ");
        l.append(goal.as_str());
        l.append(" (By ");
        l.append(step.rule_name.as_str());
        l.append(")");
        lines.push(l);
        proof {
            assert(strings_view(lines@) =~= proof_text(step@, depth as nat));
        }
    } else {
        let mut l1 = pad.clone();
        l1.append("• Prove: ");
        l1.append(goal.as_str());
        let mut l2 = pad.clone();
        l2.append("  Strategy: Apply ");
        l2.append(step.rule_name.as_str());
        lines.push(l1);
        lines.push(l2);
        let ghost head = strings_view(lines@);
        let ghost subs = step@.subs;
        let mut i: usize = 0;
        proof {
            assert(subs.take(0) =~= Seq::<StepV>::empty());
            assert(strings_view(lines@) =~= head + subs_text(subs.take(0), (depth + 1) as nat));
        }
        while i < step.sub_proofs.len()
            invariant
                i <= step.sub_proofs@.len(),
                subs == step@.subs,
                subs.len() == step.sub_proofs@.len(),
                depth + height(step@) <= usize::MAX,
                strings_view(lines@) == head + subs_text(subs.take(i as int), (depth + 1) as nat),
            decreases step.sub_proofs@.len() - i,
        {
            proof {
                assert(decreases_to!(*step => step.sub_proofs));
                assert(subs[i as int] == step.sub_proofs@[i as int]@);
                lemma_max_height_bounds(subs, i as int);
            }
            let more = proof_lines(&step.sub_proofs[i], depth + 1);
            let ghost before = strings_view(lines@);
            let mut j: usize = 0;
            while j < more.len()
                invariant
                    j <= more@.len(),
                    strings_view(lines@) == before + strings_view(more@).take(j as int),
                decreases more@.len() - j,
            {
                let ghost prev = strings_view(lines@);
                lines.push(more[j].clone());
                proof {
                    assert(strings_view(lines@) =~= prev.push(more@[j as int]@));
                    assert(strings_view(more@).take(j + 1) =~= strings_view(more@).take(j as int).push(more@[j as int]@));
                    assert(strings_view(lines@) =~= before + strings_view(more@).take(j + 1));
                }
                j = j + 1;
            }
            proof {
                assert(strings_view(more@).take(more@.len() as int) =~= strings_view(more@));
                assert(subs.take(i + 1).drop_last() =~= subs.take(i as int));
                assert(strings_view(lines@) =~= head + subs_text(subs.take(i + 1), (depth + 1) as nat));
            }
            i = i + 1;
        }
        proof {
            assert(subs.take(subs.len() as int) =~= subs);
            assert(strings_view(lines@) =~= proof_text(step@, depth as nat));
        }
    }
    lines
}


// ---------------------------------------------------------------------------
// Matching instantiates the pattern
// ---------------------------------------------------------------------------

/// A term without variables.
pub open spec fn ground(t: TermV) -> bool
    decreases t, 0int,
{
    match t {
        TermV::Var(_) => false,
        TermV::Const(_) => true,
        TermV::Apply(_, args) => ground_from(args, 0),
    }
}

/// `ts[i..]` has no variables.
pub open spec fn ground_from(ts: Seq<TermV>, i: int) -> bool
    decreases ts, ts.len() - i,
{
    if i < 0 || i >= ts.len() {
        true
    } else {
        ground(ts[i]) && ground_from(ts, i + 1)
    }
}

/// A formula without variables.
pub open spec fn formula_ground(f: FormulaV) -> bool {
    match f {
        FormulaV::Eq(l, r) => ground(l) && ground(r),
        FormulaV::Pred(_, args) => ground_from(args, 0),
    }
}

/// Every variable of `t` is bound in `b`.
pub open spec fn covered(t: TermV, b: BindingsV) -> bool
    decreases t, 0int,
{
    match t {
        TermV::Var(n) => b.contains_key(n),
        TermV::Const(_) => true,
        TermV::Apply(_, args) => covered_from(args, 0, b),
    }
}

/// Every variable of `ts[i..]` is bound in `b`.
pub open spec fn covered_from(ts: Seq<TermV>, i: int, b: BindingsV) -> bool
    decreases ts, ts.len() - i,
{
    if i < 0 || i >= ts.len() {
        true
    } else {
        covered(ts[i], b) && covered_from(ts, i + 1, b)
    }
}

/// Growing the bindings does not change the substitution into a term all of
/// whose variables were bound already.
proof fn lemma_extend(t: TermV, b1: BindingsV, b2: BindingsV)
    requires
        covered(t, b1),
        b1.submap_of(b2),
    ensures
        covered(t, b2),
        subst(t, b2) == subst(t, b1),
    decreases t, 0int,
{
    match t {
        TermV::Var(n) => {
            assert(b2.contains_key(n));
        },
        TermV::Const(_) => {},
        TermV::Apply(f, args) => {
            lemma_extend_from(args, 0, b1, b2);
            assert forall|j: int| 0 <= j < args.len() implies subst(t, b2)->Apply_1[j] == subst(t, b1)->Apply_1[j] by {
                assert(subst(args[j], b2) == subst(args[j], b1));
            }
            assert(subst(t, b2)->Apply_1 =~= subst(t, b1)->Apply_1);
        },
    }
}

proof fn lemma_extend_from(ts: Seq<TermV>, i: int, b1: BindingsV, b2: BindingsV)
    requires
        0 <= i <= ts.len(),
        covered_from(ts, i, b1),
        b1.submap_of(b2),
    ensures
        covered_from(ts, i, b2),
        forall|j: int| i <= j < ts.len() ==> #[trigger] subst(ts[j], b2) == subst(ts[j], b1),
    decreases ts, ts.len() - i,
{
    if i < ts.len() {
        lemma_extend(ts[i], b1, b2);
        lemma_extend_from(ts, i + 1, b1, b2);
    }
}

/// A successful match of `p` against a term without variables only adds
/// bindings, binds every variable of `p`, and instantiates `p` to `t`.
proof fn lemma_match_term(p: TermV, t: TermV, b: BindingsV)
    requires
        ground(t),
        match_term(p, t, b).0,
    ensures
        b.submap_of(match_term(p, t, b).1),
        covered(p, match_term(p, t, b).1),
        subst(p, match_term(p, t, b).1) == t,
    decreases p, 0int,
{
    match p {
        TermV::Var(n) => {},
        TermV::Const(_) => {},
        TermV::Apply(f1, a1) => {
            let a2 = t->Apply_1;
            lemma_match_args(a1, a2, 0, b);
            let b2 = match_term(p, t, b).1;
            assert forall|j: int| 0 <= j < a2.len() implies subst(p, b2)->Apply_1[j] == a2[j] by {
                assert(subst(a1[j], b2) == a2[j]);
            }
            assert(subst(p, b2)->Apply_1 =~= a2);
        },
    }
}

proof fn lemma_match_args(ps: Seq<TermV>, ts: Seq<TermV>, i: int, b: BindingsV)
    requires
        ps.len() == ts.len(),
        0 <= i <= ps.len(),
        ground_from(ts, i),
        match_args(ps, ts, i, b).0,
    ensures
        b.submap_of(match_args(ps, ts, i, b).1),
        covered_from(ps, i, match_args(ps, ts, i, b).1),
        forall|j: int| i <= j < ps.len() ==> #[trigger] subst(ps[j], match_args(ps, ts, i, b).1) == ts[j],
    decreases ps, ps.len() - i,
{
    if i < ps.len() {
        let b1 = match_term(ps[i], ts[i], b).1;
        lemma_match_term(ps[i], ts[i], b);
        lemma_match_args(ps, ts, i + 1, b1);
        let b2 = match_args(ps, ts, i, b).1;
        lemma_extend(ps[i], b1, b2);
        assert(b.submap_of(b1));
        assert(b1.submap_of(b2));
        vstd::map_lib::lemma_submap_of_trans(b, b1, b2);
    } else {
        assert(b.submap_of(match_args(ps, ts, i, b).1));
    }
}

/// Matching a pattern against a goal without variables: when it succeeds,
/// substituting its bindings into the pattern gives back exactly the goal.
pub proof fn lemma_unify_instantiates(pattern: FormulaV, goal: FormulaV)
    requires
        formula_ground(goal),
        match_formula(pattern, goal) is Some,
    ensures
        formula_subst(pattern, match_formula(pattern, goal)->Some_0) == goal,
{
    match (pattern, goal) {
        (FormulaV::Eq(l1, r1), FormulaV::Eq(l2, r2)) => {
            let b1 = match_term(l1, l2, Map::empty()).1;
            lemma_match_term(l1, l2, Map::empty());
            lemma_match_term(r1, r2, b1);
            let b2 = match_term(r1, r2, b1).1;
            lemma_extend(l1, b1, b2);
        },
        (FormulaV::Pred(n1, a1), FormulaV::Pred(n2, a2)) => {
            lemma_match_args(a1, a2, 0, Map::empty());
            let b = match_args(a1, a2, 0, Map::empty()).1;
            assert forall|j: int| 0 <= j < a2.len() implies substs(a1, b)[j] == a2[j] by {
                assert(subst(a1[j], b) == a2[j]);
            }
            assert(substs(a1, b) =~= a2);
        },
        _ => {},
    }
}

} // verus!
