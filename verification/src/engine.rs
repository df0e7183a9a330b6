use vstd::prelude::*;

use crate::ast::{
    duplicate_terms, formulas_view, object_name, terms_view_of, Formula, FormulaV, Sort, Term,
    TermV,
};
use crate::name_map::{keys_distinct, NameMap};
use crate::text::{decimal, lemma_decimal_injective, push_decimal, strings_view};

verus! {

// ---------------------------------------------------------------------------
// Bindings
// ---------------------------------------------------------------------------

/// Variable substitutions: variable name → term.
pub type Bindings = NameMap<Term>;

/// Bindings as a mathematical map.
pub type BindingsV = Map<Seq<char>, TermV>;

/// The model of a set of bindings.
pub open spec fn bview(b: Map<Seq<char>, Term>) -> BindingsV {
    b.map_values(|t: Term| t@)
}

/// A copy of a set of bindings.
pub fn copy_bindings(b: &Bindings) -> (r: Bindings)
    ensures
        bview(r@) == bview(b@),
        r@.dom() == b@.dom(),
{
    let n = b.len();
    let mut r: Bindings = NameMap::new();
    let mut i: usize = 0;
    while i < n
        invariant
            n == b.spec_entries().len(),
            i <= n,
            keys_distinct(b.spec_entries()),
            forall|k: Seq<char>| #[trigger]
                r@.contains_key(k) <==> exists|j: int| 0 <= j < i && b.spec_entries()[j].0@ == k,
            forall|j: int|
                0 <= j < i ==> #[trigger] r@[b.spec_entries()[j].0@]@ == b.spec_entries()[j].1@,
        decreases n - i,
    {
        let k = b.key_at(i).clone();
        let v = b.value_at(i).duplicate();
        r.insert(k, v);
        proof {
            assert forall|k2: Seq<char>| #[trigger]
                r@.contains_key(k2) implies exists|j: int| 0 <= j < i + 1 && b.spec_entries()[j].0@ == k2 by {
                if k2 != b.spec_entries()[i as int].0@ {
                    let j = choose|j: int| 0 <= j < i && b.spec_entries()[j].0@ == k2;
                    assert(0 <= j < i + 1 && b.spec_entries()[j].0@ == k2);
                }
            }
        }
        i = i + 1;
    }
    proof {
        assert(r@.dom() =~= b@.dom());
        assert forall|k: Seq<char>| #[trigger] b@.contains_key(k) implies bview(r@)[k] == bview(b@)[k] by {
            let j = choose|j: int| 0 <= j < n && b.spec_entries()[j].0@ == k;
            assert(r@[b.spec_entries()[j].0@]@ == b.spec_entries()[j].1@);
        }
        assert(bview(r@) =~= bview(b@));
    }
    r
}

// ---------------------------------------------------------------------------
// Resolution and substitution (mathematical definitions)
// ---------------------------------------------------------------------------

/// One step along a variable's binding chain: a variable bound to a term
/// other than itself steps to that term.
pub open spec fn chain_step(t: TermV, b: BindingsV) -> Option<TermV> {
    match t {
        TermV::Var(n, _) => if b.contains_key(n) && b[n] != t {
            Some(b[n])
        } else {
            None
        },
        _ => None,
    }
}

/// Follow the binding chain from `t` for at most `fuel` steps.
pub open spec fn chain(t: TermV, b: BindingsV, fuel: nat) -> TermV
    decreases fuel,
{
    if fuel == 0 {
        t
    } else {
        match chain_step(t, b) {
            Some(u) => chain(u, b, (fuel - 1) as nat),
            None => t,
        }
    }
}

/// The end of the binding chain of `t`.  A chain that visits no variable
/// twice takes at most as many steps as there are bindings, so this is the
/// end of every chain that ends.
pub open spec fn resolve_spec(t: TermV, b: BindingsV) -> TermV {
    chain(t, b, b.len())
}

/// Apply bindings to a term, following each variable's chain, for at most
/// `fuel` chain steps along any path into the term.
pub open spec fn subst(t: TermV, b: BindingsV, fuel: nat) -> TermV
    decreases fuel, t,
{
    match chain_step(t, b) {
        Some(u) => if fuel == 0 {
            t
        } else {
            subst(u, b, (fuel - 1) as nat)
        },
        None => match t {
            TermV::Apply(f, args) => TermV::Apply(
                f,
                Seq::new(
                    args.len(),
                    |i: int|
                        if 0 <= i < args.len() {
                            subst(args[i], b, fuel)
                        } else {
                            TermV::Const(Seq::empty())
                        },
                ),
            ),
            _ => t,
        },
    }
}

/// Apply bindings to a term.  Along a path that visits no bound variable
/// twice there are at most as many chain steps as bindings, so this is the
/// full substitution whenever that one is finite.
pub open spec fn term_subst(t: TermV, b: BindingsV) -> TermV {
    subst(t, b, b.len())
}

/// Apply bindings to each term of a list.
pub open spec fn terms_subst(ts: Seq<TermV>, b: BindingsV) -> Seq<TermV> {
    ts.map_values(|t: TermV| term_subst(t, b))
}

/// Apply bindings to a formula; inside `∃ v, body` the variable `v` is
/// local, so its binding is not applied to the body.
pub open spec fn formula_subst(f: FormulaV, b: BindingsV) -> FormulaV
    decreases f,
{
    match f {
        FormulaV::Eq(l, r) => FormulaV::Eq(term_subst(l, b), term_subst(r, b)),
        FormulaV::Pred(n, args) => FormulaV::Pred(n, terms_subst(args, b)),
        FormulaV::And(l, r) => FormulaV::And(
            Box::new(formula_subst(*l, b)),
            Box::new(formula_subst(*r, b)),
        ),
        FormulaV::Or(l, r) => FormulaV::Or(
            Box::new(formula_subst(*l, b)),
            Box::new(formula_subst(*r, b)),
        ),
        FormulaV::Not(i) => FormulaV::Not(Box::new(formula_subst(*i, b))),
        FormulaV::Implies(l, r) => FormulaV::Implies(
            Box::new(formula_subst(*l, b)),
            Box::new(formula_subst(*r, b)),
        ),
        FormulaV::Exists(v, s, body) => FormulaV::Exists(
            v,
            s,
            Box::new(formula_subst(*body, b.remove(v))),
        ),
    }
}

/// The sort of a term: a variable's declared sort, `Object` otherwise.
pub open spec fn term_sort(t: TermV) -> Seq<char> {
    match t {
        TermV::Var(_, s) => s,
        _ => object_name(),
    }
}

// ---------------------------------------------------------------------------
// Resolution and substitution (code)
// ---------------------------------------------------------------------------

fn subst_fuel(t: &Term, b: &Bindings, fuel: usize) -> (r: Term)
    ensures
        r@ == subst(t@, bview(b@), fuel as nat),
    decreases fuel, t,
{
    match t {
        Term::Var(n, _) => {
            match b.get(n) {
                Some(u) => {
                    proof {
                        assert(bview(b@).contains_key(n@));
                        assert(bview(b@)[n@] == u@);
                    }
                    if !u.same(t) {
                        assert(chain_step(t@, bview(b@)) == Some(u@));
                        if fuel == 0 {
                            let r = t.duplicate();
                            assert(r@ == subst(t@, bview(b@), fuel as nat));
                            r
                        } else {
                            let r = subst_fuel(u, b, fuel - 1);
                            assert(r@ == subst(t@, bview(b@), fuel as nat));
                            r
                        }
                    } else {
                        assert(chain_step(t@, bview(b@)) is None);
                        let r = t.duplicate();
                        assert(r@ == subst(t@, bview(b@), fuel as nat));
                        r
                    }
                },
                None => {
                    assert(!bview(b@).contains_key(n@));
                    assert(chain_step(t@, bview(b@)) is None);
                    let r = t.duplicate();
                    assert(r@ == subst(t@, bview(b@), fuel as nat));
                    r
                },
            }
        },
        Term::Const(_) => {
            let r = t.duplicate();
            assert(chain_step(t@, bview(b@)) is None);
            assert(r@ == subst(t@, bview(b@), fuel as nat));
            r
        },
        Term::Apply(f, args) => {
            let ghost bv = bview(b@);
            let ghost vs = terms_view_of(*args);
            let mut out: Vec<Term> = Vec::new();
            let mut i: usize = 0;
            while i < args.len()
                invariant
                    i <= args@.len(),
                    out@.len() == i,
                    *t == Term::Apply(*f, *args),
                    bv == bview(b@),
                    vs == terms_view_of(*args),
                    forall|j: int| 0 <= j < i ==> #[trigger] out@[j]@ == subst(vs[j], bv, fuel as nat),
                decreases args@.len() - i,
            {
                proof {
                    assert(decreases_to!(*t => t->Apply_1));
                }
                let a = subst_fuel(&args[i], b, fuel);
                out.push(a);
                i = i + 1;
            }
            let r = Term::Apply(f.clone(), out);
            proof {
                assert forall|j: int| 0 <= j < vs.len() implies terms_view_of(out)[j] == subst(vs[j], bv, fuel as nat) by {
                    assert(out@[j]@ == subst(vs[j], bv, fuel as nat));
                }
                let st = subst(t@, bv, fuel as nat);
                assert(t@ == TermV::Apply(f@, vs));
                assert(chain_step(t@, bv) is None);
                assert(st is Apply);
                assert(st->Apply_1.len() == vs.len());
                assert(terms_view_of(out) =~= st->Apply_1);
            }
            r
        },
    }
}

impl Term {
    /// Apply `bindings`, following each variable's chain to its ultimate
    /// target (so a chain `x → y → f(…)` gives `f(…)`, not `y`).
    pub fn substitute(&self, bindings: &Bindings) -> (r: Term)
        ensures
            r@ == term_subst(self@, bview(bindings@)),
    {
        let n = bindings.len();
        proof {
            assert(bview(bindings@).dom() == bindings@.dom());
        }
        subst_fuel(self, bindings, n)
    }

    /// The sort of this term: a variable's declared sort, `Object` otherwise.
    pub fn sort(&self) -> (s: Sort)
        ensures
            s@ == term_sort(self@),
    {
        match self {
            Term::Var(_, s) => s.duplicate(),
            _ => Sort::object(),
        }
    }

    /// Walk the binding chain until we reach a non-variable or a variable
    /// that is unbound (or bound to itself).
    pub fn resolve<'a>(&'a self, bindings: &'a Bindings) -> (r: &'a Term)
        ensures
            r@ == resolve_spec(self@, bview(bindings@)),
    {
        let n = bindings.len();
        let ghost bv = bview(bindings@);
        proof {
            assert(bv.dom() == bindings@.dom());
        }
        let mut current: &'a Term = self;
        let mut hops: usize = 0;
        while hops < n
            invariant
                hops <= n,
                n == bv.len(),
                bv == bview(bindings@),
                chain(self@, bv, n as nat) == chain(current@, bv, (n - hops) as nat),
            decreases n - hops,
        {
            match current {
                Term::Var(name, _) => {
                    match bindings.get(name) {
                        Some(next) => {
                            if next.same(current) {
                                return current;
                            }
                            current = next;
                        },
                        None => {
                            return current;
                        },
                    }
                },
                _ => {
                    return current;
                },
            }
            hops = hops + 1;
        }
        current
    }
}

impl Formula {
    /// Apply `bindings` to every term of the formula.  Substitution respects
    /// the binder: inside `∃ v, body` the binding of `v` is not applied.
    pub fn substitute(&self, bindings: &Bindings) -> (r: Formula)
        ensures
            r@ == formula_subst(self@, bview(bindings@)),
        decreases self,
    {
        match self {
            Formula::Eq(l, r) => Formula::Eq(l.substitute(bindings), r.substitute(bindings)),
            Formula::Pred(n, args) => Formula::Pred(n.clone(), substitute_terms(args, bindings)),
            Formula::And(l, r) => Formula::And(
                Box::new(l.substitute(bindings)),
                Box::new(r.substitute(bindings)),
            ),
            Formula::Or(l, r) => Formula::Or(
                Box::new(l.substitute(bindings)),
                Box::new(r.substitute(bindings)),
            ),
            Formula::Not(i) => Formula::Not(Box::new(i.substitute(bindings))),
            Formula::Implies(l, r) => Formula::Implies(
                Box::new(l.substitute(bindings)),
                Box::new(r.substitute(bindings)),
            ),
            Formula::Exists { var, sort, body } => {
                let mut inner = copy_bindings(bindings);
                inner.remove(var);
                proof {
                    assert(bview(inner@) =~= bview(bindings@).remove(var@));
                }
                Formula::Exists {
                    var: var.clone(),
                    sort: sort.duplicate(),
                    body: Box::new(body.substitute(&inner)),
                }
            },
        }
    }
}

/// Apply bindings to each term of a list.
pub fn substitute_terms(args: &Vec<Term>, bindings: &Bindings) -> (r: Vec<Term>)
    ensures
        terms_view_of(r) == terms_subst(terms_view_of(*args), bview(bindings@)),
{
    let ghost vs = terms_view_of(*args);
    let mut out: Vec<Term> = Vec::new();
    let mut i: usize = 0;
    while i < args.len()
        invariant
            i <= args@.len(),
            out@.len() == i,
            vs == terms_view_of(*args),
            forall|j: int| 0 <= j < i ==> #[trigger] out@[j]@ == term_subst(vs[j], bview(bindings@)),
        decreases args@.len() - i,
    {
        out.push(args[i].substitute(bindings));
        i = i + 1;
    }
    assert forall|j: int| 0 <= j < vs.len() implies terms_view_of(out)[j] == term_subst(vs[j], bview(bindings@)) by {
        assert(out@[j]@ == term_subst(vs[j], bview(bindings@)));
    }
    assert(terms_view_of(out) =~= terms_subst(vs, bview(bindings@)));
    out
}


// ---------------------------------------------------------------------------
// Unification (mathematical definitions)
// ---------------------------------------------------------------------------

/// Bound on the nesting depth that unification descends through; no run can
/// nest function applications this deeply.
pub const UNIFY_DEPTH: u64 = 0xffff_ffff_ffff_ffffu64;

/// Two sorts are compatible when they are equal or one of them is `Object`.
pub open spec fn compatible(s1: Seq<char>, s2: Seq<char>) -> bool {
    s1 == s2 || s1 == object_name() || s2 == object_name()
}

/// Whether the variable named `n` occurs in `t`.
pub open spec fn var_occurs(n: Seq<char>, t: TermV) -> bool
    decreases t, 1nat,
{
    match t {
        TermV::Var(v, _) => v == n,
        TermV::Const(_) => false,
        TermV::Apply(_, args) => var_occurs_any(n, args),
    }
}

/// Whether the variable named `n` occurs in one of the terms.
pub open spec fn var_occurs_any(n: Seq<char>, ts: Seq<TermV>) -> bool
    decreases ts, 0nat,
{
    if ts.len() == 0 {
        false
    } else {
        var_occurs_any(n, ts.drop_last()) || var_occurs(n, ts.last())
    }
}

proof fn lemma_occurs_any_prefix(n: Seq<char>, ts: Seq<TermV>, k: int)
    requires
        0 <= k <= ts.len(),
        var_occurs_any(n, ts.take(k)),
    ensures
        var_occurs_any(n, ts),
    decreases ts.len() - k,
{
    if k < ts.len() {
        assert(ts.take(k + 1).drop_last() =~= ts.take(k));
        lemma_occurs_any_prefix(n, ts, k + 1);
    } else {
        assert(ts.take(k) =~= ts);
    }
}

/// Whether the variable named `n` occurs in `t` once the bindings are applied.
pub open spec fn occurs_spec(n: Seq<char>, t: TermV, b: BindingsV) -> bool {
    var_occurs(n, term_subst(t, b))
}

/// Binding the variable `n` of sort `s` to the term `val`: refused when `n`
/// occurs in `val` or the sorts are incompatible.
pub open spec fn bind_var(n: Seq<char>, s: Seq<char>, val: TermV, b: BindingsV) -> (bool, BindingsV) {
    if occurs_spec(n, val, b) {
        (false, b)
    } else if !compatible(s, term_sort(val)) {
        (false, b)
    } else {
        (true, b.insert(n, val))
    }
}

/// Unify two terms under bindings `b`: the outcome and the bindings after.
/// `fuel` bounds the nesting depth of applications descended through.
pub open spec fn unify_term_spec(t1: TermV, t2: TermV, b: BindingsV, fuel: nat) -> (bool, BindingsV)
    decreases fuel, 0nat, 0nat,
{
    let r1 = resolve_spec(t1, b);
    let r2 = resolve_spec(t2, b);
    match r1 {
        TermV::Var(n1, s1) => match r2 {
            TermV::Var(n2, s2) => if n1 == n2 {
                (true, b)
            } else if !compatible(s1, s2) {
                (false, b)
            } else {
                (true, b.insert(n1, TermV::Var(n2, s2)))
            },
            _ => bind_var(n1, s1, r2, b),
        },
        TermV::Const(c1) => match r2 {
            TermV::Var(n2, s2) => bind_var(n2, s2, r1, b),
            TermV::Const(c2) => (c1 == c2, b),
            _ => (false, b),
        },
        TermV::Apply(f1, a1) => match r2 {
            TermV::Var(n2, s2) => bind_var(n2, s2, r1, b),
            TermV::Apply(f2, a2) => if f1 == f2 && a1.len() == a2.len() {
                if fuel == 0 {
                    (false, b)
                } else {
                    unify_args(a1, a2, b, (fuel - 1) as nat)
                }
            } else {
                (false, b)
            },
            _ => (false, b),
        },
    }
}

/// Unify two lists of terms pairwise from the left, stopping at the first
/// failure; the bindings are threaded through.
pub open spec fn unify_args(a1: Seq<TermV>, a2: Seq<TermV>, b: BindingsV, fuel: nat) -> (bool, BindingsV)
    decreases fuel, 1nat, a1.len(),
{
    if a1.len() == 0 || a2.len() == 0 {
        (true, b)
    } else {
        let (ok, b1) = unify_term_spec(a1[0], a2[0], b, fuel);
        if !ok {
            (false, b1)
        } else {
            unify_args(a1.drop_first(), a2.drop_first(), b1, fuel)
        }
    }
}

/// Unify two formulas of the same shape under bindings `b`.
pub open spec fn formula_unify(f1: FormulaV, f2: FormulaV, b: BindingsV) -> (bool, BindingsV)
    decreases f1,
{
    match (f1, f2) {
        (FormulaV::Pred(n1, a1), FormulaV::Pred(n2, a2)) => if n1 == n2 && a1.len() == a2.len() {
            unify_args(a1, a2, b, UNIFY_DEPTH as nat)
        } else {
            (false, b)
        },
        (FormulaV::Eq(l1, r1), FormulaV::Eq(l2, r2)) => {
            let (ok, b1) = unify_term_spec(l1, l2, b, UNIFY_DEPTH as nat);
            if !ok {
                (false, b1)
            } else {
                unify_term_spec(r1, r2, b1, UNIFY_DEPTH as nat)
            }
        },
        (FormulaV::Not(i1), FormulaV::Not(i2)) => formula_unify(*i1, *i2, b),
        (FormulaV::Or(l1, r1), FormulaV::Or(l2, r2)) => {
            let (ok, b1) = formula_unify(*l1, *l2, b);
            if !ok {
                (false, b1)
            } else {
                formula_unify(*r1, *r2, b1)
            }
        },
        (FormulaV::And(l1, r1), FormulaV::And(l2, r2)) => {
            let (ok, b1) = formula_unify(*l1, *l2, b);
            if !ok {
                (false, b1)
            } else {
                formula_unify(*r1, *r2, b1)
            }
        },
        (FormulaV::Implies(l1, r1), FormulaV::Implies(l2, r2)) => {
            let (ok, b1) = formula_unify(*l1, *l2, b);
            if !ok {
                (false, b1)
            } else {
                formula_unify(*r1, *r2, b1)
            }
        },
        (FormulaV::Exists(v1, s1, b1), FormulaV::Exists(v2, s2, b2)) => if v1 == v2 && s1 == s2 {
            formula_unify(*b1, *b2, b)
        } else {
            (false, b)
        },
        _ => (false, b),
    }
}


// ---------------------------------------------------------------------------
// Unification (code)
// ---------------------------------------------------------------------------

fn occurs_fuel(n: &String, t: &Term, b: &Bindings, fuel: usize) -> (r: bool)
    ensures
        r == var_occurs(n@, subst(t@, bview(b@), fuel as nat)),
    decreases fuel, t,
{
    match t {
        Term::Var(v, _) => {
            match b.get(v) {
                Some(u) => {
                    proof {
                        assert(bview(b@)[v@] == u@);
                    }
                    if !u.same(t) && fuel > 0 {
                        occurs_fuel(n, u, b, fuel - 1)
                    } else {
                        *v == *n
                    }
                },
                None => *v == *n,
            }
        },
        Term::Const(_) => false,
        Term::Apply(f, args) => {
            let ghost bv = bview(b@);
            let ghost st = subst(t@, bv, fuel as nat);
            proof {
                assert(t@ == TermV::Apply(f@, terms_view_of(*args)));
                assert(chain_step(t@, bv) is None);
                assert(st is Apply);
            }
            let ghost sargs = st->Apply_1;
            proof {
                assert(st == TermV::Apply(st->Apply_0, sargs));
                assert(sargs.take(0) =~= Seq::<TermV>::empty());
            }
            let mut i: usize = 0;
            while i < args.len()
                invariant
                    i <= args@.len(),
                    *t == Term::Apply(*f, *args),
                    bv == bview(b@),
                    st == subst(t@, bv, fuel as nat),
                    st == TermV::Apply(st->Apply_0, sargs),
                    sargs.len() == args@.len(),
                    forall|j: int| 0 <= j < args@.len() ==> #[trigger] sargs[j] == subst(args@[j]@, bv, fuel as nat),
                    !var_occurs_any(n@, sargs.take(i as int)),
                decreases args@.len() - i,
            {
                proof {
                    assert(decreases_to!(*t => t->Apply_1));
                }
                let found = occurs_fuel(n, &args[i], b, fuel);
                proof {
                    assert(sargs.take(i + 1).drop_last() =~= sargs.take(i as int));
                    assert(sargs.take(i + 1).last() == sargs[i as int]);
                }
                if found {
                    proof {
                        lemma_occurs_any_prefix(n@, sargs, i + 1);
                    }
                    return true;
                }
                i = i + 1;
            }
            proof {
                assert(sargs.take(args@.len() as int) =~= sargs);
            }
            false
        },
    }
}

/// Whether the variable named `n` occurs in `t` once the bindings are
/// applied (following variable chains).
pub fn occurs_check(n: &String, t: &Term, bindings: &Bindings) -> (r: bool)
    ensures
        r == occurs_spec(n@, t@, bview(bindings@)),
{
    let k = bindings.len();
    proof {
        assert(bview(bindings@).dom() == bindings@.dom());
    }
    occurs_fuel(n, t, bindings, k)
}

/// Two sorts are compatible when they are equal or one of them is `Object`.
pub fn sorts_compatible(s1: &Sort, s2: &Sort) -> (r: bool)
    ensures
        r == compatible(s1@, s2@),
{
    let obj = Sort::object();
    s1.same(s2) || s1.same(&obj) || s2.same(&obj)
}

fn bind_var_exec(n: &String, s: &Sort, val: Term, b: &mut Bindings) -> (ok: bool)
    ensures
        (ok, bview(final(b)@)) == bind_var(n@, s@, val@, bview(old(b)@)),
{
    if occurs_check(n, &val, b) {
        return false;
    }
    let vs = val.sort();
    if !sorts_compatible(s, &vs) {
        return false;
    }
    let ghost vv = val@;
    b.insert(n.clone(), val);
    proof {
        assert(bview(b@) =~= bview(old(b)@).insert(n@, vv));
    }
    true
}

fn unify_term_fuel(t1: &Term, t2: &Term, b: &mut Bindings, fuel: u64) -> (ok: bool)
    ensures
        (ok, bview(final(b)@)) == unify_term_spec(t1@, t2@, bview(old(b)@), fuel as nat),
    decreases fuel,
{
    let r1 = t1.resolve(b).duplicate();
    let r2 = t2.resolve(b).duplicate();
    let ghost b0 = bview(b@);
    match r1 {
        Term::Var(n1, s1) => match r2 {
            Term::Var(n2, s2) => {
                if n1 == n2 {
                    return true;
                }
                if !sorts_compatible(&s1, &s2) {
                    return false;
                }
                let ghost v2 = TermV::Var(n2@, s2@);
                b.insert(n1, Term::Var(n2, s2));
                proof {
                    assert(bview(b@) =~= b0.insert(n1@, v2));
                }
                true
            },
            other => bind_var_exec(&n1, &s1, other, b),
        },
        Term::Const(c1) => match r2 {
            Term::Var(n2, s2) => bind_var_exec(&n2, &s2, Term::Const(c1), b),
            Term::Const(c2) => c1 == c2,
            _ => false,
        },
        Term::Apply(f1, a1) => match r2 {
            Term::Var(n2, s2) => bind_var_exec(&n2, &s2, Term::Apply(f1, a1), b),
            Term::Apply(f2, a2) => {
                if f1 != f2 || a1.len() != a2.len() {
                    return false;
                }
                if fuel == 0 {
                    return false;
                }
                let ghost v1 = terms_view_of(a1);
                let ghost v2 = terms_view_of(a2);
                proof {
                    assert(v1.skip(0) =~= v1);
                    assert(v2.skip(0) =~= v2);
                    assert(unify_term_spec(t1@, t2@, b0, fuel as nat) == unify_args(v1, v2, b0, (fuel - 1) as nat));
                }
                let mut i: usize = 0;
                while i < a1.len()
                    invariant
                        fuel > 0,
                        b0 == bview(old(b)@),
                        unify_term_spec(t1@, t2@, b0, fuel as nat) == unify_args(v1, v2, b0, (fuel - 1) as nat),
                        i <= a1@.len(),
                        a1@.len() == a2@.len(),
                        v1 == terms_view_of(a1),
                        v2 == terms_view_of(a2),
                        unify_args(v1, v2, b0, (fuel - 1) as nat) == unify_args(
                            v1.skip(i as int),
                            v2.skip(i as int),
                            bview(b@),
                            (fuel - 1) as nat,
                        ),
                    decreases a1@.len() - i,
                {
                    let ghost bi = bview(b@);
                    let ok = unify_term_fuel(&a1[i], &a2[i], b, fuel - 1);
                    proof {
                        assert(v1.skip(i as int)[0] == v1[i as int]);
                        assert(v2.skip(i as int)[0] == v2[i as int]);
                        assert(v1.skip(i as int).drop_first() =~= v1.skip(i + 1));
                        assert(v2.skip(i as int).drop_first() =~= v2.skip(i + 1));
                    }
                    if !ok {
                        return false;
                    }
                    i = i + 1;
                }
                proof {
                    assert(v1.skip(a1@.len() as int).len() == 0);
                }
                true
            },
            _ => false,
        },
    }
}

impl Formula {
    /// Unify `self` (a pattern) with `goal`; on success the bindings that
    /// make them agree.
    pub fn unify(&self, goal: &Formula) -> (r: Option<Bindings>)
        ensures
            match r {
                Some(b) => formula_unify(self@, goal@, Map::empty()) == (true, bview(b@)),
                None => !formula_unify(self@, goal@, Map::empty()).0,
            },
    {
        let mut bindings: Bindings = NameMap::new();
        proof {
            assert(bview(bindings@) =~= Map::empty());
        }
        if Self::unify_inner(self, goal, &mut bindings) {
            Some(bindings)
        } else {
            None
        }
    }

    fn unify_inner(&self, goal: &Formula, bindings: &mut Bindings) -> (ok: bool)
        ensures
            (ok, bview(final(bindings)@)) == formula_unify(self@, goal@, bview(old(bindings)@)),
        decreases self,
    {
        match (self, goal) {
            (Formula::Pred(n1, a1), Formula::Pred(n2, a2)) => {
                if *n1 != *n2 || a1.len() != a2.len() {
                    return false;
                }
                let ghost b0 = bview(bindings@);
                let ghost v1 = terms_view_of(*a1);
                let ghost v2 = terms_view_of(*a2);
                proof {
                    assert(v1.skip(0) =~= v1);
                    assert(v2.skip(0) =~= v2);
                }
                let mut i: usize = 0;
                while i < a1.len()
                    invariant
                        b0 == bview(old(bindings)@),
                        formula_unify(self@, goal@, b0) == unify_args(v1, v2, b0, UNIFY_DEPTH as nat),
                        i <= a1@.len(),
                        a1@.len() == a2@.len(),
                        v1 == terms_view_of(*a1),
                        v2 == terms_view_of(*a2),
                        unify_args(v1, v2, b0, UNIFY_DEPTH as nat) == unify_args(
                            v1.skip(i as int),
                            v2.skip(i as int),
                            bview(bindings@),
                            UNIFY_DEPTH as nat,
                        ),
                    decreases a1@.len() - i,
                {
                    let ok = unify_term_fuel(&a1[i], &a2[i], bindings, UNIFY_DEPTH);
                    proof {
                        assert(v1.skip(i as int)[0] == v1[i as int]);
                        assert(v2.skip(i as int)[0] == v2[i as int]);
                        assert(v1.skip(i as int).drop_first() =~= v1.skip(i + 1));
                        assert(v2.skip(i as int).drop_first() =~= v2.skip(i + 1));
                    }
                    if !ok {
                        return false;
                    }
                    i = i + 1;
                }
                proof {
                    assert(v1.skip(a1@.len() as int).len() == 0);
                }
                true
            },
            (Formula::Eq(l1, r1), Formula::Eq(l2, r2)) => {
                Self::unify_term(l1, l2, bindings) && Self::unify_term(r1, r2, bindings)
            },
            (Formula::Not(i1), Formula::Not(i2)) => i1.unify_inner(i2, bindings),
            (Formula::Or(l1, r1), Formula::Or(l2, r2)) => {
                l1.unify_inner(l2, bindings) && r1.unify_inner(r2, bindings)
            },
            (Formula::And(l1, r1), Formula::And(l2, r2)) => {
                l1.unify_inner(l2, bindings) && r1.unify_inner(r2, bindings)
            },
            (Formula::Implies(l1, r1), Formula::Implies(l2, r2)) => {
                l1.unify_inner(l2, bindings) && r1.unify_inner(r2, bindings)
            },
            // Two existentials unify if their bound variables and sorts are
            // equal and their bodies unify.
            (
                Formula::Exists { var: v1, sort: s1, body: b1 },
                Formula::Exists { var: v2, sort: s2, body: b2 },
            ) => *v1 == *v2 && s1.same(s2) && b1.unify_inner(b2, bindings),
            _ => false,
        }
    }

    /// Unify two terms, extending `bindings`; `true` on success.  On failure
    /// the bindings hold whatever was bound before the mismatch was found.
    pub fn unify_term(t1: &Term, t2: &Term, bindings: &mut Bindings) -> (ok: bool)
        ensures
            (ok, bview(final(bindings)@)) == unify_term_spec(
                t1@,
                t2@,
                bview(old(bindings)@),
                UNIFY_DEPTH as nat,
            ),
    {
        unify_term_fuel(t1, t2, bindings, UNIFY_DEPTH)
    }
}


// ---------------------------------------------------------------------------
// Proof tree
// ---------------------------------------------------------------------------

/// One node in a successful proof tree.
///
/// The `witnesses` field is populated when this node was proved via
/// Existential Instantiation.  Each entry is `(bound_var_name, resolved_term)`
/// — for example `("C", Apply("IntersectAt", [Var("l1"), Var("l2")]))`.
/// The formatter uses this to emit "Construct C as IntersectAt(l1, l2)."
#[derive(Debug)]
pub struct ProofStep {
    /// The formula that was proved at this node, with all bindings applied.
    pub goal: Formula,
    /// Human-readable name of the rule / axiom used.
    pub rule_name: String,
    /// Sub-goals that had to be proved to discharge this goal.
    pub sub_proofs: Vec<ProofStep>,
    /// Existential witnesses introduced at this step (may be empty).
    pub witnesses: Vec<(String, Term)>,
}

/// A proof step as a mathematical value.
pub struct StepV {
    pub goal: FormulaV,
    pub rule: Seq<char>,
    pub subs: Seq<StepV>,
    pub witnesses: Seq<(Seq<char>, TermV)>,
}

/// A placeholder step.
pub open spec fn empty_step() -> StepV {
    StepV {
        goal: FormulaV::Pred(Seq::empty(), Seq::empty()),
        rule: Seq::empty(),
        subs: Seq::empty(),
        witnesses: Seq::empty(),
    }
}

/// The models of a list of witnesses.
pub open spec fn witnesses_view(ws: Seq<(String, Term)>) -> Seq<(Seq<char>, TermV)> {
    Seq::new(ws.len(), |i: int| (ws[i].0@, ws[i].1@))
}

/// The model of a proof step.
pub open spec fn step_view(s: ProofStep) -> StepV
    decreases s,
{
    StepV {
        goal: s.goal@,
        rule: s.rule_name@,
        subs: Seq::new(
            s.sub_proofs@.len(),
            |i: int|
                if 0 <= i < s.sub_proofs@.len() {
                    step_view(s.sub_proofs@[i])
                } else {
                    empty_step()
                },
        ),
        witnesses: witnesses_view(s.witnesses@),
    }
}

impl View for ProofStep {
    type V = StepV;

    open spec fn view(&self) -> StepV {
        step_view(*self)
    }
}

/// Apply bindings to every goal and witness term of a proof tree.
pub open spec fn step_subst(s: StepV, b: BindingsV) -> StepV
    decreases s,
{
    StepV {
        goal: formula_subst(s.goal, b),
        rule: s.rule,
        subs: Seq::new(
            s.subs.len(),
            |i: int|
                if 0 <= i < s.subs.len() {
                    step_subst(s.subs[i], b)
                } else {
                    empty_step()
                },
        ),
        witnesses: s.witnesses.map_values(|w: (Seq<char>, TermV)| (w.0, term_subst(w.1, b))),
    }
}

/// Name of the conjunction rule.
pub open spec fn conjunction_rule() -> Seq<char> {
    seq!['C', 'o', 'n', 'j', 'u', 'n', 'c', 't', 'i', 'o', 'n']
}

/// Name of the rule proving a disjunction from its left side.
pub open spec fn disjunction_left_rule() -> Seq<char> {
    seq!['D', 'i', 's', 'j', 'u', 'n', 'c', 't', 'i', 'o', 'n', '_', 'L', 'e', 'f', 't']
}

/// Name of the rule proving a disjunction from its right side.
pub open spec fn disjunction_right_rule() -> Seq<char> {
    seq!['D', 'i', 's', 'j', 'u', 'n', 'c', 't', 'i', 'o', 'n', '_', 'R', 'i', 'g', 'h', 't']
}

/// Name of the existential instantiation rule.
pub open spec fn existential_rule() -> Seq<char> {
    seq![
        'E', 'x', 'i', 's', 't', 'e', 'n', 't', 'i', 'a', 'l', '_', 'I', 'n', 's', 't', 'a', 'n',
        't', 'i', 'a', 't', 'i', 'o', 'n',
    ]
}

/// The rule of a step fits the shape of its goal and the number of its
/// sub-proofs and witnesses: a conjunction has two sub-proofs, a disjunction
/// one, an existential one sub-proof and one witness for its variable, and
/// an axiom step (on any other goal) one sub-proof per premise of an axiom
/// of that name.
pub open spec fn rule_fits(s: StepV, axioms: Seq<AxiomV>) -> bool {
    ||| s.rule == conjunction_rule() && s.goal is And && s.subs.len() == 2 && s.witnesses.len() == 0
    ||| (s.rule == disjunction_left_rule() || s.rule == disjunction_right_rule()) && s.goal is Or
        && s.subs.len() == 1 && s.witnesses.len() == 0
    ||| s.rule == existential_rule() && s.goal is Exists && s.subs.len() == 1 && s.witnesses.len() == 1
        && s.witnesses[0].0 == s.goal->Exists_0
    ||| !(s.goal is And) && !(s.goal is Or) && !(s.goal is Exists) && s.witnesses.len() == 0
        && exists|k: int|
        0 <= k < axioms.len() && #[trigger] axioms[k].name == s.rule && s.subs.len()
            == axioms[k].premises.len()
}

/// Every step of the tree fits its rule.
pub open spec fn well_shaped(s: StepV, axioms: Seq<AxiomV>) -> bool
    decreases s, 1nat,
{
    rule_fits(s, axioms) && all_well_shaped(s.subs, axioms)
}

/// Every tree of the list is well shaped.
pub open spec fn all_well_shaped(ss: Seq<StepV>, axioms: Seq<AxiomV>) -> bool
    decreases ss, 0nat,
{
    if ss.len() == 0 {
        true
    } else {
        all_well_shaped(ss.drop_last(), axioms) && well_shaped(ss.last(), axioms)
    }
}

/// The models of a list of proof steps.
pub open spec fn steps_view(ss: Seq<ProofStep>) -> Seq<StepV> {
    Seq::new(ss.len(), |i: int| ss[i]@)
}

/// Two formulas have the same outermost connective (and an existential the
/// same variable).
pub open spec fn same_top(f: FormulaV, g: FormulaV) -> bool {
    &&& (f is And <==> g is And)
    &&& (f is Or <==> g is Or)
    &&& (f is Exists <==> g is Exists)
    &&& (f is Exists ==> f->Exists_0 == g->Exists_0)
}

/// Substitution keeps the outermost connective.
pub proof fn lemma_subst_same_top(f: FormulaV, b: BindingsV)
    ensures
        same_top(f, formula_subst(f, b)),
{
}

proof fn lemma_rule_fits_goal(s: StepV, g: FormulaV, axioms: Seq<AxiomV>)
    requires
        rule_fits(s, axioms),
        same_top(s.goal, g),
    ensures
        rule_fits(StepV { goal: g, ..s }, axioms),
{
    let t = StepV { goal: g, ..s };
    if !(s.goal is And) && !(s.goal is Or) && !(s.goal is Exists) && s.witnesses.len() == 0
        && exists|k: int|
        0 <= k < axioms.len() && #[trigger] axioms[k].name == s.rule && s.subs.len()
            == axioms[k].premises.len() {
        let k = choose|k: int|
            0 <= k < axioms.len() && #[trigger] axioms[k].name == s.rule && s.subs.len()
                == axioms[k].premises.len();
        assert(axioms[k].name == t.rule);
    }
}

proof fn lemma_all_well_shaped_index(ss: Seq<StepV>, axioms: Seq<AxiomV>, i: int)
    requires
        all_well_shaped(ss, axioms),
        0 <= i < ss.len(),
    ensures
        well_shaped(ss[i], axioms),
    decreases ss.len(),
{
    if i < ss.len() - 1 {
        lemma_all_well_shaped_index(ss.drop_last(), axioms, i);
    }
}

proof fn lemma_all_well_shaped_intro(ss: Seq<StepV>, axioms: Seq<AxiomV>)
    requires
        forall|i: int| 0 <= i < ss.len() ==> well_shaped(#[trigger] ss[i], axioms),
    ensures
        all_well_shaped(ss, axioms),
    decreases ss.len(),
{
    if ss.len() > 0 {
        assert forall|i: int| 0 <= i < ss.drop_last().len() implies well_shaped(#[trigger] ss.drop_last()[i], axioms) by {
            assert(ss.drop_last()[i] == ss[i]);
        }
        lemma_all_well_shaped_intro(ss.drop_last(), axioms);
        assert(well_shaped(ss[ss.len() - 1], axioms));
    }
}

/// Applying bindings to a proof tree keeps it well shaped.
pub proof fn lemma_step_subst_well_shaped(s: StepV, b: BindingsV, axioms: Seq<AxiomV>)
    requires
        well_shaped(s, axioms),
    ensures
        well_shaped(step_subst(s, b), axioms),
    decreases s,
{
    let t = step_subst(s, b);
    lemma_subst_same_top(s.goal, b);
    lemma_rule_fits_goal(s, t.goal, axioms);
    assert(t.subs.len() == s.subs.len());
    assert(t.witnesses.len() == s.witnesses.len());
    if s.goal is Exists && s.witnesses.len() == 1 {
        assert(t.witnesses[0].0 == s.witnesses[0].0);
    }
    assert(rule_fits(t, axioms)) by {
        let u = StepV { goal: t.goal, ..s };
        if !(s.goal is And) && !(s.goal is Or) && !(s.goal is Exists) && s.witnesses.len() == 0
            && exists|k: int|
            0 <= k < axioms.len() && #[trigger] axioms[k].name == s.rule && s.subs.len()
                == axioms[k].premises.len() {
            let k = choose|k: int|
                0 <= k < axioms.len() && #[trigger] axioms[k].name == s.rule && s.subs.len()
                    == axioms[k].premises.len();
            assert(axioms[k].name == t.rule);
        }
    }
    assert forall|i: int| 0 <= i < t.subs.len() implies well_shaped(#[trigger] t.subs[i], axioms) by {
        lemma_all_well_shaped_index(s.subs, axioms, i);
        lemma_step_subst_well_shaped(s.subs[i], b, axioms);
    }
    lemma_all_well_shaped_intro(t.subs, axioms);
}

impl ProofStep {
    /// A step with no witnesses.
    fn simple(goal: Formula, rule_name: String, sub_proofs: Vec<ProofStep>) -> (s: Self)
        ensures
            s.goal == goal,
            s.rule_name == rule_name,
            s.sub_proofs == sub_proofs,
            s.witnesses@.len() == 0,
    {
        ProofStep { goal, rule_name, sub_proofs, witnesses: Vec::new() }
    }

    /// A copy of this proof tree.
    pub fn duplicate(&self) -> (r: ProofStep)
        ensures
            r@ == self@,
        decreases self,
    {
        let mut subs: Vec<ProofStep> = Vec::new();
        let mut i: usize = 0;
        while i < self.sub_proofs.len()
            invariant
                i <= self.sub_proofs@.len(),
                subs@.len() == i,
                forall|j: int| 0 <= j < i ==> #[trigger] subs@[j]@ == self.sub_proofs@[j]@,
            decreases self.sub_proofs@.len() - i,
        {
            proof {
                assert(decreases_to!(*self => self.sub_proofs));
            }
            subs.push(self.sub_proofs[i].duplicate());
            i = i + 1;
        }
        let ws = copy_witnesses(&self.witnesses);
        let r = ProofStep {
            goal: self.goal.duplicate(),
            rule_name: self.rule_name.clone(),
            sub_proofs: subs,
            witnesses: ws,
        };
        proof {
            assert forall|j: int| 0 <= j < r@.subs.len() implies r@.subs[j] == self@.subs[j] by {
                assert(subs@[j]@ == self.sub_proofs@[j]@);
            }
            assert(r@.subs =~= self@.subs);
        }
        r
    }

    /// This proof tree with `bindings` applied to every goal and every
    /// witness term.
    pub fn with_bindings(&self, bindings: &Bindings) -> (r: ProofStep)
        ensures
            r@ == step_subst(self@, bview(bindings@)),
        decreases self,
    {
        let ghost bv = bview(bindings@);
        let mut subs: Vec<ProofStep> = Vec::new();
        let mut i: usize = 0;
        while i < self.sub_proofs.len()
            invariant
                i <= self.sub_proofs@.len(),
                subs@.len() == i,
                bv == bview(bindings@),
                forall|j: int| 0 <= j < i ==> #[trigger] subs@[j]@ == step_subst(self.sub_proofs@[j]@, bv),
            decreases self.sub_proofs@.len() - i,
        {
            proof {
                assert(decreases_to!(*self => self.sub_proofs));
            }
            subs.push(self.sub_proofs[i].with_bindings(bindings));
            i = i + 1;
        }
        let mut ws: Vec<(String, Term)> = Vec::new();
        let mut k: usize = 0;
        while k < self.witnesses.len()
            invariant
                k <= self.witnesses@.len(),
                ws@.len() == k,
                bv == bview(bindings@),
                forall|j: int|
                    0 <= j < k ==> #[trigger] ws@[j].0@ == self.witnesses@[j].0@ && ws@[j].1@
                        == term_subst(self.witnesses@[j].1@, bv),
            decreases self.witnesses@.len() - k,
        {
            let name = self.witnesses[k].0.clone();
            let t = self.witnesses[k].1.substitute(bindings);
            ws.push((name, t));
            k = k + 1;
        }
        let r = ProofStep {
            goal: self.goal.substitute(bindings),
            rule_name: self.rule_name.clone(),
            sub_proofs: subs,
            witnesses: ws,
        };
        proof {
            let t = step_subst(self@, bv);
            assert forall|j: int| 0 <= j < r@.subs.len() implies r@.subs[j] == t.subs[j] by {
                assert(subs@[j]@ == step_subst(self.sub_proofs@[j]@, bv));
                assert(self@.subs[j] == self.sub_proofs@[j]@);
            }
            assert(r@.subs =~= t.subs);
            assert(r@.witnesses =~= t.witnesses);
        }
        r
    }

    /// Recursively apply `bindings` to every goal formula and every witness
    /// term in this node and all of its descendants.
    pub fn apply_bindings(&mut self, bindings: &Bindings)
        ensures
            final(self)@ == step_subst(old(self)@, bview(bindings@)),
    {
        let r = self.with_bindings(bindings);
        *self = r;
    }
}

/// Copies of a list of witnesses.
fn copy_witnesses(ws: &Vec<(String, Term)>) -> (r: Vec<(String, Term)>)
    ensures
        witnesses_view(r@) == witnesses_view(ws@),
{
    let mut out: Vec<(String, Term)> = Vec::new();
    let mut i: usize = 0;
    while i < ws.len()
        invariant
            i <= ws@.len(),
            out@.len() == i,
            forall|j: int| 0 <= j < i ==> #[trigger] out@[j].0@ == ws@[j].0@ && out@[j].1@ == ws@[j].1@,
        decreases ws@.len() - i,
    {
        out.push((ws[i].0.clone(), ws[i].1.duplicate()));
        i = i + 1;
    }
    assert(witnesses_view(out@) =~= witnesses_view(ws@));
    out
}

impl Clone for ProofStep {
    fn clone(&self) -> (r: ProofStep)
        ensures
            r@ == self@,
    {
        self.duplicate()
    }
}

// ---------------------------------------------------------------------------
// Axiom representation
// ---------------------------------------------------------------------------

/// A universally quantified rule: `vars` are its variables, and the
/// `conclusion` follows from all the `premises`.
#[derive(Debug)]
pub struct Axiom {
    pub name: String,
    pub vars: Vec<String>,
    pub premises: Vec<Formula>,
    pub conclusion: Formula,
}

/// An axiom as a mathematical value.
pub struct AxiomV {
    pub name: Seq<char>,
    pub vars: Seq<Seq<char>>,
    pub premises: Seq<FormulaV>,
    pub conclusion: FormulaV,
}


impl View for Axiom {
    type V = AxiomV;

    open spec fn view(&self) -> AxiomV {
        AxiomV {
            name: self.name@,
            vars: strings_view(self.vars@),
            premises: formulas_view(self.premises@),
            conclusion: self.conclusion@,
        }
    }
}

/// The models of a list of axioms.
pub open spec fn axioms_view(axs: Seq<Axiom>) -> Seq<AxiomV> {
    Seq::new(axs.len(), |i: int| axs[i]@)
}

/// Copies of a list of strings.
pub fn copy_strings(ss: &Vec<String>) -> (r: Vec<String>)
    ensures
        strings_view(r@) == strings_view(ss@),
{
    let mut out: Vec<String> = Vec::new();
    let mut i: usize = 0;
    while i < ss.len()
        invariant
            i <= ss@.len(),
            out@.len() == i,
            forall|j: int| 0 <= j < i ==> #[trigger] out@[j]@ == ss@[j]@,
        decreases ss@.len() - i,
    {
        out.push(ss[i].clone());
        i = i + 1;
    }
    assert(strings_view(out@) =~= strings_view(ss@));
    out
}

/// Copies of a list of formulas.
pub fn copy_formulas(fs: &Vec<Formula>) -> (r: Vec<Formula>)
    ensures
        formulas_view(r@) == formulas_view(fs@),
{
    let mut out: Vec<Formula> = Vec::new();
    let mut i: usize = 0;
    while i < fs.len()
        invariant
            i <= fs@.len(),
            out@.len() == i,
            forall|j: int| 0 <= j < i ==> #[trigger] out@[j]@ == fs@[j]@,
        decreases fs@.len() - i,
    {
        out.push(fs[i].duplicate());
        i = i + 1;
    }
    assert(formulas_view(out@) =~= formulas_view(fs@));
    out
}

impl Axiom {
    /// A copy of this axiom.
    pub fn duplicate(&self) -> (r: Axiom)
        ensures
            r@ == self@,
    {
        Axiom {
            name: self.name.clone(),
            vars: copy_strings(&self.vars),
            premises: copy_formulas(&self.premises),
            conclusion: self.conclusion.duplicate(),
        }
    }
}

impl Clone for Axiom {
    fn clone(&self) -> (r: Axiom)
        ensures
            r@ == self@,
    {
        self.duplicate()
    }
}


// ---------------------------------------------------------------------------
// Universe (logical namespace)
// ---------------------------------------------------------------------------

/// A signature as mathematical values: argument sorts and result sort.
pub open spec fn signature_view(p: (Vec<String>, String)) -> (Seq<Seq<char>>, Seq<char>) {
    (strings_view(p.0@), p.1@)
}

/// The model of a table of signatures.
pub open spec fn predicates_view(m: Map<Seq<char>, (Vec<String>, String)>) -> Map<Seq<char>, (Seq<Seq<char>>, Seq<char>)> {
    m.map_values(|p: (Vec<String>, String)| signature_view(p))
}

/// The model of a table of constants.
pub open spec fn constants_view(m: Map<Seq<char>, Sort>) -> Map<Seq<char>, Seq<char>> {
    m.map_values(|s: Sort| s@)
}

/// Whether one of the axioms has the given name.
pub open spec fn has_axiom_named(axs: Seq<AxiomV>, name: Seq<char>) -> bool {
    exists|i: int| 0 <= i < axs.len() && #[trigger] axs[i].name == name
}

/// Append each axiom of `theirs`, in order, unless one of that name is
/// already present.
pub open spec fn import_axioms(mine: Seq<AxiomV>, theirs: Seq<AxiomV>) -> Seq<AxiomV>
    decreases theirs.len(),
{
    if theirs.len() == 0 {
        mine
    } else {
        let next = if has_axiom_named(mine, theirs[0].name) {
            mine
        } else {
            mine.push(theirs[0])
        };
        import_axioms(next, theirs.drop_first())
    }
}

/// Append each type name of `theirs`, in order, unless already present.
pub open spec fn import_types(mine: Seq<Seq<char>>, theirs: Seq<Seq<char>>) -> Seq<Seq<char>>
    decreases theirs.len(),
{
    if theirs.len() == 0 {
        mine
    } else {
        let next = if mine.contains(theirs[0]) {
            mine
        } else {
            mine.push(theirs[0])
        };
        import_types(next, theirs.drop_first())
    }
}

/// A logical namespace: axioms, type names, predicate signatures and
/// ground constants.
#[derive(Debug)]
pub struct Universe {
    pub axioms: Vec<Axiom>,
    pub types: Vec<String>,
    pub predicates: NameMap<(Vec<String>, String)>,
    /// Ground constants declared in this universe, e.g. `A : Pt`.
    /// Maps constant name → its sort.  These are treated as rigid
    /// (`Term::Const`) during parsing so the engine cannot unify them
    /// with each other or with free variables.
    pub constants: NameMap<Sort>,
}

impl Universe {
    /// An empty universe.
    pub fn new() -> (u: Self)
        ensures
            u.axioms@.len() == 0,
            u.types@.len() == 0,
            u.predicates@ == Map::<Seq<char>, (Vec<String>, String)>::empty(),
            u.constants@ == Map::<Seq<char>, Sort>::empty(),
    {
        Universe {
            axioms: Vec::new(),
            types: Vec::new(),
            predicates: NameMap::new(),
            constants: NameMap::new(),
        }
    }

    /// Append an axiom.
    pub fn add_axiom(&mut self, new_axiom: Axiom)
        ensures
            final(self).axioms@ == old(self).axioms@.push(new_axiom),
            final(self).types == old(self).types,
            final(self).predicates == old(self).predicates,
            final(self).constants == old(self).constants,
    {
        self.axioms.push(new_axiom);
    }

    /// Add a type name unless it is already declared.
    pub fn add_type(&mut self, name: String)
        ensures
            strings_view(final(self).types@) == (if strings_view(old(self).types@).contains(name@) {
                strings_view(old(self).types@)
            } else {
                strings_view(old(self).types@).push(name@)
            }),
            final(self).axioms == old(self).axioms,
            final(self).predicates == old(self).predicates,
            final(self).constants == old(self).constants,
    {
        let ghost old_types = strings_view(self.types@);
        let mut i: usize = 0;
        while i < self.types.len()
            invariant
                i <= self.types@.len(),
                old_types == strings_view(self.types@),
                forall|j: int| 0 <= j < i ==> self.types@[j]@ != name@,
            decreases self.types@.len() - i,
        {
            if self.types[i] == name {
                proof {
                    assert(old_types[i as int] == name@);
                }
                return;
            }
            i = i + 1;
        }
        proof {
            assert forall|j: int| 0 <= j < old_types.len() implies old_types[j] != name@ by {
                assert(old_types[j] == self.types@[j]@);
            }
        }
        self.types.push(name);
        proof {
            assert(strings_view(self.types@) =~= old_types.push(name@));
        }
    }

    /// Set the signature of a predicate or function.
    pub fn add_predicate(&mut self, name: String, arg_sorts: Vec<String>, ret_sort: String)
        ensures
            final(self).predicates@ == old(self).predicates@.insert(name@, (arg_sorts, ret_sort)),
            final(self).axioms == old(self).axioms,
            final(self).types == old(self).types,
            final(self).constants == old(self).constants,
    {
        self.predicates.insert(name, (arg_sorts, ret_sort));
    }

    /// Set the sort of a ground constant.
    pub fn add_constant(&mut self, name: String, sort: Sort)
        ensures
            final(self).constants@ == old(self).constants@.insert(name@, sort),
            final(self).axioms == old(self).axioms,
            final(self).types == old(self).types,
            final(self).predicates == old(self).predicates,
    {
        self.constants.insert(name, sort);
    }

    /// Pull in everything of `other` that this universe lacks: axioms whose
    /// name is new, type names, and predicates and constants whose name is
    /// new (existing entries keep their values).
    pub fn import_from(&mut self, other: &Universe)
        ensures
            axioms_view(final(self).axioms@) == import_axioms(
                axioms_view(old(self).axioms@),
                axioms_view(other.axioms@),
            ),
            strings_view(final(self).types@) == import_types(
                strings_view(old(self).types@),
                strings_view(other.types@),
            ),
            predicates_view(final(self).predicates@) == predicates_view(
                other.predicates@,
            ).union_prefer_right(predicates_view(old(self).predicates@)),
            constants_view(final(self).constants@) == constants_view(
                other.constants@,
            ).union_prefer_right(constants_view(old(self).constants@)),
    {
        // Axioms
        let ghost theirs = axioms_view(other.axioms@);
        let ghost target = import_axioms(axioms_view(self.axioms@), theirs);
        proof {
            assert(theirs.skip(0) =~= theirs);
        }
        let mut i: usize = 0;
        while i < other.axioms.len()
            invariant
                i <= other.axioms@.len(),
                theirs == axioms_view(other.axioms@),
                target == import_axioms(axioms_view(self.axioms@), theirs.skip(i as int)),
                self.types == old(self).types,
                self.predicates == old(self).predicates,
                self.constants == old(self).constants,
            decreases other.axioms@.len() - i,
        {
            let ghost mine = axioms_view(self.axioms@);
            let mut found = false;
            let mut j: usize = 0;
            while j < self.axioms.len()
                invariant
                    j <= self.axioms@.len(),
                    mine == axioms_view(self.axioms@),
                    i < other.axioms@.len(),
                    !found ==> forall|q: int| 0 <= q < j ==> mine[q].name != other.axioms@[i as int].name@,
                    found ==> has_axiom_named(mine, other.axioms@[i as int].name@),
                decreases self.axioms@.len() - j,
            {
                if self.axioms[j].name == other.axioms[i].name {
                    found = true;
                    proof {
                        assert(mine[j as int].name == other.axioms@[i as int].name@);
                    }
                }
                j = j + 1;
            }
            proof {
                assert(theirs.skip(i as int)[0] == theirs[i as int]);
                assert(theirs.skip(i as int).drop_first() =~= theirs.skip(i + 1));
            }
            if !found {
                let a = other.axioms[i].duplicate();
                self.axioms.push(a);
                proof {
                    assert(axioms_view(self.axioms@) =~= mine.push(theirs[i as int]));
                }
            }
            i = i + 1;
        }
        proof {
            assert(theirs.skip(other.axioms@.len() as int) =~= Seq::<AxiomV>::empty());
        }
        // Types
        let ghost their_types = strings_view(other.types@);
        let ghost target_types = import_types(strings_view(self.types@), their_types);
        proof {
            assert(their_types.skip(0) =~= their_types);
        }
        let mut k: usize = 0;
        while k < other.types.len()
            invariant
                k <= other.types@.len(),
                their_types == strings_view(other.types@),
                target_types == import_types(strings_view(self.types@), their_types.skip(k as int)),
                axioms_view(self.axioms@) == target,
                self.predicates == old(self).predicates,
                self.constants == old(self).constants,
            decreases other.types@.len() - k,
        {
            proof {
                assert(their_types.skip(k as int)[0] == their_types[k as int]);
                assert(their_types.skip(k as int).drop_first() =~= their_types.skip(k + 1));
            }
            self.add_type(other.types[k].clone());
            k = k + 1;
        }
        proof {
            assert(their_types.skip(other.types@.len() as int) =~= Seq::<Seq<char>>::empty());
        }
        // Predicates
        let np = other.predicates.len();
        let mut p: usize = 0;
        while p < np
            invariant
                np == other.predicates.spec_entries().len(),
                p <= np,
                keys_distinct(other.predicates.spec_entries()),
                forall|key: Seq<char>| #[trigger]
                    other.predicates@.contains_key(key) <==> exists|q: int|
                        0 <= q < np && other.predicates.spec_entries()[q].0@ == key,
                forall|q: int|
                    0 <= q < np ==> #[trigger] other.predicates@[other.predicates.spec_entries()[q].0@]
                        == other.predicates.spec_entries()[q].1,
                axioms_view(self.axioms@) == target,
                strings_view(self.types@) == target_types,
                self.constants == old(self).constants,
                predicates_view(self.predicates@) == predicates_view(old(self).predicates@).union_prefer_right(
                    predicates_view(other.predicates@).restrict(
                        first_keys(other.predicates.spec_entries(), p as int)
                            .difference(predicates_view(old(self).predicates@).dom()),
                    ),
                ),
            decreases np - p,
        {
            let key = other.predicates.key_at(p);
            let ghost pv_old = predicates_view(old(self).predicates@);
            let ghost pv_other = predicates_view(other.predicates@);
            let ghost cur = predicates_view(self.predicates@);
            let ghost sp = first_keys(other.predicates.spec_entries(), p as int);
            let ghost sp1 = first_keys(other.predicates.spec_entries(), p + 1);
            proof {
                assert(sp1 =~= sp.insert(key@)) by {
                    assert forall|k: Seq<char>| sp1.contains(k) implies sp.insert(key@).contains(k) by {
                        let q = choose|q: int| 0 <= q < p + 1 && other.predicates.spec_entries()[q].0@ == k;
                        if q < p {
                            assert(sp.contains(k));
                        }
                    }
                    assert forall|k: Seq<char>| sp.insert(key@).contains(k) implies sp1.contains(k) by {
                        if k == key@ {
                            assert(0 <= p < p + 1 && other.predicates.spec_entries()[p as int].0@ == k);
                        } else {
                            let q = choose|q: int| 0 <= q < p && other.predicates.spec_entries()[q].0@ == k;
                            assert(0 <= q < p + 1 && other.predicates.spec_entries()[q].0@ == k);
                        }
                    }
                }
                assert(!sp.contains(key@)) by {
                    if sp.contains(key@) {
                        let q = choose|q: int| 0 <= q < p && other.predicates.spec_entries()[q].0@ == key@;
                        assert(other.predicates.spec_entries()[q].0@ != other.predicates.spec_entries()[p as int].0@);
                    }
                }
                assert(pv_other.contains_key(key@));
                lemma_import_step(pv_old, pv_other, cur, sp, key@);
            }
            if !self.predicates.contains_key(key) {
                let sig = other.predicates.value_at(p);
                let copy = (copy_strings(&sig.0), sig.1.clone());
                self.predicates.insert(key.clone(), copy);
                proof {
                    assert(signature_view(copy) == signature_view(*sig));
                    assert(predicates_view(self.predicates@) =~= cur.insert(key@, pv_other[key@]));
                }
            }
            p = p + 1;
        }
        proof {
            let pv_old = predicates_view(old(self).predicates@);
            let pv_other = predicates_view(other.predicates@);
            assert(predicates_view(self.predicates@) =~= pv_other.union_prefer_right(pv_old));
        }
        // Constants
        let nc = other.constants.len();
        let mut c: usize = 0;
        while c < nc
            invariant
                nc == other.constants.spec_entries().len(),
                c <= nc,
                keys_distinct(other.constants.spec_entries()),
                forall|key: Seq<char>| #[trigger]
                    other.constants@.contains_key(key) <==> exists|q: int|
                        0 <= q < nc && other.constants.spec_entries()[q].0@ == key,
                forall|q: int|
                    0 <= q < nc ==> #[trigger] other.constants@[other.constants.spec_entries()[q].0@]
                        == other.constants.spec_entries()[q].1,
                axioms_view(self.axioms@) == target,
                strings_view(self.types@) == target_types,
                predicates_view(self.predicates@) == predicates_view(other.predicates@).union_prefer_right(
                    predicates_view(old(self).predicates@),
                ),
                constants_view(self.constants@) == constants_view(old(self).constants@).union_prefer_right(
                    constants_view(other.constants@).restrict(
                        first_keys(other.constants.spec_entries(), c as int)
                            .difference(constants_view(old(self).constants@).dom()),
                    ),
                ),
            decreases nc - c,
        {
            let key = other.constants.key_at(c);
            let ghost cv_old = constants_view(old(self).constants@);
            let ghost cv_other = constants_view(other.constants@);
            let ghost cur = constants_view(self.constants@);
            let ghost sc = first_keys(other.constants.spec_entries(), c as int);
            let ghost sc1 = first_keys(other.constants.spec_entries(), c + 1);
            proof {
                assert(sc1 =~= sc.insert(key@)) by {
                    assert forall|k: Seq<char>| sc1.contains(k) implies sc.insert(key@).contains(k) by {
                        let q = choose|q: int| 0 <= q < c + 1 && other.constants.spec_entries()[q].0@ == k;
                        if q < c {
                            assert(sc.contains(k));
                        }
                    }
                    assert forall|k: Seq<char>| sc.insert(key@).contains(k) implies sc1.contains(k) by {
                        if k == key@ {
                            assert(0 <= c < c + 1 && other.constants.spec_entries()[c as int].0@ == k);
                        } else {
                            let q = choose|q: int| 0 <= q < c && other.constants.spec_entries()[q].0@ == k;
                            assert(0 <= q < c + 1 && other.constants.spec_entries()[q].0@ == k);
                        }
                    }
                }
                assert(!sc.contains(key@)) by {
                    if sc.contains(key@) {
                        let q = choose|q: int| 0 <= q < c && other.constants.spec_entries()[q].0@ == key@;
                        assert(other.constants.spec_entries()[q].0@ != other.constants.spec_entries()[c as int].0@);
                    }
                }
                assert(cv_other.contains_key(key@));
                lemma_import_step(cv_old, cv_other, cur, sc, key@);
            }
            if !self.constants.contains_key(key) {
                let sort = other.constants.value_at(c).duplicate();
                self.constants.insert(key.clone(), sort);
                proof {
                    assert(constants_view(self.constants@) =~= cur.insert(key@, cv_other[key@]));
                }
            }
            c = c + 1;
        }
        proof {
            let cv_old = constants_view(old(self).constants@);
            let cv_other = constants_view(other.constants@);
            assert(constants_view(self.constants@) =~= cv_other.union_prefer_right(cv_old));
        }
    }

    /// A one-line count of the universe's contents, e.g.
    /// `3 axiom(s), 1 type(s), 2 predicate(s), 0 constant(s)`.
    pub fn summary(&self) -> (s: String)
        ensures
            s@ == summary_text(
                self.axioms@.len() as nat,
                self.types@.len() as nat,
                self.predicates@.len(),
                self.constants@.len(),
            ),
    {
        proof {
            reveal_strlit(" axiom(s), ");
            reveal_strlit(" type(s), ");
            reveal_strlit(" predicate(s), ");
            reveal_strlit(" constant(s)");
        }
        let mut s = String::new();
        push_decimal(&mut s, self.axioms.len() as u64);
        s.append(" axiom(s), ");
        push_decimal(&mut s, self.types.len() as u64);
        s.append(" type(s), ");
        push_decimal(&mut s, self.predicates.len() as u64);
        s.append(" predicate(s), ");
        push_decimal(&mut s, self.constants.len() as u64);
        s.append(" constant(s)");
        s
    }

    /// A copy of this universe.
    pub fn duplicate(&self) -> (r: Universe)
        ensures
            axioms_view(r.axioms@) == axioms_view(self.axioms@),
            strings_view(r.types@) == strings_view(self.types@),
            predicates_view(r.predicates@) == predicates_view(self.predicates@),
            constants_view(r.constants@) == constants_view(self.constants@),
    {
        let mut axioms: Vec<Axiom> = Vec::new();
        let mut i: usize = 0;
        while i < self.axioms.len()
            invariant
                i <= self.axioms@.len(),
                axioms@.len() == i,
                forall|j: int| 0 <= j < i ==> #[trigger] axioms@[j]@ == self.axioms@[j]@,
            decreases self.axioms@.len() - i,
        {
            axioms.push(self.axioms[i].duplicate());
            i = i + 1;
        }
        proof {
            assert(axioms_view(axioms@) =~= axioms_view(self.axioms@));
        }
        Universe {
            axioms,
            types: copy_strings(&self.types),
            predicates: copy_predicates(&self.predicates),
            constants: copy_constants(&self.constants),
        }
    }
}

/// A copy of a table of signatures.
fn copy_predicates(m: &NameMap<(Vec<String>, String)>) -> (r: NameMap<(Vec<String>, String)>)
    ensures
        predicates_view(r@) == predicates_view(m@),
{
    let n = m.len();
    let mut r: NameMap<(Vec<String>, String)> = NameMap::new();
    let mut i: usize = 0;
    while i < n
        invariant
            n == m.spec_entries().len(),
            i <= n,
            keys_distinct(m.spec_entries()),
            forall|k: Seq<char>| #[trigger]
                m@.contains_key(k) <==> exists|j: int| 0 <= j < n && m.spec_entries()[j].0@ == k,
            forall|j: int| 0 <= j < n ==> #[trigger] m@[m.spec_entries()[j].0@] == m.spec_entries()[j].1,
            forall|k: Seq<char>| #[trigger]
                r@.contains_key(k) <==> exists|j: int| 0 <= j < i && m.spec_entries()[j].0@ == k,
            forall|j: int|
                0 <= j < i ==> #[trigger] signature_view(r@[m.spec_entries()[j].0@]) == signature_view(
                    m.spec_entries()[j].1,
                ),
        decreases n - i,
    {
        let k = m.key_at(i).clone();
        let v = m.value_at(i);
        let c = (copy_strings(&v.0), v.1.clone());
        proof {
            assert(signature_view(c) == signature_view(*v));
        }
        r.insert(k, c);
        proof {
            assert forall|k2: Seq<char>| #[trigger]
                r@.contains_key(k2) implies exists|j: int| 0 <= j < i + 1 && m.spec_entries()[j].0@ == k2 by {
                if k2 != m.spec_entries()[i as int].0@ {
                    let j = choose|j: int| 0 <= j < i && m.spec_entries()[j].0@ == k2;
                    assert(0 <= j < i + 1 && m.spec_entries()[j].0@ == k2);
                }
            }
            assert forall|j: int| 0 <= j < i + 1 implies #[trigger] signature_view(r@[m.spec_entries()[j].0@])
                == signature_view(m.spec_entries()[j].1) by {
                if j < i {
                    assert(m.spec_entries()[j].0@ != m.spec_entries()[i as int].0@);
                }
            }
        }
        i = i + 1;
    }
    proof {
        assert(r@.dom() =~= m@.dom());
        assert forall|k: Seq<char>| #[trigger] m@.contains_key(k) implies predicates_view(r@)[k]
            == predicates_view(m@)[k] by {
            let j = choose|j: int| 0 <= j < n && m.spec_entries()[j].0@ == k;
            assert(signature_view(r@[m.spec_entries()[j].0@]) == signature_view(m.spec_entries()[j].1));
        }
        assert(predicates_view(r@) =~= predicates_view(m@));
    }
    r
}

/// A copy of a table of constants.
fn copy_constants(m: &NameMap<Sort>) -> (r: NameMap<Sort>)
    ensures
        constants_view(r@) == constants_view(m@),
{
    let n = m.len();
    let mut r: NameMap<Sort> = NameMap::new();
    let mut i: usize = 0;
    while i < n
        invariant
            n == m.spec_entries().len(),
            i <= n,
            keys_distinct(m.spec_entries()),
            forall|k: Seq<char>| #[trigger]
                m@.contains_key(k) <==> exists|j: int| 0 <= j < n && m.spec_entries()[j].0@ == k,
            forall|j: int| 0 <= j < n ==> #[trigger] m@[m.spec_entries()[j].0@] == m.spec_entries()[j].1,
            forall|k: Seq<char>| #[trigger]
                r@.contains_key(k) <==> exists|j: int| 0 <= j < i && m.spec_entries()[j].0@ == k,
            forall|j: int| 0 <= j < i ==> #[trigger] r@[m.spec_entries()[j].0@]@ == m.spec_entries()[j].1@,
        decreases n - i,
    {
        let k = m.key_at(i).clone();
        let c = m.value_at(i).duplicate();
        r.insert(k, c);
        proof {
            assert forall|k2: Seq<char>| #[trigger]
                r@.contains_key(k2) implies exists|j: int| 0 <= j < i + 1 && m.spec_entries()[j].0@ == k2 by {
                if k2 != m.spec_entries()[i as int].0@ {
                    let j = choose|j: int| 0 <= j < i && m.spec_entries()[j].0@ == k2;
                    assert(0 <= j < i + 1 && m.spec_entries()[j].0@ == k2);
                }
            }
            assert forall|j: int| 0 <= j < i + 1 implies #[trigger] r@[m.spec_entries()[j].0@]@
                == m.spec_entries()[j].1@ by {
                if j < i {
                    assert(m.spec_entries()[j].0@ != m.spec_entries()[i as int].0@);
                }
            }
        }
        i = i + 1;
    }
    proof {
        assert(r@.dom() =~= m@.dom());
        assert forall|k: Seq<char>| #[trigger] m@.contains_key(k) implies constants_view(r@)[k]
            == constants_view(m@)[k] by {
            let j = choose|j: int| 0 <= j < n && m.spec_entries()[j].0@ == k;
            assert(r@[m.spec_entries()[j].0@]@ == m.spec_entries()[j].1@);
        }
        assert(constants_view(r@) =~= constants_view(m@));
    }
    r
}

/// The keys of the first `p` entries.
pub open spec fn first_keys<V>(s: Seq<(String, V)>, p: int) -> Set<Seq<char>> {
    Set::new(|key: Seq<char>| exists|q: int| 0 <= q < p && s[q].0@ == key)
}

proof fn lemma_import_step<V>(
    old_m: Map<Seq<char>, V>,
    other_m: Map<Seq<char>, V>,
    cur: Map<Seq<char>, V>,
    s: Set<Seq<char>>,
    key: Seq<char>,
)
    requires
        cur == old_m.union_prefer_right(other_m.restrict(s.difference(old_m.dom()))),
        other_m.contains_key(key),
        !s.contains(key),
    ensures
        cur.contains_key(key) ==> cur == old_m.union_prefer_right(
            other_m.restrict(s.insert(key).difference(old_m.dom())),
        ),
        !cur.contains_key(key) ==> cur.insert(key, other_m[key]) == old_m.union_prefer_right(
            other_m.restrict(s.insert(key).difference(old_m.dom())),
        ),
{
    if cur.contains_key(key) {
        assert(old_m.contains_key(key));
        assert(s.insert(key).difference(old_m.dom()) =~= s.difference(old_m.dom()));
    } else {
        assert(cur.insert(key, other_m[key]) =~= old_m.union_prefer_right(
            other_m.restrict(s.insert(key).difference(old_m.dom())),
        ));
    }
}

/// `{a} axiom(s), {t} type(s), {p} predicate(s), {c} constant(s)`.
pub open spec fn summary_text(a: nat, t: nat, p: nat, c: nat) -> Seq<char> {
    decimal(a) + seq![' ', 'a', 'x', 'i', 'o', 'm', '(', 's', ')', ',', ' '] + decimal(t) + seq![
        ' ',
        't',
        'y',
        'p',
        'e',
        '(',
        's',
        ')',
        ',',
        ' ',
    ] + decimal(p) + seq![
        ' ',
        'p',
        'r',
        'e',
        'd',
        'i',
        'c',
        'a',
        't',
        'e',
        '(',
        's',
        ')',
        ',',
        ' ',
    ] + decimal(c) + seq![' ', 'c', 'o', 'n', 's', 't', 'a', 'n', 't', '(', 's', ')']
}


// ---------------------------------------------------------------------------
// Skolem name generation
// ---------------------------------------------------------------------------

/// The counter after one more fresh name: one more, wrapping at the top.
pub open spec fn next_count(c: u32) -> u32 {
    if c == u32::MAX {
        0
    } else {
        (c + 1) as u32
    }
}

/// The Skolem witness name for counter value `c`: `?w` followed by `c` in
/// decimal.
pub open spec fn skolem_name(c: u32) -> Seq<char> {
    seq!['?', 'w'] + decimal(c as nat)
}

/// Generate a fresh Skolem witness name `?w1`, `?w2`, … — the leading `?`
/// makes them visually distinct from user-introduced variables.
pub fn fresh_skolem(counter: &mut u32) -> (name: String)
    ensures
        *final(counter) == next_count(*old(counter)),
        name@ == skolem_name(*final(counter)),
{
    if *counter == u32::MAX {
        *counter = 0;
    } else {
        *counter = *counter + 1;
    }
    proof {
        reveal_strlit("?w");
    }
    let mut name = String::from_str("?w");
    push_decimal(&mut name, *counter as u64);
    name
}

/// Distinct counter values give distinct Skolem names.
pub proof fn lemma_skolem_names_distinct(c1: u32, c2: u32)
    requires
        c1 != c2,
    ensures
        skolem_name(c1) != skolem_name(c2),
{
    if skolem_name(c1) == skolem_name(c2) {
        assert(skolem_name(c1).subrange(2, skolem_name(c1).len() as int) =~= decimal(c1 as nat));
        assert(skolem_name(c2).subrange(2, skolem_name(c2).len() as int) =~= decimal(c2 as nat));
        lemma_decimal_injective(c1 as nat, c2 as nat);
    }
}

// ---------------------------------------------------------------------------
// Alpha-renaming
// ---------------------------------------------------------------------------

/// `v` suffixed with `_` and `k` in decimal.
pub open spec fn suffixed(v: Seq<char>, k: nat) -> Seq<char> {
    v + seq!['_'] + decimal(k)
}

proof fn lemma_decimal_no_underscore(n: nat)
    ensures
        forall|i: int| 0 <= i < decimal(n).len() ==> decimal(n)[i] != '_',
    decreases n,
{
    if n >= 10 {
        lemma_decimal_no_underscore(n / 10);
        assert forall|i: int| 0 <= i < decimal(n).len() implies decimal(n)[i] != '_' by {
            if i < decimal(n / 10).len() {
                assert(decimal(n)[i] == decimal(n / 10)[i]);
            }
        }
    }
}

/// A suffixed name gives back its name and its counter value.
proof fn lemma_suffixed_injective(v1: Seq<char>, k1: nat, v2: Seq<char>, k2: nat)
    requires
        suffixed(v1, k1) == suffixed(v2, k2),
    ensures
        v1 == v2,
        k1 == k2,
{
    let s = suffixed(v1, k1);
    lemma_decimal_no_underscore(k1);
    lemma_decimal_no_underscore(k2);
    let p1 = v1 + seq!['_'];
    let p2 = v2 + seq!['_'];
    assert(s == p1 + decimal(k1));
    assert(s == p2 + decimal(k2));
    assert(p2[v2.len() as int] == '_');
    assert(p1[v1.len() as int] == '_');
    if v1.len() < v2.len() {
        assert(s[v2.len() as int] == p2[v2.len() as int]);
        assert(s[v2.len() as int] == decimal(k1)[v2.len() - p1.len()]);
    } else if v2.len() < v1.len() {
        assert(s[v1.len() as int] == p1[v1.len() as int]);
        assert(s[v1.len() as int] == decimal(k2)[v1.len() - p2.len()]);
    }
    assert(v1 =~= s.take(v1.len() as int));
    assert(v2 =~= s.take(v2.len() as int));
    assert(decimal(k1) =~= s.skip(v1.len() as int + 1));
    assert(decimal(k2) =~= s.skip(v2.len() as int + 1));
    lemma_decimal_injective(k1, k2);
}

/// Renaming apart: axioms instantiated with two different counter values
/// never share a variable name.
pub proof fn lemma_instantiate_apart(a: AxiomV, c: AxiomV, k1: nat, k2: nat)
    requires
        k1 != k2,
    ensures
        forall|i: int, j: int|
            0 <= i < a.vars.len() && 0 <= j < c.vars.len() ==> #[trigger] instantiate_spec(a, k1).vars[i]
                != #[trigger] instantiate_spec(c, k2).vars[j],
{
    assert forall|i: int, j: int| 0 <= i < a.vars.len() && 0 <= j < c.vars.len() implies #[trigger] instantiate_spec(
        a,
        k1,
    ).vars[i] != #[trigger] instantiate_spec(c, k2).vars[j] by {
        if suffixed(a.vars[i], k1) == suffixed(c.vars[j], k2) {
            lemma_suffixed_injective(a.vars[i], k1, c.vars[j], k2);
        }
    }
}

/// The renaming of an axiom's variables for counter value `k`.
pub open spec fn rename_map(vars: Seq<Seq<char>>, k: nat) -> Map<Seq<char>, Seq<char>> {
    Map::new(|v: Seq<char>| vars.contains(v), |v: Seq<char>| suffixed(v, k))
}

/// A name after renaming: renamed if the map has it, unchanged otherwise.
pub open spec fn rename_name(n: Seq<char>, r: Map<Seq<char>, Seq<char>>) -> Seq<char> {
    if r.contains_key(n) {
        r[n]
    } else {
        n
    }
}

/// Rename the variables of a term.
pub open spec fn rename_term(t: TermV, r: Map<Seq<char>, Seq<char>>) -> TermV
    decreases t,
{
    match t {
        TermV::Var(n, s) => TermV::Var(rename_name(n, r), s),
        TermV::Const(_) => t,
        TermV::Apply(f, args) => TermV::Apply(
            f,
            Seq::new(
                args.len(),
                |i: int|
                    if 0 <= i < args.len() {
                        rename_term(args[i], r)
                    } else {
                        TermV::Const(Seq::empty())
                    },
            ),
        ),
    }
}

/// Rename the variables of a formula; an existential's variable is renamed
/// too when the map has it.
pub open spec fn rename_formula(f: FormulaV, r: Map<Seq<char>, Seq<char>>) -> FormulaV
    decreases f,
{
    match f {
        FormulaV::Eq(l, rr) => FormulaV::Eq(rename_term(l, r), rename_term(rr, r)),
        FormulaV::Pred(n, args) => FormulaV::Pred(n, args.map_values(|a: TermV| rename_term(a, r))),
        FormulaV::And(l, rr) => FormulaV::And(
            Box::new(rename_formula(*l, r)),
            Box::new(rename_formula(*rr, r)),
        ),
        FormulaV::Or(l, rr) => FormulaV::Or(
            Box::new(rename_formula(*l, r)),
            Box::new(rename_formula(*rr, r)),
        ),
        FormulaV::Not(i) => FormulaV::Not(Box::new(rename_formula(*i, r))),
        FormulaV::Implies(l, rr) => FormulaV::Implies(
            Box::new(rename_formula(*l, r)),
            Box::new(rename_formula(*rr, r)),
        ),
        FormulaV::Exists(v, s, b) => FormulaV::Exists(
            rename_name(v, r),
            s,
            Box::new(rename_formula(*b, r)),
        ),
    }
}

/// The copy of an axiom whose variables carry the suffix `_k`.
pub open spec fn instantiate_spec(a: AxiomV, k: nat) -> AxiomV {
    let r = rename_map(a.vars, k);
    AxiomV {
        name: a.name,
        vars: a.vars.map_values(|v: Seq<char>| suffixed(v, k)),
        premises: a.premises.map_values(|p: FormulaV| rename_formula(p, r)),
        conclusion: rename_formula(a.conclusion, r),
    }
}

/// A renaming as names.
pub open spec fn renaming_view(m: Map<Seq<char>, String>) -> Map<Seq<char>, Seq<char>> {
    m.map_values(|s: String| s@)
}

fn suffixed_name(v: &String, k: usize) -> (s: String)
    ensures
        s@ == suffixed(v@, k as nat),
{
    proof {
        reveal_strlit("_");
    }
    let mut s = v.clone();
    s.append("_");
    push_decimal(&mut s, k as u64);
    s
}

fn rename_name_exec(n: &String, rename: &NameMap<String>) -> (r: String)
    ensures
        r@ == rename_name(n@, renaming_view(rename@)),
{
    match rename.get(n) {
        Some(v) => v.clone(),
        None => n.clone(),
    }
}

fn rename_term_exec(t: &Term, rename: &NameMap<String>) -> (r: Term)
    ensures
        r@ == rename_term(t@, renaming_view(rename@)),
    decreases t,
{
    match t {
        Term::Var(n, s) => Term::Var(rename_name_exec(n, rename), s.duplicate()),
        Term::Const(_) => t.duplicate(),
        Term::Apply(f, args) => {
            let ghost rv = renaming_view(rename@);
            let mut out: Vec<Term> = Vec::new();
            let mut i: usize = 0;
            while i < args.len()
                invariant
                    i <= args@.len(),
                    out@.len() == i,
                    *t == Term::Apply(*f, *args),
                    rv == renaming_view(rename@),
                    forall|j: int| 0 <= j < i ==> #[trigger] out@[j]@ == rename_term(args@[j]@, rv),
                decreases args@.len() - i,
            {
                proof {
                    assert(decreases_to!(*t => t->Apply_1));
                }
                out.push(rename_term_exec(&args[i], rename));
                i = i + 1;
            }
            let r = Term::Apply(f.clone(), out);
            proof {
                let st = rename_term(t@, rv);
                assert(t@ == TermV::Apply(f@, terms_view_of(*args)));
                assert forall|j: int| 0 <= j < args@.len() implies terms_view_of(out)[j] == st->Apply_1[j] by {
                    assert(out@[j]@ == rename_term(args@[j]@, rv));
                }
                assert(terms_view_of(out) =~= st->Apply_1);
            }
            r
        },
    }
}

fn rename_formula_exec(f: &Formula, rename: &NameMap<String>) -> (r: Formula)
    ensures
        r@ == rename_formula(f@, renaming_view(rename@)),
    decreases f,
{
    match f {
        Formula::Eq(l, r) => Formula::Eq(rename_term_exec(l, rename), rename_term_exec(r, rename)),
        Formula::Pred(n, args) => {
            let ghost rv = renaming_view(rename@);
            let ghost vs = terms_view_of(*args);
            let mut out: Vec<Term> = Vec::new();
            let mut i: usize = 0;
            while i < args.len()
                invariant
                    i <= args@.len(),
                    out@.len() == i,
                    rv == renaming_view(rename@),
                    vs == terms_view_of(*args),
                    forall|j: int| 0 <= j < i ==> #[trigger] out@[j]@ == rename_term(vs[j], rv),
                decreases args@.len() - i,
            {
                out.push(rename_term_exec(&args[i], rename));
                i = i + 1;
            }
            proof {
                assert forall|j: int| 0 <= j < vs.len() implies terms_view_of(out)[j] == rename_term(vs[j], rv) by {
                    assert(out@[j]@ == rename_term(vs[j], rv));
                }
                assert(terms_view_of(out) =~= vs.map_values(|a: TermV| rename_term(a, rv)));
            }
            Formula::Pred(n.clone(), out)
        },
        Formula::And(l, r) => Formula::And(
            Box::new(rename_formula_exec(l, rename)),
            Box::new(rename_formula_exec(r, rename)),
        ),
        Formula::Or(l, r) => Formula::Or(
            Box::new(rename_formula_exec(l, rename)),
            Box::new(rename_formula_exec(r, rename)),
        ),
        Formula::Not(i) => Formula::Not(Box::new(rename_formula_exec(i, rename))),
        Formula::Implies(l, r) => Formula::Implies(
            Box::new(rename_formula_exec(l, rename)),
            Box::new(rename_formula_exec(r, rename)),
        ),
        Formula::Exists { var, sort, body } => Formula::Exists {
            var: rename_name_exec(var, rename),
            sort: sort.duplicate(),
            body: Box::new(rename_formula_exec(body, rename)),
        },
    }
}

/// Copy an axiom, suffixing every universally-quantified variable name with
/// `_<counter>` so that two uses of the same axiom within one proof branch
/// cannot collide in the shared bindings.  Only the names in `vars` are
/// renamed; predicate / function names and sort names are left untouched.
pub fn instantiate_axiom(ax: &Axiom, counter: usize) -> (r: Axiom)
    ensures
        r@ == instantiate_spec(ax@, counter as nat),
{
    let ghost vars = strings_view(ax.vars@);
    let mut rename: NameMap<String> = NameMap::new();
    let mut new_vars: Vec<String> = Vec::new();
    let mut i: usize = 0;
    while i < ax.vars.len()
        invariant
            i <= ax.vars@.len(),
            vars == strings_view(ax.vars@),
            new_vars@.len() == i,
            forall|j: int| 0 <= j < i ==> #[trigger] new_vars@[j]@ == suffixed(vars[j], counter as nat),
            forall|v: Seq<char>| #[trigger]
                renaming_view(rename@).contains_key(v) <==> vars.take(i as int).contains(v),
            forall|v: Seq<char>|
                renaming_view(rename@).contains_key(v) ==> #[trigger] renaming_view(rename@)[v]
                    == suffixed(v, counter as nat),
        decreases ax.vars@.len() - i,
    {
        let v = &ax.vars[i];
        let sv = suffixed_name(v, counter);
        let ghost before = renaming_view(rename@);
        let ghost svv = sv@;
        rename.insert(v.clone(), sv);
        new_vars.push(suffixed_name(v, counter));
        proof {
            assert(renaming_view(rename@) =~= before.insert(v@, svv));
            assert(vars[i as int] == v@);
            assert(vars.take(i + 1) =~= vars.take(i as int).push(vars[i as int]));
            assert forall|w: Seq<char>| #[trigger] renaming_view(rename@).contains_key(w) <==> vars.take(i + 1).contains(w) by {
                if w == v@ {
                    assert(vars.take(i + 1)[i as int] == w);
                } else if vars.take(i + 1).contains(w) {
                    let t1 = vars.take(i + 1);
                    let q = choose|q: int| 0 <= q < t1.len() && t1[q] == w;
                    assert(vars.take(i as int)[q] == w);
                } else if before.contains_key(w) {
                    let t0 = vars.take(i as int);
                    let q = choose|q: int| 0 <= q < t0.len() && t0[q] == w;
                    assert(vars.take(i + 1)[q] == w);
                }
            }
        }
        i = i + 1;
    }
    proof {
        assert(vars.take(ax.vars@.len() as int) =~= vars);
        assert(renaming_view(rename@) =~= rename_map(vars, counter as nat));
    }
    let mut premises: Vec<Formula> = Vec::new();
    let mut k: usize = 0;
    while k < ax.premises.len()
        invariant
            k <= ax.premises@.len(),
            premises@.len() == k,
            renaming_view(rename@) == rename_map(vars, counter as nat),
            forall|j: int| 0 <= j < k ==> #[trigger] premises@[j]@ == rename_formula(
                ax.premises@[j]@,
                rename_map(vars, counter as nat),
            ),
        decreases ax.premises@.len() - k,
    {
        premises.push(rename_formula_exec(&ax.premises[k], &rename));
        k = k + 1;
    }
    let r = Axiom {
        name: ax.name.clone(),
        vars: new_vars,
        premises,
        conclusion: rename_formula_exec(&ax.conclusion, &rename),
    };
    proof {
        let t = instantiate_spec(ax@, counter as nat);
        assert(r@.vars =~= t.vars);
        assert(r@.premises =~= t.premises);
    }
    r
}


// ---------------------------------------------------------------------------
// Proof search (IDDFS)
// ---------------------------------------------------------------------------

/// The number of connectives and atoms of a formula.
pub open spec fn formula_size(f: FormulaV) -> nat
    decreases f,
{
    match f {
        FormulaV::Eq(_, _) => 1,
        FormulaV::Pred(_, _) => 1,
        FormulaV::And(l, r) => 1 + formula_size(*l) + formula_size(*r),
        FormulaV::Or(l, r) => 1 + formula_size(*l) + formula_size(*r),
        FormulaV::Not(i) => 1 + formula_size(*i),
        FormulaV::Implies(l, r) => 1 + formula_size(*l) + formula_size(*r),
        FormulaV::Exists(_, _, b) => 1 + formula_size(*b),
    }
}

/// Substitution changes no connective.
pub proof fn lemma_subst_size(f: FormulaV, b: BindingsV)
    ensures
        formula_size(formula_subst(f, b)) == formula_size(f),
    decreases f,
{
    match f {
        FormulaV::And(l, r) => {
            lemma_subst_size(*l, b);
            lemma_subst_size(*r, b);
        },
        FormulaV::Or(l, r) => {
            lemma_subst_size(*l, b);
            lemma_subst_size(*r, b);
        },
        FormulaV::Not(i) => {
            lemma_subst_size(*i, b);
        },
        FormulaV::Implies(l, r) => {
            lemma_subst_size(*l, b);
            lemma_subst_size(*r, b);
        },
        FormulaV::Exists(v, _, body) => {
            lemma_subst_size(*body, b.remove(v));
        },
        _ => {},
    }
}

/// Add the bindings of `src` to `dst`; a key of both takes its value from `src`.
pub fn extend_bindings(dst: &mut Bindings, src: &Bindings)
    ensures
        bview(final(dst)@) == bview(old(dst)@).union_prefer_right(bview(src@)),
{
    let n = src.len();
    let ghost d0 = bview(dst@);
    let ghost sv = bview(src@);
    let mut i: usize = 0;
    while i < n
        invariant
            n == src.spec_entries().len(),
            i <= n,
            d0 == bview(old(dst)@),
            sv == bview(src@),
            keys_distinct(src.spec_entries()),
            forall|k: Seq<char>| #[trigger]
                src@.contains_key(k) <==> exists|q: int| 0 <= q < n && src.spec_entries()[q].0@ == k,
            forall|q: int|
                0 <= q < n ==> #[trigger] src@[src.spec_entries()[q].0@] == src.spec_entries()[q].1,
            bview(dst@) == d0.union_prefer_right(sv.restrict(first_keys(src.spec_entries(), i as int))),
        decreases n - i,
    {
        let ghost before = bview(dst@);
        let k = src.key_at(i).clone();
        let v = src.value_at(i).duplicate();
        let ghost kv = k@;
        let ghost vv = v@;
        dst.insert(k, v);
        proof {
            assert(first_keys(src.spec_entries(), i + 1) =~= first_keys(src.spec_entries(), i as int).insert(kv)) by {
                let s0 = first_keys(src.spec_entries(), i as int);
                let s1 = first_keys(src.spec_entries(), i + 1);
                assert forall|w: Seq<char>| s1.contains(w) implies s0.insert(kv).contains(w) by {
                    let q = choose|q: int| 0 <= q < i + 1 && src.spec_entries()[q].0@ == w;
                    if q < i {
                        assert(s0.contains(w));
                    }
                }
                assert forall|w: Seq<char>| s0.insert(kv).contains(w) implies s1.contains(w) by {
                    if w == kv {
                        assert(0 <= i < i + 1 && src.spec_entries()[i as int].0@ == w);
                    } else {
                        let q = choose|q: int| 0 <= q < i && src.spec_entries()[q].0@ == w;
                        assert(0 <= q < i + 1 && src.spec_entries()[q].0@ == w);
                    }
                }
            }
            assert(sv[kv] == vv);
            assert(bview(dst@) =~= before.insert(kv, vv));
            assert(bview(dst@) =~= d0.union_prefer_right(sv.restrict(first_keys(src.spec_entries(), i + 1))));
        }
        i = i + 1;
    }
    proof {
        assert(sv.restrict(first_keys(src.spec_entries(), n as int)) =~= sv);
    }
}

/// Whether `f` is (structurally) one of the formulas of `path`.
fn path_contains(path: &Vec<Formula>, f: &Formula) -> (r: bool)
    ensures
        r == formulas_view(path@).contains(f@),
{
    let mut i: usize = 0;
    while i < path.len()
        invariant
            i <= path@.len(),
            forall|j: int| 0 <= j < i ==> path@[j]@ != f@,
        decreases path@.len() - i,
    {
        if path[i].same(f) {
            proof {
                assert(formulas_view(path@)[i as int] == f@);
            }
            return true;
        }
        i = i + 1;
    }
    proof {
        if formulas_view(path@).contains(f@) {
            let j = choose|j: int| 0 <= j < formulas_view(path@).len() && formulas_view(path@)[j] == f@;
            assert(path@[j]@ == f@);
        }
    }
    false
}

/// `path` with `f` appended (copies).
fn extended_path(path: &Vec<Formula>, f: &Formula) -> (r: Vec<Formula>)
    ensures
        formulas_view(r@) == formulas_view(path@).push(f@),
{
    let mut r = copy_formulas(path);
    r.push(f.duplicate());
    proof {
        assert(formulas_view(r@) =~= formulas_view(path@).push(f@));
    }
    r
}

/// The results of a search step: each proof fits its rules and proves the
/// goal with the bindings in force applied.
pub open spec fn results_ok(
    results: Seq<(ProofStep, Bindings)>,
    goal: FormulaV,
    axioms: Seq<AxiomV>,
) -> bool {
    forall|i: int|
        0 <= i < results.len() ==> well_shaped(#[trigger] results[i].0@, axioms) && results[i].0@.goal
            == goal
}

/// The counter after one more renamed axiom: one more, wrapping at the top.
pub open spec fn next_axiom_count(c: usize) -> usize {
    if c == usize::MAX {
        0
    } else {
        (c + 1) as usize
    }
}

/// A proof step without witnesses.
pub open spec fn simple_step(goal: FormulaV, rule: Seq<char>, subs: Seq<StepV>) -> StepV {
    StepV { goal, rule, subs, witnesses: Seq::empty() }
}

/// The step that proves the existential `goal` (binding `v`) from a proof
/// `sub` of its instance `wg` for the Skolem variable `st`, once the search
/// ended with bindings `fb`: the sub-proof shows the instance with `fb`
/// applied, and the witness is what `st` resolved to.
pub open spec fn exists_step(
    goal: FormulaV,
    v: Seq<char>,
    st: TermV,
    wg: FormulaV,
    sub: StepV,
    fb: BindingsV,
) -> StepV {
    StepV {
        goal,
        rule: existential_rule(),
        subs: seq![StepV { goal: formula_subst(wg, fb), ..sub }],
        witnesses: seq![(v, term_subst(st, fb))],
    }
}

/// Conjunction steps on `cg` from the left proof `p1` and each right proof.
pub open spec fn conj_steps(cg: FormulaV, p1: StepV, rs: Seq<(StepV, BindingsV)>) -> Seq<(StepV, BindingsV)> {
    rs.map_values(|x: (StepV, BindingsV)| (simple_step(cg, conjunction_rule(), seq![p1, x.0]), x.1))
}

/// Disjunction steps on `cg`, by `rule`, one for each proof of a side.
pub open spec fn or_steps(cg: FormulaV, rule: Seq<char>, rs: Seq<(StepV, BindingsV)>) -> Seq<(StepV, BindingsV)> {
    rs.map_values(|x: (StepV, BindingsV)| (simple_step(cg, rule, seq![x.0]), x.1))
}

/// Existential steps on `cg`, one for each proof of the instance `wg`;
/// each ends with the bindings `b` extended by those its proof ended with.
pub open spec fn exists_steps(
    cg: FormulaV,
    v: Seq<char>,
    st: TermV,
    wg: FormulaV,
    b: BindingsV,
    rs: Seq<(StepV, BindingsV)>,
) -> Seq<(StepV, BindingsV)> {
    rs.map_values(|x: (StepV, BindingsV)| (exists_step(cg, v, st, wg, x.0, x.1), b.union_prefer_right(x.1)))
}

/// Steps on `cg` by the axiom `name`, one for each surviving state.
pub open spec fn axiom_steps(
    cg: FormulaV,
    name: Seq<char>,
    states: Seq<(Seq<StepV>, BindingsV)>,
) -> Seq<(StepV, BindingsV)> {
    states.map_values(|x: (Seq<StepV>, BindingsV)| (simple_step(cg, name, x.0), x.1))
}

/// The state (`so_far`, `cb`) extended by each proof of the next premise.
pub open spec fn extend_states(
    so_far: Seq<StepV>,
    cb: BindingsV,
    rs: Seq<(StepV, BindingsV)>,
) -> Seq<(Seq<StepV>, BindingsV)> {
    rs.map_values(|x: (StepV, BindingsV)| (so_far.push(x.0), cb.union_prefer_right(x.1)))
}

/// The depth-first search: all proofs of `goal` (with `b` applied) within
/// `depth`, in the order found, each with the bindings it ends with; and
/// the Skolem and renaming counters afterwards.  `path` holds the goals of
/// the branch, which are not tried again.
pub open spec fn search(
    goal: FormulaV,
    axs: Seq<AxiomV>,
    depth: nat,
    b: BindingsV,
    path: Seq<FormulaV>,
    sk: u32,
    ax: usize,
) -> (Seq<(StepV, BindingsV)>, u32, usize)
    decreases depth, formula_size(goal), 3nat, 0nat, 0nat,
{
    let cg = formula_subst(goal, b);
    if depth == 0 || path.contains(cg) {
        (Seq::empty(), sk, ax)
    } else {
        proof {
            lemma_subst_size(goal, b);
        }
        let path2 = path.push(cg);
        match cg {
            FormulaV::And(l, _) => {
                let ls = search(*l, axs, depth, b, path2, sk, ax);
                conj_search(cg, ls.0, axs, depth, path2, ls.1, ls.2)
            },
            FormulaV::Or(l, r) => {
                let ls = search(*l, axs, depth, b, path2, sk, ax);
                let rs = search(*r, axs, depth, b, path2, ls.1, ls.2);
                (
                    or_steps(cg, disjunction_left_rule(), ls.0) + or_steps(cg, disjunction_right_rule(), rs.0),
                    rs.1,
                    rs.2,
                )
            },
            FormulaV::Exists(v, srt, body) => {
                let sk1 = next_count(sk);
                let st = TermV::Var(skolem_name(sk1), srt);
                let wb = b.insert(v, st);
                let wg = formula_subst(*body, wb);
                let subs = search(wg, axs, (depth - 1) as nat, wb, path2, sk1, ax);
                (exists_steps(cg, v, st, wg, b, subs.0), subs.1, subs.2)
            },
            _ => axiom_search(cg, axs, 0, depth, b, path2, sk, ax),
        }
    }
}

/// The conjunction rule on `cg`: for each proof of the left side in turn,
/// every proof of the right side under the bindings that proof ended with.
pub open spec fn conj_search(
    cg: FormulaV,
    lefts: Seq<(StepV, BindingsV)>,
    axs: Seq<AxiomV>,
    depth: nat,
    path: Seq<FormulaV>,
    sk: u32,
    ax: usize,
) -> (Seq<(StepV, BindingsV)>, u32, usize)
    decreases depth, formula_size(cg), 2nat, lefts.len(), 0nat,
{
    if lefts.len() == 0 {
        (Seq::empty(), sk, ax)
    } else {
        match cg {
            FormulaV::And(_, r) => {
                let p1 = lefts[0].0;
                let b1 = lefts[0].1;
                let rsub = formula_subst(*r, b1);
                proof {
                    lemma_subst_size(*r, b1);
                }
                let rs = search(rsub, axs, depth, b1, path, sk, ax);
                let rest = conj_search(cg, lefts.drop_first(), axs, depth, path, rs.1, rs.2);
                (conj_steps(cg, p1, rs.0) + rest.0, rest.1, rest.2)
            },
            _ => (Seq::empty(), sk, ax),
        }
    }
}

/// Backward chaining on `cg` with the axioms from index `a` on: each axiom
/// is renamed apart with the next counter value, and where its conclusion
/// unifies with the goal, its premises are proved in turn.
pub open spec fn axiom_search(
    cg: FormulaV,
    axs: Seq<AxiomV>,
    a: nat,
    depth: nat,
    b: BindingsV,
    path: Seq<FormulaV>,
    sk: u32,
    ax: usize,
) -> (Seq<(StepV, BindingsV)>, u32, usize)
    decreases depth, 0nat, 2nat, axs.len() - a, 0nat,
{
    if a >= axs.len() {
        (Seq::empty(), sk, ax)
    } else {
        let ax1 = next_axiom_count(ax);
        let fresh = instantiate_spec(axs[a as int], ax1 as nat);
        let u = formula_unify(fresh.conclusion, cg, Map::empty());
        if u.0 {
            let start = b.union_prefer_right(u.1);
            let st = premise_search(fresh.premises, seq![(Seq::<StepV>::empty(), start)], axs, depth, path, sk, ax1);
            let rest = axiom_search(cg, axs, a + 1, depth, b, path, st.1, st.2);
            (axiom_steps(cg, axs[a as int].name, st.0) + rest.0, rest.1, rest.2)
        } else {
            axiom_search(cg, axs, a + 1, depth, b, path, sk, ax1)
        }
    }
}

/// Proving the premises `prems` in turn from each of `states` (the
/// sub-proofs so far and the bindings in force): the states that survive.
pub open spec fn premise_search(
    prems: Seq<FormulaV>,
    states: Seq<(Seq<StepV>, BindingsV)>,
    axs: Seq<AxiomV>,
    depth: nat,
    path: Seq<FormulaV>,
    sk: u32,
    ax: usize,
) -> (Seq<(Seq<StepV>, BindingsV)>, u32, usize)
    decreases depth, 0nat, 1nat, prems.len(), 1nat,
{
    if prems.len() == 0 {
        (states, sk, ax)
    } else {
        let nx = state_search(prems[0], states, axs, depth, path, sk, ax);
        premise_search(prems.drop_first(), nx.0, axs, depth, path, nx.1, nx.2)
    }
}

/// Proving one premise from each of `states` in turn, one step below
/// `depth`: each proof found extends its state.
pub open spec fn state_search(
    prem: FormulaV,
    states: Seq<(Seq<StepV>, BindingsV)>,
    axs: Seq<AxiomV>,
    depth: nat,
    path: Seq<FormulaV>,
    sk: u32,
    ax: usize,
) -> (Seq<(Seq<StepV>, BindingsV)>, u32, usize)
    decreases depth, 0nat, 1nat, 0nat, states.len(),
{
    if states.len() == 0 || depth == 0 {
        (Seq::empty(), sk, ax)
    } else {
        let so_far = states[0].0;
        let cb = states[0].1;
        let pp = search(formula_subst(prem, cb), axs, (depth - 1) as nat, cb, path, sk, ax);
        let rest = state_search(prem, states.drop_first(), axs, depth, path, pp.1, pp.2);
        (extend_states(so_far, cb, pp.0) + rest.0, rest.1, rest.2)
    }
}

// ---------------------------------------------------------------------------
// The counter values a search uses
// ---------------------------------------------------------------------------

/// Two lists of counter values, one after the other.
pub open spec fn then_uses(
    a: (Seq<u32>, Seq<usize>),
    b: (Seq<u32>, Seq<usize>),
) -> (Seq<u32>, Seq<usize>) {
    (a.0 + b.0, a.1 + b.1)
}

/// The Skolem counter values (one per Skolem name minted) and the renaming
/// counter values (one per axiom renamed apart) that `search` uses, in the
/// order it uses them.
pub open spec fn search_uses(
    goal: FormulaV,
    axs: Seq<AxiomV>,
    depth: nat,
    b: BindingsV,
    path: Seq<FormulaV>,
    sk: u32,
    ax: usize,
) -> (Seq<u32>, Seq<usize>)
    decreases depth, formula_size(goal), 3nat, 0nat, 0nat,
{
    let cg = formula_subst(goal, b);
    if depth == 0 || path.contains(cg) {
        (Seq::empty(), Seq::empty())
    } else {
        proof {
            lemma_subst_size(goal, b);
        }
        let path2 = path.push(cg);
        match cg {
            FormulaV::And(l, _) => {
                let ls = search(*l, axs, depth, b, path2, sk, ax);
                then_uses(
                    search_uses(*l, axs, depth, b, path2, sk, ax),
                    conj_uses(cg, ls.0, axs, depth, path2, ls.1, ls.2),
                )
            },
            FormulaV::Or(l, r) => {
                let ls = search(*l, axs, depth, b, path2, sk, ax);
                then_uses(
                    search_uses(*l, axs, depth, b, path2, sk, ax),
                    search_uses(*r, axs, depth, b, path2, ls.1, ls.2),
                )
            },
            FormulaV::Exists(v, srt, body) => {
                let sk1 = next_count(sk);
                let st = TermV::Var(skolem_name(sk1), srt);
                let wb = b.insert(v, st);
                let wg = formula_subst(*body, wb);
                then_uses(
                    (seq![sk1], Seq::empty()),
                    search_uses(wg, axs, (depth - 1) as nat, wb, path2, sk1, ax),
                )
            },
            _ => axiom_uses(cg, axs, 0, depth, b, path2, sk, ax),
        }
    }
}

/// The counter values that `conj_search` uses.
pub open spec fn conj_uses(
    cg: FormulaV,
    lefts: Seq<(StepV, BindingsV)>,
    axs: Seq<AxiomV>,
    depth: nat,
    path: Seq<FormulaV>,
    sk: u32,
    ax: usize,
) -> (Seq<u32>, Seq<usize>)
    decreases depth, formula_size(cg), 2nat, lefts.len(), 0nat,
{
    if lefts.len() == 0 {
        (Seq::empty(), Seq::empty())
    } else {
        match cg {
            FormulaV::And(_, r) => {
                let b1 = lefts[0].1;
                let rsub = formula_subst(*r, b1);
                proof {
                    lemma_subst_size(*r, b1);
                }
                let rs = search(rsub, axs, depth, b1, path, sk, ax);
                then_uses(
                    search_uses(rsub, axs, depth, b1, path, sk, ax),
                    conj_uses(cg, lefts.drop_first(), axs, depth, path, rs.1, rs.2),
                )
            },
            _ => (Seq::empty(), Seq::empty()),
        }
    }
}

/// The counter values that `axiom_search` uses.
pub open spec fn axiom_uses(
    cg: FormulaV,
    axs: Seq<AxiomV>,
    a: nat,
    depth: nat,
    b: BindingsV,
    path: Seq<FormulaV>,
    sk: u32,
    ax: usize,
) -> (Seq<u32>, Seq<usize>)
    decreases depth, 0nat, 2nat, axs.len() - a, 0nat,
{
    if a >= axs.len() {
        (Seq::empty(), Seq::empty())
    } else {
        let ax1 = next_axiom_count(ax);
        let fresh = instantiate_spec(axs[a as int], ax1 as nat);
        let u = formula_unify(fresh.conclusion, cg, Map::empty());
        if u.0 {
            let start = b.union_prefer_right(u.1);
            let states = seq![(Seq::<StepV>::empty(), start)];
            let st = premise_search(fresh.premises, states, axs, depth, path, sk, ax1);
            then_uses(
                (Seq::empty(), seq![ax1]),
                then_uses(
                    premise_uses(fresh.premises, states, axs, depth, path, sk, ax1),
                    axiom_uses(cg, axs, a + 1, depth, b, path, st.1, st.2),
                ),
            )
        } else {
            then_uses((Seq::empty(), seq![ax1]), axiom_uses(cg, axs, a + 1, depth, b, path, sk, ax1))
        }
    }
}

/// The counter values that `premise_search` uses.
pub open spec fn premise_uses(
    prems: Seq<FormulaV>,
    states: Seq<(Seq<StepV>, BindingsV)>,
    axs: Seq<AxiomV>,
    depth: nat,
    path: Seq<FormulaV>,
    sk: u32,
    ax: usize,
) -> (Seq<u32>, Seq<usize>)
    decreases depth, 0nat, 1nat, prems.len(), 1nat,
{
    if prems.len() == 0 {
        (Seq::empty(), Seq::empty())
    } else {
        let nx = state_search(prems[0], states, axs, depth, path, sk, ax);
        then_uses(
            state_uses(prems[0], states, axs, depth, path, sk, ax),
            premise_uses(prems.drop_first(), nx.0, axs, depth, path, nx.1, nx.2),
        )
    }
}

/// The counter values that `state_search` uses.
pub open spec fn state_uses(
    prem: FormulaV,
    states: Seq<(Seq<StepV>, BindingsV)>,
    axs: Seq<AxiomV>,
    depth: nat,
    path: Seq<FormulaV>,
    sk: u32,
    ax: usize,
) -> (Seq<u32>, Seq<usize>)
    decreases depth, 0nat, 1nat, 0nat, states.len(),
{
    if states.len() == 0 || depth == 0 {
        (Seq::empty(), Seq::empty())
    } else {
        let cb = states[0].1;
        let pp = search(formula_subst(prem, cb), axs, (depth - 1) as nat, cb, path, sk, ax);
        then_uses(
            search_uses(formula_subst(prem, cb), axs, (depth - 1) as nat, cb, path, sk, ax),
            state_uses(prem, states.drop_first(), axs, depth, path, pp.1, pp.2),
        )
    }
}

/// Starting from `c`, the values `us` are the successive counter values
/// modulo `m` (`c + 1`, `c + 2`, ...), and `end` is the value after the last.
pub open spec fn counts_up(us: Seq<int>, c: int, end: int, m: int) -> bool {
    &&& end == (c + us.len()) % m
    &&& forall|i: int| 0 <= i < us.len() ==> #[trigger] us[i] == (c + i + 1) % m
}

/// The Skolem counter values as integers.
pub open spec fn sk_ints(us: Seq<u32>) -> Seq<int> {
    us.map_values(|x: u32| x as int)
}

/// The renaming counter values as integers.
pub open spec fn ax_ints(us: Seq<usize>) -> Seq<int> {
    us.map_values(|x: usize| x as int)
}

/// One more than the largest Skolem counter value.
pub open spec fn sk_modulus() -> int {
    u32::MAX as int + 1
}

/// One more than the largest renaming counter value.
pub open spec fn ax_modulus() -> int {
    usize::MAX as int + 1
}

/// The counters of a search, `sk` and `ax` at the start and `r` at the end,
/// count up through the values in `u`.
pub open spec fn counted(u: (Seq<u32>, Seq<usize>), sk: u32, ax: usize, r: (u32, usize)) -> bool {
    &&& counts_up(sk_ints(u.0), sk as int, r.0 as int, sk_modulus())
    &&& counts_up(ax_ints(u.1), ax as int, r.1 as int, ax_modulus())
}

proof fn lemma_counts_then(a: Seq<int>, b: Seq<int>, c0: int, c1: int, c2: int, m: int)
    requires
        m > 0,
        0 <= c0 < m,
        counts_up(a, c0, c1, m),
        counts_up(b, c1, c2, m),
    ensures
        counts_up(a + b, c0, c2, m),
{
    vstd::arithmetic::div_mod::lemma_add_mod_noop_right(b.len() as int, c0 + a.len(), m);
    assert((c0 + a.len() + b.len()) % m == c2);
    assert forall|i: int| 0 <= i < (a + b).len() implies #[trigger] (a + b)[i] == (c0 + i + 1) % m by {
        if i >= a.len() {
            let k = i - a.len();
            assert((a + b)[i] == b[k]);
            vstd::arithmetic::div_mod::lemma_add_mod_noop_right(k + 1, c0 + a.len(), m);
        }
    }
}

proof fn lemma_counted_then(
    u1: (Seq<u32>, Seq<usize>),
    u2: (Seq<u32>, Seq<usize>),
    sk: u32,
    ax: usize,
    r1: (u32, usize),
    r2: (u32, usize),
)
    requires
        counted(u1, sk, ax, r1),
        counted(u2, r1.0, r1.1, r2),
    ensures
        counted(then_uses(u1, u2), sk, ax, r2),
{
    assert(sk_ints(u1.0 + u2.0) =~= sk_ints(u1.0) + sk_ints(u2.0));
    assert(ax_ints(u1.1 + u2.1) =~= ax_ints(u1.1) + ax_ints(u2.1));
    lemma_counts_then(sk_ints(u1.0), sk_ints(u2.0), sk as int, r1.0 as int, r2.0 as int, sk_modulus());
    lemma_counts_then(ax_ints(u1.1), ax_ints(u2.1), ax as int, r1.1 as int, r2.1 as int, ax_modulus());
}

proof fn lemma_counted_none(sk: u32, ax: usize)
    ensures
        counted((Seq::empty(), Seq::empty()), sk, ax, (sk, ax)),
{
    vstd::arithmetic::div_mod::lemma_small_mod(sk as nat, sk_modulus() as nat);
    vstd::arithmetic::div_mod::lemma_small_mod(ax as nat, ax_modulus() as nat);
    assert(sk_ints(Seq::empty()) =~= Seq::<int>::empty());
    assert(ax_ints(Seq::empty()) =~= Seq::<int>::empty());
}

proof fn lemma_counted_skolem(sk: u32, ax: usize)
    ensures
        counted((seq![next_count(sk)], Seq::empty()), sk, ax, (next_count(sk), ax)),
{
    vstd::arithmetic::div_mod::lemma_small_mod(ax as nat, ax_modulus() as nat);
    if sk == u32::MAX {
        assert((sk + 1) % sk_modulus() == 0) by {
            vstd::arithmetic::div_mod::lemma_mod_self_0(sk_modulus());
        }
    } else {
        vstd::arithmetic::div_mod::lemma_small_mod((sk + 1) as nat, sk_modulus() as nat);
    }
    assert(sk_ints(seq![next_count(sk)]) =~= seq![next_count(sk) as int]);
    assert(ax_ints(Seq::empty()) =~= Seq::<int>::empty());
}

proof fn lemma_counted_rename(sk: u32, ax: usize)
    ensures
        counted((Seq::empty(), seq![next_axiom_count(ax)]), sk, ax, (sk, next_axiom_count(ax))),
{
    vstd::arithmetic::div_mod::lemma_small_mod(sk as nat, sk_modulus() as nat);
    if ax == usize::MAX {
        assert((ax + 1) % ax_modulus() == 0) by {
            vstd::arithmetic::div_mod::lemma_mod_self_0(ax_modulus());
        }
    } else {
        vstd::arithmetic::div_mod::lemma_small_mod((ax + 1) as nat, ax_modulus() as nat);
    }
    assert(ax_ints(seq![next_axiom_count(ax)]) =~= seq![next_axiom_count(ax) as int]);
    assert(sk_ints(Seq::empty()) =~= Seq::<int>::empty());
}

/// Counter values that count up are distinct while fewer than the modulus.
proof fn lemma_counts_distinct(us: Seq<int>, c: int, end: int, m: int)
    requires
        m > 0,
        counts_up(us, c, end, m),
        us.len() <= m,
    ensures
        forall|i: int, j: int| 0 <= i < j < us.len() ==> us[i] != us[j],
{
    assert forall|i: int, j: int| 0 <= i < j < us.len() implies us[i] != us[j] by {
        let x = c + i + 1;
        let d = j - i;
        assert(us[i] == x % m);
        assert(us[j] == (x + d) % m);
        vstd::arithmetic::div_mod::lemma_fundamental_div_mod(x, m);
        vstd::arithmetic::div_mod::lemma_fundamental_div_mod(x + d, m);
        let q0 = x / m;
        let q1 = (x + d) / m;
        if x % m == (x + d) % m {
            let r = x % m;
            assert(d == m * (q1 - q0)) by (nonlinear_arith)
                requires
                    x == m * q0 + r,
                    x + d == m * q1 + r,
            ;
            assert(false) by (nonlinear_arith)
                requires
                    d == m * (q1 - q0),
                    0 < d < m,
            ;
        }
    }
}

proof fn lemma_search_counted(
    goal: FormulaV,
    axs: Seq<AxiomV>,
    depth: nat,
    b: BindingsV,
    path: Seq<FormulaV>,
    sk: u32,
    ax: usize,
)
    ensures
        counted(
            search_uses(goal, axs, depth, b, path, sk, ax),
            sk,
            ax,
            (search(goal, axs, depth, b, path, sk, ax).1, search(goal, axs, depth, b, path, sk, ax).2),
        ),
    decreases depth, formula_size(goal), 3nat, 0nat, 0nat,
{
    let cg = formula_subst(goal, b);
    if depth == 0 || path.contains(cg) {
        lemma_counted_none(sk, ax);
    } else {
        lemma_subst_size(goal, b);
        let path2 = path.push(cg);
        match cg {
            FormulaV::And(l, _) => {
                let ls = search(*l, axs, depth, b, path2, sk, ax);
                lemma_search_counted(*l, axs, depth, b, path2, sk, ax);
                lemma_conj_counted(cg, ls.0, axs, depth, path2, ls.1, ls.2);
                let c = conj_search(cg, ls.0, axs, depth, path2, ls.1, ls.2);
                lemma_counted_then(
                    search_uses(*l, axs, depth, b, path2, sk, ax),
                    conj_uses(cg, ls.0, axs, depth, path2, ls.1, ls.2),
                    sk,
                    ax,
                    (ls.1, ls.2),
                    (c.1, c.2),
                );
            },
            FormulaV::Or(l, r) => {
                let ls = search(*l, axs, depth, b, path2, sk, ax);
                let rs = search(*r, axs, depth, b, path2, ls.1, ls.2);
                lemma_search_counted(*l, axs, depth, b, path2, sk, ax);
                lemma_search_counted(*r, axs, depth, b, path2, ls.1, ls.2);
                lemma_counted_then(
                    search_uses(*l, axs, depth, b, path2, sk, ax),
                    search_uses(*r, axs, depth, b, path2, ls.1, ls.2),
                    sk,
                    ax,
                    (ls.1, ls.2),
                    (rs.1, rs.2),
                );
            },
            FormulaV::Exists(v, srt, body) => {
                let sk1 = next_count(sk);
                let st = TermV::Var(skolem_name(sk1), srt);
                let wb = b.insert(v, st);
                let wg = formula_subst(*body, wb);
                let subs = search(wg, axs, (depth - 1) as nat, wb, path2, sk1, ax);
                lemma_counted_skolem(sk, ax);
                lemma_search_counted(wg, axs, (depth - 1) as nat, wb, path2, sk1, ax);
                lemma_counted_then(
                    (seq![sk1], Seq::empty()),
                    search_uses(wg, axs, (depth - 1) as nat, wb, path2, sk1, ax),
                    sk,
                    ax,
                    (sk1, ax),
                    (subs.1, subs.2),
                );
            },
            _ => {
                lemma_axiom_counted(cg, axs, 0, depth, b, path2, sk, ax);
            },
        }
    }
}

proof fn lemma_conj_counted(
    cg: FormulaV,
    lefts: Seq<(StepV, BindingsV)>,
    axs: Seq<AxiomV>,
    depth: nat,
    path: Seq<FormulaV>,
    sk: u32,
    ax: usize,
)
    ensures
        counted(
            conj_uses(cg, lefts, axs, depth, path, sk, ax),
            sk,
            ax,
            (conj_search(cg, lefts, axs, depth, path, sk, ax).1, conj_search(cg, lefts, axs, depth, path, sk, ax).2),
        ),
    decreases depth, formula_size(cg), 2nat, lefts.len(), 0nat,
{
    if lefts.len() == 0 {
        lemma_counted_none(sk, ax);
    } else {
        match cg {
            FormulaV::And(_, r) => {
                let b1 = lefts[0].1;
                let rsub = formula_subst(*r, b1);
                lemma_subst_size(*r, b1);
                let rs = search(rsub, axs, depth, b1, path, sk, ax);
                let rest = conj_search(cg, lefts.drop_first(), axs, depth, path, rs.1, rs.2);
                lemma_search_counted(rsub, axs, depth, b1, path, sk, ax);
                lemma_conj_counted(cg, lefts.drop_first(), axs, depth, path, rs.1, rs.2);
                lemma_counted_then(
                    search_uses(rsub, axs, depth, b1, path, sk, ax),
                    conj_uses(cg, lefts.drop_first(), axs, depth, path, rs.1, rs.2),
                    sk,
                    ax,
                    (rs.1, rs.2),
                    (rest.1, rest.2),
                );
            },
            _ => {
                lemma_counted_none(sk, ax);
            },
        }
    }
}

proof fn lemma_axiom_counted(
    cg: FormulaV,
    axs: Seq<AxiomV>,
    a: nat,
    depth: nat,
    b: BindingsV,
    path: Seq<FormulaV>,
    sk: u32,
    ax: usize,
)
    ensures
        counted(
            axiom_uses(cg, axs, a, depth, b, path, sk, ax),
            sk,
            ax,
            (axiom_search(cg, axs, a, depth, b, path, sk, ax).1, axiom_search(cg, axs, a, depth, b, path, sk, ax).2),
        ),
    decreases depth, 0nat, 2nat, axs.len() - a, 0nat,
{
    if a >= axs.len() {
        lemma_counted_none(sk, ax);
    } else {
        let ax1 = next_axiom_count(ax);
        let fresh = instantiate_spec(axs[a as int], ax1 as nat);
        let u = formula_unify(fresh.conclusion, cg, Map::empty());
        lemma_counted_rename(sk, ax);
        if u.0 {
            let start = b.union_prefer_right(u.1);
            let states = seq![(Seq::<StepV>::empty(), start)];
            let st = premise_search(fresh.premises, states, axs, depth, path, sk, ax1);
            let rest = axiom_search(cg, axs, a + 1, depth, b, path, st.1, st.2);
            lemma_premise_counted(fresh.premises, states, axs, depth, path, sk, ax1);
            lemma_axiom_counted(cg, axs, a + 1, depth, b, path, st.1, st.2);
            lemma_counted_then(
                premise_uses(fresh.premises, states, axs, depth, path, sk, ax1),
                axiom_uses(cg, axs, a + 1, depth, b, path, st.1, st.2),
                sk,
                ax1,
                (st.1, st.2),
                (rest.1, rest.2),
            );
            lemma_counted_then(
                (Seq::empty(), seq![ax1]),
                then_uses(
                    premise_uses(fresh.premises, states, axs, depth, path, sk, ax1),
                    axiom_uses(cg, axs, a + 1, depth, b, path, st.1, st.2),
                ),
                sk,
                ax,
                (sk, ax1),
                (rest.1, rest.2),
            );
        } else {
            let rest = axiom_search(cg, axs, a + 1, depth, b, path, sk, ax1);
            lemma_axiom_counted(cg, axs, a + 1, depth, b, path, sk, ax1);
            lemma_counted_then(
                (Seq::empty(), seq![ax1]),
                axiom_uses(cg, axs, a + 1, depth, b, path, sk, ax1),
                sk,
                ax,
                (sk, ax1),
                (rest.1, rest.2),
            );
        }
    }
}

proof fn lemma_premise_counted(
    prems: Seq<FormulaV>,
    states: Seq<(Seq<StepV>, BindingsV)>,
    axs: Seq<AxiomV>,
    depth: nat,
    path: Seq<FormulaV>,
    sk: u32,
    ax: usize,
)
    ensures
        counted(
            premise_uses(prems, states, axs, depth, path, sk, ax),
            sk,
            ax,
            (premise_search(prems, states, axs, depth, path, sk, ax).1, premise_search(
                prems,
                states,
                axs,
                depth,
                path,
                sk,
                ax,
            ).2),
        ),
    decreases depth, 0nat, 1nat, prems.len(), 1nat,
{
    if prems.len() == 0 {
        lemma_counted_none(sk, ax);
    } else {
        let nx = state_search(prems[0], states, axs, depth, path, sk, ax);
        let rest = premise_search(prems.drop_first(), nx.0, axs, depth, path, nx.1, nx.2);
        lemma_state_counted(prems[0], states, axs, depth, path, sk, ax);
        lemma_premise_counted(prems.drop_first(), nx.0, axs, depth, path, nx.1, nx.2);
        lemma_counted_then(
            state_uses(prems[0], states, axs, depth, path, sk, ax),
            premise_uses(prems.drop_first(), nx.0, axs, depth, path, nx.1, nx.2),
            sk,
            ax,
            (nx.1, nx.2),
            (rest.1, rest.2),
        );
    }
}

proof fn lemma_state_counted(
    prem: FormulaV,
    states: Seq<(Seq<StepV>, BindingsV)>,
    axs: Seq<AxiomV>,
    depth: nat,
    path: Seq<FormulaV>,
    sk: u32,
    ax: usize,
)
    ensures
        counted(
            state_uses(prem, states, axs, depth, path, sk, ax),
            sk,
            ax,
            (state_search(prem, states, axs, depth, path, sk, ax).1, state_search(
                prem,
                states,
                axs,
                depth,
                path,
                sk,
                ax,
            ).2),
        ),
    decreases depth, 0nat, 1nat, 0nat, states.len(),
{
    if states.len() == 0 || depth == 0 {
        lemma_counted_none(sk, ax);
    } else {
        let cb = states[0].1;
        let g = formula_subst(prem, cb);
        let pp = search(g, axs, (depth - 1) as nat, cb, path, sk, ax);
        let rest = state_search(prem, states.drop_first(), axs, depth, path, pp.1, pp.2);
        lemma_search_counted(g, axs, (depth - 1) as nat, cb, path, sk, ax);
        lemma_state_counted(prem, states.drop_first(), axs, depth, path, pp.1, pp.2);
        lemma_counted_then(
            search_uses(g, axs, (depth - 1) as nat, cb, path, sk, ax),
            state_uses(prem, states.drop_first(), axs, depth, path, pp.1, pp.2),
            sk,
            ax,
            (pp.1, pp.2),
            (rest.1, rest.2),
        );
    }
}

/// Within one search the Skolem counter takes the values after `sk` in
/// turn, one for each Skolem name minted, and the renaming counter the
/// values after `ax`, one for each axiom renamed apart (both wrapping at
/// their limit); so, below the limit, no Skolem name and no renaming
/// suffix is used twice.
pub proof fn lemma_search_fresh_names(
    goal: FormulaV,
    axs: Seq<AxiomV>,
    depth: nat,
    b: BindingsV,
    path: Seq<FormulaV>,
    sk: u32,
    ax: usize,
)
    ensures
        ({
            let u = search_uses(goal, axs, depth, b, path, sk, ax);
            let r = search(goal, axs, depth, b, path, sk, ax);
            &&& counted(u, sk, ax, (r.1, r.2))
            &&& u.0.len() <= sk_modulus() ==> forall|i: int, j: int|
                0 <= i < j < u.0.len() ==> skolem_name(#[trigger] u.0[i]) != skolem_name(#[trigger] u.0[j])
            &&& u.1.len() <= ax_modulus() ==> forall|i: int, j: int|
                0 <= i < j < u.1.len() ==> #[trigger] u.1[i] != #[trigger] u.1[j]
        }),
{
    let u = search_uses(goal, axs, depth, b, path, sk, ax);
    let r = search(goal, axs, depth, b, path, sk, ax);
    lemma_search_counted(goal, axs, depth, b, path, sk, ax);
    if u.0.len() <= sk_modulus() {
        lemma_counts_distinct(sk_ints(u.0), sk as int, r.1 as int, sk_modulus());
        assert forall|i: int, j: int| 0 <= i < j < u.0.len() implies skolem_name(#[trigger] u.0[i])
            != skolem_name(#[trigger] u.0[j]) by {
            assert(sk_ints(u.0)[i] != sk_ints(u.0)[j]);
            lemma_skolem_names_distinct(u.0[i], u.0[j]);
        }
    }
    if u.1.len() <= ax_modulus() {
        lemma_counts_distinct(ax_ints(u.1), ax as int, r.2 as int, ax_modulus());
        assert forall|i: int, j: int| 0 <= i < j < u.1.len() implies #[trigger] u.1[i] != #[trigger] u.1[j] by {
            assert(ax_ints(u.1)[i] != ax_ints(u.1)[j]);
        }
    }
}

/// An existential goal is proved through its instance for a fresh Skolem
/// variable: the search gives one proof for each proof of the instance, in
/// the same order, each an existential step whose single sub-proof shows
/// the instance with that proof's bindings applied and whose witness is
/// what the Skolem variable resolves to under them; and the bindings each
/// proof ends with keep everything the instance's proof found.
pub proof fn lemma_exists_keeps_bindings(
    goal: FormulaV,
    axs: Seq<AxiomV>,
    depth: nat,
    b: BindingsV,
    path: Seq<FormulaV>,
    sk: u32,
    ax: usize,
)
    requires
        depth > 0,
        formula_subst(goal, b) is Exists,
        !path.contains(formula_subst(goal, b)),
    ensures
        ({
            let cg = formula_subst(goal, b);
            let v = cg->Exists_0;
            let st = TermV::Var(skolem_name(next_count(sk)), cg->Exists_1);
            let wb = b.insert(v, st);
            let wg = formula_subst(*cg->Exists_2, wb);
            let subs = search(wg, axs, (depth - 1) as nat, wb, path.push(cg), next_count(sk), ax).0;
            let r = search(goal, axs, depth, b, path, sk, ax).0;
            &&& r.len() == subs.len()
            &&& forall|i: int|
                0 <= i < r.len() ==> {
                    &&& subs[i].1.submap_of(#[trigger] r[i].1)
                    &&& r[i].0.goal == cg
                    &&& r[i].0.rule == existential_rule()
                    &&& r[i].0.subs.len() == 1
                    &&& r[i].0.subs[0].goal == formula_subst(wg, subs[i].1)
                    &&& r[i].0.subs[0].rule == subs[i].0.rule
                    &&& r[i].0.subs[0].subs == subs[i].0.subs
                    &&& r[i].0.witnesses == seq![(v, term_subst(st, subs[i].1))]
                }
        }),
{
    let cg = formula_subst(goal, b);
    let v = cg->Exists_0;
    let st = TermV::Var(skolem_name(next_count(sk)), cg->Exists_1);
    let wb = b.insert(v, st);
    let wg = formula_subst(*cg->Exists_2, wb);
    let subs = search(wg, axs, (depth - 1) as nat, wb, path.push(cg), next_count(sk), ax).0;
    let r = search(goal, axs, depth, b, path, sk, ax).0;
    assert(r == exists_steps(cg, v, st, wg, b, subs));
    assert forall|i: int| 0 <= i < r.len() implies subs[i].1.submap_of(#[trigger] r[i].1) by {
        assert(r[i].1 == b.union_prefer_right(subs[i].1));
    }
}

// ---------------------------------------------------------------------------
// What the search finds are proofs of the goal
// ---------------------------------------------------------------------------

/// Every proof of the list fits its rules, and proves `g`.
pub open spec fn found_ok(rs: Seq<(StepV, BindingsV)>, g: FormulaV, axs: Seq<AxiomV>) -> bool {
    forall|i: int| 0 <= i < rs.len() ==> well_shaped(#[trigger] rs[i].0, axs) && rs[i].0.goal == g
}

/// Every proof of the list fits its rules.
pub open spec fn found_shaped(rs: Seq<(StepV, BindingsV)>, axs: Seq<AxiomV>) -> bool {
    forall|i: int| 0 <= i < rs.len() ==> well_shaped(#[trigger] rs[i].0, axs)
}

/// Every state has `k` sub-proofs, each fitting its rules.
pub open spec fn states_ok(ss: Seq<(Seq<StepV>, BindingsV)>, k: nat, axs: Seq<AxiomV>) -> bool {
    forall|q: int| 0 <= q < ss.len() ==> (#[trigger] ss[q]).0.len() == k && all_well_shaped(ss[q].0, axs)
}

proof fn lemma_found_ok_concat(a: Seq<(StepV, BindingsV)>, b: Seq<(StepV, BindingsV)>, g: FormulaV, axs: Seq<AxiomV>)
    requires
        found_ok(a, g, axs),
        found_ok(b, g, axs),
    ensures
        found_ok(a + b, g, axs),
{
    assert forall|i: int| 0 <= i < (a + b).len() implies well_shaped(#[trigger] (a + b)[i].0, axs) && (a
        + b)[i].0.goal == g by {
        if i >= a.len() {
            assert((a + b)[i] == b[i - a.len()]);
        }
    }
}

proof fn lemma_states_ok_concat(
    a: Seq<(Seq<StepV>, BindingsV)>,
    b: Seq<(Seq<StepV>, BindingsV)>,
    k: nat,
    axs: Seq<AxiomV>,
)
    requires
        states_ok(a, k, axs),
        states_ok(b, k, axs),
    ensures
        states_ok(a + b, k, axs),
{
    assert forall|q: int| 0 <= q < (a + b).len() implies (#[trigger] (a + b)[q]).0.len() == k && all_well_shaped(
        (a + b)[q].0,
        axs,
    ) by {
        if q >= a.len() {
            assert((a + b)[q] == b[q - a.len()]);
        }
    }
}

proof fn lemma_search_ok(
    goal: FormulaV,
    axs: Seq<AxiomV>,
    depth: nat,
    b: BindingsV,
    path: Seq<FormulaV>,
    sk: u32,
    ax: usize,
)
    ensures
        found_ok(search(goal, axs, depth, b, path, sk, ax).0, formula_subst(goal, b), axs),
    decreases depth, formula_size(goal), 3nat, 0nat, 0nat,
{
    let cg = formula_subst(goal, b);
    if depth == 0 || path.contains(cg) {
    } else {
        lemma_subst_size(goal, b);
        let path2 = path.push(cg);
        match cg {
            FormulaV::And(l, _) => {
                let ls = search(*l, axs, depth, b, path2, sk, ax);
                lemma_search_ok(*l, axs, depth, b, path2, sk, ax);
                lemma_conj_ok(cg, ls.0, axs, depth, path2, ls.1, ls.2);
            },
            FormulaV::Or(l, r) => {
                let ls = search(*l, axs, depth, b, path2, sk, ax);
                let rs = search(*r, axs, depth, b, path2, ls.1, ls.2);
                lemma_search_ok(*l, axs, depth, b, path2, sk, ax);
                lemma_search_ok(*r, axs, depth, b, path2, ls.1, ls.2);
                let a1 = or_steps(cg, disjunction_left_rule(), ls.0);
                let a2 = or_steps(cg, disjunction_right_rule(), rs.0);
                assert forall|i: int| 0 <= i < a1.len() implies well_shaped(#[trigger] a1[i].0, axs) && a1[i].0.goal
                    == cg by {
                    assert(well_shaped(ls.0[i].0, axs));
                    lemma_all_well_shaped_intro(a1[i].0.subs, axs);
                }
                assert forall|i: int| 0 <= i < a2.len() implies well_shaped(#[trigger] a2[i].0, axs) && a2[i].0.goal
                    == cg by {
                    assert(well_shaped(rs.0[i].0, axs));
                    lemma_all_well_shaped_intro(a2[i].0.subs, axs);
                }
                lemma_found_ok_concat(a1, a2, cg, axs);
            },
            FormulaV::Exists(v, srt, body) => {
                let sk1 = next_count(sk);
                let st = TermV::Var(skolem_name(sk1), srt);
                let wb = b.insert(v, st);
                let wg = formula_subst(*body, wb);
                let subs = search(wg, axs, (depth - 1) as nat, wb, path2, sk1, ax);
                lemma_search_ok(wg, axs, (depth - 1) as nat, wb, path2, sk1, ax);
                let e = exists_steps(cg, v, st, wg, b, subs.0);
                assert forall|i: int| 0 <= i < e.len() implies well_shaped(#[trigger] e[i].0, axs) && e[i].0.goal
                    == cg by {
                    let x = subs.0[i];
                    assert(well_shaped(x.0, axs));
                    lemma_subst_same_top(wg, wb);
                    lemma_subst_same_top(wg, x.1);
                    lemma_rule_fits_goal(x.0, formula_subst(wg, x.1), axs);
                    lemma_all_well_shaped_intro(e[i].0.subs, axs);
                }
            },
            _ => {
                lemma_axiom_ok(cg, axs, 0, depth, b, path2, sk, ax);
            },
        }
    }
}

proof fn lemma_conj_ok(
    cg: FormulaV,
    lefts: Seq<(StepV, BindingsV)>,
    axs: Seq<AxiomV>,
    depth: nat,
    path: Seq<FormulaV>,
    sk: u32,
    ax: usize,
)
    requires
        found_shaped(lefts, axs),
    ensures
        found_ok(conj_search(cg, lefts, axs, depth, path, sk, ax).0, cg, axs),
    decreases depth, formula_size(cg), 2nat, lefts.len(), 0nat,
{
    if lefts.len() > 0 {
        match cg {
            FormulaV::And(_, r) => {
                let p1 = lefts[0].0;
                let b1 = lefts[0].1;
                let rsub = formula_subst(*r, b1);
                lemma_subst_size(*r, b1);
                let rs = search(rsub, axs, depth, b1, path, sk, ax);
                lemma_search_ok(rsub, axs, depth, b1, path, sk, ax);
                assert(found_shaped(lefts.drop_first(), axs)) by {
                    assert forall|i: int| 0 <= i < lefts.drop_first().len() implies well_shaped(
                        #[trigger] lefts.drop_first()[i].0,
                        axs,
                    ) by {
                        assert(lefts.drop_first()[i] == lefts[i + 1]);
                    }
                }
                lemma_conj_ok(cg, lefts.drop_first(), axs, depth, path, rs.1, rs.2);
                let here = conj_steps(cg, p1, rs.0);
                assert(well_shaped(p1, axs));
                assert forall|i: int| 0 <= i < here.len() implies well_shaped(#[trigger] here[i].0, axs)
                    && here[i].0.goal == cg by {
                    assert(well_shaped(rs.0[i].0, axs));
                    lemma_all_well_shaped_intro(here[i].0.subs, axs);
                }
                let rest = conj_search(cg, lefts.drop_first(), axs, depth, path, rs.1, rs.2);
                lemma_found_ok_concat(here, rest.0, cg, axs);
            },
            _ => {},
        }
    }
}

proof fn lemma_axiom_ok(
    cg: FormulaV,
    axs: Seq<AxiomV>,
    a: nat,
    depth: nat,
    b: BindingsV,
    path: Seq<FormulaV>,
    sk: u32,
    ax: usize,
)
    requires
        !(cg is And) && !(cg is Or) && !(cg is Exists),
    ensures
        found_ok(axiom_search(cg, axs, a, depth, b, path, sk, ax).0, cg, axs),
    decreases depth, 0nat, 2nat, axs.len() - a, 0nat,
{
    if a < axs.len() {
        let ax1 = next_axiom_count(ax);
        let fresh = instantiate_spec(axs[a as int], ax1 as nat);
        let u = formula_unify(fresh.conclusion, cg, Map::empty());
        if u.0 {
            let start = b.union_prefer_right(u.1);
            let states = seq![(Seq::<StepV>::empty(), start)];
            assert(states_ok(states, 0, axs)) by {
                assert(states[0].0.len() == 0);
            }
            let st = premise_search(fresh.premises, states, axs, depth, path, sk, ax1);
            lemma_premise_ok(fresh.premises, states, 0, axs, depth, path, sk, ax1);
            lemma_axiom_ok(cg, axs, a + 1, depth, b, path, st.1, st.2);
            let here = axiom_steps(cg, axs[a as int].name, st.0);
            assert(fresh.premises.len() == axs[a as int].premises.len());
            assert forall|i: int| 0 <= i < here.len() implies well_shaped(#[trigger] here[i].0, axs) && here[i].0.goal
                == cg by {
                assert(st.0[i].0.len() == fresh.premises.len());
                assert(axs[a as int].name == here[i].0.rule);
                assert(rule_fits(here[i].0, axs));
            }
            let rest = axiom_search(cg, axs, a + 1, depth, b, path, st.1, st.2);
            lemma_found_ok_concat(here, rest.0, cg, axs);
        } else {
            lemma_axiom_ok(cg, axs, a + 1, depth, b, path, sk, ax1);
        }
    }
}

proof fn lemma_premise_ok(
    prems: Seq<FormulaV>,
    states: Seq<(Seq<StepV>, BindingsV)>,
    k: nat,
    axs: Seq<AxiomV>,
    depth: nat,
    path: Seq<FormulaV>,
    sk: u32,
    ax: usize,
)
    requires
        states_ok(states, k, axs),
    ensures
        states_ok(premise_search(prems, states, axs, depth, path, sk, ax).0, k + prems.len(), axs),
    decreases depth, 0nat, 1nat, prems.len(), 1nat,
{
    if prems.len() > 0 {
        let nx = state_search(prems[0], states, axs, depth, path, sk, ax);
        lemma_state_ok(prems[0], states, k, axs, depth, path, sk, ax);
        lemma_premise_ok(prems.drop_first(), nx.0, k + 1, axs, depth, path, nx.1, nx.2);
    }
}

proof fn lemma_state_ok(
    prem: FormulaV,
    states: Seq<(Seq<StepV>, BindingsV)>,
    k: nat,
    axs: Seq<AxiomV>,
    depth: nat,
    path: Seq<FormulaV>,
    sk: u32,
    ax: usize,
)
    requires
        states_ok(states, k, axs),
    ensures
        states_ok(state_search(prem, states, axs, depth, path, sk, ax).0, k + 1, axs),
    decreases depth, 0nat, 1nat, 0nat, states.len(),
{
    if states.len() > 0 && depth > 0 {
        let so_far = states[0].0;
        let cb = states[0].1;
        let g = formula_subst(prem, cb);
        let pp = search(g, axs, (depth - 1) as nat, cb, path, sk, ax);
        lemma_search_ok(g, axs, (depth - 1) as nat, cb, path, sk, ax);
        assert(states_ok(states.drop_first(), k, axs)) by {
            assert forall|q: int| 0 <= q < states.drop_first().len() implies (#[trigger] states.drop_first()[q]).0.len()
                == k && all_well_shaped(states.drop_first()[q].0, axs) by {
                assert(states.drop_first()[q] == states[q + 1]);
            }
        }
        lemma_state_ok(prem, states.drop_first(), k, axs, depth, path, pp.1, pp.2);
        let here = extend_states(so_far, cb, pp.0);
        assert(so_far.len() == k && all_well_shaped(so_far, axs));
        assert forall|q: int| 0 <= q < here.len() implies (#[trigger] here[q]).0.len() == k + 1 && all_well_shaped(
            here[q].0,
            axs,
        ) by {
            assert(well_shaped(pp.0[q].0, axs));
            lemma_all_well_shaped_push(so_far, pp.0[q].0, axs);
        }
        let rest = state_search(prem, states.drop_first(), axs, depth, path, pp.1, pp.2);
        lemma_states_ok_concat(here, rest.0, k + 1, axs);
    }
}

/// What the search finds are proofs of the goal: every proof it returns
/// proves the goal with the bindings in force applied, and every step in
/// it fits its rule (a conjunction from proofs of both sides, a disjunction
/// from a proof of one side, an existential from a proof of an instance
/// with its witness, an axiom step from as many proofs as the axiom has
/// premises).
pub proof fn lemma_search_proves_goal(
    goal: FormulaV,
    axs: Seq<AxiomV>,
    depth: nat,
    b: BindingsV,
    path: Seq<FormulaV>,
    sk: u32,
    ax: usize,
)
    ensures
        forall|i: int|
            0 <= i < search(goal, axs, depth, b, path, sk, ax).0.len() ==> well_shaped(
                #[trigger] search(goal, axs, depth, b, path, sk, ax).0[i].0,
                axs,
            ) && search(goal, axs, depth, b, path, sk, ax).0[i].0.goal == formula_subst(goal, b),
{
    lemma_search_ok(goal, axs, depth, b, path, sk, ax);
}

// ---------------------------------------------------------------------------
// A fact is found
// ---------------------------------------------------------------------------

proof fn lemma_rename_none_term(t: TermV, r: Map<Seq<char>, Seq<char>>)
    requires
        r.dom() =~= Set::empty(),
    ensures
        rename_term(t, r) == t,
    decreases t,
{
    match t {
        TermV::Apply(f, args) => {
            assert forall|i: int| 0 <= i < args.len() implies rename_term(args[i], r) == args[i] by {
                lemma_rename_none_term(args[i], r);
            }
            assert(rename_term(t, r)->Apply_1 =~= args);
        },
        _ => {},
    }
}

proof fn lemma_rename_none(f: FormulaV, r: Map<Seq<char>, Seq<char>>)
    requires
        r.dom() =~= Set::empty(),
    ensures
        rename_formula(f, r) == f,
    decreases f,
{
    match f {
        FormulaV::Eq(l, rr) => {
            lemma_rename_none_term(l, r);
            lemma_rename_none_term(rr, r);
        },
        FormulaV::Pred(n, args) => {
            assert forall|i: int| 0 <= i < args.len() implies rename_term(args[i], r) == args[i] by {
                lemma_rename_none_term(args[i], r);
            }
            assert(args.map_values(|a: TermV| rename_term(a, r)) =~= args);
        },
        FormulaV::And(l, rr) => {
            lemma_rename_none(*l, r);
            lemma_rename_none(*rr, r);
        },
        FormulaV::Or(l, rr) => {
            lemma_rename_none(*l, r);
            lemma_rename_none(*rr, r);
        },
        FormulaV::Not(i) => {
            lemma_rename_none(*i, r);
        },
        FormulaV::Implies(l, rr) => {
            lemma_rename_none(*l, r);
            lemma_rename_none(*rr, r);
        },
        FormulaV::Exists(v, s, b) => {
            assert(!r.contains_key(v));
            lemma_rename_none(*b, r);
        },
    }
}

proof fn lemma_axiom_search_finds_fact(
    cg: FormulaV,
    axs: Seq<AxiomV>,
    a: nat,
    k: int,
    depth: nat,
    b: BindingsV,
    path: Seq<FormulaV>,
    sk: u32,
    ax: usize,
)
    requires
        a <= k < axs.len(),
        axs[k].vars.len() == 0,
        axs[k].premises.len() == 0,
        formula_unify(axs[k].conclusion, cg, Map::empty()).0,
    ensures
        axiom_search(cg, axs, a, depth, b, path, sk, ax).0.len() > 0,
    decreases k - a,
{
    let ax1 = next_axiom_count(ax);
    let fresh = instantiate_spec(axs[a as int], ax1 as nat);
    let u = formula_unify(fresh.conclusion, cg, Map::empty());
    if u.0 {
        let start = b.union_prefer_right(u.1);
        let states = seq![(Seq::<StepV>::empty(), start)];
        let st = premise_search(fresh.premises, states, axs, depth, path, sk, ax1);
        if a == k {
            assert(fresh.premises.len() == 0);
            assert(st.0 == states);
        } else {
            lemma_axiom_search_finds_fact(cg, axs, a + 1, k, depth, b, path, st.1, st.2);
        }
    } else {
        if a == k {
            assert(rename_map(axs[k].vars, ax1 as nat).dom() =~= Set::empty());
            lemma_rename_none(axs[k].conclusion, rename_map(axs[k].vars, ax1 as nat));
            assert(false);
        }
        lemma_axiom_search_finds_fact(cg, axs, a + 1, k, depth, b, path, sk, ax1);
    }
}

/// A fact is found: when one of the axioms, without variables and
/// premises, concludes exactly the goal (which is not a conjunction,
/// disjunction or existential), the search finds a proof at any depth, and
/// `prove` returns one with any depth limit of at least one.
pub proof fn lemma_fact_found(goal: FormulaV, axs: Seq<AxiomV>, k: int, depth: nat, sk: u32, ax: usize, max: nat)
    requires
        0 <= k < axs.len(),
        axs[k].vars.len() == 0,
        axs[k].premises.len() == 0,
        axs[k].conclusion == goal,
        !(goal is And) && !(goal is Or) && !(goal is Exists),
        formula_depth_within(goal, UNIFY_DEPTH as nat),
        depth > 0,
        max > 0,
    ensures
        search(goal, axs, depth, Map::empty(), Seq::empty(), sk, ax).0.len() > 0,
        deepen(goal, axs, 1, max, 0, 0) is Some,
{
    lemma_formula_subst_empty(goal);
    lemma_unify_self(goal);
    let e = Map::<Seq<char>, TermV>::empty();
    assert(!Seq::<FormulaV>::empty().contains(goal));
    lemma_axiom_search_finds_fact(goal, axs, 0, k, depth, e, Seq::<FormulaV>::empty().push(goal), sk, ax);
    lemma_axiom_search_finds_fact(goal, axs, 0, k, 1, e, Seq::<FormulaV>::empty().push(goal), 0, 0);
}

/// The proofs found, as mathematical values.
pub open spec fn found_view(rs: Seq<(ProofStep, Bindings)>) -> Seq<(StepV, BindingsV)> {
    rs.map_values(|x: (ProofStep, Bindings)| (x.0@, bview(x.1@)))
}

/// Search states (sub-proofs so far, bindings) as mathematical values.
pub open spec fn states_view(ss: Seq<(Vec<ProofStep>, Bindings)>) -> Seq<(Seq<StepV>, BindingsV)> {
    ss.map_values(|x: (Vec<ProofStep>, Bindings)| (steps_view(x.0@), bview(x.1@)))
}

proof fn lemma_found_push(rs: Seq<(ProofStep, Bindings)>, x: (ProofStep, Bindings))
    ensures
        found_view(rs.push(x)) == found_view(rs).push((x.0@, bview(x.1@))),
{
    assert(found_view(rs.push(x)) =~= found_view(rs).push((x.0@, bview(x.1@))));
}

proof fn lemma_states_push(ss: Seq<(Vec<ProofStep>, Bindings)>, x: (Vec<ProofStep>, Bindings))
    ensures
        states_view(ss.push(x)) == states_view(ss).push((steps_view(x.0@), bview(x.1@))),
{
    assert(states_view(ss.push(x)) =~= states_view(ss).push((steps_view(x.0@), bview(x.1@))));
}

/// Core backward-chaining DFS: all ways of proving `goal` (with `bindings`
/// applied) within `depth`, each with the bindings it ends with.
///
/// * `path`       — goals on the current branch (cycle detection).
/// * `skolem_ctr` — counter for fresh Skolem names.
/// * `axiom_ctr`  — counter for alpha-renaming axiom variables.
#[verifier::rlimit(100)]
fn prove_dfs(
    goal: &Formula,
    axioms: &Vec<Axiom>,
    depth: u32,
    bindings: &Bindings,
    path: &Vec<Formula>,
    skolem_ctr: &mut u32,
    axiom_ctr: &mut usize,
) -> (results: Vec<(ProofStep, Bindings)>)
    ensures
        results_ok(results@, formula_subst(goal@, bview(bindings@)), axioms_view(axioms@)),
        (found_view(results@), *final(skolem_ctr), *final(axiom_ctr)) == search(
            goal@,
            axioms_view(axioms@),
            depth as nat,
            bview(bindings@),
            formulas_view(path@),
            *old(skolem_ctr),
            *old(axiom_ctr),
        ),
    decreases depth, formula_size(goal@),
{
    let ghost axv = axioms_view(axioms@);
    let ghost bv = bview(bindings@);
    let ghost total = search(goal@, axv, depth as nat, bv, formulas_view(path@), *skolem_ctr, *axiom_ctr);
    let mut results: Vec<(ProofStep, Bindings)> = Vec::new();
    proof {
        assert(found_view(results@) =~= Seq::empty());
    }
    if depth == 0 {
        return results;
    }
    let current_goal = goal.substitute(bindings);
    let ghost cg = current_goal@;
    proof {
        lemma_subst_size(goal@, bv);
    }
    if path_contains(path, &current_goal) {
        return results;
    }
    // Structural rule: Conjunction (A ∧ B)
    if let Formula::And(left, right) = &current_goal {
        let path2 = extended_path(path, &current_goal);
        let ghost p2v = formulas_view(path2@);
        let lefts = prove_dfs(left, axioms, depth, bindings, &path2, skolem_ctr, axiom_ctr);
        let ghost fl = found_view(lefts@);
        proof {
            assert(fl.skip(0) =~= fl);
            assert(total == conj_search(cg, fl, axv, depth as nat, p2v, *skolem_ctr, *axiom_ctr));
            assert(Seq::<(StepV, BindingsV)>::empty() + total.0 =~= total.0);
        }
        let mut i: usize = 0;
        while i < lefts.len()
            invariant
                i <= lefts@.len(),
                axv == axioms_view(axioms@),
                cg == current_goal@,
                current_goal == Formula::And(*left, *right),
                formula_size(right@) < formula_size(goal@),
                results_ok(lefts@, formula_subst(left@, bview(bindings@)), axv),
                results_ok(results@, cg, axv),
                fl == found_view(lefts@),
                p2v == formulas_view(path2@),
                total == (
                    found_view(results@) + conj_search(
                        cg,
                        fl.skip(i as int),
                        axv,
                        depth as nat,
                        p2v,
                        *skolem_ctr,
                        *axiom_ctr,
                    ).0,
                    conj_search(cg, fl.skip(i as int), axv, depth as nat, p2v, *skolem_ctr, *axiom_ctr).1,
                    conj_search(cg, fl.skip(i as int), axv, depth as nat, p2v, *skolem_ctr, *axiom_ctr).2,
                ),
            decreases lefts@.len() - i,
        {
            let p1 = &lefts[i].0;
            let b1 = &lefts[i].1;
            let right_sub = right.substitute(b1);
            proof {
                lemma_subst_size(right@, bview(b1@));
            }
            let ghost before = found_view(results@);
            let ghost ci = conj_search(cg, fl.skip(i as int), axv, depth as nat, p2v, *skolem_ctr, *axiom_ctr);
            let rights = prove_dfs(&right_sub, axioms, depth, b1, &path2, skolem_ctr, axiom_ctr);
            let ghost fr = found_view(rights@);
            let ghost rest = conj_search(cg, fl.skip(i + 1), axv, depth as nat, p2v, *skolem_ctr, *axiom_ctr);
            proof {
                assert(fl.skip(i as int)[0] == fl[i as int]);
                assert(fl.skip(i as int).drop_first() =~= fl.skip(i + 1));
                assert(ci == (conj_steps(cg, p1@, fr) + rest.0, rest.1, rest.2));
                assert(fr.take(0) =~= Seq::<(StepV, BindingsV)>::empty());
                assert(conj_steps(cg, p1@, fr.take(0)) =~= Seq::<(StepV, BindingsV)>::empty());
                assert(before + conj_steps(cg, p1@, fr.take(0)) =~= before);
            }
            let mut j: usize = 0;
            while j < rights.len()
                invariant
                    j <= rights@.len(),
                    i < lefts@.len(),
                    *p1 == lefts@[i as int].0,
                    axv == axioms_view(axioms@),
                    cg == current_goal@,
                    current_goal == Formula::And(*left, *right),
                    results_ok(lefts@, formula_subst(left@, bview(bindings@)), axv),
                    results_ok(rights@, formula_subst(right_sub@, bview(b1@)), axv),
                    results_ok(results@, cg, axv),
                    fr == found_view(rights@),
                    found_view(results@) == before + conj_steps(cg, p1@, fr.take(j as int)),
                decreases rights@.len() - j,
            {
                let step = ProofStep::simple(
                    current_goal.duplicate(),
                    String::from_str("Conjunction"),
                    vec![p1.duplicate(), rights[j].0.duplicate()],
                );
                proof {
                    reveal_strlit("Conjunction");
                    assert(step@.rule == conjunction_rule());
                    assert(step@.goal is And);
                    assert(step@.subs.len() == 2);
                    assert(step@.witnesses.len() == 0);
                    assert(well_shaped(lefts@[i as int].0@, axv));
                    assert(well_shaped(rights@[j as int].0@, axv));
                    assert(step@.subs[0] == lefts@[i as int].0@);
                    assert(step@.subs[1] == rights@[j as int].0@);
                    lemma_all_well_shaped_intro(step@.subs, axv);
                    assert(step@.subs =~= seq![p1@, rights@[j as int].0@]);
                    assert(step@.witnesses =~= Seq::<(Seq<char>, TermV)>::empty());
                    assert(step@ == simple_step(cg, conjunction_rule(), seq![p1@, fr[j as int].0]));
                }
                let nb = copy_bindings(&rights[j].1);
                proof {
                    lemma_results_push(results@, (step, nb), cg, axv);
                    lemma_found_push(results@, (step, nb));
                    assert(fr.take(j + 1) =~= fr.take(j as int).push(fr[j as int]));
                    assert(conj_steps(cg, p1@, fr.take(j + 1)) =~= conj_steps(cg, p1@, fr.take(j as int)).push(
                        (step@, bview(nb@)),
                    ));
                }
                results.push((step, nb));
                j = j + 1;
            }
            proof {
                assert(fr.take(j as int) =~= fr);
                assert(before + ci.0 =~= found_view(results@) + rest.0);
            }
            i = i + 1;
        }
        proof {
            assert(fl.skip(i as int).len() == 0);
            assert(found_view(results@) + Seq::<(StepV, BindingsV)>::empty() =~= found_view(results@));
        }
        return results;
    }
    // Structural rule: Disjunction (A ∨ B)
    if let Formula::Or(left, right) = &current_goal {
        let path2 = extended_path(path, &current_goal);
        let ghost p2v = formulas_view(path2@);
        let lefts = prove_dfs(left, axioms, depth, bindings, &path2, skolem_ctr, axiom_ctr);
        let ghost fl = found_view(lefts@);
        let ghost rs = search(right@, axv, depth as nat, bv, p2v, *skolem_ctr, *axiom_ctr);
        proof {
            assert(total == (
                or_steps(cg, disjunction_left_rule(), fl) + or_steps(cg, disjunction_right_rule(), rs.0),
                rs.1,
                rs.2,
            ));
            assert(fl.take(0) =~= Seq::<(StepV, BindingsV)>::empty());
            assert(found_view(results@) =~= or_steps(cg, disjunction_left_rule(), fl.take(0)));
        }
        let mut i: usize = 0;
        while i < lefts.len()
            invariant
                i <= lefts@.len(),
                axv == axioms_view(axioms@),
                cg == current_goal@,
                current_goal == Formula::Or(*left, *right),
                results_ok(lefts@, formula_subst(left@, bview(bindings@)), axv),
                results_ok(results@, cg, axv),
                fl == found_view(lefts@),
                found_view(results@) == or_steps(cg, disjunction_left_rule(), fl.take(i as int)),
            decreases lefts@.len() - i,
        {
            let step = ProofStep::simple(
                current_goal.duplicate(),
                String::from_str("Disjunction_Left"),
                vec![lefts[i].0.duplicate()],
            );
            proof {
                reveal_strlit("Disjunction_Left");
                assert(step@.rule == disjunction_left_rule());
                assert(step@.goal is Or);
                assert(step@.subs.len() == 1);
                assert(step@.witnesses.len() == 0);
                assert(well_shaped(lefts@[i as int].0@, axv));
                assert(step@.subs[0] == lefts@[i as int].0@);
                lemma_all_well_shaped_intro(step@.subs, axv);
                assert(step@.subs =~= seq![fl[i as int].0]);
                assert(step@.witnesses =~= Seq::<(Seq<char>, TermV)>::empty());
            }
            let nb = copy_bindings(&lefts[i].1);
            proof {
                lemma_results_push(results@, (step, nb), cg, axv);
                lemma_found_push(results@, (step, nb));
                assert(fl.take(i + 1) =~= fl.take(i as int).push(fl[i as int]));
                assert(or_steps(cg, disjunction_left_rule(), fl.take(i + 1)) =~= or_steps(
                    cg,
                    disjunction_left_rule(),
                    fl.take(i as int),
                ).push((step@, bview(nb@))));
            }
            results.push((step, nb));
            i = i + 1;
        }
        let ghost before = found_view(results@);
        proof {
            assert(fl.take(i as int) =~= fl);
        }
        let rights = prove_dfs(right, axioms, depth, bindings, &path2, skolem_ctr, axiom_ctr);
        let ghost fr = found_view(rights@);
        proof {
            assert(fr.take(0) =~= Seq::<(StepV, BindingsV)>::empty());
            assert(found_view(results@) =~= before + or_steps(cg, disjunction_right_rule(), fr.take(0)));
        }
        let mut j: usize = 0;
        while j < rights.len()
            invariant
                j <= rights@.len(),
                axv == axioms_view(axioms@),
                cg == current_goal@,
                current_goal == Formula::Or(*left, *right),
                results_ok(rights@, formula_subst(right@, bview(bindings@)), axv),
                results_ok(results@, cg, axv),
                fr == found_view(rights@),
                found_view(results@) == before + or_steps(cg, disjunction_right_rule(), fr.take(j as int)),
            decreases rights@.len() - j,
        {
            let step = ProofStep::simple(
                current_goal.duplicate(),
                String::from_str("Disjunction_Right"),
                vec![rights[j].0.duplicate()],
            );
            proof {
                reveal_strlit("Disjunction_Right");
                assert(step@.rule == disjunction_right_rule());
                assert(step@.goal is Or);
                assert(step@.subs.len() == 1);
                assert(step@.witnesses.len() == 0);
                assert(well_shaped(rights@[j as int].0@, axv));
                assert(step@.subs[0] == rights@[j as int].0@);
                lemma_all_well_shaped_intro(step@.subs, axv);
                assert(step@.subs =~= seq![fr[j as int].0]);
                assert(step@.witnesses =~= Seq::<(Seq<char>, TermV)>::empty());
            }
            let nb = copy_bindings(&rights[j].1);
            proof {
                lemma_results_push(results@, (step, nb), cg, axv);
                lemma_found_push(results@, (step, nb));
                assert(fr.take(j + 1) =~= fr.take(j as int).push(fr[j as int]));
                assert(or_steps(cg, disjunction_right_rule(), fr.take(j + 1)) =~= or_steps(
                    cg,
                    disjunction_right_rule(),
                    fr.take(j as int),
                ).push((step@, bview(nb@))));
            }
            results.push((step, nb));
            j = j + 1;
        }
        proof {
            assert(fr.take(j as int) =~= fr);
        }
        return results;
    }
    // Structural rule: Existential Instantiation (∃ x : S, P(x)).
    // Mint a fresh Skolem variable `?wN` of the declared sort, prove
    // body[x := ?wN], and report what `?wN` resolved to as the witness.
    if let Formula::Exists { var, sort, body } = &current_goal {
        let skolem = fresh_skolem(skolem_ctr);
        let skolem_term = Term::Var(skolem, sort.duplicate());
        let mut witness_bindings = copy_bindings(bindings);
        witness_bindings.insert(var.clone(), skolem_term.duplicate());
        proof {
            assert(bview(witness_bindings@) =~= bv.insert(var@, skolem_term@));
        }
        let witness_goal = body.substitute(&witness_bindings);
        proof {
            lemma_subst_size(body@, bview(witness_bindings@));
        }
        // Push the Exists wrapper to prevent immediate cycle death.
        let path2 = extended_path(path, &current_goal);
        let subs = prove_dfs(
            &witness_goal,
            axioms,
            depth - 1,
            &witness_bindings,
            &path2,
            skolem_ctr,
            axiom_ctr,
        );
        let ghost fs = found_view(subs@);
        let ghost st = skolem_term@;
        let ghost wg = witness_goal@;
        proof {
            assert(total == (exists_steps(cg, var@, st, wg, bv, fs), *skolem_ctr, *axiom_ctr));
            assert(fs.take(0) =~= Seq::<(StepV, BindingsV)>::empty());
            assert(found_view(results@) =~= exists_steps(cg, var@, st, wg, bv, fs.take(0)));
        }
        let mut i: usize = 0;
        while i < subs.len()
            invariant
                i <= subs@.len(),
                axv == axioms_view(axioms@),
                cg == current_goal@,
                bv == bview(bindings@),
                st == skolem_term@,
                wg == witness_goal@,
                current_goal == (Formula::Exists { var: *var, sort: *sort, body: *body }),
                results_ok(subs@, formula_subst(witness_goal@, bview(witness_bindings@)), axv),
                results_ok(results@, cg, axv),
                fs == found_view(subs@),
                found_view(results@) == exists_steps(cg, var@, st, wg, bv, fs.take(i as int)),
            decreases subs@.len() - i,
        {
            let sub_proof = &subs[i].0;
            let final_bindings = &subs[i].1;
            let resolved_witness = skolem_term.substitute(final_bindings);
            let concrete_goal = witness_goal.substitute(final_bindings);
            let mut sub = sub_proof.duplicate();
            proof {
                assert(well_shaped(subs@[i as int].0@, axv));
                lemma_subst_same_top(witness_goal@, bview(witness_bindings@));
                lemma_subst_same_top(witness_goal@, bview(final_bindings@));
                lemma_rule_fits_goal(sub@, concrete_goal@, axv);
            }
            sub.goal = concrete_goal;
            proof {
                assert(sub@.subs =~= subs@[i as int].0@.subs);
                assert(sub@ == StepV { goal: sub@.goal, ..subs@[i as int].0@ });
            }
            let step = ProofStep {
                goal: current_goal.duplicate(),
                rule_name: String::from_str("Existential_Instantiation"),
                sub_proofs: vec![sub],
                witnesses: vec![(var.clone(), resolved_witness)],
            };
            proof {
                reveal_strlit("Existential_Instantiation");
                assert(step@.rule == existential_rule());
                assert(step@.goal is Exists);
                assert(step@.subs.len() == 1);
                assert(step@.witnesses.len() == 1);
                assert(step@.goal->Exists_0 == var@);
                assert(step@.subs[0] == sub@);
                lemma_all_well_shaped_intro(step@.subs, axv);
                assert(step@.witnesses[0].0 == var@);
                assert(step@.subs =~= seq![sub@]);
                assert(step@.witnesses =~= seq![(var@, term_subst(st, fs[i as int].1))]);
                assert(step@ == exists_step(cg, var@, st, wg, fs[i as int].0, fs[i as int].1));
            }
            let mut merged = copy_bindings(bindings);
            extend_bindings(&mut merged, final_bindings);
            proof {
                lemma_results_push(results@, (step, merged), cg, axv);
                lemma_found_push(results@, (step, merged));
                assert(fs.take(i + 1) =~= fs.take(i as int).push(fs[i as int]));
                assert(exists_steps(cg, var@, st, wg, bv, fs.take(i + 1)) =~= exists_steps(
                    cg,
                    var@,
                    st,
                    wg,
                    bv,
                    fs.take(i as int),
                ).push((step@, bview(merged@))));
            }
            results.push((step, merged));
            i = i + 1;
        }
        proof {
            assert(fs.take(i as int) =~= fs);
        }
        return results;
    }
    // Axiom matching (backward chaining)
    let path2 = extended_path(path, &current_goal);
    let ghost p2v = formulas_view(path2@);
    proof {
        assert(total == axiom_search(cg, axv, 0, depth as nat, bv, p2v, *skolem_ctr, *axiom_ctr));
        assert(Seq::<(StepV, BindingsV)>::empty() + total.0 =~= total.0);
    }
    let mut a: usize = 0;
    while a < axioms.len()
        invariant
            a <= axioms@.len(),
            depth > 0,
            axv == axioms_view(axioms@),
            cg == current_goal@,
            bv == bview(bindings@),
            p2v == formulas_view(path2@),
            !(cg is And) && !(cg is Or) && !(cg is Exists),
            results_ok(results@, cg, axv),
            total == (
                found_view(results@) + axiom_search(
                    cg,
                    axv,
                    a as nat,
                    depth as nat,
                    bv,
                    p2v,
                    *skolem_ctr,
                    *axiom_ctr,
                ).0,
                axiom_search(cg, axv, a as nat, depth as nat, bv, p2v, *skolem_ctr, *axiom_ctr).1,
                axiom_search(cg, axv, a as nat, depth as nat, bv, p2v, *skolem_ctr, *axiom_ctr).2,
            ),
        decreases axioms@.len() - a,
    {
        let ghost ca = axiom_search(cg, axv, a as nat, depth as nat, bv, p2v, *skolem_ctr, *axiom_ctr);
        let ghost before_a = found_view(results@);
        // Alpha-rename the axiom's variables so that two applications of
        // the same axiom on the same branch cannot collide in the bindings.
        *axiom_ctr = if *axiom_ctr == usize::MAX {
            0
        } else {
            *axiom_ctr + 1
        };
        let fresh = instantiate_axiom(&axioms[a], *axiom_ctr);
        proof {
            assert(fresh@.premises.len() == fresh.premises@.len());
            assert(axv[a as int] == axioms@[a as int]@);
        }
        if let Some(new_bindings) = fresh.conclusion.unify(&current_goal) {
            let mut start = copy_bindings(bindings);
            extend_bindings(&mut start, &new_bindings);
            // All valid branching states: (sub-proofs so far, bindings).
            let mut states: Vec<(Vec<ProofStep>, Bindings)> = vec![(Vec::new(), start)];
            let ghost prems = fresh@.premises;
            let ghost ps = premise_search(prems, states_view(states@), axv, depth as nat, p2v, *skolem_ctr, *axiom_ctr);
            let ghost rest = axiom_search(cg, axv, (a + 1) as nat, depth as nat, bv, p2v, ps.1, ps.2);
            proof {
                assert(states@[0].0@.len() == 0);
                assert(steps_view(states@[0].0@) =~= Seq::<StepV>::empty());
                assert(states_view(states@) =~= seq![(Seq::<StepV>::empty(), bv.union_prefer_right(bview(new_bindings@)))]);
                assert(ca == (axiom_steps(cg, axv[a as int].name, ps.0) + rest.0, rest.1, rest.2));
                assert(prems.skip(0) =~= prems);
            }
            let mut p: usize = 0;
            while p < fresh.premises.len()
                invariant
                    p <= fresh.premises@.len(),
                    depth > 0,
                    axv == axioms_view(axioms@),
                    p2v == formulas_view(path2@),
                    prems == fresh@.premises,
                    prems.len() == fresh.premises@.len(),
                    ps == premise_search(prems.skip(p as int), states_view(states@), axv, depth as nat, p2v, *skolem_ctr, *axiom_ctr),
                    forall|q: int|
                        0 <= q < states@.len() ==> (#[trigger] states@[q]).0@.len() == p && all_well_shaped(
                            steps_view(states@[q].0@),
                            axv,
                        ),
                decreases fresh.premises@.len() - p,
            {
                let mut next: Vec<(Vec<ProofStep>, Bindings)> = Vec::new();
                let ghost sv = states_view(states@);
                let ghost prem = prems[p as int];
                let ghost nx = state_search(prem, sv, axv, depth as nat, p2v, *skolem_ctr, *axiom_ctr);
                proof {
                    assert(prems.skip(p as int)[0] == prem);
                    assert(prems.skip(p as int).drop_first() =~= prems.skip(p + 1));
                    assert(ps == premise_search(prems.skip(p + 1), nx.0, axv, depth as nat, p2v, nx.1, nx.2));
                    assert(sv.skip(0) =~= sv);
                    assert(states_view(next@) + nx.0 =~= nx.0);
                }
                let mut q: usize = 0;
                while q < states.len()
                    invariant
                        q <= states@.len(),
                        p < fresh.premises@.len(),
                        depth > 0,
                        axv == axioms_view(axioms@),
                        p2v == formulas_view(path2@),
                        prems == fresh@.premises,
                        prem == prems[p as int],
                        sv == states_view(states@),
                        nx == (
                            states_view(next@) + state_search(
                                prem,
                                sv.skip(q as int),
                                axv,
                                depth as nat,
                                p2v,
                                *skolem_ctr,
                                *axiom_ctr,
                            ).0,
                            state_search(prem, sv.skip(q as int), axv, depth as nat, p2v, *skolem_ctr, *axiom_ctr).1,
                            state_search(prem, sv.skip(q as int), axv, depth as nat, p2v, *skolem_ctr, *axiom_ctr).2,
                        ),
                        forall|r: int|
                            0 <= r < states@.len() ==> (#[trigger] states@[r]).0@.len() == p
                                && all_well_shaped(steps_view(states@[r].0@), axv),
                        forall|r: int|
                            0 <= r < next@.len() ==> (#[trigger] next@[r]).0@.len() == p + 1
                                && all_well_shaped(steps_view(next@[r].0@), axv),
                    decreases states@.len() - q,
                {
                    let so_far = &states[q].0;
                    let current_bindings = &states[q].1;
                    let p_sub = fresh.premises[p].substitute(current_bindings);
                    proof {
                        assert(prem == fresh.premises@[p as int]@);
                    }
                    let ghost before_q = states_view(next@);
                    let ghost cbv = bview(current_bindings@);
                    let ghost sof = steps_view(so_far@);
                    let premise_proofs = prove_dfs(
                        &p_sub,
                        axioms,
                        depth - 1,
                        current_bindings,
                        &path2,
                        skolem_ctr,
                        axiom_ctr,
                    );
                    let ghost fp = found_view(premise_proofs@);
                    let ghost rest_q = state_search(prem, sv.skip(q + 1), axv, depth as nat, p2v, *skolem_ctr, *axiom_ctr);
                    proof {
                        assert(sv.skip(q as int)[0] == sv[q as int]);
                        assert(sv.skip(q as int).drop_first() =~= sv.skip(q + 1));
                        assert(fp.take(0) =~= Seq::<(StepV, BindingsV)>::empty());
                        assert(extend_states(sof, cbv, fp.take(0)) =~= Seq::<(Seq<StepV>, BindingsV)>::empty());
                        assert(before_q + extend_states(sof, cbv, fp.take(0)) =~= before_q);
                    }
                    let mut k: usize = 0;
                    while k < premise_proofs.len()
                        invariant
                            k <= premise_proofs@.len(),
                            q < states@.len(),
                            *so_far == states@[q as int].0,
                            so_far@.len() == p,
                            all_well_shaped(steps_view(so_far@), axv),
                            axv == axioms_view(axioms@),
                            sof == steps_view(so_far@),
                            cbv == bview(current_bindings@),
                            fp == found_view(premise_proofs@),
                            states_view(next@) == before_q + extend_states(sof, cbv, fp.take(k as int)),
                            results_ok(premise_proofs@, formula_subst(p_sub@, bview(current_bindings@)), axv),
                            forall|r: int|
                                0 <= r < next@.len() ==> (#[trigger] next@[r]).0@.len() == p + 1
                                    && all_well_shaped(steps_view(next@[r].0@), axv),
                        decreases premise_proofs@.len() - k,
                    {
                        let next_proofs = append_step(so_far, &premise_proofs[k].0);
                        proof {
                            assert(well_shaped(premise_proofs@[k as int].0@, axv));
                            lemma_all_well_shaped_push(steps_view(so_far@), premise_proofs@[k as int].0@, axv);
                            assert(steps_view(next_proofs@) =~= steps_view(so_far@).push(premise_proofs@[k as int].0@));
                        }
                        let mut next_bindings = copy_bindings(current_bindings);
                        extend_bindings(&mut next_bindings, &premise_proofs[k].1);
                        proof {
                            lemma_states_push(next@, (next_proofs, next_bindings));
                            assert(fp.take(k + 1) =~= fp.take(k as int).push(fp[k as int]));
                            assert(extend_states(sof, cbv, fp.take(k + 1)) =~= extend_states(
                                sof,
                                cbv,
                                fp.take(k as int),
                            ).push((steps_view(next_proofs@), bview(next_bindings@))));
                        }
                        next.push((next_proofs, next_bindings));
                        k = k + 1;
                    }
                    proof {
                        assert(fp.take(k as int) =~= fp);
                        assert(before_q + (extend_states(sof, cbv, fp) + rest_q.0) =~= states_view(next@)
                            + rest_q.0);
                    }
                    q = q + 1;
                }
                proof {
                    assert(sv.skip(q as int).len() == 0);
                    assert(states_view(next@) + Seq::<(Seq<StepV>, BindingsV)>::empty() =~= states_view(next@));
                }
                states = next;
                p = p + 1;
            }
            let ghost fs = states_view(states@);
            proof {
                assert(prems.skip(p as int).len() == 0);
                assert(ps == (fs, *skolem_ctr, *axiom_ctr));
                assert(fs.take(0) =~= Seq::<(Seq<StepV>, BindingsV)>::empty());
                assert(before_a + axiom_steps(cg, axv[a as int].name, fs.take(0)) =~= before_a);
            }
            // Any state that survived all premises is a valid proof.
            let mut q: usize = 0;
            while q < states.len()
                invariant
                    q <= states@.len(),
                    a < axioms@.len(),
                    axv == axioms_view(axioms@),
                    cg == current_goal@,
                    !(cg is And) && !(cg is Or) && !(cg is Exists),
                    fresh.premises@.len() == axv[a as int].premises.len(),
                    fs == states_view(states@),
                    found_view(results@) == before_a + axiom_steps(cg, axv[a as int].name, fs.take(q as int)),
                    forall|r: int|
                        0 <= r < states@.len() ==> (#[trigger] states@[r]).0@.len() == fresh.premises@.len()
                            && all_well_shaped(steps_view(states@[r].0@), axv),
                    results_ok(results@, cg, axv),
                decreases states@.len() - q,
            {
                let subs_q = copy_steps(&states[q].0);
                let step = ProofStep::simple(current_goal.duplicate(), axioms[a].name.clone(), subs_q);
                proof {
                    assert(axv[a as int].name == step@.rule);
                    assert(step@.subs =~= steps_view(states@[q as int].0@));
                    assert(rule_fits(step@, axv));
                    assert(step@.witnesses =~= Seq::<(Seq<char>, TermV)>::empty());
                    assert(step@ == simple_step(cg, axv[a as int].name, fs[q as int].0));
                }
                let nb = copy_bindings(&states[q].1);
                proof {
                    lemma_results_push(results@, (step, nb), cg, axv);
                    lemma_found_push(results@, (step, nb));
                    assert(fs.take(q + 1) =~= fs.take(q as int).push(fs[q as int]));
                    assert(axiom_steps(cg, axv[a as int].name, fs.take(q + 1)) =~= axiom_steps(
                        cg,
                        axv[a as int].name,
                        fs.take(q as int),
                    ).push((step@, bview(nb@))));
                }
                results.push((step, nb));
                q = q + 1;
            }
            proof {
                assert(fs.take(q as int) =~= fs);
                assert(before_a + ca.0 =~= found_view(results@) + rest.0);
            }
        }
        a = a + 1;
    }
    proof {
        assert(found_view(results@) + Seq::<(StepV, BindingsV)>::empty() =~= found_view(results@));
    }
    results
}

proof fn lemma_results_push(
    results: Seq<(ProofStep, Bindings)>,
    item: (ProofStep, Bindings),
    goal: FormulaV,
    axioms: Seq<AxiomV>,
)
    requires
        results_ok(results, goal, axioms),
        rule_fits(item.0@, axioms),
        all_well_shaped(item.0@.subs, axioms),
        item.0@.goal == goal,
    ensures
        results_ok(results.push(item), goal, axioms),
{
    assert(well_shaped(item.0@, axioms));
    assert forall|i: int| 0 <= i < results.push(item).len() implies well_shaped(
        #[trigger] results.push(item)[i].0@,
        axioms,
    ) && results.push(item)[i].0@.goal == goal by {
        if i < results.len() {
            assert(results.push(item)[i] == results[i]);
        }
    }
}

proof fn lemma_all_well_shaped_push(ss: Seq<StepV>, s: StepV, axioms: Seq<AxiomV>)
    requires
        all_well_shaped(ss, axioms),
        well_shaped(s, axioms),
    ensures
        all_well_shaped(ss.push(s), axioms),
{
    assert(ss.push(s).drop_last() =~= ss);
}

/// Copies of a list of proof steps.
fn copy_steps(ss: &Vec<ProofStep>) -> (r: Vec<ProofStep>)
    ensures
        steps_view(r@) == steps_view(ss@),
        r@.len() == ss@.len(),
{
    let mut out: Vec<ProofStep> = Vec::new();
    let mut i: usize = 0;
    while i < ss.len()
        invariant
            i <= ss@.len(),
            out@.len() == i,
            forall|j: int| 0 <= j < i ==> #[trigger] out@[j]@ == ss@[j]@,
        decreases ss@.len() - i,
    {
        out.push(ss[i].duplicate());
        i = i + 1;
    }
    assert(steps_view(out@) =~= steps_view(ss@));
    out
}

/// Copies of `ss` with a copy of `s` appended.
fn append_step(ss: &Vec<ProofStep>, s: &ProofStep) -> (r: Vec<ProofStep>)
    ensures
        steps_view(r@) == steps_view(ss@).push(s@),
        r@.len() == ss@.len() + 1,
{
    let mut out = copy_steps(ss);
    out.push(s.duplicate());
    assert(steps_view(out@) =~= steps_view(ss@).push(s@));
    out
}


/// Substituting with no bindings changes nothing.
pub proof fn lemma_subst_empty(t: TermV, fuel: nat)
    ensures
        subst(t, Map::empty(), fuel) == t,
    decreases t,
{
    match t {
        TermV::Apply(f, args) => {
            let st = subst(t, Map::empty(), fuel);
            assert forall|i: int| 0 <= i < args.len() implies st->Apply_1[i] == args[i] by {
                lemma_subst_empty(args[i], fuel);
            }
            assert(st->Apply_1 =~= args);
        },
        _ => {},
    }
}

/// Substituting with no bindings changes no formula.
pub proof fn lemma_formula_subst_empty(f: FormulaV)
    ensures
        formula_subst(f, Map::empty()) == f,
    decreases f,
{
    let e = Map::<Seq<char>, TermV>::empty();
    match f {
        FormulaV::Eq(l, r) => {
            lemma_subst_empty(l, 0);
            lemma_subst_empty(r, 0);
        },
        FormulaV::Pred(n, args) => {
            assert forall|i: int| 0 <= i < args.len() implies terms_subst(args, e)[i] == args[i] by {
                lemma_subst_empty(args[i], 0);
            }
            assert(terms_subst(args, e) =~= args);
        },
        FormulaV::And(l, r) => {
            lemma_formula_subst_empty(*l);
            lemma_formula_subst_empty(*r);
        },
        FormulaV::Or(l, r) => {
            lemma_formula_subst_empty(*l);
            lemma_formula_subst_empty(*r);
        },
        FormulaV::Not(i) => {
            lemma_formula_subst_empty(*i);
        },
        FormulaV::Implies(l, r) => {
            lemma_formula_subst_empty(*l);
            lemma_formula_subst_empty(*r);
        },
        FormulaV::Exists(v, _, body) => {
            assert(e.remove(v) =~= e);
            lemma_formula_subst_empty(*body);
        },
    }
}

/// Iterative deepening from depth `d` up to `max`, the counters running on
/// from one round to the next: the first proof found, with the bindings it
/// ended with applied to the whole tree.
pub open spec fn deepen(goal: FormulaV, axs: Seq<AxiomV>, d: nat, max: nat, sk: u32, ax: usize) -> Option<StepV>
    decreases max - d,
{
    if d == 0 || d > max {
        None
    } else {
        let r = search(goal, axs, d, Map::empty(), Seq::empty(), sk, ax);
        if r.0.len() > 0 {
            Some(step_subst(r.0[0].0, r.0[0].1))
        } else if d == max {
            None
        } else {
            deepen(goal, axs, d + 1, max, r.1, r.2)
        }
    }
}

/// Attempt to prove `goal` using the axioms of `universe`, by iterative
/// deepening up to `max_depth`: the first proof that the search finds.  A
/// proof found has every step fitting its rule, and proves the goal with
/// the final bindings applied; the whole tree carries those bindings.
pub fn prove(goal: &Formula, universe: &Universe, max_depth: u32) -> (r: Option<ProofStep>)
    ensures
        match r {
            Some(p) => {
                &&& deepen(goal@, axioms_view(universe.axioms@), 1, max_depth as nat, 0, 0) == Some(p@)
                &&& well_shaped(p@, axioms_view(universe.axioms@))
                &&& exists|b: BindingsV| p@.goal == #[trigger] formula_subst(goal@, b)
            },
            None => deepen(goal@, axioms_view(universe.axioms@), 1, max_depth as nat, 0, 0) is None,
        },
{
    let mut skolem_counter: u32 = 0;
    let mut axiom_counter: usize = 0;
    let empty: Bindings = NameMap::new();
    let path: Vec<Formula> = Vec::new();
    let ghost axv = axioms_view(universe.axioms@);
    proof {
        assert(bview(empty@) =~= Map::empty());
        lemma_formula_subst_empty(goal@);
        assert(formulas_view(path@) =~= Seq::<FormulaV>::empty());
    }
    let ghost outcome = deepen(goal@, axv, 1, max_depth as nat, 0, 0);
    if max_depth == 0 {
        return None;
    }
    let mut depth: u32 = 1;
    loop
        invariant
            1 <= depth <= max_depth,
            bview(empty@) == Map::<Seq<char>, TermV>::empty(),
            formulas_view(path@) == Seq::<FormulaV>::empty(),
            formula_subst(goal@, Map::empty()) == goal@,
            axv == axioms_view(universe.axioms@),
            outcome == deepen(goal@, axv, 1, max_depth as nat, 0, 0),
            outcome == deepen(goal@, axv, depth as nat, max_depth as nat, skolem_counter, axiom_counter),
        decreases max_depth - depth,
    {
        let ghost sk0 = skolem_counter;
        let ghost ax0 = axiom_counter;
        let mut proofs = prove_dfs(
            goal,
            &universe.axioms,
            depth,
            &empty,
            &path,
            &mut skolem_counter,
            &mut axiom_counter,
        );
        if proofs.len() > 0 {
            proof {
                assert(well_shaped(proofs@[0].0@, axv));
            }
            let ghost first = found_view(proofs@)[0];
            let (mut proof, final_bindings) = proofs.remove(0);
            let ghost before = proof@;
            // Wash the tree with the final bindings so that Skolem variables
            // and renamed axiom variables show their resolved values.
            proof.apply_bindings(&final_bindings);
            proof {
                lemma_step_subst_well_shaped(before, bview(final_bindings@), axv);
                assert(proof@.goal == formula_subst(goal@, bview(final_bindings@)));
                assert(outcome == Some(step_subst(first.0, first.1)));
                assert(first.0 == before);
                assert(first.1 == bview(final_bindings@));
                assert(outcome == Some(proof@));
            }
            return Some(proof);
        }
        proof {
            assert(found_view(proofs@).len() == 0);
            assert(search(goal@, axv, depth as nat, Map::empty(), Seq::empty(), sk0, ax0).0.len() == 0);
        }
        if depth == max_depth {
            proof {
                assert(outcome is None);
            }
            return None;
        }
        depth = depth + 1;
    }
}

// ---------------------------------------------------------------------------
// Unifying a formula with itself
// ---------------------------------------------------------------------------

/// The nesting depth of applications in a term.
pub open spec fn term_depth(t: TermV) -> nat
    decreases t, 1nat,
{
    match t {
        TermV::Apply(_, args) => 1 + depth_all(args),
        _ => 0,
    }
}

/// The greatest nesting depth of the terms of a list.
pub open spec fn depth_all(ts: Seq<TermV>) -> nat
    decreases ts, 0nat,
{
    if ts.len() == 0 {
        0
    } else {
        let a = depth_all(ts.drop_last());
        let b = term_depth(ts.last());
        if a >= b {
            a
        } else {
            b
        }
    }
}

/// Every term of the formula nests at most `d` applications deep.
pub open spec fn formula_depth_within(f: FormulaV, d: nat) -> bool
    decreases f,
{
    match f {
        FormulaV::Eq(l, r) => term_depth(l) <= d && term_depth(r) <= d,
        FormulaV::Pred(_, args) => depth_all(args) <= d,
        FormulaV::And(l, r) => formula_depth_within(*l, d) && formula_depth_within(*r, d),
        FormulaV::Or(l, r) => formula_depth_within(*l, d) && formula_depth_within(*r, d),
        FormulaV::Implies(l, r) => formula_depth_within(*l, d) && formula_depth_within(*r, d),
        FormulaV::Not(i) => formula_depth_within(*i, d),
        FormulaV::Exists(_, _, b) => formula_depth_within(*b, d),
    }
}

proof fn lemma_depth_all_bounds(ts: Seq<TermV>, i: int)
    requires
        0 <= i < ts.len(),
    ensures
        term_depth(ts[i]) <= depth_all(ts),
    decreases ts.len(),
{
    if i < ts.len() - 1 {
        lemma_depth_all_bounds(ts.drop_last(), i);
        assert(ts.drop_last()[i] == ts[i]);
    }
}

proof fn lemma_unify_term_self(t: TermV, fuel: nat)
    requires
        term_depth(t) <= fuel,
    ensures
        unify_term_spec(t, t, Map::empty(), fuel) == (true, Map::<Seq<char>, TermV>::empty()),
    decreases t, 1nat,
{
    let e = Map::<Seq<char>, TermV>::empty();
    assert(resolve_spec(t, e) == t);
    match t {
        TermV::Apply(f, args) => {
            assert forall|i: int| 0 <= i < args.len() implies term_depth(#[trigger] args[i]) <= (fuel - 1) as nat by {
                lemma_depth_all_bounds(args, i);
            }
            lemma_unify_args_self(args, (fuel - 1) as nat);
        },
        _ => {},
    }
}

proof fn lemma_unify_args_self(ts: Seq<TermV>, fuel: nat)
    requires
        forall|i: int| 0 <= i < ts.len() ==> term_depth(#[trigger] ts[i]) <= fuel,
    ensures
        unify_args(ts, ts, Map::empty(), fuel) == (true, Map::<Seq<char>, TermV>::empty()),
    decreases ts, 0nat,
{
    if ts.len() > 0 {
        assert(term_depth(ts[0]) <= fuel);
        lemma_unify_term_self(ts[0], fuel);
        let rest = ts.drop_first();
        assert forall|i: int| 0 <= i < rest.len() implies term_depth(#[trigger] rest[i]) <= fuel by {
            assert(rest[i] == ts[i + 1]);
        }
        lemma_unify_args_self(rest, fuel);
    }
}

/// Unification is reflexive: a formula unifies with itself, binding
/// nothing (for terms that nest fewer than `UNIFY_DEPTH` applications).
pub proof fn lemma_unify_self(f: FormulaV)
    requires
        formula_depth_within(f, UNIFY_DEPTH as nat),
    ensures
        formula_unify(f, f, Map::empty()) == (true, Map::<Seq<char>, TermV>::empty()),
    decreases f,
{
    match f {
        FormulaV::Eq(l, r) => {
            lemma_unify_term_self(l, UNIFY_DEPTH as nat);
            lemma_unify_term_self(r, UNIFY_DEPTH as nat);
        },
        FormulaV::Pred(_, args) => {
            assert forall|i: int| 0 <= i < args.len() implies term_depth(#[trigger] args[i]) <= UNIFY_DEPTH as nat by {
                lemma_depth_all_bounds(args, i);
            }
            lemma_unify_args_self(args, UNIFY_DEPTH as nat);
        },
        FormulaV::And(l, r) => {
            lemma_unify_self(*l);
            lemma_unify_self(*r);
        },
        FormulaV::Or(l, r) => {
            lemma_unify_self(*l);
            lemma_unify_self(*r);
        },
        FormulaV::Implies(l, r) => {
            lemma_unify_self(*l);
            lemma_unify_self(*r);
        },
        FormulaV::Not(i) => {
            lemma_unify_self(*i);
        },
        FormulaV::Exists(_, _, b) => {
            lemma_unify_self(*b);
        },
    }
}

// ---------------------------------------------------------------------------
// Unifying a pattern with a goal without variables
// ---------------------------------------------------------------------------

/// A term without variables.
pub open spec fn term_ground(t: TermV) -> bool
    decreases t, 1nat,
{
    match t {
        TermV::Var(_, _) => false,
        TermV::Const(_) => true,
        TermV::Apply(_, args) => ground_all(args),
    }
}

/// Terms without variables.
pub open spec fn ground_all(ts: Seq<TermV>) -> bool
    decreases ts, 0nat,
{
    if ts.len() == 0 {
        true
    } else {
        ground_all(ts.drop_last()) && term_ground(ts.last())
    }
}

/// A formula of equalities and predicates joined by connectives, with no
/// variables and no quantifier.
pub open spec fn formula_ground(f: FormulaV) -> bool
    decreases f,
{
    match f {
        FormulaV::Eq(l, r) => term_ground(l) && term_ground(r),
        FormulaV::Pred(_, args) => ground_all(args),
        FormulaV::And(l, r) => formula_ground(*l) && formula_ground(*r),
        FormulaV::Or(l, r) => formula_ground(*l) && formula_ground(*r),
        FormulaV::Implies(l, r) => formula_ground(*l) && formula_ground(*r),
        FormulaV::Not(i) => formula_ground(*i),
        FormulaV::Exists(_, _, _) => false,
    }
}

/// A formula without existential quantifiers.
pub open spec fn exists_free(f: FormulaV) -> bool
    decreases f,
{
    match f {
        FormulaV::And(l, r) => exists_free(*l) && exists_free(*r),
        FormulaV::Or(l, r) => exists_free(*l) && exists_free(*r),
        FormulaV::Implies(l, r) => exists_free(*l) && exists_free(*r),
        FormulaV::Not(i) => exists_free(*i),
        FormulaV::Exists(_, _, _) => false,
        _ => true,
    }
}

/// Every variable is bound to a term without variables.
pub open spec fn ground_values(b: BindingsV) -> bool {
    forall|n: Seq<char>| #[trigger] b.contains_key(n) ==> term_ground(b[n])
}

proof fn lemma_ground_all_elim(ts: Seq<TermV>, i: int)
    requires
        ground_all(ts),
        0 <= i < ts.len(),
    ensures
        term_ground(ts[i]),
    decreases ts.len(),
{
    if i < ts.len() - 1 {
        lemma_ground_all_elim(ts.drop_last(), i);
        assert(ts.drop_last()[i] == ts[i]);
    }
}

proof fn lemma_ground_all_intro(ts: Seq<TermV>)
    requires
        forall|i: int| 0 <= i < ts.len() ==> term_ground(#[trigger] ts[i]),
    ensures
        ground_all(ts),
    decreases ts.len(),
{
    if ts.len() > 0 {
        assert forall|i: int| 0 <= i < ts.drop_last().len() implies term_ground(#[trigger] ts.drop_last()[i]) by {
            assert(ts.drop_last()[i] == ts[i]);
        }
        lemma_ground_all_intro(ts.drop_last());
        assert(term_ground(ts[ts.len() - 1]));
    }
}

/// A term without variables is left as it is by substitution and resolution.
proof fn lemma_ground_fixed(t: TermV, b: BindingsV, fuel: nat)
    requires
        term_ground(t),
    ensures
        subst(t, b, fuel) == t,
        chain(t, b, fuel) == t,
    decreases t,
{
    match t {
        TermV::Apply(f, args) => {
            let st = subst(t, b, fuel);
            assert forall|i: int| 0 <= i < args.len() implies st->Apply_1[i] == args[i] by {
                lemma_ground_all_elim(args, i);
                lemma_ground_fixed(args[i], b, fuel);
            }
            assert(st->Apply_1 =~= args);
        },
        _ => {},
    }
    if fuel > 0 {
        assert(chain_step(t, b) is None);
    }
}

/// Under bindings to ground terms, a bound variable resolves and substitutes
/// to its binding, and an unbound one to itself.
proof fn lemma_var_under_ground(n: Seq<char>, srt: Seq<char>, b: BindingsV)
    requires
        ground_values(b),
        b.dom().finite(),
    ensures
        b.contains_key(n) ==> resolve_spec(TermV::Var(n, srt), b) == b[n] && term_subst(TermV::Var(n, srt), b)
            == b[n],
        !b.contains_key(n) ==> resolve_spec(TermV::Var(n, srt), b) == TermV::Var(n, srt) && term_subst(
            TermV::Var(n, srt),
            b,
        ) == TermV::Var(n, srt),
{
    let t = TermV::Var(n, srt);
    if b.contains_key(n) {
        assert(term_ground(b[n]));
        assert(b[n] != t);
        assert(b.len() > 0) by {
            assert(b.dom().contains(n));
        }
        lemma_ground_fixed(b[n], b, (b.len() - 1) as nat);
    }
}

/// Growing the bindings keeps a substitution that gave a ground term.
proof fn lemma_extend_ground(t: TermV, b1: BindingsV, b2: BindingsV)
    requires
        ground_values(b1),
        ground_values(b2),
        b1.dom().finite(),
        b2.dom().finite(),
        b1.submap_of(b2),
        term_ground(term_subst(t, b1)),
    ensures
        term_subst(t, b2) == term_subst(t, b1),
    decreases t,
{
    match t {
        TermV::Var(n, srt) => {
            lemma_var_under_ground(n, srt, b1);
            lemma_var_under_ground(n, srt, b2);
        },
        TermV::Const(_) => {},
        TermV::Apply(f, args) => {
            let s1 = term_subst(t, b1);
            let s2 = term_subst(t, b2);
            assert(chain_step(t, b1) is None);
            assert(chain_step(t, b2) is None);
            assert forall|i: int| 0 <= i < args.len() implies s2->Apply_1[i] == s1->Apply_1[i] by {
                lemma_ground_all_elim(s1->Apply_1, i);
                lemma_extend_ground(args[i], b1, b2);
            }
            assert(s2->Apply_1 =~= s1->Apply_1);
        },
    }
}

/// A successful unification of `t1` with a ground `t2`, under bindings to
/// ground terms, only adds bindings to ground terms, and after it `t1`
/// substitutes to `t2`.
proof fn lemma_unify_ground(t1: TermV, t2: TermV, b: BindingsV, fuel: nat)
    requires
        term_ground(t2),
        ground_values(b),
        b.dom().finite(),
        unify_term_spec(t1, t2, b, fuel).0,
    ensures
        ground_values(unify_term_spec(t1, t2, b, fuel).1),
        unify_term_spec(t1, t2, b, fuel).1.dom().finite(),
        b.submap_of(unify_term_spec(t1, t2, b, fuel).1),
        term_subst(t1, unify_term_spec(t1, t2, b, fuel).1) == t2,
    decreases fuel, 0nat, 0nat,
{
    let b2 = unify_term_spec(t1, t2, b, fuel).1;
    lemma_ground_fixed(t2, b, b.len());
    let r2 = resolve_spec(t2, b);
    assert(r2 == t2);
    match t1 {
        TermV::Var(n, srt) => {
            lemma_var_under_ground(n, srt, b);
            if b.contains_key(n) {
                let r1 = b[n];
                assert(term_ground(r1));
                lemma_ground_fixed(r1, b, b.len());
                match r1 {
                    TermV::Apply(f1, a1) => {
                        let a2 = t2->Apply_1;
                        lemma_unify_args_ground(a1, a2, b, (fuel - 1) as nat);
                        assert forall|i: int| 0 <= i < a1.len() implies a1[i] == a2[i] by {
                            lemma_ground_all_elim(a1, i);
                            lemma_ground_fixed(a1[i], b2, b2.len());
                        }
                        assert(a1 =~= a2);
                    },
                    _ => {},
                }
                assert(b2.contains_key(n) && b2[n] == r1);
                lemma_var_under_ground(n, srt, b2);
            } else {
                assert(b2 == b.insert(n, t2));
                assert(ground_values(b2));
                lemma_var_under_ground(n, srt, b2);
            }
        },
        TermV::Const(_) => {
            lemma_ground_fixed(t1, b, b.len());
            lemma_ground_fixed(t1, b2, b2.len());
        },
        TermV::Apply(f1, a1) => {
            assert(resolve_spec(t1, b) == t1) by {
                if b.len() > 0 {
                    assert(chain_step(t1, b) is None);
                }
            }
            let a2 = t2->Apply_1;
            lemma_unify_args_ground(a1, a2, b, (fuel - 1) as nat);
            let s = term_subst(t1, b2);
            assert(chain_step(t1, b2) is None);
            assert forall|i: int| 0 <= i < a1.len() implies s->Apply_1[i] == a2[i] by {}
            assert(s->Apply_1 =~= a2);
        },
    }
}

proof fn lemma_unify_args_ground(a1: Seq<TermV>, a2: Seq<TermV>, b: BindingsV, fuel: nat)
    requires
        a1.len() == a2.len(),
        ground_all(a2),
        ground_values(b),
        b.dom().finite(),
        unify_args(a1, a2, b, fuel).0,
    ensures
        ground_values(unify_args(a1, a2, b, fuel).1),
        unify_args(a1, a2, b, fuel).1.dom().finite(),
        b.submap_of(unify_args(a1, a2, b, fuel).1),
        forall|i: int| 0 <= i < a1.len() ==> term_subst(#[trigger] a1[i], unify_args(a1, a2, b, fuel).1) == a2[i],
    decreases fuel, 1nat, a1.len(),
{
    let b2 = unify_args(a1, a2, b, fuel).1;
    if a1.len() > 0 {
        lemma_ground_all_elim(a2, 0);
        lemma_unify_ground(a1[0], a2[0], b, fuel);
        let b1 = unify_term_spec(a1[0], a2[0], b, fuel).1;
        let r1 = a1.drop_first();
        let r2 = a2.drop_first();
        assert forall|i: int| 0 <= i < r2.len() implies term_ground(#[trigger] r2[i]) by {
            lemma_ground_all_elim(a2, i + 1);
        }
        lemma_ground_all_intro(r2);
        lemma_unify_args_ground(r1, r2, b1, fuel);
        vstd::map_lib::lemma_submap_of_trans(b, b1, b2);
        assert forall|i: int| 0 <= i < a1.len() implies term_subst(#[trigger] a1[i], b2) == a2[i] by {
            if i == 0 {
                lemma_ground_all_elim(a2, 0);
                lemma_extend_ground(a1[0], b1, b2);
            } else {
                assert(a1[i] == r1[i - 1]);
            }
        }
    }
}

/// Growing the bindings keeps a substitution that gave a ground formula.
proof fn lemma_extend_ground_formula(f: FormulaV, b1: BindingsV, b2: BindingsV)
    requires
        ground_values(b1),
        ground_values(b2),
        b1.dom().finite(),
        b2.dom().finite(),
        b1.submap_of(b2),
        exists_free(f),
        formula_ground(formula_subst(f, b1)),
    ensures
        formula_subst(f, b2) == formula_subst(f, b1),
    decreases f,
{
    match f {
        FormulaV::Eq(l, r) => {
            lemma_extend_ground(l, b1, b2);
            lemma_extend_ground(r, b1, b2);
        },
        FormulaV::Pred(n, args) => {
            let s1 = terms_subst(args, b1);
            assert forall|i: int| 0 <= i < args.len() implies terms_subst(args, b2)[i] == s1[i] by {
                lemma_ground_all_elim(s1, i);
                lemma_extend_ground(args[i], b1, b2);
            }
            assert(terms_subst(args, b2) =~= s1);
        },
        FormulaV::And(l, r) => {
            lemma_extend_ground_formula(*l, b1, b2);
            lemma_extend_ground_formula(*r, b1, b2);
        },
        FormulaV::Or(l, r) => {
            lemma_extend_ground_formula(*l, b1, b2);
            lemma_extend_ground_formula(*r, b1, b2);
        },
        FormulaV::Implies(l, r) => {
            lemma_extend_ground_formula(*l, b1, b2);
            lemma_extend_ground_formula(*r, b1, b2);
        },
        FormulaV::Not(i) => {
            lemma_extend_ground_formula(*i, b1, b2);
        },
        FormulaV::Exists(_, _, _) => {},
    }
}

proof fn lemma_formula_unify_ground(p: FormulaV, g: FormulaV, b: BindingsV)
    requires
        exists_free(p),
        formula_ground(g),
        ground_values(b),
        b.dom().finite(),
        formula_unify(p, g, b).0,
    ensures
        ground_values(formula_unify(p, g, b).1),
        formula_unify(p, g, b).1.dom().finite(),
        b.submap_of(formula_unify(p, g, b).1),
        formula_subst(p, formula_unify(p, g, b).1) == g,
    decreases p,
{
    let b2 = formula_unify(p, g, b).1;
    match (p, g) {
        (FormulaV::Pred(n1, a1), FormulaV::Pred(n2, a2)) => {
            lemma_unify_args_ground(a1, a2, b, UNIFY_DEPTH as nat);
            assert(terms_subst(a1, b2) =~= a2);
        },
        (FormulaV::Eq(l1, r1), FormulaV::Eq(l2, r2)) => {
            lemma_unify_ground(l1, l2, b, UNIFY_DEPTH as nat);
            let b1 = unify_term_spec(l1, l2, b, UNIFY_DEPTH as nat).1;
            lemma_unify_ground(r1, r2, b1, UNIFY_DEPTH as nat);
            vstd::map_lib::lemma_submap_of_trans(b, b1, b2);
            lemma_extend_ground(l1, b1, b2);
        },
        (FormulaV::Not(i1), FormulaV::Not(i2)) => {
            lemma_formula_unify_ground(*i1, *i2, b);
        },
        (FormulaV::Or(l1, r1), FormulaV::Or(l2, r2)) => {
            lemma_formula_unify_ground(*l1, *l2, b);
            let b1 = formula_unify(*l1, *l2, b).1;
            lemma_formula_unify_ground(*r1, *r2, b1);
            vstd::map_lib::lemma_submap_of_trans(b, b1, b2);
            lemma_extend_ground_formula(*l1, b1, b2);
        },
        (FormulaV::And(l1, r1), FormulaV::And(l2, r2)) => {
            lemma_formula_unify_ground(*l1, *l2, b);
            let b1 = formula_unify(*l1, *l2, b).1;
            lemma_formula_unify_ground(*r1, *r2, b1);
            vstd::map_lib::lemma_submap_of_trans(b, b1, b2);
            lemma_extend_ground_formula(*l1, b1, b2);
        },
        (FormulaV::Implies(l1, r1), FormulaV::Implies(l2, r2)) => {
            lemma_formula_unify_ground(*l1, *l2, b);
            let b1 = formula_unify(*l1, *l2, b).1;
            lemma_formula_unify_ground(*r1, *r2, b1);
            vstd::map_lib::lemma_submap_of_trans(b, b1, b2);
            lemma_extend_ground_formula(*l1, b1, b2);
        },
        _ => {},
    }
}

/// Unifying a pattern without quantifiers with a goal without variables:
/// when it succeeds, applying the bindings to the pattern gives exactly the
/// goal.
pub proof fn lemma_unify_instantiates(pattern: FormulaV, goal: FormulaV)
    requires
        exists_free(pattern),
        formula_ground(goal),
        formula_unify(pattern, goal, Map::empty()).0,
    ensures
        formula_subst(pattern, formula_unify(pattern, goal, Map::empty()).1) == goal,
{
    lemma_formula_unify_ground(pattern, goal, Map::empty());
}

} // verus!
