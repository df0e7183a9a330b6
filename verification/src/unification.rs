//! Soundness of unification: when two terms (or two formulas without
//! quantifiers) unify, applying the resulting bindings makes them equal.
//! When each name carries one sort throughout, the two sides become exactly
//! equal.  Also the laws of substitution: it is idempotent under acyclic bindings,
//! the identity with no bindings, and changes nothing but variables.
//!
//! Bindings are kept triangular (a variable may be bound to a term that
//! mentions other bound variables); they stay acyclic because of the occurs
//! check, which is what lets substitution with a bounded number of chain
//! steps reach every binding.
use vstd::prelude::*;

use crate::ast::{FormulaV, TermV};
use crate::engine::{
    bind_var, chain, chain_step, compatible, occurs_spec, term_sort, exists_free, formula_subst, formula_unify, resolve_spec, subst,
    term_subst, terms_subst, unify_args, unify_term_spec, var_occurs, var_occurs_any, BindingsV,
    UNIFY_DEPTH,
};

verus! {

// ---------------------------------------------------------------------------
// Occurrences
// ---------------------------------------------------------------------------

proof fn lemma_occurs_in_arg(n: Seq<char>, ts: Seq<TermV>, i: int)
    requires
        0 <= i < ts.len(),
        var_occurs(n, ts[i]),
    ensures
        var_occurs_any(n, ts),
    decreases ts.len(),
{
    if i < ts.len() - 1 {
        lemma_occurs_in_arg(n, ts.drop_last(), i);
        assert(ts.drop_last()[i] == ts[i]);
    }
}

proof fn lemma_occurs_any_elim(n: Seq<char>, ts: Seq<TermV>)
    requires
        var_occurs_any(n, ts),
    ensures
        exists|i: int| 0 <= i < ts.len() && var_occurs(n, #[trigger] ts[i]),
    decreases ts.len(),
{
    if var_occurs(n, ts.last()) {
        assert(var_occurs(n, ts[ts.len() - 1]));
    } else {
        lemma_occurs_any_elim(n, ts.drop_last());
        let i = choose|i: int| 0 <= i < ts.drop_last().len() && var_occurs(n, #[trigger] ts.drop_last()[i]);
        assert(ts.drop_last()[i] == ts[i]);
    }
}

/// No bound variable occurs in `s`.
pub open spec fn normal(s: TermV, b: BindingsV) -> bool {
    forall|m: Seq<char>| #[trigger] var_occurs(m, s) ==> !b.contains_key(m)
}

/// The bound variables of `t` all rank below `k`.
pub open spec fn below(t: TermV, b: BindingsV, r: spec_fn(Seq<char>) -> nat, k: nat) -> bool {
    forall|m: Seq<char>| #[trigger] var_occurs(m, t) && b.contains_key(m) ==> r(m) < k
}

/// `r` ranks each bound variable above every bound variable of its binding.
pub open spec fn ranked(b: BindingsV, r: spec_fn(Seq<char>) -> nat) -> bool {
    forall|n: Seq<char>, m: Seq<char>|
        #![trigger b.contains_key(n), var_occurs(m, b[n])]
        b.contains_key(n) && var_occurs(m, b[n]) && b.contains_key(m) ==> r(m) < r(n)
}

/// Every bound variable ranks below the number of bindings.
pub open spec fn bounded(b: BindingsV, r: spec_fn(Seq<char>) -> nat) -> bool {
    forall|n: Seq<char>| #[trigger] b.contains_key(n) ==> r(n) < b.len()
}

/// The bindings can be ranked: no variable depends on itself.
pub open spec fn acyclic(b: BindingsV) -> bool {
    b.dom().finite() && exists|r: spec_fn(Seq<char>) -> nat| ranked(b, r)
}

// ---------------------------------------------------------------------------
// Enough chain steps reach a term without bound variables
// ---------------------------------------------------------------------------

/// With ranked bindings, substitution with more fuel than the ranks of the
/// bound variables met gives a term without bound variables, and more fuel
/// changes nothing.
proof fn lemma_stable(t: TermV, b: BindingsV, r: spec_fn(Seq<char>) -> nat, k: nat, big: nat)
    requires
        ranked(b, r),
        below(t, b, r, k),
        k <= big,
    ensures
        subst(t, b, big) == subst(t, b, k),
        normal(subst(t, b, k), b),
    decreases k, t,
{
    match t {
        TermV::Var(n, srt) => {
            if b.contains_key(n) {
                assert(var_occurs(n, t));
                assert(r(n) < k);
                if b[n] == t {
                    assert(var_occurs(n, b[n]));
                    assert(false);
                }
                assert(chain_step(t, b) == Some(b[n]));
                assert forall|m: Seq<char>| #[trigger] var_occurs(m, b[n]) && b.contains_key(m) implies r(m) < (k
                    - 1) as nat by {}
                lemma_stable(b[n], b, r, (k - 1) as nat, (big - 1) as nat);
            } else {
                assert(chain_step(t, b) is None);
                assert forall|m: Seq<char>| #[trigger] var_occurs(m, subst(t, b, k)) implies !b.contains_key(m) by {}
            }
        },
        TermV::Const(_) => {},
        TermV::Apply(f, args) => {
            assert(chain_step(t, b) is None);
            let s1 = subst(t, b, big);
            let s2 = subst(t, b, k);
            assert forall|i: int| 0 <= i < args.len() implies s1->Apply_1[i] == s2->Apply_1[i] && normal(
                s2->Apply_1[i],
                b,
            ) by {
                assert forall|m: Seq<char>| #[trigger] var_occurs(m, args[i]) && b.contains_key(m) implies r(m)
                    < k by {
                    lemma_occurs_in_arg(m, args, i);
                    assert(var_occurs(m, t));
                }
                lemma_stable(args[i], b, r, k, big);
            }
            assert(s1->Apply_1 =~= s2->Apply_1);
            assert forall|m: Seq<char>| #[trigger] var_occurs(m, s2) implies !b.contains_key(m) by {
                lemma_occurs_any_elim(m, s2->Apply_1);
                let i = choose|i: int| 0 <= i < s2->Apply_1.len() && var_occurs(m, #[trigger] s2->Apply_1[i]);
                assert(normal(s2->Apply_1[i], b));
            }
        },
    }
}

// ---------------------------------------------------------------------------
// Ranks can be taken below the number of bindings
// ---------------------------------------------------------------------------

/// The bound variables ranked below `x` by `r`.
pub open spec fn lower(b: BindingsV, r: spec_fn(Seq<char>) -> nat, x: Seq<char>) -> Set<Seq<char>> {
    b.dom().filter(|y: Seq<char>| r(y) < r(x))
}

/// The rank of `x` as the number of bound variables ranked below it.
pub open spec fn compact(b: BindingsV, r: spec_fn(Seq<char>) -> nat) -> spec_fn(Seq<char>) -> nat {
    |x: Seq<char>| lower(b, r, x).len()
}

proof fn lemma_compact(b: BindingsV, r: spec_fn(Seq<char>) -> nat)
    requires
        b.dom().finite(),
        ranked(b, r),
    ensures
        ranked(b, compact(b, r)),
        bounded(b, compact(b, r)),
{
    let c = compact(b, r);
    assert forall|x: Seq<char>| #[trigger] b.contains_key(x) implies c(x) < b.len() by {
        let lx = lower(b, r, x);
        assert(lx.subset_of(b.dom().remove(x)));
        vstd::set_lib::lemma_len_subset(lx, b.dom().remove(x));
        vstd::set::axiom_set_remove_len(b.dom(), x);
    }
    assert forall|n: Seq<char>, m: Seq<char>|
        #![trigger b.contains_key(n), var_occurs(m, b[n])]
        b.contains_key(n) && var_occurs(m, b[n]) && b.contains_key(m) implies c(m) < c(n) by {
        assert(r(m) < r(n));
        let ln = lower(b, r, n);
        let lm = lower(b, r, m);
        b.dom().lemma_len_filter(|y: Seq<char>| r(y) < r(n));
        assert(lm.subset_of(ln.remove(m)));
        vstd::set_lib::lemma_len_subset(lm, ln.remove(m));
        vstd::set::axiom_set_remove_len(ln, m);
        assert(ln.contains(m));
    }
}

/// Acyclic bindings have a rank below their number.
proof fn lemma_bounded_rank(b: BindingsV) -> (r: spec_fn(Seq<char>) -> nat)
    requires
        acyclic(b),
    ensures
        ranked(b, r),
        bounded(b, r),
{
    let r0 = choose|r: spec_fn(Seq<char>) -> nat| ranked(b, r);
    lemma_compact(b, r0);
    compact(b, r0)
}

// ---------------------------------------------------------------------------
// Full substitution under acyclic bindings
// ---------------------------------------------------------------------------

/// Under acyclic bindings, substitution leaves no bound variable, and any
/// fuel of at least the number of bindings gives the same result.
proof fn lemma_full(t: TermV, b: BindingsV, big: nat)
    requires
        acyclic(b),
        b.len() <= big,
    ensures
        subst(t, b, big) == term_subst(t, b),
        normal(term_subst(t, b), b),
{
    let r = lemma_bounded_rank(b);
    assert forall|m: Seq<char>| #[trigger] var_occurs(m, t) && b.contains_key(m) implies r(m) < b.len() by {}
    lemma_stable(t, b, r, b.len(), big);
}

/// A bound variable substitutes to what its binding substitutes to.
proof fn lemma_full_var(n: Seq<char>, srt: Seq<char>, b: BindingsV)
    requires
        acyclic(b),
        b.contains_key(n),
    ensures
        term_subst(TermV::Var(n, srt), b) == term_subst(b[n], b),
        b.len() >= 1,
{
    let r = lemma_bounded_rank(b);
    let t = TermV::Var(n, srt);
    assert(b.dom().contains(n));
    assert(b.len() >= 1);
    if b[n] == t {
        assert(var_occurs(n, b[n]));
        assert(false);
    }
    assert(chain_step(t, b) == Some(b[n]));
    assert(term_subst(t, b) == subst(b[n], b, (b.len() - 1) as nat));
    assert forall|m: Seq<char>| #[trigger] var_occurs(m, b[n]) && b.contains_key(m) implies r(m) < (b.len() - 1) as nat by {}
    lemma_stable(b[n], b, r, (b.len() - 1) as nat, b.len());
}

/// An unbound variable substitutes to itself.
proof fn lemma_full_unbound(n: Seq<char>, srt: Seq<char>, b: BindingsV)
    requires
        !b.contains_key(n),
    ensures
        term_subst(TermV::Var(n, srt), b) == TermV::Var(n, srt),
{
}

/// An application substitutes argument by argument.
proof fn lemma_full_apply(f: Seq<char>, args: Seq<TermV>, b: BindingsV)
    ensures
        term_subst(TermV::Apply(f, args), b) == TermV::Apply(
            f,
            Seq::new(args.len(), |i: int| term_subst(args[i], b)),
        ),
{
    let t = TermV::Apply(f, args);
    assert(chain_step(t, b) is None);
    assert(term_subst(t, b)->Apply_1 =~= Seq::new(args.len(), |i: int| term_subst(args[i], b)));
}

/// Resolution walks the binding chain until a term that is not a variable
/// or a variable without a binding: under acyclic bindings it ends at such a
/// term, which substitutes like the term resolved.
pub proof fn lemma_resolve(t: TermV, b: BindingsV)
    requires
        acyclic(b),
    ensures
        chain_step(resolve_spec(t, b), b) is None,
        term_subst(resolve_spec(t, b), b) == term_subst(t, b),
        !(resolve_spec(t, b) matches TermV::Var(n, _) && b.contains_key(n)),
{
    let r = lemma_bounded_rank(b);
    lemma_chain(t, b, r, b.len());
}

proof fn lemma_chain(t: TermV, b: BindingsV, r: spec_fn(Seq<char>) -> nat, fuel: nat)
    requires
        acyclic(b),
        ranked(b, r),
        bounded(b, r),
        t matches TermV::Var(n, _) ==> (b.contains_key(n) ==> r(n) < fuel),
    ensures
        chain_step(chain(t, b, fuel), b) is None,
        term_subst(chain(t, b, fuel), b) == term_subst(t, b),
        !(chain(t, b, fuel) matches TermV::Var(n, _) && b.contains_key(n)),
    decreases fuel,
{
    match t {
        TermV::Var(n, srt) => {
            if b.contains_key(n) {
                if b[n] == t {
                    assert(var_occurs(n, b[n]));
                    assert(false);
                }
                assert(chain_step(t, b) == Some(b[n]));
                lemma_full_var(n, srt, b);
                match b[n] {
                    TermV::Var(m, _) => {
                        if b.contains_key(m) {
                            assert(var_occurs(m, b[n]));
                        }
                    },
                    _ => {},
                }
                lemma_chain(b[n], b, r, (fuel - 1) as nat);
            } else {
                assert(chain_step(t, b) is None);
            }
        },
        _ => {
            assert(chain_step(t, b) is None);
        },
    }
}

// ---------------------------------------------------------------------------
// Substituting twice
// ---------------------------------------------------------------------------

/// A term without bound variables is left as it is.
proof fn lemma_idem(s: TermV, b: BindingsV)
    requires
        normal(s, b),
    ensures
        term_subst(s, b) == s,
    decreases s,
{
    match s {
        TermV::Var(n, _) => {
            assert(var_occurs(n, s));
        },
        TermV::Const(_) => {},
        TermV::Apply(f, args) => {
            lemma_full_apply(f, args, b);
            assert forall|i: int| 0 <= i < args.len() implies term_subst(args[i], b) == args[i] by {
                assert forall|m: Seq<char>| #[trigger] var_occurs(m, args[i]) implies !b.contains_key(m) by {
                    lemma_occurs_in_arg(m, args, i);
                    assert(var_occurs(m, s));
                }
                lemma_idem(args[i], b);
            }
            assert(Seq::new(args.len(), |i: int| term_subst(args[i], b)) =~= args);
        },
    }
}

/// An unbound variable of a term stays after substitution.
proof fn lemma_occ_keep(n: Seq<char>, t: TermV, b: BindingsV)
    requires
        var_occurs(n, t),
        !b.contains_key(n),
    ensures
        var_occurs(n, term_subst(t, b)),
    decreases t,
{
    match t {
        TermV::Var(x, srt) => {
            lemma_full_unbound(x, srt, b);
        },
        TermV::Const(_) => {},
        TermV::Apply(f, args) => {
            lemma_occurs_any_elim(n, args);
            let i = choose|i: int| 0 <= i < args.len() && var_occurs(n, #[trigger] args[i]);
            lemma_occ_keep(n, args[i], b);
            lemma_full_apply(f, args, b);
            let sa = Seq::new(args.len(), |j: int| term_subst(args[j], b));
            assert(sa[i] == term_subst(args[i], b));
            lemma_occurs_in_arg(n, sa, i);
        },
    }
}

/// A variable of the substitution of a bound variable of `t` is a variable
/// of the substitution of `t`.
proof fn lemma_occ_lift(n: Seq<char>, y: Seq<char>, t: TermV, b: BindingsV)
    requires
        acyclic(b),
        var_occurs(y, t),
        b.contains_key(y),
        var_occurs(n, term_subst(b[y], b)),
    ensures
        var_occurs(n, term_subst(t, b)),
    decreases t,
{
    match t {
        TermV::Var(x, srt) => {
            lemma_full_var(x, srt, b);
        },
        TermV::Const(_) => {},
        TermV::Apply(f, args) => {
            lemma_occurs_any_elim(y, args);
            let i = choose|i: int| 0 <= i < args.len() && var_occurs(y, #[trigger] args[i]);
            lemma_occ_lift(n, y, args[i], b);
            lemma_full_apply(f, args, b);
            let sa = Seq::new(args.len(), |j: int| term_subst(args[j], b));
            assert(sa[i] == term_subst(args[i], b));
            lemma_occurs_in_arg(n, sa, i);
        },
    }
}

// ---------------------------------------------------------------------------
// Binding one more variable
// ---------------------------------------------------------------------------

/// `s` with the variable `n` replaced by `w`.
pub open spec fn replace(s: TermV, n: Seq<char>, w: TermV) -> TermV
    decreases s,
{
    match s {
        TermV::Var(x, _) => if x == n {
            w
        } else {
            s
        },
        TermV::Const(_) => s,
        TermV::Apply(f, args) => TermV::Apply(
            f,
            Seq::new(
                args.len(),
                |i: int|
                    if 0 <= i < args.len() {
                        replace(args[i], n, w)
                    } else {
                        TermV::Const(Seq::empty())
                    },
            ),
        ),
    }
}

proof fn lemma_replace_absent(s: TermV, n: Seq<char>, w: TermV)
    requires
        !var_occurs(n, s),
    ensures
        replace(s, n, w) == s,
    decreases s,
{
    match s {
        TermV::Apply(f, args) => {
            assert forall|i: int| 0 <= i < args.len() implies replace(args[i], n, w) == args[i] by {
                if var_occurs(n, args[i]) {
                    lemma_occurs_in_arg(n, args, i);
                }
                lemma_replace_absent(args[i], n, w);
            }
            assert(replace(s, n, w)->Apply_1 =~= args);
        },
        _ => {},
    }
}

/// The rank of the bindings with `n` bound: bindings that come to mention
/// `n` rank above it, the others keep their rank below it.
pub open spec fn insert_rank(b: BindingsV, r: spec_fn(Seq<char>) -> nat, n: Seq<char>) -> spec_fn(Seq<char>) -> nat {
    |x: Seq<char>|
        if x == n {
            b.len()
        } else if b.contains_key(x) && var_occurs(n, term_subst(b[x], b)) {
            r(x) + b.len() + 1
        } else {
            r(x)
        }
}

/// Binding an unbound variable to a term whose substitution does not
/// mention it keeps the bindings acyclic.
proof fn lemma_insert_acyclic(b: BindingsV, n: Seq<char>, v: TermV) -> (r2: spec_fn(Seq<char>) -> nat)
    requires
        acyclic(b),
        !b.contains_key(n),
        !var_occurs(n, term_subst(v, b)),
    ensures
        acyclic(b.insert(n, v)),
        ranked(b.insert(n, v), r2),
        forall|x: Seq<char>| #[trigger] b.insert(n, v).contains_key(x) ==> r2(x) < 2 * b.len() + 2,
{
    let r = lemma_bounded_rank(b);
    let b2 = b.insert(n, v);
    let r2 = insert_rank(b, r, n);
    assert forall|k: Seq<char>, m: Seq<char>|
        #![trigger b2.contains_key(k), var_occurs(m, b2[k])]
        b2.contains_key(k) && var_occurs(m, b2[k]) && b2.contains_key(m) implies r2(m) < r2(k) by {
        if k == n {
            if m == n {
                lemma_occ_keep(n, v, b);
                assert(false);
            }
            assert(b.contains_key(m));
            if var_occurs(n, term_subst(b[m], b)) {
                lemma_occ_lift(n, m, v, b);
                assert(false);
            }
        } else {
            assert(b2[k] == b[k]);
            if m == n {
                lemma_occ_keep(n, b[k], b);
            } else {
                assert(r(m) < r(k));
                if var_occurs(n, term_subst(b[m], b)) {
                    lemma_occ_lift(n, m, b[k], b);
                }
            }
        }
    }
    assert(ranked(b2, r2));
    r2
}

/// After binding `n` to `v`, substitution is the old substitution with `n`
/// replaced by the substitution of `v`.
proof fn lemma_insert_subst(
    b: BindingsV,
    n: Seq<char>,
    v: TermV,
    r2: spec_fn(Seq<char>) -> nat,
    t: TermV,
    k: nat,
)
    requires
        acyclic(b),
        !b.contains_key(n),
        !var_occurs(n, term_subst(v, b)),
        acyclic(b.insert(n, v)),
        ranked(b.insert(n, v), r2),
        below(t, b.insert(n, v), r2, k),
    ensures
        term_subst(t, b.insert(n, v)) == replace(term_subst(t, b), n, term_subst(v, b)),
    decreases k, t,
{
    let b2 = b.insert(n, v);
    let w = term_subst(v, b);
    match t {
        TermV::Var(x, srt) => {
            if x == n {
                assert(var_occurs(n, t));
                lemma_full_var(n, srt, b2);
                lemma_full_unbound(n, srt, b);
                assert forall|m: Seq<char>| #[trigger] var_occurs(m, v) && b2.contains_key(m) implies r2(m) < (k
                    - 1) as nat by {
                    assert(var_occurs(m, b2[n]));
                }
                lemma_insert_subst(b, n, v, r2, v, (k - 1) as nat);
                lemma_replace_absent(w, n, w);
            } else if b.contains_key(x) {
                assert(var_occurs(x, t));
                assert(b2[x] == b[x]);
                lemma_full_var(x, srt, b2);
                lemma_full_var(x, srt, b);
                assert forall|m: Seq<char>| #[trigger] var_occurs(m, b[x]) && b2.contains_key(m) implies r2(m) < (k
                    - 1) as nat by {
                    assert(var_occurs(m, b2[x]));
                }
                lemma_insert_subst(b, n, v, r2, b[x], (k - 1) as nat);
            } else {
                lemma_full_unbound(x, srt, b);
                lemma_full_unbound(x, srt, b2);
            }
        },
        TermV::Const(_) => {},
        TermV::Apply(f, args) => {
            lemma_full_apply(f, args, b);
            lemma_full_apply(f, args, b2);
            assert forall|i: int| 0 <= i < args.len() implies term_subst(args[i], b2) == replace(
                term_subst(args[i], b),
                n,
                w,
            ) by {
                assert forall|m: Seq<char>| #[trigger] var_occurs(m, args[i]) && b2.contains_key(m) implies r2(m)
                    < k by {
                    lemma_occurs_in_arg(m, args, i);
                    assert(var_occurs(m, t));
                }
                lemma_insert_subst(b, n, v, r2, args[i], k);
            }
            let lhs = term_subst(t, b2);
            let rhs = replace(term_subst(t, b), n, w);
            assert(lhs->Apply_1 =~= rhs->Apply_1);
        },
    }
}

// ---------------------------------------------------------------------------
// Growing bindings
// ---------------------------------------------------------------------------

/// Substituting with `b`, then with `b2`.
pub open spec fn twice(t: TermV, b: BindingsV, b2: BindingsV) -> TermV {
    term_subst(term_subst(t, b), b2)
}

/// `b2` extends `b`, and substituting with `b` first changes nothing once
/// `b2` is applied.
pub open spec fn extends(b: BindingsV, b2: BindingsV) -> bool {
    b.submap_of(b2) && forall|t: TermV| #[trigger] twice(t, b, b2) == term_subst(t, b2)
}

proof fn lemma_extends_refl(b: BindingsV)
    requires
        acyclic(b),
    ensures
        extends(b, b),
{
    assert forall|t: TermV| #[trigger] twice(t, b, b) == term_subst(t, b) by {
        lemma_full(t, b, b.len());
        lemma_idem(term_subst(t, b), b);
    }
}

proof fn lemma_extends_trans(b: BindingsV, b1: BindingsV, b2: BindingsV)
    requires
        extends(b, b1),
        extends(b1, b2),
    ensures
        extends(b, b2),
{
    vstd::map_lib::lemma_submap_of_trans(b, b1, b2);
    assert forall|t: TermV| #[trigger] twice(t, b, b2) == term_subst(t, b2) by {
        let s = term_subst(t, b);
        assert(twice(s, b1, b2) == term_subst(s, b2));
        assert(twice(t, b, b1) == term_subst(t, b1));
        assert(twice(t, b1, b2) == term_subst(t, b2));
    }
}

/// Binding an unbound variable to a term whose substitution does not
/// mention it gives acyclic bindings that extend the old ones.
proof fn lemma_extends_insert(b: BindingsV, n: Seq<char>, v: TermV)
    requires
        acyclic(b),
        !b.contains_key(n),
        !var_occurs(n, term_subst(v, b)),
    ensures
        acyclic(b.insert(n, v)),
        extends(b, b.insert(n, v)),
{
    let b2 = b.insert(n, v);
    let r2 = lemma_insert_acyclic(b, n, v);
    let k = (2 * b.len() + 2) as nat;
    let w = term_subst(v, b);
    assert forall|t: TermV| #[trigger] twice(t, b, b2) == term_subst(t, b2) by {
        let s = term_subst(t, b);
        assert forall|m: Seq<char>| #[trigger] var_occurs(m, t) && b2.contains_key(m) implies r2(m) < k by {}
        lemma_insert_subst(b, n, v, r2, t, k);
        lemma_full(t, b, b.len());
        assert forall|m: Seq<char>| #[trigger] var_occurs(m, s) && b2.contains_key(m) implies r2(m) < k by {}
        lemma_insert_subst(b, n, v, r2, s, k);
        lemma_idem(s, b);
    }
}

// ---------------------------------------------------------------------------
// Equality apart from the sorts written on variables
// ---------------------------------------------------------------------------

/// A term with the sort annotations of its variables erased.
pub open spec fn strip(t: TermV) -> TermV
    decreases t,
{
    match t {
        TermV::Var(n, _) => TermV::Var(n, Seq::empty()),
        TermV::Const(_) => t,
        TermV::Apply(f, args) => TermV::Apply(
            f,
            Seq::new(
                args.len(),
                |i: int|
                    if 0 <= i < args.len() {
                        strip(args[i])
                    } else {
                        TermV::Const(Seq::empty())
                    },
            ),
        ),
    }
}

/// Substitution looks variables up by name only.
proof fn lemma_strip_congruent(s1: TermV, s2: TermV, b: BindingsV)
    requires
        acyclic(b),
        strip(s1) == strip(s2),
    ensures
        strip(term_subst(s1, b)) == strip(term_subst(s2, b)),
    decreases s1,
{
    match s1 {
        TermV::Var(n, a) => {
            let a2 = s2->Var_1;
            assert(s2 == TermV::Var(n, a2));
            if b.contains_key(n) {
                lemma_full_var(n, a, b);
                lemma_full_var(n, a2, b);
            } else {
                lemma_full_unbound(n, a, b);
                lemma_full_unbound(n, a2, b);
            }
        },
        TermV::Const(_) => {},
        TermV::Apply(f, args) => {
            let args2 = s2->Apply_1;
            assert(args2.len() == args.len()) by {
                assert(strip(s2)->Apply_1.len() == args2.len());
            }
            lemma_full_apply(f, args, b);
            lemma_full_apply(f, args2, b);
            assert forall|i: int| 0 <= i < args.len() implies strip(term_subst(args[i], b)) == strip(
                term_subst(args2[i], b),
            ) by {
                assert(strip(s1)->Apply_1[i] == strip(args[i]));
                assert(strip(s2)->Apply_1[i] == strip(args2[i]));
                lemma_strip_congruent(args[i], args2[i], b);
            }
            assert(strip(term_subst(s1, b))->Apply_1 =~= strip(term_subst(s2, b))->Apply_1);
        },
    }
}

// ---------------------------------------------------------------------------
// Unification makes the two sides equal
// ---------------------------------------------------------------------------

/// After growing the bindings, a term substitutes like its resolution.
proof fn lemma_resolved_after(t: TermV, b: BindingsV, b2: BindingsV)
    requires
        acyclic(b),
        extends(b, b2),
    ensures
        term_subst(t, b2) == term_subst(resolve_spec(t, b), b2),
{
    lemma_resolve(t, b);
    let r = resolve_spec(t, b);
    assert(twice(t, b, b2) == term_subst(t, b2));
    assert(twice(r, b, b2) == term_subst(r, b2));
}

/// Binding `n` (of sort `s`) to `val` as unification does, when it succeeds.
proof fn lemma_bind_sound(n: Seq<char>, s: Seq<char>, val: TermV, b: BindingsV)
    requires
        acyclic(b),
        !b.contains_key(n),
        !(val matches TermV::Var(m, _) && b.contains_key(m)),
        bind_var(n, s, val, b).0,
    ensures
        acyclic(bind_var(n, s, val, b).1),
        extends(b, bind_var(n, s, val, b).1),
        term_subst(TermV::Var(n, s), bind_var(n, s, val, b).1) == term_subst(val, bind_var(n, s, val, b).1),
{
    let b2 = b.insert(n, val);
    assert(bind_var(n, s, val, b).1 == b2);
    lemma_extends_insert(b, n, val);
    lemma_full_var(n, s, b2);
}

proof fn lemma_unify_term_sound(t1: TermV, t2: TermV, b: BindingsV, fuel: nat)
    requires
        acyclic(b),
        unify_term_spec(t1, t2, b, fuel).0,
    ensures
        acyclic(unify_term_spec(t1, t2, b, fuel).1),
        extends(b, unify_term_spec(t1, t2, b, fuel).1),
        strip(term_subst(t1, unify_term_spec(t1, t2, b, fuel).1)) == strip(
            term_subst(t2, unify_term_spec(t1, t2, b, fuel).1),
        ),
    decreases fuel, 0nat, 0nat,
{
    let b2 = unify_term_spec(t1, t2, b, fuel).1;
    let r1 = resolve_spec(t1, b);
    let r2 = resolve_spec(t2, b);
    lemma_resolve(t1, b);
    lemma_resolve(t2, b);
    match r1 {
        TermV::Var(n1, s1) => match r2 {
            TermV::Var(n2, s2) => {
                if n1 == n2 {
                    lemma_extends_refl(b);
                    lemma_full_unbound(n1, s1, b);
                    lemma_full_unbound(n2, s2, b);
                } else {
                    let v = TermV::Var(n2, s2);
                    assert(b2 == b.insert(n1, v));
                    lemma_full_unbound(n2, s2, b);
                    lemma_extends_insert(b, n1, v);
                    lemma_full_var(n1, s1, b2);
                    lemma_full_unbound(n2, s2, b2);
                }
            },
            _ => {
                lemma_bind_sound(n1, s1, r2, b);
            },
        },
        TermV::Const(c1) => match r2 {
            TermV::Var(n2, s2) => {
                lemma_bind_sound(n2, s2, r1, b);
            },
            _ => {
                lemma_extends_refl(b);
            },
        },
        TermV::Apply(f1, a1) => match r2 {
            TermV::Var(n2, s2) => {
                lemma_bind_sound(n2, s2, r1, b);
            },
            TermV::Apply(f2, a2) => {
                lemma_unify_args_sound(a1, a2, b, (fuel - 1) as nat);
                lemma_full_apply(f1, a1, b2);
                lemma_full_apply(f2, a2, b2);
                let x1 = term_subst(r1, b2);
                let x2 = term_subst(r2, b2);
                assert forall|i: int| 0 <= i < a1.len() implies strip(x1)->Apply_1[i] == strip(x2)->Apply_1[i] by {
                    assert(x1->Apply_1[i] == term_subst(a1[i], b2));
                    assert(x2->Apply_1[i] == term_subst(a2[i], b2));
                }
                assert(strip(x1)->Apply_1 =~= strip(x2)->Apply_1);
            },
            _ => {},
        },
    }
    lemma_resolved_after(t1, b, b2);
    lemma_resolved_after(t2, b, b2);
}

proof fn lemma_unify_args_sound(a1: Seq<TermV>, a2: Seq<TermV>, b: BindingsV, fuel: nat)
    requires
        acyclic(b),
        a1.len() == a2.len(),
        unify_args(a1, a2, b, fuel).0,
    ensures
        acyclic(unify_args(a1, a2, b, fuel).1),
        extends(b, unify_args(a1, a2, b, fuel).1),
        forall|i: int|
            0 <= i < a1.len() ==> strip(term_subst(#[trigger] a1[i], unify_args(a1, a2, b, fuel).1)) == strip(
                term_subst(a2[i], unify_args(a1, a2, b, fuel).1),
            ),
    decreases fuel, 1nat, a1.len(),
{
    let b2 = unify_args(a1, a2, b, fuel).1;
    if a1.len() == 0 {
        lemma_extends_refl(b);
    } else {
        lemma_unify_term_sound(a1[0], a2[0], b, fuel);
        let b1 = unify_term_spec(a1[0], a2[0], b, fuel).1;
        let r1 = a1.drop_first();
        let r2 = a2.drop_first();
        lemma_unify_args_sound(r1, r2, b1, fuel);
        lemma_extends_trans(b, b1, b2);
        assert forall|i: int| 0 <= i < a1.len() implies strip(term_subst(#[trigger] a1[i], b2)) == strip(
            term_subst(a2[i], b2),
        ) by {
            if i == 0 {
                assert(twice(a1[0], b1, b2) == term_subst(a1[0], b2));
                assert(twice(a2[0], b1, b2) == term_subst(a2[0], b2));
                lemma_strip_congruent(term_subst(a1[0], b1), term_subst(a2[0], b1), b2);
            } else {
                assert(a1[i] == r1[i - 1]);
                assert(a2[i] == r2[i - 1]);
            }
        }
    }
}


// ---------------------------------------------------------------------------
// Formulas
// ---------------------------------------------------------------------------

/// A formula with the sort annotations of its variables erased.
pub open spec fn strip_formula(f: FormulaV) -> FormulaV
    decreases f,
{
    match f {
        FormulaV::Eq(l, r) => FormulaV::Eq(strip(l), strip(r)),
        FormulaV::Pred(n, args) => FormulaV::Pred(n, args.map_values(|t: TermV| strip(t))),
        FormulaV::And(l, r) => FormulaV::And(Box::new(strip_formula(*l)), Box::new(strip_formula(*r))),
        FormulaV::Or(l, r) => FormulaV::Or(Box::new(strip_formula(*l)), Box::new(strip_formula(*r))),
        FormulaV::Not(i) => FormulaV::Not(Box::new(strip_formula(*i))),
        FormulaV::Implies(l, r) => FormulaV::Implies(
            Box::new(strip_formula(*l)),
            Box::new(strip_formula(*r)),
        ),
        FormulaV::Exists(v, s, body) => FormulaV::Exists(v, s, Box::new(strip_formula(*body))),
    }
}

proof fn lemma_subst_exists_free(f: FormulaV, b: BindingsV)
    requires
        exists_free(f),
    ensures
        exists_free(formula_subst(f, b)),
    decreases f,
{
    match f {
        FormulaV::And(l, r) => {
            lemma_subst_exists_free(*l, b);
            lemma_subst_exists_free(*r, b);
        },
        FormulaV::Or(l, r) => {
            lemma_subst_exists_free(*l, b);
            lemma_subst_exists_free(*r, b);
        },
        FormulaV::Implies(l, r) => {
            lemma_subst_exists_free(*l, b);
            lemma_subst_exists_free(*r, b);
        },
        FormulaV::Not(i) => {
            lemma_subst_exists_free(*i, b);
        },
        _ => {},
    }
}

/// `extends` carried from terms to formulas without quantifiers.
proof fn lemma_formula_twice(f: FormulaV, b: BindingsV, b2: BindingsV)
    requires
        exists_free(f),
        extends(b, b2),
    ensures
        formula_subst(formula_subst(f, b), b2) == formula_subst(f, b2),
    decreases f,
{
    match f {
        FormulaV::Eq(l, r) => {
            assert(twice(l, b, b2) == term_subst(l, b2));
            assert(twice(r, b, b2) == term_subst(r, b2));
        },
        FormulaV::Pred(n, args) => {
            assert forall|i: int| 0 <= i < args.len() implies terms_subst(terms_subst(args, b), b2)[i]
                == terms_subst(args, b2)[i] by {
                assert(twice(args[i], b, b2) == term_subst(args[i], b2));
            }
            assert(terms_subst(terms_subst(args, b), b2) =~= terms_subst(args, b2));
        },
        FormulaV::And(l, r) => {
            lemma_formula_twice(*l, b, b2);
            lemma_formula_twice(*r, b, b2);
        },
        FormulaV::Or(l, r) => {
            lemma_formula_twice(*l, b, b2);
            lemma_formula_twice(*r, b, b2);
        },
        FormulaV::Implies(l, r) => {
            lemma_formula_twice(*l, b, b2);
            lemma_formula_twice(*r, b, b2);
        },
        FormulaV::Not(i) => {
            lemma_formula_twice(*i, b, b2);
        },
        FormulaV::Exists(_, _, _) => {},
    }
}

/// Substitution keeps formulas equal apart from sorts.
proof fn lemma_strip_formula_congruent(g1: FormulaV, g2: FormulaV, b: BindingsV)
    requires
        acyclic(b),
        exists_free(g1),
        exists_free(g2),
        strip_formula(g1) == strip_formula(g2),
    ensures
        strip_formula(formula_subst(g1, b)) == strip_formula(formula_subst(g2, b)),
    decreases g1,
{
    match g1 {
        FormulaV::Eq(l1, r1) => {
            match g2 {
                FormulaV::Eq(l2, r2) => {
                    lemma_strip_congruent(l1, l2, b);
                    lemma_strip_congruent(r1, r2, b);
                },
                _ => {},
            }
        },
        FormulaV::Pred(n1, a1) => {
            match g2 {
                FormulaV::Pred(n2, a2) => {
                    assert(a1.len() == a2.len()) by {
                        assert(strip_formula(g1)->Pred_1.len() == a1.len());
                        assert(strip_formula(g2)->Pred_1.len() == a2.len());
                    }
                    let x1 = terms_subst(a1, b);
                    let x2 = terms_subst(a2, b);
                    assert forall|i: int| 0 <= i < a1.len() implies strip(x1[i]) == strip(x2[i]) by {
                        assert(strip_formula(g1)->Pred_1[i] == strip(a1[i]));
                        assert(strip_formula(g2)->Pred_1[i] == strip(a2[i]));
                        lemma_strip_congruent(a1[i], a2[i], b);
                    }
                    assert(x1.map_values(|t: TermV| strip(t)) =~= x2.map_values(|t: TermV| strip(t)));
                },
                _ => {},
            }
        },
        FormulaV::And(l1, r1) => {
            match g2 {
                FormulaV::And(l2, r2) => {
                    lemma_strip_formula_congruent(*l1, *l2, b);
                    lemma_strip_formula_congruent(*r1, *r2, b);
                },
                _ => {},
            }
        },
        FormulaV::Or(l1, r1) => {
            match g2 {
                FormulaV::Or(l2, r2) => {
                    lemma_strip_formula_congruent(*l1, *l2, b);
                    lemma_strip_formula_congruent(*r1, *r2, b);
                },
                _ => {},
            }
        },
        FormulaV::Implies(l1, r1) => {
            match g2 {
                FormulaV::Implies(l2, r2) => {
                    lemma_strip_formula_congruent(*l1, *l2, b);
                    lemma_strip_formula_congruent(*r1, *r2, b);
                },
                _ => {},
            }
        },
        FormulaV::Not(i1) => {
            match g2 {
                FormulaV::Not(i2) => {
                    lemma_strip_formula_congruent(*i1, *i2, b);
                },
                _ => {},
            }
        },
        FormulaV::Exists(_, _, _) => {},
    }
}

/// Two sides joined by a connective: the left unifies under `b` giving
/// `b1`, the right under `b1` giving `b2`; the left stays unified under `b2`.
proof fn lemma_left_kept(l1: FormulaV, l2: FormulaV, b1: BindingsV, b2: BindingsV)
    requires
        acyclic(b1),
        extends(b1, b2),
        acyclic(b2),
        exists_free(l1),
        exists_free(l2),
        strip_formula(formula_subst(l1, b1)) == strip_formula(formula_subst(l2, b1)),
    ensures
        strip_formula(formula_subst(l1, b2)) == strip_formula(formula_subst(l2, b2)),
{
    lemma_subst_exists_free(l1, b1);
    lemma_subst_exists_free(l2, b1);
    lemma_strip_formula_congruent(formula_subst(l1, b1), formula_subst(l2, b1), b2);
    lemma_formula_twice(l1, b1, b2);
    lemma_formula_twice(l2, b1, b2);
}

proof fn lemma_formula_unify_sound(p: FormulaV, g: FormulaV, b: BindingsV)
    requires
        acyclic(b),
        exists_free(p),
        formula_unify(p, g, b).0,
    ensures
        acyclic(formula_unify(p, g, b).1),
        extends(b, formula_unify(p, g, b).1),
        exists_free(g),
        strip_formula(formula_subst(p, formula_unify(p, g, b).1)) == strip_formula(
            formula_subst(g, formula_unify(p, g, b).1),
        ),
    decreases p,
{
    let b2 = formula_unify(p, g, b).1;
    match p {
        FormulaV::Pred(n1, a1) => {
            match g {
                FormulaV::Pred(n2, a2) => {
                    lemma_unify_args_sound(a1, a2, b, UNIFY_DEPTH as nat);
                    let x1 = terms_subst(a1, b2);
                    let x2 = terms_subst(a2, b2);
                    assert(x1.map_values(|t: TermV| strip(t)) =~= x2.map_values(|t: TermV| strip(t)));
                },
                _ => {},
            }
        },
        FormulaV::Eq(l1, r1) => {
            match g {
                FormulaV::Eq(l2, r2) => {
                    let d = UNIFY_DEPTH as nat;
                    lemma_unify_term_sound(l1, l2, b, d);
                    let b1 = unify_term_spec(l1, l2, b, d).1;
                    lemma_unify_term_sound(r1, r2, b1, d);
                    lemma_extends_trans(b, b1, b2);
                    lemma_strip_congruent(term_subst(l1, b1), term_subst(l2, b1), b2);
                    assert(twice(l1, b1, b2) == term_subst(l1, b2));
                    assert(twice(l2, b1, b2) == term_subst(l2, b2));
                },
                _ => {},
            }
        },
        FormulaV::Not(i1) => {
            match g {
                FormulaV::Not(i2) => {
                    lemma_formula_unify_sound(*i1, *i2, b);
                },
                _ => {},
            }
        },
        FormulaV::And(l1, r1) => {
            match g {
                FormulaV::And(l2, r2) => {
                    lemma_formula_unify_sound(*l1, *l2, b);
                    let b1 = formula_unify(*l1, *l2, b).1;
                    lemma_formula_unify_sound(*r1, *r2, b1);
                    lemma_extends_trans(b, b1, b2);
                    lemma_left_kept(*l1, *l2, b1, b2);
                },
                _ => {},
            }
        },
        FormulaV::Or(l1, r1) => {
            match g {
                FormulaV::Or(l2, r2) => {
                    lemma_formula_unify_sound(*l1, *l2, b);
                    let b1 = formula_unify(*l1, *l2, b).1;
                    lemma_formula_unify_sound(*r1, *r2, b1);
                    lemma_extends_trans(b, b1, b2);
                    lemma_left_kept(*l1, *l2, b1, b2);
                },
                _ => {},
            }
        },
        FormulaV::Implies(l1, r1) => {
            match g {
                FormulaV::Implies(l2, r2) => {
                    lemma_formula_unify_sound(*l1, *l2, b);
                    let b1 = formula_unify(*l1, *l2, b).1;
                    lemma_formula_unify_sound(*r1, *r2, b1);
                    lemma_extends_trans(b, b1, b2);
                    lemma_left_kept(*l1, *l2, b1, b2);
                },
                _ => {},
            }
        },
        FormulaV::Exists(_, _, _) => {},
    }
}

/// Unification is sound: when a formula without existential quantifiers
/// unifies with another, applying the resulting bindings to both gives the
/// same formula, apart from the sorts written on variables.
pub proof fn lemma_unify_sound(pattern: FormulaV, goal: FormulaV)
    requires
        exists_free(pattern),
        formula_unify(pattern, goal, Map::empty()).0,
    ensures
        strip_formula(formula_subst(pattern, formula_unify(pattern, goal, Map::empty()).1))
            == strip_formula(formula_subst(goal, formula_unify(pattern, goal, Map::empty()).1)),
{
    let e = Map::<Seq<char>, TermV>::empty();
    let r = |x: Seq<char>| 0nat;
    assert(ranked(e, r));
    assert(e.dom() =~= Set::empty());
    lemma_formula_unify_sound(pattern, goal, e);
}

// ---------------------------------------------------------------------------
// A variable unifies with any term that does not contain it
// ---------------------------------------------------------------------------

/// Unification binds variables to any term: an unbound variable unifies,
/// in either order, with every term that does not contain it once the
/// bindings are applied and whose sort fits the variable's, and afterwards
/// both sides substitute to the same term.
pub proof fn lemma_unify_var_complete(n: Seq<char>, s: Seq<char>, t: TermV, b: BindingsV, fuel: nat)
    requires
        acyclic(b),
        !b.contains_key(n),
        !var_occurs(n, term_subst(t, b)),
        compatible(s, term_sort(resolve_spec(t, b))),
    ensures
        unify_term_spec(TermV::Var(n, s), t, b, fuel).0,
        unify_term_spec(t, TermV::Var(n, s), b, fuel).0,
        term_subst(TermV::Var(n, s), unify_term_spec(TermV::Var(n, s), t, b, fuel).1) == term_subst(
            t,
            unify_term_spec(TermV::Var(n, s), t, b, fuel).1,
        ),
        term_subst(TermV::Var(n, s), unify_term_spec(t, TermV::Var(n, s), b, fuel).1) == term_subst(
            t,
            unify_term_spec(t, TermV::Var(n, s), b, fuel).1,
        ),
{
    let v = TermV::Var(n, s);
    lemma_resolve(t, b);
    lemma_resolve(v, b);
    let r = resolve_spec(t, b);
    assert(chain_step(v, b) is None);
    assert(resolve_spec(v, b) == v);
    lemma_full_unbound(n, s, b);
    assert(term_subst(r, b) == term_subst(t, b));
    // The variable first.
    let b1 = unify_term_spec(v, t, b, fuel).1;
    match r {
        TermV::Var(m, s2) => {
            lemma_full_unbound(m, s2, b);
            assert(m != n) by {
                assert(term_subst(t, b) == TermV::Var(m, s2));
                assert(var_occurs(m, TermV::Var(m, s2)));
            }
        },
        _ => {
            assert(!occurs_spec(n, r, b));
        },
    }
    assert(unify_term_spec(v, t, b, fuel).0);
    lemma_unify_term_sound(v, t, b, fuel);
    lemma_resolved_after(t, b, b1);
    lemma_full_var(n, s, b1);
    // The term first.
    let b2 = unify_term_spec(t, v, b, fuel).1;
    match r {
        TermV::Var(m, s2) => {
            assert(m != n) by {
                assert(term_subst(t, b) == TermV::Var(m, s2));
                assert(var_occurs(m, TermV::Var(m, s2)));
            }
            assert(compatible(s2, s));
            assert(b2 == b.insert(m, v));
        },
        _ => {
            assert(!occurs_spec(n, r, b));
        },
    }
    assert(unify_term_spec(t, v, b, fuel).0);
    lemma_unify_term_sound(t, v, b, fuel);
    lemma_resolved_after(t, b, b2);
    match r {
        TermV::Var(m, s2) => {
            lemma_full_var(m, s2, b2);
            lemma_full_unbound(n, s, b2);
        },
        _ => {
            lemma_full_var(n, s, b2);
        },
    }
}

/// In particular `P(x)` unifies with `P(t)`, in either order, for every term
/// `t` without `x` whose sort fits `x`'s.
pub proof fn lemma_unify_pred_var(p: Seq<char>, x: Seq<char>, s: Seq<char>, t: TermV)
    requires
        !var_occurs(x, t),
        compatible(s, term_sort(t)),
    ensures
        formula_unify(
            FormulaV::Pred(p, seq![TermV::Var(x, s)]),
            FormulaV::Pred(p, seq![t]),
            Map::empty(),
        ).0,
        formula_unify(
            FormulaV::Pred(p, seq![t]),
            FormulaV::Pred(p, seq![TermV::Var(x, s)]),
            Map::empty(),
        ).0,
{
    let e = Map::<Seq<char>, TermV>::empty();
    let d = UNIFY_DEPTH as nat;
    assert(ranked(e, |y: Seq<char>| 0nat));
    assert(e.dom() =~= Set::empty());
    crate::engine::lemma_subst_empty(t, 0);
    assert(resolve_spec(t, e) == t);
    lemma_unify_var_complete(x, s, t, e, d);
    let v = TermV::Var(x, s);
    let a1 = seq![v];
    let a2 = seq![t];
    assert(a1[0] == v && a2[0] == t);
    assert(a1.drop_first().len() == 0 && a2.drop_first().len() == 0);
    let b1 = unify_term_spec(v, t, e, d).1;
    let b2 = unify_term_spec(t, v, e, d).1;
    assert(unify_args(a1.drop_first(), a2.drop_first(), b1, d) == (true, b1));
    assert(unify_args(a2.drop_first(), a1.drop_first(), b2, d) == (true, b2));
    assert(unify_args(a1, a2, e, d).0);
    assert(unify_args(a2, a1, e, d).0);
}

// ---------------------------------------------------------------------------
// One sort per name
// ---------------------------------------------------------------------------

/// Every variable of `t` carries the sort that `srt` gives its name.
pub open spec fn sorted_by(t: TermV, srt: spec_fn(Seq<char>) -> Seq<char>) -> bool
    decreases t,
{
    match t {
        TermV::Var(n, s) => s == srt(n),
        TermV::Const(_) => true,
        TermV::Apply(_, args) => forall|i: int| 0 <= i < args.len() ==> sorted_by(#[trigger] args[i], srt),
    }
}

/// Every binding's term carries the sorts that `srt` gives.
pub open spec fn values_sorted(b: BindingsV, srt: spec_fn(Seq<char>) -> Seq<char>) -> bool {
    forall|n: Seq<char>| #[trigger] b.contains_key(n) ==> sorted_by(b[n], srt)
}

proof fn lemma_subst_sorted(t: TermV, b: BindingsV, fuel: nat, srt: spec_fn(Seq<char>) -> Seq<char>)
    requires
        sorted_by(t, srt),
        values_sorted(b, srt),
    ensures
        sorted_by(subst(t, b, fuel), srt),
    decreases fuel, t,
{
    match chain_step(t, b) {
        Some(u) => {
            if fuel > 0 {
                lemma_subst_sorted(u, b, (fuel - 1) as nat, srt);
            }
        },
        None => match t {
            TermV::Apply(f, args) => {
                let r = subst(t, b, fuel);
                assert forall|i: int| 0 <= i < r->Apply_1.len() implies sorted_by(#[trigger] r->Apply_1[i], srt) by {
                    lemma_subst_sorted(args[i], b, fuel, srt);
                }
            },
            _ => {},
        },
    }
}

proof fn lemma_chain_sorted(t: TermV, b: BindingsV, fuel: nat, srt: spec_fn(Seq<char>) -> Seq<char>)
    requires
        sorted_by(t, srt),
        values_sorted(b, srt),
    ensures
        sorted_by(chain(t, b, fuel), srt),
    decreases fuel,
{
    if fuel > 0 {
        match chain_step(t, b) {
            Some(u) => {
                lemma_chain_sorted(u, b, (fuel - 1) as nat, srt);
            },
            None => {},
        }
    }
}

/// Terms that carry the same sort for each name and are equal apart from
/// sorts are equal.
proof fn lemma_strip_sorted_eq(x: TermV, y: TermV, srt: spec_fn(Seq<char>) -> Seq<char>)
    requires
        sorted_by(x, srt),
        sorted_by(y, srt),
        strip(x) == strip(y),
    ensures
        x == y,
    decreases x,
{
    match x {
        TermV::Var(n, _) => {
            assert(y is Var);
        },
        TermV::Const(_) => {},
        TermV::Apply(f, args) => {
            let args2 = y->Apply_1;
            assert(args2.len() == args.len()) by {
                assert(strip(y)->Apply_1.len() == args2.len());
            }
            assert forall|i: int| 0 <= i < args.len() implies args[i] == args2[i] by {
                assert(strip(x)->Apply_1[i] == strip(args[i]));
                assert(strip(y)->Apply_1[i] == strip(args2[i]));
                lemma_strip_sorted_eq(args[i], args2[i], srt);
            }
            assert(args =~= args2);
        },
    }
}

proof fn lemma_bind_sorted(n: Seq<char>, s: Seq<char>, val: TermV, b: BindingsV, srt: spec_fn(Seq<char>) -> Seq<char>)
    requires
        sorted_by(val, srt),
        values_sorted(b, srt),
    ensures
        values_sorted(bind_var(n, s, val, b).1, srt),
{
}

proof fn lemma_unify_term_sorted(t1: TermV, t2: TermV, b: BindingsV, fuel: nat, srt: spec_fn(Seq<char>) -> Seq<char>)
    requires
        sorted_by(t1, srt),
        sorted_by(t2, srt),
        values_sorted(b, srt),
    ensures
        values_sorted(unify_term_spec(t1, t2, b, fuel).1, srt),
    decreases fuel, 0nat, 0nat,
{
    let r1 = resolve_spec(t1, b);
    let r2 = resolve_spec(t2, b);
    lemma_chain_sorted(t1, b, b.len(), srt);
    lemma_chain_sorted(t2, b, b.len(), srt);
    match r1 {
        TermV::Var(n1, s1) => match r2 {
            TermV::Var(n2, s2) => {},
            _ => {
                lemma_bind_sorted(n1, s1, r2, b, srt);
            },
        },
        TermV::Const(_) => match r2 {
            TermV::Var(n2, s2) => {
                lemma_bind_sorted(n2, s2, r1, b, srt);
            },
            _ => {},
        },
        TermV::Apply(f1, a1) => match r2 {
            TermV::Var(n2, s2) => {
                lemma_bind_sorted(n2, s2, r1, b, srt);
            },
            TermV::Apply(f2, a2) => {
                if f1 == f2 && a1.len() == a2.len() && fuel > 0 {
                    lemma_unify_args_sorted(a1, a2, b, (fuel - 1) as nat, srt);
                }
            },
            _ => {},
        },
    }
}

proof fn lemma_unify_args_sorted(
    a1: Seq<TermV>,
    a2: Seq<TermV>,
    b: BindingsV,
    fuel: nat,
    srt: spec_fn(Seq<char>) -> Seq<char>,
)
    requires
        forall|i: int| 0 <= i < a1.len() ==> sorted_by(#[trigger] a1[i], srt),
        forall|i: int| 0 <= i < a2.len() ==> sorted_by(#[trigger] a2[i], srt),
        values_sorted(b, srt),
    ensures
        values_sorted(unify_args(a1, a2, b, fuel).1, srt),
    decreases fuel, 1nat, a1.len(),
{
    if a1.len() > 0 && a2.len() > 0 {
        lemma_unify_term_sorted(a1[0], a2[0], b, fuel, srt);
        let b1 = unify_term_spec(a1[0], a2[0], b, fuel).1;
        let r1 = a1.drop_first();
        let r2 = a2.drop_first();
        assert forall|i: int| 0 <= i < r1.len() implies sorted_by(#[trigger] r1[i], srt) by {
            assert(r1[i] == a1[i + 1]);
        }
        assert forall|i: int| 0 <= i < r2.len() implies sorted_by(#[trigger] r2[i], srt) by {
            assert(r2[i] == a2[i + 1]);
        }
        lemma_unify_args_sorted(r1, r2, b1, fuel, srt);
    }
}

/// Unifying two terms only adds bindings and keeps them acyclic; and when
/// every name has one sort throughout (in both terms and in the bindings),
/// applying the bindings it gives makes the two terms exactly equal.
pub proof fn lemma_unify_term_exact(
    t1: TermV,
    t2: TermV,
    b: BindingsV,
    fuel: nat,
    srt: spec_fn(Seq<char>) -> Seq<char>,
)
    requires
        acyclic(b),
        unify_term_spec(t1, t2, b, fuel).0,
    ensures
        acyclic(unify_term_spec(t1, t2, b, fuel).1),
        b.submap_of(unify_term_spec(t1, t2, b, fuel).1),
        sorted_by(t1, srt) && sorted_by(t2, srt) && values_sorted(b, srt) ==> term_subst(
            t1,
            unify_term_spec(t1, t2, b, fuel).1,
        ) == term_subst(t2, unify_term_spec(t1, t2, b, fuel).1),
{
    let b2 = unify_term_spec(t1, t2, b, fuel).1;
    lemma_unify_term_sound(t1, t2, b, fuel);
    if sorted_by(t1, srt) && sorted_by(t2, srt) && values_sorted(b, srt) {
        lemma_unify_term_sorted(t1, t2, b, fuel, srt);
        lemma_subst_sorted(t1, b2, b2.len(), srt);
        lemma_subst_sorted(t2, b2, b2.len(), srt);
        lemma_strip_sorted_eq(term_subst(t1, b2), term_subst(t2, b2), srt);
    }
}

// ---------------------------------------------------------------------------
// Laws of substitution
// ---------------------------------------------------------------------------

/// Substitution with acyclic bindings leaves no bound variable, so
/// substituting a second time changes nothing; substituting with no
/// bindings changes nothing.
pub proof fn lemma_subst_idempotent(t: TermV, b: BindingsV)
    requires
        acyclic(b),
    ensures
        normal(term_subst(t, b), b),
        term_subst(term_subst(t, b), b) == term_subst(t, b),
        term_subst(t, Map::empty()) == t,
{
    lemma_full(t, b, b.len());
    lemma_idem(term_subst(t, b), b);
    crate::engine::lemma_subst_empty(t, 0);
}

/// `r` has the shape of `t` wherever `t` is not a variable: constants stay,
/// and applications keep their function and number of arguments.
pub open spec fn shape_kept(t: TermV, r: TermV) -> bool
    decreases t,
{
    match t {
        TermV::Var(_, _) => true,
        TermV::Const(_) => r == t,
        TermV::Apply(f, args) => r is Apply && r->Apply_0 == f && r->Apply_1.len() == args.len() && forall|i: int|
            0 <= i < args.len() ==> shape_kept(#[trigger] args[i], r->Apply_1[i]),
    }
}

/// `g` has the shape of `f`: the same connectives, predicate names and
/// numbers of arguments, the same binders and sorts of existentials, and
/// terms of the same shape apart from variables.
pub open spec fn formula_shape_kept(f: FormulaV, g: FormulaV) -> bool
    decreases f,
{
    match f {
        FormulaV::Eq(l, r) => g is Eq && shape_kept(l, g->Eq_0) && shape_kept(r, g->Eq_1),
        FormulaV::Pred(n, args) => g is Pred && g->Pred_0 == n && g->Pred_1.len() == args.len() && forall|i: int|
            0 <= i < args.len() ==> shape_kept(#[trigger] args[i], g->Pred_1[i]),
        FormulaV::And(l, r) => g is And && formula_shape_kept(*l, *g->And_0) && formula_shape_kept(*r, *g->And_1),
        FormulaV::Or(l, r) => g is Or && formula_shape_kept(*l, *g->Or_0) && formula_shape_kept(*r, *g->Or_1),
        FormulaV::Not(i) => g is Not && formula_shape_kept(*i, *g->Not_0),
        FormulaV::Implies(l, r) => g is Implies && formula_shape_kept(*l, *g->Implies_0) && formula_shape_kept(
            *r,
            *g->Implies_1,
        ),
        FormulaV::Exists(v, srt, body) => g is Exists && g->Exists_0 == v && g->Exists_1 == srt
            && formula_shape_kept(*body, *g->Exists_2),
    }
}

proof fn lemma_subst_shape(t: TermV, b: BindingsV, fuel: nat)
    ensures
        shape_kept(t, subst(t, b, fuel)),
    decreases t,
{
    match t {
        TermV::Apply(f, args) => {
            let r = subst(t, b, fuel);
            assert forall|i: int| 0 <= i < args.len() implies shape_kept(#[trigger] args[i], r->Apply_1[i]) by {
                lemma_subst_shape(args[i], b, fuel);
            }
        },
        _ => {},
    }
}

/// Substitution changes only variables: a formula keeps its connectives,
/// predicate names, numbers of arguments and binders, and its terms keep
/// their constants and function applications.
pub proof fn lemma_subst_keeps_shape(f: FormulaV, b: BindingsV)
    ensures
        formula_shape_kept(f, formula_subst(f, b)),
    decreases f,
{
    match f {
        FormulaV::Eq(l, r) => {
            lemma_subst_shape(l, b, b.len());
            lemma_subst_shape(r, b, b.len());
        },
        FormulaV::Pred(n, args) => {
            let g = formula_subst(f, b);
            assert forall|i: int| 0 <= i < args.len() implies shape_kept(#[trigger] args[i], g->Pred_1[i]) by {
                lemma_subst_shape(args[i], b, b.len());
            }
        },
        FormulaV::And(l, r) => {
            lemma_subst_keeps_shape(*l, b);
            lemma_subst_keeps_shape(*r, b);
        },
        FormulaV::Or(l, r) => {
            lemma_subst_keeps_shape(*l, b);
            lemma_subst_keeps_shape(*r, b);
        },
        FormulaV::Not(i) => {
            lemma_subst_keeps_shape(*i, b);
        },
        FormulaV::Implies(l, r) => {
            lemma_subst_keeps_shape(*l, b);
            lemma_subst_keeps_shape(*r, b);
        },
        FormulaV::Exists(v, _, body) => {
            lemma_subst_keeps_shape(*body, b.remove(v));
        },
    }
}

} // verus!
