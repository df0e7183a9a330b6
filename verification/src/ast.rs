use vstd::prelude::*;

verus! {

// ---------------------------------------------------------------------------
// Mathematical models of the syntax
// ---------------------------------------------------------------------------

/// A term as a mathematical value: names and sorts are character sequences.
pub enum TermV {
    Var(Seq<char>, Seq<char>),
    Const(Seq<char>),
    Apply(Seq<char>, Seq<TermV>),
}

/// A formula as a mathematical value.
pub enum FormulaV {
    Eq(TermV, TermV),
    Pred(Seq<char>, Seq<TermV>),
    And(Box<FormulaV>, Box<FormulaV>),
    Or(Box<FormulaV>, Box<FormulaV>),
    Not(Box<FormulaV>),
    Implies(Box<FormulaV>, Box<FormulaV>),
    Exists(Seq<char>, Seq<char>, Box<FormulaV>),
}

/// The name of the default sort, `Object`.
pub open spec fn object_name() -> Seq<char> {
    seq!['O', 'b', 'j', 'e', 'c', 't']
}

/// The name of the sort of propositions, `Prop`.
pub open spec fn prop_name() -> Seq<char> {
    seq!['P', 'r', 'o', 'p']
}

// ---------------------------------------------------------------------------
// Sorts
// ---------------------------------------------------------------------------

/// A sort/type in the object language, e.g. "Nat", "Pt", "Line", "Prop".
#[derive(Debug)]
pub struct Sort(pub String);

impl View for Sort {
    type V = Seq<char>;

    open spec fn view(&self) -> Seq<char> {
        self.0@
    }
}

impl Sort {
    /// The default sort `Object`.
    pub fn object() -> (s: Self)
        ensures
            s@ == object_name(),
    {
        proof {
            reveal_strlit("Object");
        }
        Sort(String::from_str("Object"))
    }

    /// The sort `Prop`.
    pub fn prop() -> (s: Self)
        ensures
            s@ == prop_name(),
    {
        proof {
            reveal_strlit("Prop");
        }
        Sort(String::from_str("Prop"))
    }

    /// A copy of this sort.
    pub fn duplicate(&self) -> (s: Self)
        ensures
            s@ == self@,
    {
        Sort(self.0.clone())
    }

    /// Whether two sorts have the same name.
    pub fn same(&self, other: &Sort) -> (b: bool)
        ensures
            b == (self@ == other@),
    {
        self.0 == other.0
    }

    /// The sort's name as text.
    pub fn to_string(&self) -> (s: String)
        ensures
            s@ == self@,
    {
        self.0.clone()
    }
}

impl Clone for Sort {
    fn clone(&self) -> (s: Sort)
        ensures
            s@ == self@,
    {
        self.duplicate()
    }
}

impl PartialEq for Sort {
    fn eq(&self, other: &Sort) -> (b: bool) {
        self.same(other)
    }
}

impl vstd::std_specs::cmp::PartialEqSpecImpl for Sort {
    open spec fn obeys_eq_spec() -> bool {
        true
    }

    open spec fn eq_spec(&self, other: &Sort) -> bool {
        self@ == other@
    }
}

// ---------------------------------------------------------------------------
// Terms
// ---------------------------------------------------------------------------

/// A term in the object language.
#[derive(Debug)]
pub enum Term {
    /// A logic variable (unknown), carrying its declared sort.
    Var(String, Sort),
    /// A ground constant.
    Const(String),
    /// A function application: `f(t1, t2, ...)`.
    Apply(String, Vec<Term>),
}

/// The model of a term.
pub open spec fn term_view(t: Term) -> TermV
    decreases t,
{
    match t {
        Term::Var(n, s) => TermV::Var(n@, s.0@),
        Term::Const(n) => TermV::Const(n@),
        Term::Apply(n, args) => TermV::Apply(n@, terms_view_of(args)),
    }
}

/// The models of a list of terms.
pub open spec fn terms_view_of(args: Vec<Term>) -> Seq<TermV>
    decreases args, 0nat,
{
    Seq::new(
        args@.len(),
        |i: int|
            if 0 <= i < args@.len() {
                term_view(args@[i])
            } else {
                TermV::Const(Seq::empty())
            },
    )
}

impl View for Term {
    type V = TermV;

    open spec fn view(&self) -> TermV {
        term_view(*self)
    }
}

impl Term {
    /// A copy of this term.
    pub fn duplicate(&self) -> (r: Term)
        ensures
            r@ == self@,
        decreases self,
    {
        match self {
            Term::Var(n, s) => Term::Var(n.clone(), s.duplicate()),
            Term::Const(n) => Term::Const(n.clone()),
            Term::Apply(n, args) => {
                let new_args = duplicate_terms(args);
                Term::Apply(n.clone(), new_args)
            },
        }
    }

    /// Structural equality of terms.
    pub fn same(&self, other: &Term) -> (b: bool)
        ensures
            b == (self@ == other@),
        decreases self,
    {
        match (self, other) {
            (Term::Var(n1, s1), Term::Var(n2, s2)) => *n1 == *n2 && s1.same(s2),
            (Term::Const(n1), Term::Const(n2)) => *n1 == *n2,
            (Term::Apply(n1, a1), Term::Apply(n2, a2)) => {
                assert(self@ == TermV::Apply(n1@, terms_view_of(*a1)));
                assert(other@ == TermV::Apply(n2@, terms_view_of(*a2)));
                if *n1 != *n2 || a1.len() != a2.len() {
                    assert(terms_view_of(*a1).len() == a1@.len());
                    return false;
                }
                let mut i: usize = 0;
                while i < a1.len()
                    invariant
                        i <= a1@.len(),
                        a1@.len() == a2@.len(),
                        *self == Term::Apply(*n1, *a1),
                        self@ == TermV::Apply(n1@, terms_view_of(*a1)),
                        other@ == TermV::Apply(n2@, terms_view_of(*a2)),
                        forall|j: int| 0 <= j < i ==> a1@[j]@ == a2@[j]@,
                    decreases a1@.len() - i,
                {
                    proof {
                        assert(decreases_to!(*self => *a1));
                        assert(decreases_to!(*a1 => a1@));
                        assert(decreases_to!(a1@ => a1@[i as int]));
                    }
                    if !a1[i].same(&a2[i]) {
                        assert(terms_view_of(*a1)[i as int] != terms_view_of(*a2)[i as int]);
                        return false;
                    }
                    i = i + 1;
                }
                assert(terms_view_of(*a1) =~= terms_view_of(*a2));
                true
            },
            _ => false,
        }
    }

    /// Display text: variables and constants by name, applications as
    /// `f(t1, t2, ...)`.
    pub fn to_string(&self) -> (s: String)
        ensures
            s@ == term_text(self@),
        decreases self,
    {
        match self {
            Term::Var(n, _) => n.clone(),
            Term::Const(n) => n.clone(),
            Term::Apply(n, args) => {
                assert(*self == Term::Apply(*n, *args));
                let mut s = n.clone();
                s.append("(");
                let ghost vs = terms_view_of(*args);
                let mut i: usize = 0;
                let mut inner = String::new();
                while i < args.len()
                    invariant
                        i <= args@.len(),
                        vs == terms_view_of(*args),
                        *self == Term::Apply(*n, *args),
                        inner@ == join_terms(vs.take(i as int)),
                    decreases args@.len() - i,
                {
                    if i > 0 {
                        inner.append(", ");
                    }
                    proof {
                        assert(decreases_to!(*self => self->Apply_1));
                        assert(decreases_to!(*args => args@));
                        assert(decreases_to!(args@ => args@[i as int]));
                    }
                    let t = args[i].to_string();
                    inner.append(t.as_str());
                    proof {
                        reveal_strlit(", ");
                        assert(vs.take(i + 1).drop_last() =~= vs.take(i as int));
                    }
                    i = i + 1;
                }
                proof {
                    assert(vs.take(args@.len() as int) =~= vs);
                    reveal_strlit("(");
                    reveal_strlit(")");
                }
                s.append(inner.as_str());
                s.append(")");
                s
            },
        }
    }
}

/// Copies of a list of terms.
pub fn duplicate_terms(args: &Vec<Term>) -> (r: Vec<Term>)
    ensures
        terms_view_of(r) == terms_view_of(*args),
        r@.len() == args@.len(),
    decreases args, 0nat,
{
    let mut out: Vec<Term> = Vec::new();
    let mut i: usize = 0;
    while i < args.len()
        invariant
            i <= args@.len(),
            out@.len() == i,
            forall|j: int| 0 <= j < i ==> out@[j]@ == args@[j]@,
        decreases args@.len() - i,
    {
        let t = args[i].duplicate();
        out.push(t);
        i = i + 1;
    }
    assert(terms_view_of(out) =~= terms_view_of(*args));
    out
}

impl Clone for Term {
    fn clone(&self) -> (r: Term)
        ensures
            r@ == self@,
    {
        self.duplicate()
    }
}

impl PartialEq for Term {
    fn eq(&self, other: &Term) -> (b: bool) {
        self.same(other)
    }
}

impl vstd::std_specs::cmp::PartialEqSpecImpl for Term {
    open spec fn obeys_eq_spec() -> bool {
        true
    }

    open spec fn eq_spec(&self, other: &Term) -> bool {
        self@ == other@
    }
}

/// Display text of a list of terms, separated by `, `.
pub open spec fn join_terms(ts: Seq<TermV>) -> Seq<char>
    decreases ts, 0nat,
{
    if ts.len() == 0 {
        Seq::empty()
    } else if ts.len() == 1 {
        term_text(ts[0])
    } else {
        join_terms(ts.drop_last()) + seq![',', ' '] + term_text(ts.last())
    }
}

/// Display text of a term.
pub open spec fn term_text(t: TermV) -> Seq<char>
    decreases t, 1nat,
{
    match t {
        TermV::Var(n, _) => n,
        TermV::Const(n) => n,
        TermV::Apply(n, args) => n + seq!['('] + join_terms(args) + seq![')'],
    }
}


// ---------------------------------------------------------------------------
// Formulas
// ---------------------------------------------------------------------------

/// A first-order formula, including existential quantification.
#[derive(Debug)]
pub enum Formula {
    Eq(Term, Term),
    Pred(String, Vec<Term>),
    And(Box<Formula>, Box<Formula>),
    Or(Box<Formula>, Box<Formula>),
    Not(Box<Formula>),
    Implies(Box<Formula>, Box<Formula>),
    /// ∃ var : Sort, body
    ///
    /// During proof search the engine replaces `var` with a fresh Skolem
    /// constant `?wN` and attempts to prove `body[var := ?wN]`.  If the
    /// sub-proof succeeds the final bindings tell us what `?wN` resolved to,
    /// giving the explicit witness.
    Exists { var: String, sort: Sort, body: Box<Formula> },
}

/// The model of a formula.
pub open spec fn formula_view(f: Formula) -> FormulaV
    decreases f,
{
    match f {
        Formula::Eq(l, r) => FormulaV::Eq(l@, r@),
        Formula::Pred(n, args) => FormulaV::Pred(n@, terms_view_of(args)),
        Formula::And(l, r) => FormulaV::And(Box::new(formula_view(*l)), Box::new(formula_view(*r))),
        Formula::Or(l, r) => FormulaV::Or(Box::new(formula_view(*l)), Box::new(formula_view(*r))),
        Formula::Not(i) => FormulaV::Not(Box::new(formula_view(*i))),
        Formula::Implies(l, r) => FormulaV::Implies(
            Box::new(formula_view(*l)),
            Box::new(formula_view(*r)),
        ),
        Formula::Exists { var, sort, body } => FormulaV::Exists(
            var@,
            sort@,
            Box::new(formula_view(*body)),
        ),
    }
}

impl View for Formula {
    type V = FormulaV;

    open spec fn view(&self) -> FormulaV {
        formula_view(*self)
    }
}

/// The models of a sequence of formulas.
pub open spec fn formulas_view(fs: Seq<Formula>) -> Seq<FormulaV> {
    Seq::new(fs.len(), |i: int| fs[i]@)
}

/// Display text of a formula.
pub open spec fn formula_text(f: FormulaV) -> Seq<char>
    decreases f,
{
    match f {
        FormulaV::Eq(l, r) => term_text(l) + seq![' ', '=', ' '] + term_text(r),
        FormulaV::Pred(n, args) => n + seq!['('] + join_terms(args) + seq![')'],
        FormulaV::And(l, r) => seq!['('] + formula_text(*l) + seq![')', ' ', '∧', ' ', '(']
            + formula_text(*r) + seq![')'],
        FormulaV::Or(l, r) => seq!['('] + formula_text(*l) + seq![')', ' ', '∨', ' ', '(']
            + formula_text(*r) + seq![')'],
        FormulaV::Not(i) => seq!['¬', '('] + formula_text(*i) + seq![')'],
        FormulaV::Implies(l, r) => seq!['('] + formula_text(*l) + seq![')', ' ', '→', ' ', '(']
            + formula_text(*r) + seq![')'],
        FormulaV::Exists(v, s, b) => if s == object_name() {
            seq!['∃', ' '] + v + seq![',', ' '] + formula_text(*b)
        } else {
            seq!['∃', ' '] + v + seq![' ', ':', ' '] + s + seq![',', ' '] + formula_text(*b)
        },
    }
}

/// Display text of `name(t1, t2, ...)`.
fn call_text(name: &String, args: &Vec<Term>) -> (s: String)
    ensures
        s@ == name@ + seq!['('] + join_terms(terms_view_of(*args)) + seq![')'],
{
    let mut s = name.clone();
    s.append("(");
    let ghost vs = terms_view_of(*args);
    let mut i: usize = 0;
    let mut inner = String::new();
    while i < args.len()
        invariant
            i <= args@.len(),
            vs == terms_view_of(*args),
            inner@ == join_terms(vs.take(i as int)),
        decreases args@.len() - i,
    {
        if i > 0 {
            inner.append(", ");
        }
        let t = args[i].to_string();
        inner.append(t.as_str());
        proof {
            reveal_strlit(", ");
            assert(vs.take(i + 1).drop_last() =~= vs.take(i as int));
        }
        i = i + 1;
    }
    proof {
        assert(vs.take(args@.len() as int) =~= vs);
        reveal_strlit("(");
        reveal_strlit(")");
    }
    s.append(inner.as_str());
    s.append(")");
    s
}

/// `open` + `left` + `mid` + `right` + `close` as one string.
fn wrap2(open: &str, left: String, mid: &str, right: String, close: &str) -> (s: String)
    ensures
        s@ == open@ + left@ + mid@ + right@ + close@,
{
    let mut s = String::from_str(open);
    s.append(left.as_str());
    s.append(mid);
    s.append(right.as_str());
    s.append(close);
    s
}

impl Formula {
    /// A copy of this formula.
    pub fn duplicate(&self) -> (r: Formula)
        ensures
            r@ == self@,
        decreases self,
    {
        match self {
            Formula::Eq(l, r) => Formula::Eq(l.duplicate(), r.duplicate()),
            Formula::Pred(n, args) => Formula::Pred(n.clone(), duplicate_terms(args)),
            Formula::And(l, r) => Formula::And(Box::new(l.duplicate()), Box::new(r.duplicate())),
            Formula::Or(l, r) => Formula::Or(Box::new(l.duplicate()), Box::new(r.duplicate())),
            Formula::Not(i) => Formula::Not(Box::new(i.duplicate())),
            Formula::Implies(l, r) => Formula::Implies(
                Box::new(l.duplicate()),
                Box::new(r.duplicate()),
            ),
            Formula::Exists { var, sort, body } => Formula::Exists {
                var: var.clone(),
                sort: sort.duplicate(),
                body: Box::new(body.duplicate()),
            },
        }
    }

    /// Structural equality of formulas.
    pub fn same(&self, other: &Formula) -> (b: bool)
        ensures
            b == (self@ == other@),
        decreases self,
    {
        match (self, other) {
            (Formula::Eq(l1, r1), Formula::Eq(l2, r2)) => l1.same(l2) && r1.same(r2),
            (Formula::Pred(n1, a1), Formula::Pred(n2, a2)) => {
                let t1 = Term::Apply(n1.clone(), duplicate_terms(a1));
                let t2 = Term::Apply(n2.clone(), duplicate_terms(a2));
                t1.same(&t2)
            },
            (Formula::And(l1, r1), Formula::And(l2, r2)) => l1.same(l2) && r1.same(r2),
            (Formula::Or(l1, r1), Formula::Or(l2, r2)) => l1.same(l2) && r1.same(r2),
            (Formula::Not(i1), Formula::Not(i2)) => i1.same(i2),
            (Formula::Implies(l1, r1), Formula::Implies(l2, r2)) => l1.same(l2) && r1.same(r2),
            (
                Formula::Exists { var: v1, sort: s1, body: b1 },
                Formula::Exists { var: v2, sort: s2, body: b2 },
            ) => *v1 == *v2 && s1.same(s2) && b1.same(b2),
            _ => false,
        }
    }

    /// Display text, e.g. `(P(x)) ∧ (x = y)` or `∃ x : Pt, Q(x)`.
    pub fn to_string(&self) -> (s: String)
        ensures
            s@ == formula_text(self@),
        decreases self,
    {
        proof {
            reveal_strlit(" = ");
            reveal_strlit("(");
            reveal_strlit(")");
            reveal_strlit(") ∧ (");
            reveal_strlit(") ∨ (");
            reveal_strlit(") → (");
            reveal_strlit("¬(");
            reveal_strlit("∃ ");
            reveal_strlit(", ");
            reveal_strlit(" : ");
            reveal_strlit("");
        }
        match self {
            Formula::Eq(l, r) => wrap2("", l.to_string(), " = ", r.to_string(), ""),
            Formula::Pred(n, args) => call_text(n, args),
            Formula::And(l, r) => wrap2("(", l.to_string(), ") ∧ (", r.to_string(), ")"),
            Formula::Or(l, r) => wrap2("(", l.to_string(), ") ∨ (", r.to_string(), ")"),
            Formula::Not(i) => wrap2("¬(", i.to_string(), "", String::new(), ")"),
            Formula::Implies(l, r) => wrap2("(", l.to_string(), ") → (", r.to_string(), ")"),
            Formula::Exists { var, sort, body } => {
                let obj = Sort::object();
                if sort.same(&obj) {
                    wrap2("∃ ", var.clone(), ", ", body.to_string(), "")
                } else {
                    let mut head = var.clone();
                    head.append(" : ");
                    head.append(sort.0.as_str());
                    wrap2("∃ ", head, ", ", body.to_string(), "")
                }
            },
        }
    }
}

impl Clone for Formula {
    fn clone(&self) -> (r: Formula)
        ensures
            r@ == self@,
    {
        self.duplicate()
    }
}

impl PartialEq for Formula {
    fn eq(&self, other: &Formula) -> (b: bool) {
        self.same(other)
    }
}

impl vstd::std_specs::cmp::PartialEqSpecImpl for Formula {
    open spec fn obeys_eq_spec() -> bool {
        true
    }

    open spec fn eq_spec(&self, other: &Formula) -> bool {
        self@ == other@
    }
}

// ---------------------------------------------------------------------------
// Statements
// ---------------------------------------------------------------------------

/// A top-level declaration.
#[derive(Debug)]
pub enum Statement {
    TypeDecl(String),
    /// A ground constant with a declared sort, e.g. `A : Pt`.
    /// Unlike `TypeDecl`, the sort is not `"Type"` but a concrete object sort.
    ConstDecl(String, Sort),
    /// Predicate / function signature declaration: `(name, arg_sorts, return_sort)`.
    PredDecl(String, Vec<Sort>, Sort),
    AxiomDecl { name: String, vars: Vec<(String, Sort)>, body: Formula },
    /// `import <universe_name>` — pull all axioms from another universe.
    Import(String),
}

/// A statement as a mathematical value.
pub enum StatementV {
    TypeDecl(Seq<char>),
    ConstDecl(Seq<char>, Seq<char>),
    PredDecl(Seq<char>, Seq<Seq<char>>, Seq<char>),
    AxiomDecl(Seq<char>, Seq<(Seq<char>, Seq<char>)>, FormulaV),
    Import(Seq<char>),
}

impl View for Statement {
    type V = StatementV;

    open spec fn view(&self) -> StatementV {
        match self {
            Statement::TypeDecl(n) => StatementV::TypeDecl(n@),
            Statement::ConstDecl(n, s) => StatementV::ConstDecl(n@, s@),
            Statement::PredDecl(n, args, r) => StatementV::PredDecl(
                n@,
                Seq::new(args@.len(), |i: int| args@[i]@),
                r@,
            ),
            Statement::AxiomDecl { name, vars, body } => StatementV::AxiomDecl(
                name@,
                Seq::new(vars@.len(), |i: int| (vars@[i].0@, vars@[i].1@)),
                body@,
            ),
            Statement::Import(n) => StatementV::Import(n@),
        }
    }
}

} // verus!
