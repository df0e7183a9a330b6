//! The interactive session: named universes with one of them active, and
//! the interpretation of one line of input (a command or a declaration).
//! Reading files stays with the caller: a line that asks for a module or a
//! library to be loaded gives back a request, and the caller feeds the lines
//! of the file back in.
use vstd::prelude::*;

use crate::ast::{formula_text, Formula, FormulaV, Sort, Statement, StatementV};
use crate::display::{
    append_spans, plain, push_span, push_string, restyle, restyle_line, spans_view, styled, Color,
    Line, SpanV, Style,
};
use crate::engine::{
    axioms_view, constants_view, copy_strings, deepen, has_axiom_named, import_axioms, import_types, predicates_view, summary_text, Axiom, AxiomV,
    ProofStep, StepV, Universe,
};
use crate::formatter::{
    append_lines, cyan_bold, explain_proof, explain_proof_spec, height, push_line,
};
use crate::name_map::NameMap;
use crate::parser::{
    lex, lex_spec, opt_formula_view, opt_statement_view, parse_formula_spec, parse_statement_spec,
    Parser,
};
use crate::text::{
    decimal, find_from, find_str, has_prefix, lex_le, push_decimal, slice_chars, sort_strings, sorted, spells,
    starts_with, strings_view, trim, trimmed,
};

verus! {

// ---------------------------------------------------------------------------
// Universes as mathematical values
// ---------------------------------------------------------------------------

/// A universe as a mathematical value.
#[verifier::ext_equal]
pub struct UniV {
    pub axioms: Seq<AxiomV>,
    pub types: Seq<Seq<char>>,
    pub predicates: Map<Seq<char>, (Seq<Seq<char>>, Seq<char>)>,
    pub constants: Map<Seq<char>, Seq<char>>,
}

/// The model of a universe.
pub open spec fn universe_view(u: Universe) -> UniV {
    UniV {
        axioms: axioms_view(u.axioms@),
        types: strings_view(u.types@),
        predicates: predicates_view(u.predicates@),
        constants: constants_view(u.constants@),
    }
}

/// A universe with nothing in it.
pub open spec fn empty_universe() -> UniV {
    UniV { axioms: Seq::empty(), types: Seq::empty(), predicates: Map::empty(), constants: Map::empty() }
}

/// The premises and the final conclusion of a chain `A → B → … → C`
/// (implication groups to the right).
pub open spec fn implies_chain(f: FormulaV) -> (Seq<FormulaV>, FormulaV)
    decreases f,
{
    match f {
        FormulaV::Implies(p, c) => {
            let (ps, concl) = implies_chain(*c);
            (seq![*p] + ps, concl)
        },
        _ => (Seq::empty(), f),
    }
}

/// The axioms a declared formula stands for: a conjunction gives the axioms
/// of each side (named with `_L` and `_R`); an implication chain gives one
/// axiom whose premises are the chain's antecedents; anything else gives one
/// axiom without premises.
pub open spec fn decompose(name: Seq<char>, vars: Seq<Seq<char>>, f: FormulaV) -> Seq<AxiomV>
    decreases f,
{
    match f {
        FormulaV::And(l, r) => decompose(name + "_L"@, vars, *l) + decompose(name + "_R"@, vars, *r),
        FormulaV::Implies(_, _) => seq![
            AxiomV { name, vars, premises: implies_chain(f).0, conclusion: implies_chain(f).1 },
        ],
        _ => seq![AxiomV { name, vars, premises: Seq::empty(), conclusion: f }],
    }
}

/// The conjuncts of a formula: the parts joined by `∧`, at any depth, from
/// left to right.
pub open spec fn conjuncts(f: FormulaV) -> Seq<FormulaV>
    decreases f,
{
    match f {
        FormulaV::And(l, r) => conjuncts(*l) + conjuncts(*r),
        _ => seq![f],
    }
}

/// A declaration splits conjunctions all the way down: it gives one axiom
/// for each conjunct, in order, each with the declared variables, whose
/// premises are the conjunct's antecedents and whose conclusion is what
/// they imply (so an axiom without premises never concludes a
/// conjunction); every axiom's name starts with the declared name, and no
/// two axioms share a name.
pub proof fn lemma_decompose_splits(name: Seq<char>, vars: Seq<Seq<char>>, f: FormulaV)
    ensures
        decompose(name, vars, f).len() == conjuncts(f).len(),
        forall|i: int|
            0 <= i < decompose(name, vars, f).len() ==> {
                &&& (#[trigger] decompose(name, vars, f)[i]).vars == vars
                &&& (decompose(name, vars, f)[i].premises, decompose(name, vars, f)[i].conclusion)
                    == implies_chain(conjuncts(f)[i])
                &&& !(conjuncts(f)[i] is And)
                &&& !(decompose(name, vars, f)[i].premises.len() == 0 && decompose(name, vars, f)[i].conclusion is And)
                &&& name.is_prefix_of(decompose(name, vars, f)[i].name)
            },
        forall|i: int, j: int|
            0 <= i < j < decompose(name, vars, f).len() ==> (#[trigger] decompose(name, vars, f)[i]).name
                != (#[trigger] decompose(name, vars, f)[j]).name,
    decreases f,
{
    match f {
        FormulaV::And(l, r) => {
            let ln = name + "_L"@;
            let rn = name + "_R"@;
            lemma_decompose_splits(ln, vars, *l);
            lemma_decompose_splits(rn, vars, *r);
            let dl = decompose(ln, vars, *l);
            let dr = decompose(rn, vars, *r);
            let cl = conjuncts(*l);
            let cr = conjuncts(*r);
            let d = dl + dr;
            let c = cl + cr;
            assert(ln.take(name.len() as int) =~= name);
            assert(rn.take(name.len() as int) =~= name);
            reveal_strlit("_L");
            reveal_strlit("_R");
            assert(ln[name.len() as int + 1] == 'L');
            assert(rn[name.len() as int + 1] == 'R');
            assert forall|i: int| 0 <= i < d.len() implies {
                &&& (#[trigger] d[i]).vars == vars
                &&& (d[i].premises, d[i].conclusion) == implies_chain(c[i])
                &&& !(c[i] is And)
                &&& !(d[i].premises.len() == 0 && d[i].conclusion is And)
                &&& name.is_prefix_of(d[i].name)
            } by {
                let x = d[i].name;
                if i < dl.len() {
                    assert(d[i] == dl[i]);
                    assert(c[i] == cl[i]);
                    assert(ln.is_prefix_of(x));
                    assert(x.take(name.len() as int) =~= ln.take(name.len() as int));
                } else {
                    assert(d[i] == dr[i - dl.len()]);
                    assert(c[i] == cr[i - cl.len()]);
                    assert(rn.is_prefix_of(x));
                    assert(x.take(name.len() as int) =~= rn.take(name.len() as int));
                }
            }
            assert forall|i: int, j: int| 0 <= i < j < d.len() implies (#[trigger] d[i]).name != (#[trigger] d[j]).name by {
                if j < dl.len() {
                    assert(d[i] == dl[i] && d[j] == dl[j]);
                } else if i >= dl.len() {
                    assert(d[i] == dr[i - dl.len()] && d[j] == dr[j - dl.len()]);
                } else {
                    assert(d[i] == dl[i] && d[j] == dr[j - dl.len()]);
                    assert(ln.is_prefix_of(d[i].name));
                    assert(rn.is_prefix_of(d[j].name));
                    assert(d[i].name[name.len() as int + 1] == ln[name.len() as int + 1]);
                    assert(d[j].name[name.len() as int + 1] == rn[name.len() as int + 1]);
                }
            }
        },
        _ => {
            assert(name.take(name.len() as int) =~= name);
        },
    }
}

/// The universe with more axioms at the end.
pub open spec fn with_axioms(u: UniV, axs: Seq<AxiomV>) -> UniV {
    UniV { axioms: u.axioms + axs, ..u }
}

/// `u` after importing `o`: axioms whose name is new and type names that
/// are new are appended in order; predicates and constants of `o` are added
/// where `u` has none of that name.
pub open spec fn uv_import(u: UniV, o: UniV) -> UniV {
    UniV {
        axioms: import_axioms(u.axioms, o.axioms),
        types: import_types(u.types, o.types),
        predicates: o.predicates.union_prefer_right(u.predicates),
        constants: o.constants.union_prefer_right(u.constants),
    }
}

/// Decompose a formula into axioms (see `decompose`) and add them to the
/// universe.
pub fn add_axiom(name: String, vars: Vec<String>, formula: Formula, universe: &mut Universe)
    ensures
        universe_view(*final(universe)) == with_axioms(
            universe_view(*old(universe)),
            decompose(name@, strings_view(vars@), formula@),
        ),
    decreases formula,
{
    let ghost fv = formula@;
    match formula {
        Formula::And(left, right) => {
            let mut ln = name.clone();
            ln.append("_L");
            let mut rn = name;
            rn.append("_R");
            add_axiom(ln, copy_strings(&vars), *left, universe);
            add_axiom(rn, vars, *right, universe);
            proof {
                reveal_strlit("_L");
                reveal_strlit("_R");
                assert(universe_view(*universe) =~= with_axioms(
                    universe_view(*old(universe)),
                    decompose(name@, strings_view(vars@), fv),
                ));
            }
        },
        Formula::Implies(premise, conclusion) => {
            let mut premises: Vec<Formula> = Vec::new();
            premises.push(*premise);
            let mut current: Formula = *conclusion;
            proof {
                assert(crate::ast::formulas_view(premises@) + implies_chain(current@).0 =~= implies_chain(fv).0);
            }
            loop
                invariant
                    crate::ast::formulas_view(premises@) + implies_chain(current@).0 == implies_chain(fv).0,
                    implies_chain(current@).1 == implies_chain(fv).1,
                ensures
                    crate::ast::formulas_view(premises@) == implies_chain(fv).0,
                    current@ == implies_chain(fv).1,
                decreases crate::engine::formula_size(current@),
            {
                match current {
                    Formula::Implies(p, c) => {
                        let ghost before = crate::ast::formulas_view(premises@);
                        let ghost pv = p@;
                        premises.push(*p);
                        current = *c;
                        proof {
                            assert(crate::ast::formulas_view(premises@) =~= before.push(pv));
                            assert(crate::ast::formulas_view(premises@) + implies_chain(current@).0 =~= before + (seq![pv]
                                + implies_chain(current@).0));
                        }
                    },
                    other => {
                        current = other;
                        proof {
                            assert(implies_chain(current@).0 =~= Seq::<FormulaV>::empty());
                            assert(crate::ast::formulas_view(premises@) =~= crate::ast::formulas_view(premises@)
                                + implies_chain(current@).0);
                        }
                        break;
                    },
                }
            }
            let ghost names = strings_view(vars@);
            universe.add_axiom(Axiom { name, vars, premises, conclusion: current });
            proof {
                assert(universe_view(*universe) =~= with_axioms(
                    universe_view(*old(universe)),
                    decompose(name@, names, fv),
                ));
            }
        },
        other => {
            let ghost names = strings_view(vars@);
            let premises: Vec<Formula> = Vec::new();
            proof {
                assert(crate::ast::formulas_view(premises@) =~= Seq::<FormulaV>::empty());
            }
            universe.add_axiom(Axiom { name, vars, premises, conclusion: other });
            proof {
                assert(universe_view(*universe) =~= with_axioms(
                    universe_view(*old(universe)),
                    decompose(name@, names, fv),
                ));
            }
        },
    }
}

// ---------------------------------------------------------------------------
// Session — named universes + active cursor
// ---------------------------------------------------------------------------

/// Named universes, one of them active.
pub struct Session {
    universes: NameMap<Universe>,
    active: String,
}

/// A session as a mathematical value.
#[verifier::ext_equal]
pub struct SessionV {
    pub universes: Map<Seq<char>, UniV>,
    pub active: Seq<char>,
}

impl View for Session {
    type V = SessionV;

    closed spec fn view(&self) -> SessionV {
        SessionV {
            universes: self.universes@.map_values(|u: Universe| universe_view(u)),
            active: self.active@,
        }
    }
}

/// The active universe of a session.
pub open spec fn active_universe(s: SessionV) -> UniV {
    s.universes[s.active]
}

/// The session with its active universe replaced.
pub open spec fn with_active(s: SessionV, u: UniV) -> SessionV {
    SessionV { universes: s.universes.insert(s.active, u), active: s.active }
}

/// The active universe is one of the universes.
pub open spec fn session_wf(s: SessionV) -> bool {
    s.universes.contains_key(s.active)
}

impl Session {
    /// A session with one empty universe, `default`, active.
    pub fn new() -> (s: Self)
        ensures
            s@.universes == Map::<Seq<char>, UniV>::empty().insert("default"@, empty_universe()),
            s@.active == "default"@,
            session_wf(s@),
    {
        let mut universes: NameMap<Universe> = NameMap::new();
        let u = Universe::new();
        proof {
            assert(universe_view(u) =~= empty_universe());
        }
        universes.insert(String::from_str("default"), u);
        let s = Session { universes, active: String::from_str("default") };
        proof {
            assert(s@.universes =~= Map::<Seq<char>, UniV>::empty().insert("default"@, empty_universe()));
        }
        s
    }

    /// The name of the active universe.
    pub fn active_name(&self) -> (n: &String)
        ensures
            n@ == self@.active,
    {
        &self.active
    }

    /// The active universe.
    pub fn current(&self) -> (u: &Universe)
        requires
            session_wf(self@),
        ensures
            universe_view(*u) == active_universe(self@),
    {
        let r = self.universes.get(&self.active);
        proof {
            assert(self@.universes.contains_key(self.active@));
            assert(self.universes@.contains_key(self.active@));
        }
        r.unwrap()
    }

    /// Create an empty universe named `name`; `false` (and no change) if
    /// one of that name exists.
    pub fn create_universe(&mut self, name: &str) -> (created: bool)
        requires
            session_wf(old(self)@),
        ensures
            session_wf(final(self)@),
            created == !old(self)@.universes.contains_key(name@),
            final(self)@ == (if created {
                SessionV {
                    universes: old(self)@.universes.insert(name@, empty_universe()),
                    active: old(self)@.active,
                }
            } else {
                old(self)@
            }),
    {
        let key = String::from_str(name);
        if self.universes.contains_key(&key) {
            return false;
        }
        let u = Universe::new();
        proof {
            assert(universe_view(u) =~= empty_universe());
        }
        self.universes.insert(key, u);
        proof {
            assert(self@.universes =~= old(self)@.universes.insert(name@, empty_universe()));
        }
        true
    }

    /// Make the universe named `name` the active one; `false` (and no
    /// change) if there is none of that name.
    pub fn use_universe(&mut self, name: &str) -> (found: bool)
        requires
            session_wf(old(self)@),
        ensures
            session_wf(final(self)@),
            found == old(self)@.universes.contains_key(name@),
            final(self)@ == (if found {
                SessionV { universes: old(self)@.universes, active: name@ }
            } else {
                old(self)@
            }),
    {
        let key = String::from_str(name);
        if self.universes.contains_key(&key) {
            self.active = key;
            true
        } else {
            false
        }
    }

    /// Pull everything of the universe named `name` into the active one
    /// (see `Universe::import_from`); `false` (and no change) if there is no
    /// universe of that name.
    pub fn import_universe(&mut self, name: &String) -> (found: bool)
        requires
            session_wf(old(self)@),
        ensures
            session_wf(final(self)@),
            found == old(self)@.universes.contains_key(name@),
            final(self)@ == (if found {
                with_active(old(self)@, uv_import(active_universe(old(self)@), old(self)@.universes[name@]))
            } else {
                old(self)@
            }),
    {
        let other = match self.universes.get(name) {
            Some(o) => o.duplicate(),
            None => {
                return false;
            },
        };
        let ghost ov = universe_view(other);
        proof {
            assert(ov == old(self)@.universes[name@]);
        }
        let u = self.current_mut();
        u.import_from(&other);
        proof {
            assert(universe_view(*u) =~= uv_import(active_universe(old(self)@), ov));
        }
        true
    }

    /// The active universe, to be changed in place.
    fn current_mut(&mut self) -> (u: &mut Universe)
        requires
            session_wf(old(self)@),
        ensures
            universe_view(*u) == active_universe(old(self)@),
            final(self)@ == with_active(old(self)@, universe_view(*final(u))),
    {
        let ghost m = self.universes@;
        let ghost k = self.active@;
        proof {
            assert forall|w: Universe| (#[trigger] m.insert(k, w)).map_values(|u: Universe| universe_view(u))
                == m.map_values(|u: Universe| universe_view(u)).insert(k, universe_view(w)) by {
                assert(m.insert(k, w).map_values(|u: Universe| universe_view(u)) =~= m.map_values(
                    |u: Universe| universe_view(u),
                ).insert(k, universe_view(w)));
            }
        }
        self.universes.get_mut(&self.active)
    }
}

// ---------------------------------------------------------------------------
// What one line of input does (mathematical definition)
// ---------------------------------------------------------------------------

/// A line of plain text.
pub open spec fn pl(t: Seq<char>) -> Seq<SpanV> {
    plain(t)
}

/// The text of `help`.
pub open spec fn help_text() -> Seq<Seq<char>> {
    seq![
        "Commands:"@,
        "  create_universe <name>              Create a new empty universe"@,
        "  use <name>                          Switch active universe"@,
        "  list_universes                      List all universes"@,
        "  universe_info                       Show contents of active universe"@,
        "  import <name>                       Pull axioms from another universe into active"@,
        "  load <file>                         Load a .axia file into active universe"@,
        "  load <file> into <universe>         Load a file into a specific universe"@,
        "  assert <formula>                    Add a ground fact to active universe"@,
        "  Given <Name> : <formula>            Declare a named hypothesis"@,
        "  deduce <n>                          Forward-chain for <n> saturation steps"@,
        "  prove <formula>                     Prove a formula in active universe"@,
        "  exit                                Quit"@,
        ""@,
        "Formula syntax:"@,
        "  P(x, y)          predicate application"@,
        "  f(x) = g(y)      equality"@,
        "  A ∧ B  / A and B conjunctions"@,
        "  A ∨ B  / A or B  disjunctions"@,
        "  A → B  / A -> B  implication"@,
        "  ¬ A    / not A   negation"@,
        "  ∃ x, P(x)        existential (engine introduces Skolem witness)"@,
        "  ∃ x : Sort, P(x) existential with sort annotation"@,
    ]
}

/// Parts joined with a separator.
pub open spec fn join_with(parts: Seq<Seq<char>>, sep: Seq<char>) -> Seq<char>
    decreases parts.len(),
{
    if parts.len() == 0 {
        Seq::empty()
    } else if parts.len() == 1 {
        parts[0]
    } else {
        join_with(parts.drop_last(), sep) + sep + parts.last()
    }
}

/// Parts joined with `, `, or `(none)` when there are none.
pub open spec fn or_none(parts: Seq<Seq<char>>) -> Seq<char> {
    if parts.len() == 0 {
        "(none)"@
    } else {
        join_with(parts, ", "@)
    }
}

/// The line of one universe in the list of universes.
pub open spec fn universe_entry(name: Seq<char>, active: Seq<char>, u: UniV) -> Seq<SpanV> {
    pl("  "@ + name + (if name == active {
        " [active]"@
    } else {
        Seq::empty()
    }) + " — "@ + summary_text(u.axioms.len(), u.types.len(), u.predicates.len(), u.constants.len()))
}

/// `keys` lists the domain of a map once each, in some order.
pub open spec fn lists_keys<V>(keys: Seq<Seq<char>>, m: Map<Seq<char>, V>) -> bool {
    keys.no_duplicates() && keys.to_set() == m.dom()
}

/// The list of universes: one line each, by name in order.
pub open spec fn list_ok(s: SessionV, lines: Seq<Seq<SpanV>>) -> bool {
    exists|keys: Seq<Seq<char>>, names: Seq<Seq<char>>|
        #![trigger lists_keys(keys, s.universes), sorted(names)]
        lists_keys(keys, s.universes) && names.to_multiset() == keys.to_multiset() && sorted(names)
            && lines == names.map_values(|n: Seq<char>| universe_entry(n, s.active, s.universes[n]))
}

/// The line of an axiom in the description of a universe.
pub open spec fn axiom_line(a: AxiomV) -> Seq<char> {
    if a.premises.len() == 0 {
        "    ["@ + a.name + "] ⊢ "@ + formula_text(a.conclusion)
    } else {
        "    ["@ + a.name + "] "@ + join_with(a.premises.map_values(|p: FormulaV| formula_text(p)), ", "@)
            + " ⊢ "@ + formula_text(a.conclusion)
    }
}

/// `name : sort` for a constant.
pub open spec fn constant_text(n: Seq<char>, srt: Seq<char>) -> Seq<char> {
    n + " : "@ + srt
}

/// The description of the active universe: its name, types, constants (in
/// order), predicates (in the order the table gives them) and axioms.
pub open spec fn info_ok(s: SessionV, lines: Seq<Seq<SpanV>>) -> bool {
    let u = active_universe(s);
    exists|ckeys: Seq<Seq<char>>, pairs: Seq<Seq<char>>, pkeys: Seq<Seq<char>>|
        #![trigger lists_keys(ckeys, u.constants), sorted(pairs), lists_keys(pkeys, u.predicates)]
        lists_keys(ckeys, u.constants) && sorted(pairs) && pairs.to_multiset() == ckeys.map_values(
            |k: Seq<char>| constant_text(k, u.constants[k]),
        ).to_multiset() && lists_keys(pkeys, u.predicates) && lines == seq![
            pl("Active universe: '"@ + s.active + "'"@),
            pl("  Types      : "@ + or_none(u.types)),
            pl("  Constants  : "@ + or_none(pairs)),
            pl("  Predicates : "@ + or_none(pkeys)),
            pl("  Axioms ("@ + decimal(u.axioms.len()) + "):"@),
        ] + u.axioms.map_values(|a: AxiomV| pl(axiom_line(a)))
}

/// The line that announces a goal.
pub open spec fn goal_line(goal: FormulaV, active: Seq<char>) -> Seq<SpanV> {
    styled("Goal:"@, Style::BoldFg(Color::Blue)) + pl(" "@) + styled(formula_text(goal), Style::Fg(Color::Cyan))
        + pl("  [universe: '"@) + styled(active, Style::Fg(Color::Yellow)) + pl("']"@)
}

/// `prove <goal>`: the goal is parsed with the active universe's constants;
/// a proof found is explained, or else the lack of one is reported.  (A
/// proof too tall to indent is reported by its goal line alone.)
pub open spec fn prove_ok(s: SessionV, goal_str: Seq<char>, lines: Seq<Seq<SpanV>>) -> bool {
    let u = active_universe(s);
    match parse_formula_spec(lex_spec(goal_str), 0, u.constants.dom()).0 {
        None => lines == seq![pl("Could not parse goal."@)],
        Some(goal) => lines.len() >= 1 && lines[0] == goal_line(goal, s.active) && match deepen(
            goal,
            u.axioms,
            1,
            20,
            0,
            0,
        ) {
            None => lines.skip(1) == seq![styled("No proof found."@, Style::BoldFg(Color::Red))],
            Some(p) => if 3 * height(p) <= usize::MAX {
                lines.skip(1) == explain_proof_spec(p)
            } else {
                lines.len() == 1
            },
        },
    }
}

/// The fact axiom for an asserted formula.
pub open spec fn fact_axiom(f: FormulaV) -> AxiomV {
    AxiomV { name: "Fact"@, vars: Seq::empty(), premises: Seq::empty(), conclusion: f }
}

/// `assert <fact>`: the fact is added to the active universe as an axiom
/// named `Fact` without premises.
pub open spec fn assert_ok(s: SessionV, fact_str: Seq<char>, t: SessionV, lines: Seq<Seq<SpanV>>) -> bool {
    let u = active_universe(s);
    match parse_formula_spec(lex_spec(fact_str), 0, u.constants.dom()).0 {
        None => t == s && lines == seq![pl("Could not parse fact."@)],
        Some(f) => t == with_active(s, with_axioms(u, seq![fact_axiom(f)])) && lines == seq![
            pl("Fact added to universe '"@ + s.active + "'."@),
        ],
    }
}

/// A universe with one more type name, unless it has it.
pub open spec fn uv_add_type(u: UniV, n: Seq<char>) -> UniV {
    UniV {
        types: if u.types.contains(n) {
            u.types
        } else {
            u.types.push(n)
        },
        ..u
    }
}

/// A universe with the sort of a constant set.
pub open spec fn uv_add_constant(u: UniV, n: Seq<char>, srt: Seq<char>) -> UniV {
    UniV { constants: u.constants.insert(n, srt), ..u }
}

/// A universe with the signature of a predicate set.
pub open spec fn uv_add_predicate(u: UniV, n: Seq<char>, args: Seq<Seq<char>>, ret: Seq<char>) -> UniV {
    UniV { predicates: u.predicates.insert(n, (args, ret)), ..u }
}

/// Yellow text.
pub open spec fn yellow(t: Seq<char>) -> Seq<SpanV> {
    styled(t, Style::Fg(Color::Yellow))
}

/// Cyan text.
pub open spec fn cyan(t: Seq<char>) -> Seq<SpanV> {
    styled(t, Style::Fg(Color::Cyan))
}

/// ` : A → B → ` for argument sorts `A, B`; nothing without arguments.
pub open spec fn sig_text(args: Seq<Seq<char>>) -> Seq<char> {
    if args.len() == 0 {
        Seq::empty()
    } else {
        " : "@ + join_with(args, " → "@) + " → "@
    }
}

/// Styled parts joined with a separator.
pub open spec fn join_spans(parts: Seq<Seq<SpanV>>, sep: Seq<SpanV>) -> Seq<SpanV>
    decreases parts.len(),
{
    if parts.len() == 0 {
        Seq::empty()
    } else if parts.len() == 1 {
        parts[0]
    } else {
        join_spans(parts.drop_last(), sep) + sep + parts.last()
    }
}

/// ` [∀ x:S, y:T]` for the variables of an axiom (each name and sort in
/// cyan); an empty text without variables.
pub open spec fn vars_display(vars: Seq<(Seq<char>, Seq<char>)>) -> Seq<SpanV> {
    if vars.len() == 0 {
        pl(Seq::empty())
    } else {
        pl(" [∀ "@) + join_spans(
            vars.map_values(|v: (Seq<char>, Seq<char>)| cyan(v.0) + pl(":"@) + cyan(v.1)),
            pl(", "@),
        ) + pl("]"@)
    }
}

/// `<file> into <universe>`: the file and the universe, split at the first
/// ` into `.
pub open spec fn load_into(rest: Seq<char>) -> Option<(Seq<char>, Seq<char>)> {
    match find_from(rest, " into "@, 0) {
        Some(i) => Some((trimmed(rest.take(i)), trimmed(rest.skip(i + 6)))),
        None => None,
    }
}

/// A request to read files, which the caller carries out.
pub enum RequestV {
    Load(Seq<char>),
    LoadInto(Seq<char>, Seq<char>),
    ImportLibrary(Seq<char>),
    ImportModule(Seq<char>),
}

/// A declaration: parsed with the active universe's constants, it adds a
/// type, a constant, a signature or axioms to the active universe, or asks
/// for a module to be imported; what cannot be parsed is reported.
pub open spec fn declare_ok(
    s: SessionV,
    t: Seq<char>,
    s2: SessionV,
    lines: Seq<Seq<SpanV>>,
    req: Option<RequestV>,
) -> bool {
    let u = active_universe(s);
    match parse_statement_spec(lex_spec(t), 0, u.constants.dom()).0 {
        None => s2 == s && req is None && lines == seq![
            styled("Parse error: "@ + t, Style::Fg(Color::Red)),
        ],
        Some(StatementV::TypeDecl(n)) => s2 == with_active(s, uv_add_type(u, n)) && req is None && lines
            == seq![yellow("Defined Type:"@) + pl(" "@) + cyan_bold(n)],
        Some(StatementV::ConstDecl(n, srt)) => s2 == with_active(s, uv_add_constant(u, n, srt)) && req is None
            && lines == seq![yellow("Defined Constant:"@) + pl(" "@) + cyan_bold(n) + pl(" : "@) + cyan(srt)],
        Some(StatementV::PredDecl(n, args, r)) => s2 == with_active(s, uv_add_predicate(u, n, args, r))
            && req is None && lines == seq![
            yellow("Defined Function/Predicate:"@) + pl(" "@) + cyan_bold(n) + pl(sig_text(args)) + cyan(r),
        ],
        Some(StatementV::AxiomDecl(name, vars, body)) => s2 == with_active(
            s,
            with_axioms(u, decompose(name, vars.map_values(|v: (Seq<char>, Seq<char>)| v.0), body)),
        ) && req is None && lines == seq![
            yellow("Added Axiom:"@) + pl(" "@) + styled(name, Style::BoldFg(Color::Yellow)) + restyle(
                vars_display(vars),
                Style::Fg(Color::BrightBlack),
            ),
        ],
        Some(StatementV::Import(src)) => s2 == s && lines.len() == 0 && req == Some(
            RequestV::ImportModule(src),
        ),
    }
}

/// What one line of input does to the session, what it shows, and what it
/// asks the caller to load.  The line is trimmed; an empty line or a
/// comment (`--`) does nothing; then come the commands `help` (or `?`),
/// `create_universe`, `use`, `list_universes`, `universe_info`, `import`,
/// `load`, `prove` and `assert`; anything else is a declaration.
pub open spec fn process_ok(
    s: SessionV,
    input: Seq<char>,
    s2: SessionV,
    lines: Seq<Seq<SpanV>>,
    req: Option<RequestV>,
) -> bool {
    let t = trimmed(input);
    if t.len() == 0 || starts_with(t, "--"@) {
        s2 == s && lines.len() == 0 && req is None
    } else if t == "help"@ || t == "?"@ {
        s2 == s && lines == help_text().map_values(|h: Seq<char>| pl(h)) && req is None
    } else if starts_with(t, "create_universe "@) {
        let name = trimmed(t.skip("create_universe "@.len() as int));
        req is None && if name.len() == 0 {
            s2 == s && lines == seq![styled("Usage: create_universe <name>"@, Style::Fg(Color::Red))]
        } else if s.universes.contains_key(name) {
            s2 == s && lines == seq![
                styled("Universe '"@ + name + "' already exists."@, Style::Fg(Color::Yellow)),
            ]
        } else {
            s2 == SessionV { universes: s.universes.insert(name, empty_universe()), active: s.active }
                && lines == seq![
                pl("Universe '"@) + styled(name, Style::BoldFg(Color::Green)) + pl("' created."@),
            ]
        }
    } else if starts_with(t, "use "@) {
        let name = trimmed(t.skip("use "@.len() as int));
        req is None && if s.universes.contains_key(name) {
            s2 == SessionV { universes: s.universes, active: name } && lines == seq![
                pl("Switched to universe '"@) + styled(name, Style::BoldFg(Color::Green)) + pl("'."@),
            ]
        } else {
            s2 == s && lines == seq![
                styled("Error: Universe '"@ + name + "' does not exist."@, Style::Fg(Color::Red)),
            ]
        }
    } else if t == "list_universes"@ {
        s2 == s && req is None && list_ok(s, lines)
    } else if t == "universe_info"@ {
        s2 == s && req is None && info_ok(s, lines)
    } else if starts_with(t, "import "@) {
        let src = trimmed(t.skip("import "@.len() as int));
        if s.universes.contains_key(src) {
            req is None && s2 == with_active(s, uv_import(active_universe(s), s.universes[src])) && lines
                == seq![pl("Imported universe '"@ + src + "' into '"@ + s.active + "'."@)]
        } else {
            s2 == s && lines.len() == 0 && req == Some(RequestV::ImportLibrary(src))
        }
    } else if starts_with(t, "load "@) {
        let rest = trimmed(t.skip("load "@.len() as int));
        match load_into(rest) {
            Some((file, u)) => if s.universes.contains_key(u) {
                s2 == s && lines.len() == 0 && req == Some(RequestV::LoadInto(file, u))
            } else {
                s2 == s && req is None && lines == seq![
                    styled("Error: Universe '"@ + u + "' does not exist."@, Style::Fg(Color::Red)),
                ]
            },
            None => s2 == s && lines.len() == 0 && req == Some(RequestV::Load(rest)),
        }
    } else if starts_with(t, "prove "@) {
        s2 == s && req is None && prove_ok(s, trimmed(t.skip("prove "@.len() as int)), lines)
    } else if starts_with(t, "assert "@) {
        req is None && assert_ok(s, trimmed(t.skip("assert "@.len() as int)), s2, lines)
    } else {
        declare_ok(s, t, s2, lines, req)
    }
}

// ---------------------------------------------------------------------------
// Output helpers
// ---------------------------------------------------------------------------

/// A line of plain text.
fn plain_line(text: String) -> (l: Line)
    ensures
        spans_view(l@) == pl(text@),
{
    let mut l: Line = Vec::new();
    push_string(&mut l, text, Style::Plain);
    assert(spans_view(l@) =~= pl(text@));
    l
}

/// Append a line of plain text.
fn push_plain(lines: &mut Vec<Line>, text: &str)
    ensures
        crate::display::lines_view(final(lines)@) == crate::display::lines_view(old(lines)@).push(pl(text@)),
{
    push_line(lines, plain_line(String::from_str(text)));
}

/// Parts joined with a separator.
pub fn join_strings(parts: &Vec<String>, sep: &str) -> (s: String)
    ensures
        s@ == join_with(strings_view(parts@), sep@),
{
    let ghost ps = strings_view(parts@);
    let mut s = String::new();
    let mut i: usize = 0;
    while i < parts.len()
        invariant
            i <= parts@.len(),
            ps == strings_view(parts@),
            s@ == join_with(ps.take(i as int), sep@),
        decreases parts@.len() - i,
    {
        if i > 0 {
            s.append(sep);
        }
        s.append(parts[i].as_str());
        proof {
            assert(ps.take(i + 1).drop_last() =~= ps.take(i as int));
            if i == 0 {
                assert(s@ =~= join_with(ps.take(1), sep@));
            }
        }
        i = i + 1;
    }
    proof {
        assert(ps.take(parts@.len() as int) =~= ps);
    }
    s
}

/// Parts joined with `, `, or `(none)`.
fn or_none_exec(parts: &Vec<String>) -> (s: String)
    ensures
        s@ == or_none(strings_view(parts@)),
{
    if parts.len() == 0 {
        String::from_str("(none)")
    } else {
        join_strings(parts, ", ")
    }
}

/// The lines of `help`.
pub fn help_lines() -> (lines: Vec<Line>)
    ensures
        crate::display::lines_view(lines@) == help_text().map_values(|h: Seq<char>| pl(h)),
{
    let mut lines: Vec<Line> = Vec::new();
    push_plain(&mut lines, "Commands:");
    push_plain(&mut lines, "  create_universe <name>              Create a new empty universe");
    push_plain(&mut lines, "  use <name>                          Switch active universe");
    push_plain(&mut lines, "  list_universes                      List all universes");
    push_plain(&mut lines, "  universe_info                       Show contents of active universe");
    push_plain(&mut lines, "  import <name>                       Pull axioms from another universe into active");
    push_plain(&mut lines, "  load <file>                         Load a .axia file into active universe");
    push_plain(&mut lines, "  load <file> into <universe>         Load a file into a specific universe");
    push_plain(&mut lines, "  assert <formula>                    Add a ground fact to active universe");
    push_plain(&mut lines, "  Given <Name> : <formula>            Declare a named hypothesis");
    push_plain(&mut lines, "  deduce <n>                          Forward-chain for <n> saturation steps");
    push_plain(&mut lines, "  prove <formula>                     Prove a formula in active universe");
    push_plain(&mut lines, "  exit                                Quit");
    push_plain(&mut lines, "");
    push_plain(&mut lines, "Formula syntax:");
    push_plain(&mut lines, "  P(x, y)          predicate application");
    push_plain(&mut lines, "  f(x) = g(y)      equality");
    push_plain(&mut lines, "  A ∧ B  / A and B conjunctions");
    push_plain(&mut lines, "  A ∨ B  / A or B  disjunctions");
    push_plain(&mut lines, "  A → B  / A -> B  implication");
    push_plain(&mut lines, "  ¬ A    / not A   negation");
    push_plain(&mut lines, "  ∃ x, P(x)        existential (engine introduces Skolem witness)");
    push_plain(&mut lines, "  ∃ x : Sort, P(x) existential with sort annotation");
    assert(crate::display::lines_view(lines@) =~= help_text().map_values(|h: Seq<char>| pl(h)));
    lines
}

impl Session {
    /// The list of universes, by name in order.
    pub fn list_lines(&self) -> (lines: Vec<Line>)
        ensures
            list_ok(self@, crate::display::lines_view(lines@)),
    {
        let n = self.universes.len();
        let ghost ents = self.universes.spec_entries();
        let mut keys: Vec<String> = Vec::new();
        let mut i: usize = 0;
        while i < n
            invariant
                i <= n,
                n == ents.len(),
                ents == self.universes.spec_entries(),
                strings_view(keys@) == ents.take(i as int).map_values(|e: (String, Universe)| e.0@),
            decreases n - i,
        {
            keys.push(self.universes.key_at(i).clone());
            proof {
                assert(ents.take(i + 1).map_values(|e: (String, Universe)| e.0@) =~= ents.take(i as int).map_values(
                    |e: (String, Universe)| e.0@,
                ).push(ents[i as int].0@));
                assert(strings_view(keys@) =~= ents.take(i + 1).map_values(|e: (String, Universe)| e.0@));
            }
            i = i + 1;
        }
        let ghost kv = strings_view(keys@);
        proof {
            assert(ents.take(n as int) =~= ents);
            assert(kv.no_duplicates()) by {
                assert forall|a: int, b: int| 0 <= a < kv.len() && 0 <= b < kv.len() && a != b implies kv[a] != kv[b] by {
                    if a < b {
                        assert(ents[a].0@ != ents[b].0@);
                    } else {
                        assert(ents[b].0@ != ents[a].0@);
                    }
                }
            }
            assert forall|k: Seq<char>| kv.to_set().contains(k) <==> self@.universes.dom().contains(k) by {
                if self@.universes.dom().contains(k) {
                    assert(self.universes@.contains_key(k));
                    let j = choose|j: int| 0 <= j < ents.len() && ents[j].0@ == k;
                    assert(kv[j] == k);
                }
                if kv.to_set().contains(k) {
                    let j = choose|j: int| 0 <= j < kv.len() && kv[j] == k;
                    assert(ents[j].0@ == k);
                }
            }
            assert(kv.to_set() =~= self@.universes.dom());
        }
        let names = sort_strings(keys);
        let ghost nv = strings_view(names@);
        let mut lines: Vec<Line> = Vec::new();
        let mut j: usize = 0;
        while j < names.len()
            invariant
                j <= names@.len(),
                nv == strings_view(names@),
                nv.to_multiset() == kv.to_multiset(),
                kv.to_set() == self@.universes.dom(),
                crate::display::lines_view(lines@) == nv.take(j as int).map_values(
                    |m: Seq<char>| universe_entry(m, self@.active, self@.universes[m]),
                ),
            decreases names@.len() - j,
        {
            let name = &names[j];
            proof {
                broadcast use vstd::seq_lib::group_to_multiset_ensures;
                assert(nv.contains(nv[j as int]));
                assert(nv.to_multiset().count(nv[j as int]) > 0);
                assert(kv.to_multiset().count(nv[j as int]) > 0);
                assert(kv.contains(nv[j as int]));
                assert(kv.to_set().contains(nv[j as int]));
            }
            let u = self.universes.get(name).unwrap();
            let mut text = String::from_str("  ");
            text.append(name.as_str());
            if *name == self.active {
                text.append(" [active]");
            }
            text.append(" — ");
            let summary = u.summary();
            text.append(summary.as_str());
            let ghost before = crate::display::lines_view(lines@);
            push_line(&mut lines, plain_line(text));
            proof {
                let uv = self@.universes[name@];
                assert(uv == universe_view(*u));
                assert(uv.predicates.len() == u.predicates@.len()) by {
                    assert(uv.predicates.dom() =~= u.predicates@.dom());
                }
                assert(uv.constants.len() == u.constants@.len()) by {
                    assert(uv.constants.dom() =~= u.constants@.dom());
                }
                assert(nv.take(j + 1).map_values(|m: Seq<char>| universe_entry(m, self@.active, self@.universes[m]))
                    =~= nv.take(j as int).map_values(|m: Seq<char>| universe_entry(m, self@.active, self@.universes[m])).push(
                    universe_entry(nv[j as int], self@.active, self@.universes[nv[j as int]]),
                ));
            }
            j = j + 1;
        }
        proof {
            assert(nv.take(names@.len() as int) =~= nv);
            assert(lists_keys(kv, self@.universes));
        }
        lines
    }
}

/// The keys of a name map, in its order.
fn keys_of<V>(m: &NameMap<V>) -> (keys: Vec<String>)
    ensures
        lists_keys(strings_view(keys@), m@),
        strings_view(keys@) == m.spec_entries().map_values(|e: (String, V)| e.0@),
{
    let n = m.len();
    let ghost ents = m.spec_entries();
    let mut keys: Vec<String> = Vec::new();
    let mut i: usize = 0;
    while i < n
        invariant
            i <= n,
            n == ents.len(),
            ents == m.spec_entries(),
            strings_view(keys@) == ents.take(i as int).map_values(|e: (String, V)| e.0@),
        decreases n - i,
    {
        keys.push(m.key_at(i).clone());
        proof {
            assert(ents.take(i + 1).map_values(|e: (String, V)| e.0@) =~= ents.take(i as int).map_values(
                |e: (String, V)| e.0@,
            ).push(ents[i as int].0@));
            assert(strings_view(keys@) =~= ents.take(i + 1).map_values(|e: (String, V)| e.0@));
        }
        i = i + 1;
    }
    let ghost kv = strings_view(keys@);
    proof {
        assert(ents.take(n as int) =~= ents);
        assert(kv.no_duplicates()) by {
            assert forall|a: int, b: int| 0 <= a < kv.len() && 0 <= b < kv.len() && a != b implies kv[a] != kv[b] by {
                if a < b {
                    assert(ents[a].0@ != ents[b].0@);
                } else {
                    assert(ents[b].0@ != ents[a].0@);
                }
            }
        }
        assert forall|k: Seq<char>| kv.to_set().contains(k) <==> m@.dom().contains(k) by {
            if m@.dom().contains(k) {
                assert(m@.contains_key(k));
                let j = choose|j: int| 0 <= j < ents.len() && ents[j].0@ == k;
                assert(kv[j] == k);
            }
            if kv.to_set().contains(k) {
                let j = choose|j: int| 0 <= j < kv.len() && kv[j] == k;
                assert(ents[j].0@ == k);
            }
        }
        assert(kv.to_set() =~= m@.dom());
    }
    keys
}

/// The line of an axiom in the description of a universe.
fn axiom_line_exec(a: &Axiom) -> (s: String)
    ensures
        s@ == axiom_line(a@),
{
    let mut s = String::from_str("    [");
    s.append(a.name.as_str());
    if a.premises.len() == 0 {
        s.append("] ⊢ ");
    } else {
        s.append("] ");
        let mut texts: Vec<String> = Vec::new();
        let mut i: usize = 0;
        while i < a.premises.len()
            invariant
                i <= a.premises@.len(),
                strings_view(texts@) == crate::ast::formulas_view(a.premises@).take(i as int).map_values(
                    |p: FormulaV| formula_text(p),
                ),
            decreases a.premises@.len() - i,
        {
            let t = a.premises[i].to_string();
            texts.push(t);
            proof {
                let fs = crate::ast::formulas_view(a.premises@);
                assert(fs.take(i + 1).map_values(|p: FormulaV| formula_text(p)) =~= fs.take(i as int).map_values(
                    |p: FormulaV| formula_text(p),
                ).push(formula_text(fs[i as int])));
                assert(strings_view(texts@) =~= fs.take(i + 1).map_values(|p: FormulaV| formula_text(p)));
            }
            i = i + 1;
        }
        proof {
            let fs = crate::ast::formulas_view(a.premises@);
            assert(fs.take(a.premises@.len() as int) =~= fs);
        }
        let joined = join_strings(&texts, ", ");
        s.append(joined.as_str());
        s.append(" ⊢ ");
    }
    let c = a.conclusion.to_string();
    s.append(c.as_str());
    s
}

impl Session {
    /// The description of the active universe.
    pub fn info_lines(&self) -> (lines: Vec<Line>)
        requires
            session_wf(self@),
        ensures
            info_ok(self@, crate::display::lines_view(lines@)),
    {
        let u = self.current();
        let ghost uv = universe_view(*u);
        let mut lines: Vec<Line> = Vec::new();
        let mut head = String::from_str("Active universe: '");
        head.append(self.active.as_str());
        head.append("'");
        push_line(&mut lines, plain_line(head));
        let mut types_line = String::from_str("  Types      : ");
        let ts = or_none_exec(&u.types);
        types_line.append(ts.as_str());
        proof {
            assert(strings_view(u.types@) =~= uv.types);
        }
        push_line(&mut lines, plain_line(types_line));
        // Constants as `name : sort`, in order.
        let ckeys = keys_of(&u.constants);
        let mut raw_pairs: Vec<String> = Vec::new();
        let mut i: usize = 0;
        let ghost ents = u.constants.spec_entries();
        let ghost ck = strings_view(ckeys@);
        proof {
            assert(uv.constants.dom() =~= u.constants@.dom());
        }
        while i < u.constants.len()
            invariant
                i <= ents.len(),
                ents == u.constants.spec_entries(),
                ck == ents.map_values(|e: (String, Sort)| e.0@),
                uv == universe_view(*u),
                strings_view(raw_pairs@) == ck.take(i as int).map_values(
                    |k: Seq<char>| constant_text(k, uv.constants[k]),
                ),
            decreases ents.len() - i,
        {
            let mut p = u.constants.key_at(i).clone();
            p.append(" : ");
            let st = u.constants.value_at(i).to_string();
            p.append(st.as_str());
            proof {
                assert(u.constants@[ents[i as int].0@] == ents[i as int].1);
                assert(uv.constants[ck[i as int]] == ents[i as int].1@);
            }
            raw_pairs.push(p);
            proof {
                assert(ck.take(i + 1).map_values(|k: Seq<char>| constant_text(k, uv.constants[k])) =~= ck.take(
                    i as int,
                ).map_values(|k: Seq<char>| constant_text(k, uv.constants[k])).push(
                    constant_text(ck[i as int], uv.constants[ck[i as int]]),
                ));
                assert(strings_view(raw_pairs@) =~= ck.take(i + 1).map_values(
                    |k: Seq<char>| constant_text(k, uv.constants[k]),
                ));
            }
            i = i + 1;
        }
        proof {
            assert(ck.take(ents.len() as int) =~= ck);
        }
        let pairs = sort_strings(raw_pairs);
        let mut consts_line = String::from_str("  Constants  : ");
        let cs = or_none_exec(&pairs);
        consts_line.append(cs.as_str());
        push_line(&mut lines, plain_line(consts_line));
        let pkeys = keys_of(&u.predicates);
        let mut preds_line = String::from_str("  Predicates : ");
        let ps = or_none_exec(&pkeys);
        preds_line.append(ps.as_str());
        push_line(&mut lines, plain_line(preds_line));
        let mut count_line = String::from_str("  Axioms (");
        push_decimal(&mut count_line, u.axioms.len() as u64);
        count_line.append("):");
        push_line(&mut lines, plain_line(count_line));
        let ghost head5 = crate::display::lines_view(lines@);
        let mut k: usize = 0;
        while k < u.axioms.len()
            invariant
                k <= u.axioms@.len(),
                uv == universe_view(*u),
                crate::display::lines_view(lines@) == head5 + uv.axioms.take(k as int).map_values(
                    |a: AxiomV| pl(axiom_line(a)),
                ),
            decreases u.axioms@.len() - k,
        {
            let text = axiom_line_exec(&u.axioms[k]);
            push_line(&mut lines, plain_line(text));
            proof {
                assert(uv.axioms[k as int] == u.axioms@[k as int]@);
                assert(uv.axioms.take(k + 1).map_values(|a: AxiomV| pl(axiom_line(a))) =~= uv.axioms.take(
                    k as int,
                ).map_values(|a: AxiomV| pl(axiom_line(a))).push(pl(axiom_line(uv.axioms[k as int]))));
            }
            k = k + 1;
        }
        proof {
            assert(uv.axioms.take(u.axioms@.len() as int) =~= uv.axioms);
            assert(uv.predicates.dom() =~= u.predicates@.dom());
            let pk = strings_view(pkeys@);
            assert(lists_keys(ck, uv.constants));
            assert(lists_keys(pk, uv.predicates));
            assert(crate::display::lines_view(lines@) =~= seq![
                pl("Active universe: '"@ + self@.active + "'"@),
                pl("  Types      : "@ + or_none(uv.types)),
                pl("  Constants  : "@ + or_none(strings_view(pairs@))),
                pl("  Predicates : "@ + or_none(pk)),
                pl("  Axioms ("@ + decimal(uv.axioms.len()) + "):"@),
            ] + uv.axioms.map_values(|a: AxiomV| pl(axiom_line(a))));
        }
        lines
    }
}

// ---------------------------------------------------------------------------
// Commands
// ---------------------------------------------------------------------------

/// A request to read files, which the caller carries out.
#[derive(Debug)]
pub enum Request {
    /// `load <target>`: load the module or file `target` into the active
    /// universe.
    Load(String),
    /// `load <target> into <universe>`: load the module or file `target`
    /// into the (existing) universe named `universe`.
    LoadInto(String, String),
    /// `import <name>`: load `lib/core/<name>.axia`, or else
    /// `lib/geometry/<name>.axia`, into the active universe.
    ImportLibrary(String),
    /// A declaration `import <name>`: load the module or file `name`.
    ImportModule(String),
}

/// The model of an optional request.
pub open spec fn request_view(r: Option<Request>) -> Option<RequestV> {
    match r {
        Some(Request::Load(t)) => Some(RequestV::Load(t@)),
        Some(Request::LoadInto(t, u)) => Some(RequestV::LoadInto(t@, u@)),
        Some(Request::ImportLibrary(t)) => Some(RequestV::ImportLibrary(t@)),
        Some(Request::ImportModule(t)) => Some(RequestV::ImportModule(t@)),
        None => None,
    }
}

/// What one line of input gives back: lines to show and possibly a request
/// to load files.
pub struct Reply {
    pub lines: Vec<Line>,
    pub request: Option<Request>,
}

/// The height of a proof tree, or `usize::MAX` if it is taller.
fn tree_height(step: &ProofStep) -> (h: usize)
    ensures
        h as nat == (if height(step@) <= usize::MAX {
            height(step@)
        } else {
            usize::MAX as nat
        }),
    decreases step,
{
    let ghost subs = step@.subs;
    let mut m: usize = 0;
    let mut k: usize = 0;
    proof {
        assert(subs.take(0) =~= Seq::<StepV>::empty());
    }
    while k < step.sub_proofs.len()
        invariant
            k <= step.sub_proofs@.len(),
            subs == step@.subs,
            subs.len() == step.sub_proofs@.len(),
            m as nat == (if crate::formatter::max_height(subs.take(k as int)) <= usize::MAX {
                crate::formatter::max_height(subs.take(k as int))
            } else {
                usize::MAX as nat
            }),
        decreases step.sub_proofs@.len() - k,
    {
        proof {
            assert(decreases_to!(*step => step.sub_proofs));
            assert(subs[k as int] == step.sub_proofs@[k as int]@);
            assert(subs.take(k + 1).drop_last() =~= subs.take(k as int));
        }
        let h = tree_height(&step.sub_proofs[k]);
        if h > m {
            m = h;
        }
        k = k + 1;
    }
    proof {
        assert(subs.take(subs.len() as int) =~= subs);
    }
    if m == usize::MAX {
        usize::MAX
    } else {
        m + 1
    }
}

impl Session {
    /// `prove <goal>`.
    pub fn prove_command(&self, goal_str: &str) -> (lines: Vec<Line>)
        requires
            session_wf(self@),
        ensures
            prove_ok(self@, goal_str@, crate::display::lines_view(lines@)),
    {
        let u = self.current();
        proof {
            assert(universe_view(*u).constants.dom() =~= u.constants@.dom());
        }
        let tokens = lex(goal_str);
        let mut parser = Parser::with_universe(tokens, Some(u));
        let parsed = parser.parse_formula();
        let ghost cs = active_universe(self@).constants.dom();
        proof {
            assert(opt_formula_view(parsed) == parse_formula_spec(lex_spec(goal_str@), 0, cs).0);
        }
        let mut lines: Vec<Line> = Vec::new();
        match parsed {
            Some(goal) => {
                let mut l: Line = Vec::new();
                push_span(&mut l, "Goal:", Style::BoldFg(Color::Blue));
                push_span(&mut l, " ", Style::Plain);
                push_string(&mut l, goal.to_string(), Style::Fg(Color::Cyan));
                push_span(&mut l, "  [universe: '", Style::Plain);
                push_string(&mut l, self.active.clone(), Style::Fg(Color::Yellow));
                push_span(&mut l, "']", Style::Plain);
                proof {
                    assert(spans_view(l@) =~= goal_line(goal@, self@.active));
                }
                push_line(&mut lines, l);
                let ghost first = crate::display::lines_view(lines@);
                match crate::engine::prove(&goal, u, 20) {
                    Some(proof) => {
                        let h = tree_height(&proof);
                        if h <= usize::MAX / 3 {
                            append_lines(&mut lines, explain_proof(&proof));
                        }
                        proof {
                            let lv = crate::display::lines_view(lines@);
                            let pv = proof@;
                            assert(lv[0] == first[0]);
                            if h <= usize::MAX / 3 {
                                assert(lv.skip(1) =~= explain_proof_spec(pv));
                            } else {
                                assert(3 * height(pv) > usize::MAX);
                                assert(lv.len() == 1);
                            }
                        }
                    },
                    None => {
                        let mut l2: Line = Vec::new();
                        push_span(&mut l2, "No proof found.", Style::BoldFg(Color::Red));
                        push_line(&mut lines, l2);
                        proof {
                            let lv = crate::display::lines_view(lines@);
                            assert(lv.skip(1) =~= seq![styled("No proof found."@, Style::BoldFg(Color::Red))]);
                        }
                    },
                }
            },
            None => {
                push_plain(&mut lines, "Could not parse goal.");
                proof {
                    assert(crate::display::lines_view(lines@) =~= seq![pl("Could not parse goal."@)]);
                }
            },
        }
        lines
    }

    /// `assert <fact>`.
    pub fn assert_command(&mut self, fact_str: &str) -> (lines: Vec<Line>)
        requires
            session_wf(old(self)@),
        ensures
            session_wf(final(self)@),
            assert_ok(old(self)@, fact_str@, final(self)@, crate::display::lines_view(lines@)),
    {
        let parsed = {
            let u = self.current();
            proof {
                assert(universe_view(*u).constants.dom() =~= u.constants@.dom());
            }
            let tokens = lex(fact_str);
            let mut parser = Parser::with_universe(tokens, Some(u));
            parser.parse_formula()
        };
        let mut lines: Vec<Line> = Vec::new();
        match parsed {
            Some(f) => {
                let ghost fv = f@;
                let premises: Vec<Formula> = Vec::new();
                let vars: Vec<String> = Vec::new();
                let ax = Axiom { name: String::from_str("Fact"), vars, premises, conclusion: f };
                proof {
                    reveal_strlit("Fact");
                    assert(strings_view(ax.vars@) =~= Seq::<Seq<char>>::empty());
                    assert(crate::ast::formulas_view(ax.premises@) =~= Seq::<FormulaV>::empty());
                    assert(ax@ == fact_axiom(fv));
                }
                let u = self.current_mut();
                u.add_axiom(ax);
                proof {
                    assert(universe_view(*u) =~= with_axioms(active_universe(old(self)@), seq![fact_axiom(fv)]));
                }
                let mut text = String::from_str("Fact added to universe '");
                text.append(self.active.as_str());
                text.append("'.");
                push_line(&mut lines, plain_line(text));
                proof {
                    assert(self@ =~= with_active(old(self)@, with_axioms(active_universe(old(self)@), seq![fact_axiom(fv)])));
                    assert(crate::display::lines_view(lines@) =~= seq![pl("Fact added to universe '"@ + old(self)@.active + "'."@)]);
                }
            },
            None => {
                push_plain(&mut lines, "Could not parse fact.");
                proof {
                    assert(crate::display::lines_view(lines@) =~= seq![pl("Could not parse fact."@)]);
                }
            },
        }
        lines
    }
}

/// The display of the variables of an axiom, before it is dimmed.
fn vars_display_exec(vars: &Vec<(String, Sort)>) -> (l: Line)
    ensures
        spans_view(l@) == vars_display(Seq::new(vars@.len(), |i: int| (vars@[i].0@, vars@[i].1@))),
{
    let ghost vv = Seq::new(vars@.len(), |i: int| (vars@[i].0@, vars@[i].1@));
    let ghost parts = vv.map_values(|v: (Seq<char>, Seq<char>)| cyan(v.0) + pl(":"@) + cyan(v.1));
    let mut l: Line = Vec::new();
    if vars.len() == 0 {
        push_string(&mut l, String::new(), Style::Plain);
        assert(spans_view(l@) =~= vars_display(vv));
        return l;
    }
    push_span(&mut l, " [∀ ", Style::Plain);
    let ghost head = spans_view(l@);
    let mut i: usize = 0;
    proof {
        assert(parts.take(0) =~= Seq::<Seq<SpanV>>::empty());
        assert(spans_view(l@) =~= head + join_spans(parts.take(0), pl(", "@)));
    }
    while i < vars.len()
        invariant
            i <= vars@.len(),
            vv == Seq::new(vars@.len(), |i: int| (vars@[i].0@, vars@[i].1@)),
            parts == vv.map_values(|v: (Seq<char>, Seq<char>)| cyan(v.0) + pl(":"@) + cyan(v.1)),
            spans_view(l@) == head + join_spans(parts.take(i as int), pl(", "@)),
        decreases vars@.len() - i,
    {
        let ghost before = spans_view(l@);
        if i > 0 {
            push_span(&mut l, ", ", Style::Plain);
        }
        push_string(&mut l, vars[i].0.clone(), Style::Fg(Color::Cyan));
        push_span(&mut l, ":", Style::Plain);
        push_string(&mut l, vars[i].1.to_string(), Style::Fg(Color::Cyan));
        proof {
            assert(parts.take(i + 1).drop_last() =~= parts.take(i as int));
            assert(parts[i as int] == cyan(vars@[i as int].0@) + pl(":"@) + cyan(vars@[i as int].1@));
            if i == 0 {
                assert(parts.take(1) =~= seq![parts[0]]);
            }
            assert(spans_view(l@) =~= head + join_spans(parts.take(i + 1), pl(", "@)));
        }
        i = i + 1;
    }
    push_span(&mut l, "]", Style::Plain);
    proof {
        assert(parts.take(vars@.len() as int) =~= parts);
        assert(spans_view(l@) =~= vars_display(vv));
    }
    l
}

impl Session {
    /// A declaration (anything that is not a command).
    pub fn declare(&mut self, t: &str) -> (r: (Vec<Line>, Option<Request>))
        requires
            session_wf(old(self)@),
        ensures
            session_wf(final(self)@),
            declare_ok(old(self)@, t@, final(self)@, crate::display::lines_view(r.0@), request_view(r.1)),
    {
        let parsed = {
            let u = self.current();
            proof {
                assert(universe_view(*u).constants.dom() =~= u.constants@.dom());
            }
            let tokens = lex(t);
            let mut parser = Parser::with_universe(tokens, Some(u));
            parser.parse_statement()
        };
        let ghost s0 = self@;
        let ghost u0 = active_universe(s0);
        let mut lines: Vec<Line> = Vec::new();
        match parsed {
            Some(Statement::TypeDecl(n)) => {
                let u = self.current_mut();
                u.add_type(n.clone());
                proof {
                    assert(universe_view(*u) =~= uv_add_type(u0, n@));
                }
                let mut l: Line = Vec::new();
                push_span(&mut l, "Defined Type:", Style::Fg(Color::Yellow));
                push_span(&mut l, " ", Style::Plain);
                push_string(&mut l, n, Style::BoldFg(Color::Cyan));
                push_line(&mut lines, l);
                proof {
                    assert(self@ =~= with_active(s0, uv_add_type(u0, n@)));
                    assert(crate::display::lines_view(lines@) =~= seq![yellow("Defined Type:"@) + pl(" "@) + cyan_bold(n@)]);
                }
                (lines, None)
            },
            Some(Statement::ConstDecl(n, sort)) => {
                let u = self.current_mut();
                u.add_constant(n.clone(), sort.clone());
                proof {
                    assert(universe_view(*u) =~= uv_add_constant(u0, n@, sort@));
                }
                let mut l: Line = Vec::new();
                push_span(&mut l, "Defined Constant:", Style::Fg(Color::Yellow));
                push_span(&mut l, " ", Style::Plain);
                push_string(&mut l, n, Style::BoldFg(Color::Cyan));
                push_span(&mut l, " : ", Style::Plain);
                push_string(&mut l, sort.to_string(), Style::Fg(Color::Cyan));
                push_line(&mut lines, l);
                proof {
                    assert(self@ =~= with_active(s0, uv_add_constant(u0, n@, sort@)));
                    assert(crate::display::lines_view(lines@) =~= seq![
                        yellow("Defined Constant:"@) + pl(" "@) + cyan_bold(n@) + pl(" : "@) + cyan(sort@),
                    ]);
                }
                (lines, None)
            },
            Some(Statement::PredDecl(n, arg_sorts, ret_sort)) => {
                let ghost av = Seq::new(arg_sorts@.len(), |i: int| arg_sorts@[i]@);
                let mut arg_strs: Vec<String> = Vec::new();
                let mut i: usize = 0;
                while i < arg_sorts.len()
                    invariant
                        i <= arg_sorts@.len(),
                        av == Seq::new(arg_sorts@.len(), |i: int| arg_sorts@[i]@),
                        strings_view(arg_strs@) == av.take(i as int),
                    decreases arg_sorts@.len() - i,
                {
                    let ghost prev = strings_view(arg_strs@);
                    let st = arg_sorts[i].to_string();
                    let ghost sv = st@;
                    arg_strs.push(st);
                    proof {
                        assert(sv == av[i as int]);
                        assert(strings_view(arg_strs@) =~= prev.push(sv));
                        assert(av.take(i + 1) =~= av.take(i as int).push(av[i as int]));
                        assert(strings_view(arg_strs@) =~= av.take(i + 1));
                    }
                    i = i + 1;
                }
                proof {
                    assert(av.take(arg_sorts@.len() as int) =~= av);
                }
                let sig = if arg_strs.len() == 0 {
                    String::new()
                } else {
                    let mut sg = String::from_str(" : ");
                    let joined = join_strings(&arg_strs, " → ");
                    sg.append(joined.as_str());
                    sg.append(" → ");
                    sg
                };
                proof {
                    assert(strings_view(arg_strs@) =~= av);
                }
                let ret_text = ret_sort.0.clone();
                let u = self.current_mut();
                u.add_predicate(n.clone(), arg_strs, ret_sort.0.clone());
                proof {
                    assert(universe_view(*u) =~= uv_add_predicate(u0, n@, av, ret_sort@));
                }
                let mut l: Line = Vec::new();
                push_span(&mut l, "Defined Function/Predicate:", Style::Fg(Color::Yellow));
                push_span(&mut l, " ", Style::Plain);
                push_string(&mut l, n, Style::BoldFg(Color::Cyan));
                push_string(&mut l, sig, Style::Plain);
                push_string(&mut l, ret_text, Style::Fg(Color::Cyan));
                push_line(&mut lines, l);
                proof {
                    assert(self@ =~= with_active(s0, uv_add_predicate(u0, n@, av, ret_sort@)));
                    assert(crate::display::lines_view(lines@) =~= seq![
                        yellow("Defined Function/Predicate:"@) + pl(" "@) + cyan_bold(n@) + pl(sig_text(av)) + cyan(
                            ret_sort@,
                        ),
                    ]);
                }
                (lines, None)
            },
            Some(Statement::AxiomDecl { name, vars, body }) => {
                let ghost vv = Seq::new(vars@.len(), |i: int| (vars@[i].0@, vars@[i].1@));
                let mut vars_pure: Vec<String> = Vec::new();
                let mut i: usize = 0;
                while i < vars.len()
                    invariant
                        i <= vars@.len(),
                        vv == Seq::new(vars@.len(), |i: int| (vars@[i].0@, vars@[i].1@)),
                        strings_view(vars_pure@) == vv.map_values(|v: (Seq<char>, Seq<char>)| v.0).take(i as int),
                    decreases vars@.len() - i,
                {
                    let ghost prev = strings_view(vars_pure@);
                    let vn = vars[i].0.clone();
                    let ghost nv = vn@;
                    vars_pure.push(vn);
                    proof {
                        let names = vv.map_values(|v: (Seq<char>, Seq<char>)| v.0);
                        assert(nv == names[i as int]);
                        assert(strings_view(vars_pure@) =~= prev.push(nv));
                        assert(names.take(i + 1) =~= names.take(i as int).push(names[i as int]));
                        assert(strings_view(vars_pure@) =~= names.take(i + 1));
                    }
                    i = i + 1;
                }
                proof {
                    assert(vv.map_values(|v: (Seq<char>, Seq<char>)| v.0).take(vars@.len() as int) =~= vv.map_values(
                        |v: (Seq<char>, Seq<char>)| v.0,
                    ));
                }
                let display = restyle_line(vars_display_exec(&vars), Style::Fg(Color::BrightBlack));
                let ghost bv = body@;
                add_axiom(name.clone(), vars_pure, body, self.current_mut());
                let mut l: Line = Vec::new();
                push_span(&mut l, "Added Axiom:", Style::Fg(Color::Yellow));
                push_span(&mut l, " ", Style::Plain);
                push_string(&mut l, name.clone(), Style::BoldFg(Color::Yellow));
                append_spans(&mut l, display);
                push_line(&mut lines, l);
                proof {
                    assert(self@ =~= with_active(
                        s0,
                        with_axioms(u0, decompose(name@, vv.map_values(|v: (Seq<char>, Seq<char>)| v.0), bv)),
                    ));
                    assert(crate::display::lines_view(lines@) =~= seq![
                        yellow("Added Axiom:"@) + pl(" "@) + styled(name@, Style::BoldFg(Color::Yellow)) + restyle(
                            vars_display(vv),
                            Style::Fg(Color::BrightBlack),
                        ),
                    ]);
                }
                (lines, None)
            },
            Some(Statement::Import(src)) => {
                proof {
                    assert(crate::display::lines_view(lines@) =~= Seq::<Seq<SpanV>>::empty());
                }
                (lines, Some(Request::ImportModule(src)))
            },
            None => {
                let mut text = String::from_str("Parse error: ");
                text.append(t);
                let mut l: Line = Vec::new();
                push_string(&mut l, text, Style::Fg(Color::Red));
                push_line(&mut lines, l);
                proof {
                    assert(crate::display::lines_view(lines@) =~= seq![
                        styled("Parse error: "@ + t@, Style::Fg(Color::Red)),
                    ]);
                }
                (lines, None)
            },
        }
    }
}

/// What follows `prefix` in `t`, trimmed.
fn rest_after(t: &str, prefix: &str) -> (r: String)
    requires
        starts_with(t@, prefix@),
    ensures
        r@ == trimmed(t@.skip(prefix@.len() as int)),
{
    let n = t.unicode_len();
    let m = prefix.unicode_len();
    let rest = slice_chars(t, m, n);
    proof {
        assert(rest@ =~= t@.skip(prefix@.len() as int));
    }
    trim(rest.as_str())
}

impl Session {
    /// Interpret one line of input: a command or a declaration.
    pub fn process_line(&mut self, input: &str) -> (r: Reply)
        requires
            session_wf(old(self)@),
        ensures
            session_wf(final(self)@),
            process_ok(
                old(self)@,
                input@,
                final(self)@,
                crate::display::lines_view(r.lines@),
                request_view(r.request),
            ),
    {
        let t = trim(input);
        let ts = t.as_str();
        let mut lines: Vec<Line> = Vec::new();
        proof {
            assert(crate::display::lines_view(lines@) =~= Seq::<Seq<SpanV>>::empty());
        }
        if ts.unicode_len() == 0 || has_prefix(ts, "--") {
            return Reply { lines, request: None };
        }
        if spells(&t, "help") || spells(&t, "?") {
            return Reply { lines: help_lines(), request: None };
        }
        if has_prefix(ts, "create_universe ") {
            let name = rest_after(ts, "create_universe ");
            if name.as_str().unicode_len() == 0 {
                let mut l: Line = Vec::new();
                push_span(&mut l, "Usage: create_universe <name>", Style::Fg(Color::Red));
                push_line(&mut lines, l);
            } else if self.create_universe(name.as_str()) {
                let mut l: Line = Vec::new();
                push_span(&mut l, "Universe '", Style::Plain);
                push_string(&mut l, name, Style::BoldFg(Color::Green));
                push_span(&mut l, "' created.", Style::Plain);
                push_line(&mut lines, l);
            } else {
                let mut text = String::from_str("Universe '");
                text.append(name.as_str());
                text.append("' already exists.");
                let mut l: Line = Vec::new();
                push_string(&mut l, text, Style::Fg(Color::Yellow));
                push_line(&mut lines, l);
            }
            proof {
                let lv = crate::display::lines_view(lines@);
                assert(lv.len() == 1);
            }
            return Reply { lines, request: None };
        }
        if has_prefix(ts, "use ") {
            let name = rest_after(ts, "use ");
            if self.use_universe(name.as_str()) {
                let mut l: Line = Vec::new();
                push_span(&mut l, "Switched to universe '", Style::Plain);
                push_string(&mut l, name, Style::BoldFg(Color::Green));
                push_span(&mut l, "'.", Style::Plain);
                push_line(&mut lines, l);
            } else {
                let mut text = String::from_str("Error: Universe '");
                text.append(name.as_str());
                text.append("' does not exist.");
                let mut l: Line = Vec::new();
                push_string(&mut l, text, Style::Fg(Color::Red));
                push_line(&mut lines, l);
            }
            return Reply { lines, request: None };
        }
        if spells(&t, "list_universes") {
            return Reply { lines: self.list_lines(), request: None };
        }
        if spells(&t, "universe_info") {
            return Reply { lines: self.info_lines(), request: None };
        }
        if has_prefix(ts, "import ") {
            let src = rest_after(ts, "import ");
            if self.import_universe(&src) {
                let mut text = String::from_str("Imported universe '");
                text.append(src.as_str());
                text.append("' into '");
                text.append(self.active.as_str());
                text.append("'.");
                push_line(&mut lines, plain_line(text));
                return Reply { lines, request: None };
            }
            return Reply { lines, request: Some(Request::ImportLibrary(src)) };
        }
        if has_prefix(ts, "load ") {
            let target = rest_after(ts, "load ");
            proof {
                reveal_strlit(" into ");
            }
            match find_str(target.as_str(), " into ") {
                Some(i) => {
                    let n = target.unicode_len();
                    let file = trim(slice_chars(target.as_str(), 0, i).as_str());
                    let u = trim(slice_chars(target.as_str(), i + 6, n).as_str());
                    proof {
                        assert(target@.subrange(0, i as int) =~= target@.take(i as int));
                        assert(target@.subrange(i + 6, n as int) =~= target@.skip(i + 6));
                    }
                    if self.universes.contains_key(&u) {
                        return Reply { lines, request: Some(Request::LoadInto(file, u)) };
                    }
                    let mut text = String::from_str("Error: Universe '");
                    text.append(u.as_str());
                    text.append("' does not exist.");
                    let mut l: Line = Vec::new();
                    push_string(&mut l, text, Style::Fg(Color::Red));
                    push_line(&mut lines, l);
                    return Reply { lines, request: None };
                },
                None => {
                    return Reply { lines, request: Some(Request::Load(target)) };
                },
            }
        }
        if has_prefix(ts, "prove ") {
            let goal_str = rest_after(ts, "prove ");
            return Reply { lines: self.prove_command(goal_str.as_str()), request: None };
        }
        if has_prefix(ts, "assert ") {
            let fact_str = rest_after(ts, "assert ");
            return Reply { lines: self.assert_command(fact_str.as_str()), request: None };
        }
        let (lines, request) = self.declare(ts);
        Reply { lines, request }
    }
}

// ---------------------------------------------------------------------------
// Loading files: the names to try and the messages
// ---------------------------------------------------------------------------

/// The paths tried, in order, for a module or file named `target`.
pub open spec fn candidates_spec(target: Seq<char>) -> Seq<Seq<char>> {
    seq![
        target,
        target + ".axia"@,
        "lib/"@ + target,
        "lib/"@ + target + ".axia"@,
        "lib/core/"@ + target,
        "lib/core/"@ + target + ".axia"@,
        "lib/geometry/"@ + target,
        "lib/geometry/"@ + target + ".axia"@,
    ]
}

/// `a` followed by `b`.
fn cat(a: &str, b: &str) -> (s: String)
    ensures
        s@ == a@ + b@,
{
    let mut s = String::from_str(a);
    s.append(b);
    s
}

/// `a`, `b`, then `c`.
fn cat3(a: &str, b: &str, c: &str) -> (s: String)
    ensures
        s@ == a@ + b@ + c@,
{
    let mut s = String::from_str(a);
    s.append(b);
    s.append(c);
    s
}

/// The paths tried, in order, for a module or file named `target`: the name
/// itself, with `.axia`, and both under `lib/`, `lib/core/` and
/// `lib/geometry/`.
pub fn module_candidates(target: &str) -> (paths: Vec<String>)
    ensures
        strings_view(paths@) == candidates_spec(target@),
{
    let mut paths: Vec<String> = Vec::new();
    paths.push(String::from_str(target));
    paths.push(cat(target, ".axia"));
    paths.push(cat("lib/", target));
    paths.push(cat3("lib/", target, ".axia"));
    paths.push(cat("lib/core/", target));
    paths.push(cat3("lib/core/", target, ".axia"));
    paths.push(cat("lib/geometry/", target));
    paths.push(cat3("lib/geometry/", target, ".axia"));
    assert(strings_view(paths@) =~= candidates_spec(target@));
    paths
}

/// The files tried, in order, by `import <name>`.
pub fn library_paths(name: &str) -> (r: (String, String))
    ensures
        r.0@ == "lib/core/"@ + name@ + ".axia"@,
        r.1@ == "lib/geometry/"@ + name@ + ".axia"@,
{
    (cat3("lib/core/", name, ".axia"), cat3("lib/geometry/", name, ".axia"))
}

/// The error when no candidate path exists.
pub fn not_found_message(target: &str) -> (s: String)
    ensures
        s@ == "Could not find library or module '"@ + target@ + "'"@,
{
    cat3("Could not find library or module '", target, "'")
}

/// The error when a file cannot be opened.
pub fn open_error_message(filename: &str) -> (s: String)
    ensures
        s@ == "Could not open file '"@ + filename@ + "'."@,
{
    cat3("Could not open file '", filename, "'.")
}

/// The line shown before the files of a directory are loaded.
pub fn loading_package_line(path: &str) -> (l: Line)
    ensures
        spans_view(l@) == pl("Loading module package '"@ + path@ + "'..."@),
{
    plain_line(cat3("Loading module package '", path, "'..."))
}

/// The line shown after `load` succeeded.
pub fn load_done_line(target: &str) -> (l: Line)
    ensures
        spans_view(l@) == pl("Done. Module '"@) + styled(target@, Style::Fg(Color::Green)) + pl("' loaded."@),
{
    let mut l: Line = Vec::new();
    push_span(&mut l, "Done. Module '", Style::Plain);
    push_span(&mut l, target, Style::Fg(Color::Green));
    push_span(&mut l, "' loaded.", Style::Plain);
    assert(spans_view(l@) =~= pl("Done. Module '"@) + styled(target@, Style::Fg(Color::Green)) + pl("' loaded."@));
    l
}

/// The line shown when `load` (or a file given on the command line) failed.
pub fn load_error_line(e: &str) -> (l: Line)
    ensures
        spans_view(l@) == styled("Error: "@ + e@, Style::Fg(Color::Red)),
{
    let mut l: Line = Vec::new();
    push_string(&mut l, cat("Error: ", e), Style::Fg(Color::Red));
    assert(spans_view(l@) =~= styled("Error: "@ + e@, Style::Fg(Color::Red)));
    l
}

/// The line shown when a declared `import` failed.
pub fn import_error_line(src: &str, e: &str) -> (l: Line)
    ensures
        spans_view(l@) == styled("Error importing '"@ + src@ + "': "@ + e@, Style::Fg(Color::Red)),
{
    let mut text = cat3("Error importing '", src, "': ");
    text.append(e);
    let mut l: Line = Vec::new();
    push_string(&mut l, text, Style::Fg(Color::Red));
    assert(spans_view(l@) =~= styled("Error importing '"@ + src@ + "': "@ + e@, Style::Fg(Color::Red)));
    l
}

/// The line shown when neither library file of `import <name>` exists.
pub fn library_missing_line(name: &str) -> (l: Line)
    ensures
        spans_view(l@) == pl(
            "Error: Could not find library '"@ + name@ + "' in lib/core/ or lib/geometry/"@,
        ),
{
    plain_line(cat3("Error: Could not find library '", name, "' in lib/core/ or lib/geometry/"))
}

/// The lines shown when the interactive loop starts: an empty line, the
/// title, and a hint.
pub fn banner_lines() -> (lines: Vec<Line>)
    ensures
        crate::display::lines_view(lines@) == seq![
            pl(Seq::empty()),
            styled("--- Axia Kernel v0.9 ---"@, Style::BoldFg(Color::Yellow)),
            pl("Active universe: 'default'  |  type `help` for commands"@),
        ],
{
    let mut lines: Vec<Line> = Vec::new();
    push_line(&mut lines, plain_line(String::new()));
    let mut title: Line = Vec::new();
    push_span(&mut title, "--- Axia Kernel v0.9 ---", Style::BoldFg(Color::Yellow));
    push_line(&mut lines, title);
    push_plain(&mut lines, "Active universe: 'default'  |  type `help` for commands");
    proof {
        assert(crate::display::lines_view(lines@) =~= seq![
            pl(Seq::empty()),
            styled("--- Axia Kernel v0.9 ---"@, Style::BoldFg(Color::Yellow)),
            pl("Active universe: 'default'  |  type `help` for commands"@),
        ]);
    }
    lines
}

// ---------------------------------------------------------------------------
// Laws
// ---------------------------------------------------------------------------

/// No line of input removes a universe, and the active universe always
/// exists: whatever a line does, every universe there was before is still
/// there, and the active name still names one of them.
pub proof fn lemma_process_keeps_universes(
    s: SessionV,
    input: Seq<char>,
    s2: SessionV,
    lines: Seq<Seq<SpanV>>,
    req: Option<RequestV>,
)
    requires
        session_wf(s),
        process_ok(s, input, s2, lines, req),
    ensures
        session_wf(s2),
        s.universes.dom().subset_of(s2.universes.dom()),
{
    let t = trimmed(input);
    let u = active_universe(s);
    if starts_with(t, "assert "@) && !(t.len() == 0 || starts_with(t, "--"@)) {
        assert(s.universes.dom().subset_of(s2.universes.dom()));
    }
    if !(t.len() == 0 || starts_with(t, "--"@)) && !(t == "help"@ || t == "?"@) && !starts_with(
        t,
        "create_universe "@,
    ) && !starts_with(t, "use "@) && !(t == "list_universes"@) && !(t == "universe_info"@)
        && !starts_with(t, "import "@) && !starts_with(t, "load "@) && !starts_with(t, "prove "@)
        && !starts_with(t, "assert "@) {
        match parse_statement_spec(lex_spec(t), 0, u.constants.dom()).0 {
            Some(StatementV::TypeDecl(n)) => {
                assert(s2.universes.dom() =~= s.universes.dom());
            },
            Some(StatementV::ConstDecl(n, srt)) => {
                assert(s2.universes.dom() =~= s.universes.dom());
            },
            Some(StatementV::PredDecl(n, args, r)) => {
                assert(s2.universes.dom() =~= s.universes.dom());
            },
            Some(StatementV::AxiomDecl(name, vars, body)) => {
                assert(s2.universes.dom() =~= s.universes.dom());
            },
            _ => {},
        }
    }
}

/// A declared type name is never listed twice: declaring types keeps the
/// list free of repeats.
pub proof fn lemma_add_type_keeps_distinct(u: UniV, name: Seq<char>)
    requires
        u.types.no_duplicates(),
    ensures
        uv_add_type(u, name).types.no_duplicates(),
        uv_add_type(u, name).types.contains(name),
{
    if !u.types.contains(name) {
        let t = u.types.push(name);
        assert forall|a: int, b: int| 0 <= a < t.len() && 0 <= b < t.len() && a != b implies t[a] != t[b] by {
            if a == u.types.len() as int {
                assert(t[b] == u.types[b]);
                assert(u.types.contains(u.types[b]));
            } else if b == u.types.len() as int {
                assert(t[a] == u.types[a]);
                assert(u.types.contains(u.types[a]));
            }
        }
        assert(t[u.types.len() as int] == name);
    }
}


// ---------------------------------------------------------------------------
// Importing twice
// ---------------------------------------------------------------------------

proof fn lemma_import_axioms_names(mine: Seq<AxiomV>, theirs: Seq<AxiomV>)
    ensures
        forall|n: Seq<char>| has_axiom_named(mine, n) ==> #[trigger] has_axiom_named(
            import_axioms(mine, theirs),
            n,
        ),
        forall|j: int| 0 <= j < theirs.len() ==> has_axiom_named(import_axioms(mine, theirs), #[trigger] theirs[j].name),
    decreases theirs.len(),
{
    if theirs.len() > 0 {
        let next = if has_axiom_named(mine, theirs[0].name) {
            mine
        } else {
            mine.push(theirs[0])
        };
        assert forall|n: Seq<char>| has_axiom_named(mine, n) implies #[trigger] has_axiom_named(next, n) by {
            let i = choose|i: int| 0 <= i < mine.len() && #[trigger] mine[i].name == n;
            assert(next[i] == mine[i]);
        }
        if !has_axiom_named(mine, theirs[0].name) {
            assert(next[mine.len() as int] == theirs[0]);
        }
        assert(has_axiom_named(next, theirs[0].name));
        lemma_import_axioms_names(next, theirs.drop_first());
        assert(import_axioms(mine, theirs) == import_axioms(next, theirs.drop_first()));
        assert forall|j: int| 0 <= j < theirs.len() implies has_axiom_named(
            import_axioms(mine, theirs),
            #[trigger] theirs[j].name,
        ) by {
            if j > 0 {
                assert(theirs[j] == theirs.drop_first()[j - 1]);
            }
        }
    }
}

proof fn lemma_import_axioms_present(mine: Seq<AxiomV>, theirs: Seq<AxiomV>)
    requires
        forall|j: int| 0 <= j < theirs.len() ==> has_axiom_named(mine, #[trigger] theirs[j].name),
    ensures
        import_axioms(mine, theirs) == mine,
    decreases theirs.len(),
{
    if theirs.len() > 0 {
        assert(has_axiom_named(mine, theirs[0].name));
        assert forall|j: int| 0 <= j < theirs.drop_first().len() implies has_axiom_named(
            mine,
            #[trigger] theirs.drop_first()[j].name,
        ) by {
            assert(theirs.drop_first()[j] == theirs[j + 1]);
        }
        lemma_import_axioms_present(mine, theirs.drop_first());
    }
}

proof fn lemma_import_types_names(mine: Seq<Seq<char>>, theirs: Seq<Seq<char>>)
    ensures
        forall|n: Seq<char>| mine.contains(n) ==> #[trigger] import_types(mine, theirs).contains(n),
        forall|j: int| 0 <= j < theirs.len() ==> import_types(mine, theirs).contains(#[trigger] theirs[j]),
    decreases theirs.len(),
{
    if theirs.len() > 0 {
        let next = if mine.contains(theirs[0]) {
            mine
        } else {
            mine.push(theirs[0])
        };
        assert forall|n: Seq<char>| mine.contains(n) implies #[trigger] next.contains(n) by {
            let i = choose|i: int| 0 <= i < mine.len() && mine[i] == n;
            assert(next[i] == mine[i]);
        }
        if !mine.contains(theirs[0]) {
            assert(next[mine.len() as int] == theirs[0]);
        }
        assert(next.contains(theirs[0]));
        lemma_import_types_names(next, theirs.drop_first());
        assert(import_types(mine, theirs) == import_types(next, theirs.drop_first()));
        assert forall|j: int| 0 <= j < theirs.len() implies import_types(mine, theirs).contains(
            #[trigger] theirs[j],
        ) by {
            if j > 0 {
                assert(theirs[j] == theirs.drop_first()[j - 1]);
            }
        }
    }
}

proof fn lemma_import_types_present(mine: Seq<Seq<char>>, theirs: Seq<Seq<char>>)
    requires
        forall|j: int| 0 <= j < theirs.len() ==> mine.contains(#[trigger] theirs[j]),
    ensures
        import_types(mine, theirs) == mine,
    decreases theirs.len(),
{
    if theirs.len() > 0 {
        assert(mine.contains(theirs[0]));
        assert forall|j: int| 0 <= j < theirs.drop_first().len() implies mine.contains(
            #[trigger] theirs.drop_first()[j],
        ) by {
            assert(theirs.drop_first()[j] == theirs[j + 1]);
        }
        lemma_import_types_present(mine, theirs.drop_first());
    }
}

/// Importing is idempotent: importing the same universe a second time
/// changes nothing.
pub proof fn lemma_import_twice(u: UniV, o: UniV)
    ensures
        uv_import(uv_import(u, o), o) == uv_import(u, o),
{
    let once = uv_import(u, o);
    lemma_import_axioms_names(u.axioms, o.axioms);
    lemma_import_axioms_present(once.axioms, o.axioms);
    lemma_import_types_names(u.types, o.types);
    lemma_import_types_present(once.types, o.types);
    assert(o.predicates.union_prefer_right(once.predicates) =~= once.predicates);
    assert(o.constants.union_prefer_right(once.constants) =~= once.constants);
    assert(uv_import(once, o) =~= once);
}

} // verus!
