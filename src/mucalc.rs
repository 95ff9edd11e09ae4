//! The modal μ-calculus on labelled transition systems, as fixpoint systems.
use vstd::prelude::*;
use crate::compose::{game_from_system, game_of};
use crate::moves::{StoreV, built_from};
use crate::run::check_spec;
use crate::fixpoint::{EqV, Exp, ExpFixEq, FixEq, FixType, system_view};
use crate::game::Player;
use crate::solver::ParityGame;
use crate::formula::{Formula, LogicFormula, views, lemma_views_conj};
use crate::moves::{SymbolicExistsMove, SymbolicExistsMoves, position_of, strs_view, index_of, lemma_index_of};
use crate::normalizer::{canonical_name, concat, decimal, decimal_name, var_name};

verus! {

/// The label of a modality: one label, any label but one, or any label.
#[derive(Debug)]
pub enum Act {
    Label(String),
    NotLabel(String),
    True,
}

/// A formula of the modal μ-calculus.
#[derive(Debug)]
pub enum MuCalc {
    True,
    False,
    Var(String),
    Eta(String, FixType, Box<MuCalc>),
    Diamond(Act, Box<MuCalc>),
    Box(Act, Box<MuCalc>),
    And(Box<MuCalc>, Box<MuCalc>),
    Or(Box<MuCalc>, Box<MuCalc>),
}

/// A labelled transition system: each state with its transitions, given as
/// (index of the label, target state).
#[derive(Debug)]
pub struct Lts {
    pub first_state: u32,
    pub labels: Vec<String>,
    pub adj_list: Vec<(u32, Vec<(usize, u32)>)>,
}

/// Whether a transition labelled `l` matches `act`.
pub open spec fn act_matches(act: Act, l: Seq<char>) -> bool {
    match act {
        Act::Label(x) => x@ == l,
        Act::NotLabel(x) => x@ != l,
        Act::True => true,
    }
}

/// The targets of the first `j` transitions of `edges` whose label matches
/// `act`, in order (transitions with an unknown label never match).
pub open spec fn targets(labels: Seq<Seq<char>>, edges: Seq<(usize, u32)>, act: Act, j: int) -> Seq<u32>
    decreases j,
{
    if j <= 0 {
        Seq::empty()
    } else {
        let rest = targets(labels, edges, act, j - 1);
        let (l, t) = edges[j - 1];
        if l < labels.len() && act_matches(act, labels[l as int]) {
            rest.push(t)
        } else {
            rest
        }
    }
}

/// The atoms `[t, 1]` of the given targets.
pub open spec fn target_atoms(ts: Seq<u32>) -> Seq<Formula> {
    ts.map_values(|t: u32| Formula::Atom(decimal(t as nat), 1))
}

/// The symbolic ∃-move of `diamond_act` (`diamond`) or `box_act` at a state
/// with transitions `edges`: a disjunction (a conjunction) of the atoms of
/// the matching targets; `False` (`True`) when there is none.
pub open spec fn modal_move(labels: Seq<Seq<char>>, edges: Seq<(usize, u32)>, act: Act, diamond: bool) -> Formula {
    let ts = targets(labels, edges, act, edges.len() as int);
    if ts.len() == 0 {
        if diamond { Formula::False } else { Formula::True }
    } else if diamond {
        Formula::Disj(target_atoms(ts))
    } else {
        Formula::Conj(target_atoms(ts))
    }
}

/// The name of the label of `act` used in operator names.
pub open spec fn act_name(act: Act) -> Seq<char> {
    match act {
        Act::Label(x) => x@,
        Act::NotLabel(x) => seq!['n', 'o', 't', '_'] + x@,
        Act::True => seq!['t', 'r', 'u', 'e'],
    }
}

/// The number of fixpoint binders of a formula.
pub open spec fn binders(f: MuCalc) -> nat
    decreases f,
{
    match f {
        MuCalc::Eta(_, _, e) => 1 + binders(*e),
        MuCalc::Diamond(_, e) => binders(*e),
        MuCalc::Box(_, e) => binders(*e),
        MuCalc::And(l, r) => binders(*l) + binders(*r),
        MuCalc::Or(l, r) => binders(*l) + binders(*r),
        _ => 0,
    }
}

/// The number of fixpoint binders of `f`; `None` when it exceeds
/// `usize::MAX`.
pub fn count_vars(f: &MuCalc) -> (r: Option<usize>)
    ensures
        r is Some <==> binders(*f) <= usize::MAX,
        r is Some ==> r->0 == binders(*f),
    decreases f,
{
    match f {
        MuCalc::Eta(_, _, e) => match count_vars(e) {
            Some(n) => n.checked_add(1),
            None => None,
        },
        MuCalc::Diamond(_, e) => count_vars(e),
        MuCalc::Box(_, e) => count_vars(e),
        MuCalc::And(l, r) | MuCalc::Or(l, r) => match (count_vars(l), count_vars(r)) {
            (Some(a), Some(b)) => a.checked_add(b),
            _ => None,
        },
        _ => Some(0),
    }
}

/// The name of the label of `act` used in operator names.
fn act_string(act: &Act) -> (r: String)
    ensures
        r@ == act_name(*act),
{
    match act {
        Act::Label(x) => {
            let s = x.as_str();
            let r = s.to_owned();
            proof { assert(r@ == s@); }
            r
        },
        Act::NotLabel(x) => {
            proof { reveal_strlit("not_"); }
            concat("not_", x.as_str())
        },
        Act::True => {
            proof { reveal_strlit("true"); }
            "true".to_owned()
        },
    }
}

/// Whether a transition labelled `l` matches `act`.
fn matches_act(act: &Act, l: &String) -> (r: bool)
    ensures
        r == act_matches(*act, l@),
{
    match act {
        Act::Label(x) => *x == *l,
        Act::NotLabel(x) => !(*x == *l),
        Act::True => true,
    }
}

impl Lts {
    /// The states, named by their number in decimal, in order.
    pub fn basis(&self) -> (r: Vec<String>)
        ensures
            r@.len() == self.adj_list@.len(),
            forall|j: int| 0 <= j < r@.len() ==> (#[trigger] r@[j])@ == decimal(self.adj_list@[j].0 as nat),
    {
        let mut out: Vec<String> = Vec::new();
        let mut j: usize = 0;
        while j < self.adj_list.len()
            invariant
                j <= self.adj_list@.len(),
                out@.len() == j,
                forall|u: int| 0 <= u < j ==> (#[trigger] out@[u])@ == decimal(self.adj_list@[u].0 as nat),
            decreases self.adj_list@.len() - j,
        {
            out.push(decimal_name(self.adj_list[j].0 as usize));
            j = j + 1;
        }
        out
    }

    /// The move of `diamond_act` (`diamond`) or `box_act` at the state with
    /// transitions `edges` (see [`modal_move`]).
    pub fn modal_formula(&self, edges: &Vec<(usize, u32)>, act: &Act, diamond: bool) -> (r: LogicFormula)
        ensures
            r@ == modal_move(strs_view(self.labels@), edges@, *act, diamond),
    {
        let ghost labels = strs_view(self.labels@);
        let mut atoms: Vec<LogicFormula> = Vec::new();
        let ghost ts = targets(labels, edges@, *act, 0);
        let mut j: usize = 0;
        while j < edges.len()
            invariant
                j <= edges@.len(),
                labels == strs_view(self.labels@),
                views(atoms@) == target_atoms(targets(labels, edges@, *act, j as int)),
            decreases edges@.len() - j,
        {
            let (l, t) = edges[j];
            let ghost prev = targets(labels, edges@, *act, j as int);
            if l < self.labels.len() && matches_act(act, &self.labels[l]) {
                proof { assert(labels[l as int] == self.labels@[l as int]@); }
                let ghost before = atoms@;
                atoms.push(LogicFormula::BasisElem(decimal_name(t as usize), 1));
                proof {
                    assert(views(atoms@) =~= views(before).push(Formula::Atom(decimal(t as nat), 1)));
                    assert(target_atoms(prev.push(t)) =~= target_atoms(prev).push(Formula::Atom(decimal(t as nat), 1)));
                }
            } else {
                proof {
                    if l < self.labels.len() {
                        assert(labels[l as int] == self.labels@[l as int]@);
                    }
                }
            }
            j = j + 1;
        }
        let ghost all = targets(labels, edges@, *act, edges@.len() as int);
        proof { assert(target_atoms(all).len() == all.len()); }
        if atoms.len() == 0 {
            if diamond { LogicFormula::False } else { LogicFormula::True }
        } else if diamond {
            proof { lemma_views_conj(atoms); }
            LogicFormula::Disj(atoms)
        } else {
            proof { lemma_views_conj(atoms); }
            LogicFormula::Conj(atoms)
        }
    }
}

/// The operator names and the moves collected while encoding a formula.
struct Collected {
    funs: Vec<String>,
    moves: Vec<SymbolicExistsMove>,
}

/// Model of the operators and moves collected while encoding a formula.
pub struct CollV {
    pub funs: Seq<Seq<char>>,
    pub moves: Seq<crate::moves::MoveV>,
}

/// The move of an operator of kind `kind` (`0`: diamond, `1`: box, `2`:
/// `tt`, `3`: `ff`) with label `act` at state `j` of `l`.
pub open spec fn op_move(l: Lts, kind: u8, act: Act, j: int) -> Formula {
    if kind == 0 {
        modal_move(strs_view(l.labels@), l.adj_list@[j].1@, act, true)
    } else if kind == 1 {
        modal_move(strs_view(l.labels@), l.adj_list@[j].1@, act, false)
    } else if kind == 2 {
        Formula::True
    } else {
        Formula::False
    }
}

/// Registering operator `op`: unless already listed, it is listed and its
/// move at each state, in order, is added.
pub open spec fn reg_spec(l: Lts, c: CollV, op: Seq<char>, act: Act, kind: u8) -> CollV {
    if c.funs.contains(op) {
        c
    } else {
        CollV {
            funs: c.funs.push(op),
            moves: c.moves + Seq::new(
                l.adj_list@.len(),
                |j: int| crate::moves::MoveV { formula: op_move(l, kind, act, j), func_name: op, basis_elem: decimal(l.adj_list@[j].0 as nat) },
            ),
        }
    }
}

/// The equation variable the last binding of `x` in `env` gives, or `x`.
pub open spec fn env_lookup(env: Seq<(Seq<char>, Seq<char>)>, x: Seq<char>) -> Seq<char>
    decreases env.len(),
{
    if env.len() == 0 {
        x
    } else if env.last().0 == x {
        env.last().1
    } else {
        env_lookup(env.drop_last(), x)
    }
}

pub open spec fn env_view(env: Seq<(String, String)>) -> Seq<(Seq<char>, Seq<char>)> {
    env.map_values(|p: (String, String)| (p.0@, p.1@))
}

spec fn coll_view(c: Collected) -> CollV {
    CollV { funs: strs_view(c.funs@), moves: crate::moves::moves_view(c.moves@) }
}

/// The encoding of `f` under bindings `env`, after `n` equations, with the
/// operators collected so far `c`: the expression standing for `f`, the
/// equations of its binders (each after those of its body, the binder
/// numbered `k` named `x_k`), and the operators collected.
pub open spec fn encode_spec(l: Lts, f: MuCalc, env: Seq<(Seq<char>, Seq<char>)>, n: nat, c: CollV) -> (Exp, Seq<EqV>, CollV)
    decreases f,
{
    match f {
        MuCalc::True => (Exp::Operator(seq!['t', 't'], Seq::empty()), Seq::empty(), reg_spec(l, c, seq!['t', 't'], Act::True, 2)),
        MuCalc::False => (Exp::Operator(seq!['f', 'f'], Seq::empty()), Seq::empty(), reg_spec(l, c, seq!['f', 'f'], Act::True, 3)),
        MuCalc::Var(x) => (Exp::Id(env_lookup(env, x@)), Seq::empty(), c),
        MuCalc::Eta(x, fix_ty, e) => {
            let k = n + binders(*e) + 1;
            let inner = encode_spec(l, *e, env.push((x@, var_name(k))), n, c);
            (Exp::Id(var_name(k)), inner.1.push(EqV { var: var_name(k), fix_ty, exp: inner.0 }), inner.2)
        },
        MuCalc::Diamond(a, e) => {
            let op = seq!['d', 'i', 'a', 'm', 'o', 'n', 'd', '_'] + act_name(a);
            let inner = encode_spec(l, *e, env, n, reg_spec(l, c, op, a, 0));
            (Exp::Operator(op, seq![inner.0]), inner.1, inner.2)
        },
        MuCalc::Box(a, e) => {
            let op = seq!['b', 'o', 'x', '_'] + act_name(a);
            let inner = encode_spec(l, *e, env, n, reg_spec(l, c, op, a, 1));
            (Exp::Operator(op, seq![inner.0]), inner.1, inner.2)
        },
        MuCalc::And(lf, rf) => {
            let a = encode_spec(l, *lf, env, n, c);
            let b = encode_spec(l, *rf, env, n + a.1.len(), a.2);
            (Exp::And(Box::new(a.0), Box::new(b.0)), a.1 + b.1, b.2)
        },
        MuCalc::Or(lf, rf) => {
            let a = encode_spec(l, *lf, env, n, c);
            let b = encode_spec(l, *rf, env, n + a.1.len(), a.2);
            (Exp::Or(Box::new(a.0), Box::new(b.0)), a.1 + b.1, b.2)
        },
    }
}

/// The encoding of the fixpoint formula `f` on `l`, from no binding, no
/// equation and no operator.
pub open spec fn mu_encoding(l: Lts, f: MuCalc) -> (Exp, Seq<EqV>, CollV) {
    encode_spec(l, f, Seq::empty(), 0, CollV { funs: Seq::empty(), moves: Seq::empty() })
}

/// A store holding the moves the encoding of `f` collected: its operators,
/// the states of `l` as basis, and each listed pair's move as provided.
pub open spec fn mu_store(l: Lts, f: MuCalc, st: StoreV) -> bool {
    &&& st.funs == mu_encoding(l, f).2.funs
    &&& st.basis == lts_basis(l)
    &&& st.formulas.len() == st.funs.len() * st.basis.len()
    &&& built_from(st, mu_encoding(l, f).2.moves)
}

/// The state names of `l`, in order.
pub open spec fn lts_basis(l: Lts) -> Seq<Seq<char>> {
    Seq::new(l.adj_list@.len(), |j: int| decimal(l.adj_list@[j].0 as nat))
}

/// The index of the last binding of `x` in `env`.
fn lookup_env(env: &Vec<(String, String)>, x: &String) -> (r: Option<usize>)
    ensures
        r is Some ==> r->0 < env@.len() && env@[r->0 as int].0@ == x@ && env_lookup(env_view(env@), x@) == env@[r->0 as int].1@,
        r is None ==> env_lookup(env_view(env@), x@) == x@,
{
    let ghost ev = env_view(env@);
    let mut j = env.len();
    proof { assert(ev.take(j as int) =~= ev); }
    while j > 0
        invariant
            j <= env@.len() == ev.len(),
            ev == env_view(env@),
            env_lookup(ev, x@) == env_lookup(ev.take(j as int), x@),
        decreases j,
    {
        proof {
            assert(ev.take(j as int).drop_last() =~= ev.take(j - 1));
            assert(ev.take(j as int).last() == ev[j - 1]);
            assert(ev[j - 1] == (env@[j - 1].0@, env@[j - 1].1@));
        }
        if env[j - 1].0 == *x {
            return Some(j - 1);
        }
        j = j - 1;
    }
    proof { assert(ev.take(0).len() == 0); }
    None
}

impl Lts {
    /// Registers operator `op`, whose move at each state is given by
    /// `act`/`kind` (0: `diamond`, 1: `box`, 2: `True`, 3: `False`), unless it
    /// is already registered.
    fn register(&self, c: &mut Collected, op: String, act: &Act, kind: u8)
        ensures
            coll_view(*final(c)) == reg_spec(*self, coll_view(*old(c)), op@, *act, kind),
    {
        proof { lemma_index_of(strs_view(c.funs@), op@); }
        if position_of(&c.funs, &op).is_some() {
            return;
        }
        proof {
            if strs_view(c.funs@).contains(op@) {
                let w = choose|w: int| 0 <= w < strs_view(c.funs@).len() && strs_view(c.funs@)[w] == op@;
            }
        }
        let ghost m0 = crate::moves::moves_view(c.moves@);
        let ghost added = Seq::new(
            self.adj_list@.len(),
            |j: int| crate::moves::MoveV { formula: op_move(*self, kind, *act, j), func_name: op@, basis_elem: decimal(self.adj_list@[j].0 as nat) },
        );
        let mut j: usize = 0;
        while j < self.adj_list.len()
            invariant
                j <= self.adj_list@.len(),
                strs_view(c.funs@) == strs_view(old(c).funs@),
                !strs_view(c.funs@).contains(op@),
                crate::moves::moves_view(c.moves@) == m0 + added.take(j as int),
                m0 == crate::moves::moves_view(old(c).moves@),
                added.len() == self.adj_list@.len(),
                forall|u: int| 0 <= u < added.len() ==> #[trigger] added[u] == (crate::moves::MoveV {
                    formula: op_move(*self, kind, *act, u), func_name: op@, basis_elem: decimal(self.adj_list@[u].0 as nat) }),
            decreases self.adj_list@.len() - j,
        {
            let formula = if kind == 0 {
                self.modal_formula(&self.adj_list[j].1, act, true)
            } else if kind == 1 {
                self.modal_formula(&self.adj_list[j].1, act, false)
            } else if kind == 2 {
                LogicFormula::True
            } else {
                LogicFormula::False
            };
            let ghost mb = c.moves@;
            let mv = SymbolicExistsMove {
                formula,
                func_name: op.clone(),
                basis_elem: decimal_name(self.adj_list[j].0 as usize),
            };
            proof {
                assert(mv@ == added[j as int]);
            }
            c.moves.push(mv);
            proof {
                assert(crate::moves::moves_view(c.moves@) =~= crate::moves::moves_view(mb).push(mv@));
                assert(added.take(j + 1) =~= added.take(j as int).push(added[j as int]));
                assert(crate::moves::moves_view(c.moves@) =~= m0 + added.take(j + 1));
            }
            j = j + 1;
        }
        let ghost fb = c.funs@;
        c.funs.push(op);
        proof {
            assert(strs_view(c.funs@) =~= strs_view(fb).push(op@));
            assert(added.take(added.len() as int) =~= added);
        }
    }

    /// Encodes `f` under the bindings `env` (μ-variable, equation
    /// variable; the last binding of a name wins): each binder becomes an
    /// equation appended to `eqs` after those of its body, named `x_k` where
    /// `k` is its position.
    fn encode(
        &self,
        f: &MuCalc,
        env: &mut Vec<(String, String)>,
        eqs: &mut Vec<FixEq>,
        c: &mut Collected,
    ) -> (r: ExpFixEq)
        requires
            old(eqs)@.len() + binders(*f) <= usize::MAX - 1,
            forall|t: int| 0 <= t < old(eqs)@.len() ==> (#[trigger] old(eqs)@[t]).var@ == var_name((t + 1) as nat),
        ensures
            final(eqs)@.len() == old(eqs)@.len() + binders(*f),
            forall|t: int| 0 <= t < final(eqs)@.len() ==> (#[trigger] final(eqs)@[t]).var@ == var_name((t + 1) as nat),
            env_view(final(env)@) == env_view(old(env)@),
            f is Eta ==> r@ == Exp::Id(var_name(final(eqs)@.len() as nat)),
            r@ == encode_spec(*self, *f, env_view(old(env)@), old(eqs)@.len() as nat, coll_view(*old(c))).0,
            system_view(final(eqs)@) == system_view(old(eqs)@) + encode_spec(
                *self, *f, env_view(old(env)@), old(eqs)@.len() as nat, coll_view(*old(c))).1,
            coll_view(*final(c)) == encode_spec(*self, *f, env_view(old(env)@), old(eqs)@.len() as nat, coll_view(*old(c))).2,
        decreases f,
    {
        let ghost e0 = system_view(eqs@);
        match f {
            MuCalc::True => {
                proof { reveal_strlit("tt"); assert("tt"@ =~= seq!['t', 't']); }
                self.register(c, "tt".to_owned(), &Act::True, 2);
                let name = "tt".to_owned();
                let v: Vec<ExpFixEq> = Vec::new();
                proof {
                    crate::fixpoint::lemma_args_view(name, v);
                    assert(crate::fixpoint::exps_view(v@) =~= Seq::<Exp>::empty());
                    assert(system_view(eqs@) =~= e0 + Seq::<EqV>::empty());
                }
                ExpFixEq::Operator(name, v)
            },
            MuCalc::False => {
                proof { reveal_strlit("ff"); assert("ff"@ =~= seq!['f', 'f']); }
                self.register(c, "ff".to_owned(), &Act::True, 3);
                let name = "ff".to_owned();
                let v: Vec<ExpFixEq> = Vec::new();
                proof {
                    crate::fixpoint::lemma_args_view(name, v);
                    assert(crate::fixpoint::exps_view(v@) =~= Seq::<Exp>::empty());
                    assert(system_view(eqs@) =~= e0 + Seq::<EqV>::empty());
                }
                ExpFixEq::Operator(name, v)
            },
            MuCalc::Var(x) => {
                proof { assert(system_view(eqs@) =~= e0 + Seq::<EqV>::empty()); }
                match lookup_env(env, x) {
                    Some(j) => ExpFixEq::Id(env[j].1.clone()),
                    None => ExpFixEq::Id(x.clone()),
                }
            },
            MuCalc::Eta(x, fix_ty, e) => {
                let inner = match count_vars(e) {
                    Some(n) => n,
                    None => vstd::pervasive::unreached(),
                };
                let k = eqs.len() + inner + 1;
                let ghost env0 = env@;
                let name = canonical_name(k);
                let ghost nm = name@;
                env.push((x.clone(), name));
                proof { assert(env_view(env@) =~= env_view(env0).push((x@, var_name(k as nat)))); }
                let body = self.encode(e, env, eqs, c);
                let ghost mid = system_view(eqs@);
                let ghost bp = env@;
                env.pop();
                proof {
                    assert(env_view(env@) =~= env_view(bp).drop_last());
                    assert(env_view(bp).drop_last() =~= env_view(env0));
                }
                let ghost before = eqs@;
                let eq = FixEq { var: canonical_name(k), fix_ty: *fix_ty, exp: body };
                let ghost ev = eq@;
                eqs.push(eq);
                proof {
                    assert forall|t: int| 0 <= t < eqs@.len() implies (#[trigger] eqs@[t]).var@ == var_name((t + 1) as nat) by {
                        if t < before.len() {
                            assert(eqs@[t] == before[t]);
                        }
                    }
                    assert(system_view(eqs@) =~= mid.push(ev));
                    let sp = encode_spec(*self, **e, env_view(env0).push((x@, var_name(k as nat))), e0.len() as nat, coll_view(*old(c)));
                    assert(mid == e0 + sp.1);
                    assert(system_view(eqs@) =~= e0 + sp.1.push(ev));
                }
                ExpFixEq::Id(canonical_name(k))
            },
            MuCalc::Diamond(a, e) => {
                proof { reveal_strlit("diamond_"); assert("diamond_"@ =~= seq!['d', 'i', 'a', 'm', 'o', 'n', 'd', '_']); }
                let op = concat("diamond_", act_string(a).as_str());
                self.register(c, op.clone(), a, 0);
                let arg = self.encode(e, env, eqs, c);
                let ghost av = arg@;
                let v = vec![arg];
                proof {
                    crate::fixpoint::lemma_args_view(op, v);
                    assert(crate::fixpoint::exps_view(v@) =~= seq![av]);
                }
                ExpFixEq::Operator(op, v)
            },
            MuCalc::Box(a, e) => {
                proof { reveal_strlit("box_"); assert("box_"@ =~= seq!['b', 'o', 'x', '_']); }
                let op = concat("box_", act_string(a).as_str());
                self.register(c, op.clone(), a, 1);
                let arg = self.encode(e, env, eqs, c);
                let ghost av = arg@;
                let v = vec![arg];
                proof {
                    crate::fixpoint::lemma_args_view(op, v);
                    assert(crate::fixpoint::exps_view(v@) =~= seq![av]);
                }
                ExpFixEq::Operator(op, v)
            },
            MuCalc::And(l, r) => {
                let a = self.encode(l, env, eqs, c);
                let ghost e1 = system_view(eqs@);
                let b = self.encode(r, env, eqs, c);
                proof {
                    let sa = encode_spec(*self, **l, env_view(old(env)@), e0.len() as nat, coll_view(*old(c)));
                    let sb = encode_spec(*self, **r, env_view(old(env)@), (e0.len() + sa.1.len()) as nat, sa.2);
                    assert(system_view(eqs@) =~= e0 + (sa.1 + sb.1));
                }
                ExpFixEq::And(Box::new(a), Box::new(b))
            },
            MuCalc::Or(l, r) => {
                let a = self.encode(l, env, eqs, c);
                let ghost e1 = system_view(eqs@);
                let b = self.encode(r, env, eqs, c);
                proof {
                    let sa = encode_spec(*self, **l, env_view(old(env)@), e0.len() as nat, coll_view(*old(c)));
                    let sb = encode_spec(*self, **r, env_view(old(env)@), (e0.len() + sa.1.len()) as nat, sa.2);
                    assert(system_view(eqs@) =~= e0 + (sa.1 + sb.1));
                }
                ExpFixEq::Or(Box::new(a), Box::new(b))
            },
        }
    }


    /// The fixpoint system and the move store of formula `f` on this LTS.
    /// Binders become equations `x_1, ..., x_m` in post-order, so the
    /// outermost one, `f` itself, is `x_m`; the basis is the states. `None`
    /// when `f` is not a fixpoint formula, or when the move table would not
    /// fit in memory.
    pub fn to_fix_system(&self, f: &MuCalc) -> (r: Option<(Vec<FixEq>, SymbolicExistsMoves)>)
        requires
            binders(*f) <= usize::MAX - 1,
        ensures
            !(f is Eta) ==> r is None,
            f is Eta && mu_encoding(*self, *f).2.funs.len() * self.adj_list@.len() <= usize::MAX ==> r is Some,
            match r {
                Some((sys, store)) => {
                    &&& sys@.len() == binders(*f) >= 1
                    &&& store.wf()
                    &&& system_view(sys@) == mu_encoding(*self, *f).1
                    &&& mu_store(*self, *f, store@)
                    &&& forall|t: int| 0 <= t < sys@.len() ==> (#[trigger] sys@[t]).var@ == var_name((t + 1) as nat)
                },
                None => true,
            },
    {
        match f {
            MuCalc::Eta(..) => {},
            _ => return None,
        }
        let mut env: Vec<(String, String)> = Vec::new();
        let mut eqs: Vec<FixEq> = Vec::new();
        let mut c = Collected { funs: Vec::new(), moves: Vec::new() };
        proof {
            assert(env_view(env@) =~= Seq::<(Seq<char>, Seq<char>)>::empty());
            assert(coll_view(c) == (CollV { funs: Seq::empty(), moves: Seq::empty() })) by {
                assert(strs_view(c.funs@) =~= Seq::<Seq<char>>::empty());
                assert(crate::moves::moves_view(c.moves@) =~= Seq::<crate::moves::MoveV>::empty());
            }
        }
        let _ = self.encode(f, &mut env, &mut eqs, &mut c);
        proof { assert(system_view(eqs@) =~= mu_encoding(*self, *f).1); }
        let basis = self.basis();
        proof { assert(strs_view(basis@) =~= lts_basis(*self)); }
        let nf = c.funs.len();
        let nb = basis.len();
        if nf.checked_mul(nb).is_none() {
            return None;
        }
        let store = SymbolicExistsMoves::new(c.moves, c.funs, basis);
        Some((eqs, store))
    }

    /// Whether `state` satisfies the fixpoint formula `f`: the winner of the
    /// game from `Eve(state, m)`, `m` being the equation of `f` itself (see
    /// `check_spec`). `None` when `f` is not a fixpoint formula or its move
    /// table would not fit in memory, and as `local_check` gives it.
    pub fn check(&self, f: &MuCalc, state: u32) -> (r: Option<Player>)
        ensures
            !(f is Eta) ==> r is None,
            f is Eta && binders(*f) < usize::MAX - 1 && mu_encoding(*self, *f).2.funs.len() * self.adj_list@.len()
                <= usize::MAX ==> exists|st: StoreV|
                mu_store(*self, *f, st) && r == check_spec(
                    game_of(mu_encoding(*self, *f).1, st, lts_basis(*self)),
                    decimal(state as nat),
                    binders(*f) as usize,
                ),
    {
        match count_vars(f) {
            Some(n) => {
                if n >= usize::MAX - 1 {
                    return None;
                }
            },
            None => return None,
        }
        let (eqs, store) = match self.to_fix_system(f) {
            Some(p) => p,
            None => return None,
        };
        let basis = self.basis();
        proof { assert(strs_view(basis@) =~= lts_basis(*self)); }
        let m = eqs.len();
        let game = game_from_system(&eqs, &store, basis);
        let r = game.local_check(&decimal_name(state as usize), m);
        proof {
            assert(mu_store(*self, *f, store@));
        }
        r
    }

}

/// Two stores holding the moves the encoding of `f` collected look every
/// pair of a basis element and an operator up alike.
pub proof fn lemma_mu_store_lookup(l: Lts, f: MuCalc, st1: StoreV, st2: StoreV, b: Seq<char>, op: Seq<char>)
    requires
        mu_store(l, f, st1),
        mu_store(l, f, st2),
    ensures
        crate::moves::lookup(st1, b, op) == crate::moves::lookup(st2, b, op),
{
    lemma_index_of(st1.funs, op);
    lemma_index_of(st1.basis, b);
    let fi = index_of(st1.funs, op);
    let bi = index_of(st1.basis, b);
    if fi >= 0 && bi >= 0 {
        assert(crate::moves::lookup(st1, st1.basis[bi], st1.funs[fi]) == crate::moves::lookup(st2, st2.basis[bi], st2.funs[fi]));
    }
}

} // verus!
