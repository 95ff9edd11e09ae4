//! Composition of the operators' symbolic ∃-moves along the equations.
use vstd::prelude::*;
use crate::fixpoint::{EqV, Exp, ExpFixEq, FixEq, system_view, exps_view, lemma_args_view};
use crate::formula::{Formula, LogicFormula, simp, simplify, views, lemma_views_conj};
use crate::moves::{
    MoveV, StoreV, SymbolicExistsMoveComposed, SymbolicExistsMoves, built_from, lookup, index_of, lemma_index_of,
    lemma_index_of_first, lemma_index_of_none, provided,
};

verus! {

/// The variables of a system, in order.
pub open spec fn vars(sys: Seq<EqV>) -> Seq<Seq<char>> {
    sys.map_values(|e: EqV| e.var)
}

/// The 1-based index of the equation defining `v`; `0` if none does.
pub open spec fn projection_spec(sys: Seq<EqV>, v: Seq<char>) -> int {
    index_of(vars(sys), v) + 1
}

/// `compose(E, e, S, b)`: the symbolic ∃-move of expression `e` at basis
/// element `b`.
pub open spec fn compose_spec(sys: Seq<EqV>, st: StoreV, e: Exp, b: Seq<char>) -> Formula
    decreases e, 1int, Formula::True, 0int,
{
    match e {
        Exp::And(l, r) => Formula::Conj(seq![compose_spec(sys, st, *l, b), compose_spec(sys, st, *r, b)]),
        Exp::Or(l, r) => Formula::Disj(seq![compose_spec(sys, st, *l, b), compose_spec(sys, st, *r, b)]),
        Exp::Operator(op, _) => subst_spec(sys, st, e, lookup(st, b, op)),
        Exp::Id(v) => Formula::Atom(b, projection_spec(sys, v) as usize),
    }
}

/// The template `f` with each atom `[b', j]` replaced by the composition of
/// the `j`-th argument of `e` at `b'` (`False` when `e` has no such argument).
pub open spec fn subst_spec(sys: Seq<EqV>, st: StoreV, e: Exp, f: Formula) -> Formula
    decreases e, 0int, f, 1int,
{
    match f {
        Formula::Atom(b2, j) => match e {
            Exp::Operator(_, args) => if 1 <= j <= args.len() {
                compose_spec(sys, st, args[j - 1], b2)
            } else {
                Formula::False
            },
            _ => Formula::False,
        },
        Formula::Conj(_) => Formula::Conj(subst_children(sys, st, e, f)),
        Formula::Disj(_) => Formula::Disj(subst_children(sys, st, e, f)),
        _ => f,
    }
}

/// The children of a connective of the template, each substituted.
pub open spec fn subst_children(sys: Seq<EqV>, st: StoreV, e: Exp, f: Formula) -> Seq<Formula>
    decreases e, 0int, f, 0int,
{
    match f {
        Formula::Conj(xs) | Formula::Disj(xs) => Seq::new(
            xs.len(),
            |j: int| if 0 <= j < xs.len() { subst_spec(sys, st, e, xs[j]) } else { Formula::True },
        ),
        _ => Seq::empty(),
    }
}

/// The entry for equation `i` (0-based) and basis element `b` in a table laid
/// out equation-major over `n` basis elements.
pub open spec fn entry<T>(t: Seq<T>, i: int, b: int, n: int) -> T {
    t[i * n + b]
}

/// The 1-based index of the equation that defines `curr_var`, `0` if none.
pub fn projection(f: &Vec<FixEq>, curr_var: &String) -> (r: usize)
    ensures
        r as int == projection_spec(system_view(f@), curr_var@),
{
    let ghost v = vars(system_view(f@));
    let mut j: usize = 0;
    while j < f.len()
        invariant
            j <= f@.len() == v.len(),
            v == vars(system_view(f@)),
            forall|t: int| 0 <= t < j ==> v[t] != curr_var@,
        decreases f@.len() - j,
    {
        proof { assert(v[j as int] == f@[j as int].var@); }
        if f[j].var == *curr_var {
            proof { lemma_index_of_first(v, curr_var@, j as int); }
            return j + 1;
        }
        j = j + 1;
    }
    proof { lemma_index_of_none(v, curr_var@); }
    0
}

/// The composed move of expression `sub_exp` at `basis_elem` (unsimplified).
pub fn compose_move_base(
    system: &Vec<FixEq>,
    basis_elem: &String,
    sub_exp: &ExpFixEq,
    s: &SymbolicExistsMoves,
) -> (r: LogicFormula)
    requires
        s.wf(),
    ensures
        r@ == compose_spec(system_view(system@), s@, sub_exp@, basis_elem@),
    decreases sub_exp, 1int, LogicFormula::True, 0int,
{
    match sub_exp {
        ExpFixEq::And(l, r) => {
            let a = compose_move_base(system, basis_elem, l, s);
            let b = compose_move_base(system, basis_elem, r, s);
            let v = vec![a, b];
            proof {
                lemma_views_conj(v);
                assert(views(v@) =~= seq![a@, b@]);
            }
            LogicFormula::Conj(v)
        },
        ExpFixEq::Or(l, r) => {
            let a = compose_move_base(system, basis_elem, l, s);
            let b = compose_move_base(system, basis_elem, r, s);
            let v = vec![a, b];
            proof {
                lemma_views_conj(v);
                assert(views(v@) =~= seq![a@, b@]);
            }
            LogicFormula::Disj(v)
        },
        ExpFixEq::Operator(op, args) => {
            proof { lemma_args_view(*op, *args); }
            let template = s.get_formula(basis_elem, op);
            subst(system, sub_exp, s, template)
        },
        ExpFixEq::Id(var) => LogicFormula::BasisElem(basis_elem.clone(), projection(system, var)),
    }
}

/// Substitutes into the template `curr_formula` the compositions of the
/// arguments of `sub_exp` (see [`subst_spec`]).
pub fn subst(
    f: &Vec<FixEq>,
    sub_exp: &ExpFixEq,
    moves: &SymbolicExistsMoves,
    curr_formula: &LogicFormula,
) -> (r: LogicFormula)
    requires
        moves.wf(),
    ensures
        r@ == subst_spec(system_view(f@), moves@, sub_exp@, curr_formula@),
    decreases sub_exp, 0int, curr_formula, 1int,
{
    match curr_formula {
        LogicFormula::BasisElem(b, i) => {
            match sub_exp {
                ExpFixEq::Operator(op, args) => {
                    proof { lemma_args_view(*op, *args); }
                    if 1 <= *i && *i <= args.len() {
                        proof {
                            vstd::std_specs::vec::axiom_vec_index_decreases(*args, *i - 1);
                            assert(exps_view(args@)[*i - 1] == args@[*i - 1]@);
                        }
                        compose_move_base(f, b, &args[*i - 1], moves)
                    } else {
                        LogicFormula::False
                    }
                },
                _ => LogicFormula::False,
            }
        },
        LogicFormula::Conj(x) => {
            let v = subst_each(f, sub_exp, moves, curr_formula);
            proof { lemma_views_conj(*x); lemma_views_conj(v); }
            LogicFormula::Conj(v)
        },
        LogicFormula::Disj(x) => {
            let v = subst_each(f, sub_exp, moves, curr_formula);
            proof { lemma_views_conj(*x); lemma_views_conj(v); }
            LogicFormula::Disj(v)
        },
        LogicFormula::True => LogicFormula::True,
        LogicFormula::False => LogicFormula::False,
    }
}

fn subst_each(
    f: &Vec<FixEq>,
    sub_exp: &ExpFixEq,
    moves: &SymbolicExistsMoves,
    curr_formula: &LogicFormula,
) -> (r: Vec<LogicFormula>)
    requires
        moves.wf(),
    ensures
        views(r@) == subst_children(system_view(f@), moves@, sub_exp@, curr_formula@),
    decreases sub_exp, 0int, curr_formula, 0int,
{
    let ghost sys = system_view(f@);
    let mut out: Vec<LogicFormula> = Vec::new();
    match curr_formula {
        LogicFormula::Conj(xs) | LogicFormula::Disj(xs) => {
            proof { lemma_views_conj(*xs); }
            let ghost target = subst_children(sys, moves@, sub_exp@, curr_formula@);
            let mut j: usize = 0;
            while j < xs.len()
                invariant
                    j <= xs@.len(),
                    sys == system_view(f@),
                    moves.wf(),
                    target == subst_children(sys, moves@, sub_exp@, curr_formula@),
                    curr_formula@ == Formula::Conj(views(xs@)) || curr_formula@ == Formula::Disj(views(xs@)),
                    *curr_formula == LogicFormula::Conj(*xs) || *curr_formula == LogicFormula::Disj(*xs),
                    target.len() == xs@.len(),
                    views(out@) == target.take(j as int),
                decreases xs@.len() - j,
            {
                proof {
                    vstd::std_specs::vec::axiom_vec_index_decreases(*xs, j as int);
                    assert(views(xs@)[j as int] == xs@[j as int]@);
                    assert(decreases_to!(*curr_formula => xs@[j as int]));
                }
                let y = subst(f, sub_exp, moves, &xs[j]);
                let ghost before = out@;
                out.push(y);
                proof {
                    assert(target[j as int] == subst_spec(sys, moves@, sub_exp@, xs@[j as int]@));
                    assert(views(out@) =~= views(before).push(y@));
                    assert(views(out@) =~= target.take(j + 1));
                }
                j = j + 1;
            }
            proof { assert(target.take(xs@.len() as int) =~= target); }
            out
        },
        _ => {
            proof { assert(views(out@) =~= Seq::<Formula>::empty()); }
            out
        },
    }
}

/// The composed moves of equation `i` (0-based) at each basis element, in
/// basis order, simplified.
fn compose_move_eq(
    system: &Vec<FixEq>,
    i: usize,
    s: &SymbolicExistsMoves,
    basis: &Vec<String>,
    out: &mut Vec<SymbolicExistsMoveComposed>,
)
    requires
        s.wf(),
        i < system@.len(),
    ensures
        final(out)@.len() == old(out)@.len() + basis@.len(),
        forall|t: int| 0 <= t < old(out)@.len() ==> final(out)@[t] == old(out)@[t],
        forall|b: int|
            0 <= b < basis@.len() ==> {
                let c = #[trigger] final(out)@[old(out)@.len() + b];
                &&& c.func_name == i + 1
                &&& c.basis_elem@ == basis@[b]@
                &&& c.formula@ == simp(compose_spec(system_view(system@), s@, system@[i as int].exp@, basis@[b]@))
            },
{
    let ghost start = old(out)@.len();
    let m = system.len();
    let mut b: usize = 0;
    while b < basis.len()
        invariant
            b <= basis@.len(),
            s.wf(),
            i < system@.len() == m,
            start == old(out)@.len(),
            out@.len() == start + b,
            forall|t: int| 0 <= t < start ==> out@[t] == old(out)@[t],
            forall|c: int|
                0 <= c < b ==> {
                    let x = #[trigger] out@[start + c];
                    &&& x.func_name == i + 1
                    &&& x.basis_elem@ == basis@[c]@
                    &&& x.formula@ == simp(compose_spec(system_view(system@), s@, system@[i as int].exp@, basis@[c]@))
                },
        decreases basis@.len() - b,
    {
        let formula = compose_move_base(system, &basis[b], &system[i].exp, s);
        proof { assert(system_view(system@)[i as int] == system@[i as int]@); }
        let formula = simplify(formula);
        out.push(SymbolicExistsMoveComposed { formula, func_name: i + 1, basis_elem: basis[b].clone() });
        proof {
            assert forall|c: int| 0 <= c < b + 1 implies {
                let x = #[trigger] out@[start + c];
                &&& x.func_name == i + 1
                &&& x.basis_elem@ == basis@[c]@
                &&& x.formula@ == simp(compose_spec(system_view(system@), s@, system@[i as int].exp@, basis@[c]@))
            } by {
                if c == b {
                    assert(out@[start + c] == out@[out@.len() - 1]);
                }
            }
        }
        b = b + 1;
    }
}

/// The composed and simplified symbolic ∃-moves of the system: for each
/// equation `i` and basis element `b`, in that order, `simplify(compose(E,
/// E[i].rhs, S, b))`.
pub fn compose_moves(
    e: &Vec<FixEq>,
    s: &SymbolicExistsMoves,
    basis: &Vec<String>,
) -> (r: Vec<SymbolicExistsMoveComposed>)
    requires
        s.wf(),
    ensures
        r@.len() == e@.len() * basis@.len(),
        forall|i: int, b: int|
            0 <= i < e@.len() && 0 <= b < basis@.len() ==> {
                let c = #[trigger] entry(r@, i, b, basis@.len() as int);
                &&& c.func_name == i + 1
                &&& c.basis_elem@ == basis@[b]@
                &&& c.formula@ == simp(compose_spec(system_view(e@), s@, e@[i].exp@, basis@[b]@))
            },
{
    let n = basis.len();
    let mut out: Vec<SymbolicExistsMoveComposed> = Vec::new();
    let mut i: usize = 0;
    while i < e.len()
        invariant
            i <= e@.len(),
            s.wf(),
            n == basis@.len(),
            out@.len() == i * n,
            forall|i2: int, b: int|
                0 <= i2 < i && 0 <= b < n ==> {
                    let c = #[trigger] entry(out@, i2, b, n as int);
                    &&& c.func_name == i2 + 1
                    &&& c.basis_elem@ == basis@[b]@
                    &&& c.formula@ == simp(compose_spec(system_view(e@), s@, e@[i2].exp@, basis@[b]@))
                },
        decreases e@.len() - i,
    {
        let ghost before = out@;
        compose_move_eq(e, i, s, basis, &mut out);
        proof {
            assert((i + 1) * n == i * n + n) by (nonlinear_arith);
            assert forall|i2: int, b: int| 0 <= i2 < i + 1 && 0 <= b < n implies {
                let c = #[trigger] entry(out@, i2, b, n as int);
                &&& c.func_name == i2 + 1
                &&& c.basis_elem@ == basis@[b]@
                &&& c.formula@ == simp(compose_spec(system_view(e@), s@, e@[i2].exp@, basis@[b]@))
            } by {
                if i2 < i {
                    assert(i2 * n + b < i * n) by (nonlinear_arith)
                        requires 0 <= i2 < i, 0 <= b < n;
                    assert(0 <= i2 * n) by (nonlinear_arith)
                        requires 0 <= i2, 0 <= n;
                    assert(entry(out@, i2, b, n as int) == entry(before, i2, b, n as int));
                } else {
                    assert(out@[before.len() + b] == entry(out@, i2, b, n as int));
                }
            }
        }
        i = i + 1;
    }
    out
}

/// Composing an operator application at a basis element where the store
/// holds `False` for that operator (in particular where it has no entry
/// for the pair) gives `False`, whatever the arguments.
pub proof fn lemma_compose_default(sys: Seq<EqV>, st: StoreV, op: Seq<char>, args: Seq<Exp>, b: Seq<char>)
    requires
        lookup(st, b, op) == Formula::False,
    ensures
        compose_spec(sys, st, Exp::Operator(op, args), b) == Formula::False,
{
    assert(subst_spec(sys, st, Exp::Operator(op, args), Formula::False) == Formula::False);
}

/// If the moves a store was built from have no entry for operator `op` at
/// basis element `b`, composing any application of `op` at `b` gives
/// `False`.
pub proof fn lemma_composition_default(
    sys: Seq<EqV>,
    st: StoreV,
    moves: Seq<MoveV>,
    op: Seq<char>,
    args: Seq<Exp>,
    b: Seq<char>,
)
    requires
        built_from(st, moves),
        forall|j: int| 0 <= j < moves.len() ==> !((#[trigger] moves[j]).func_name == op && moves[j].basis_elem == b),
    ensures
        compose_spec(sys, st, Exp::Operator(op, args), b) == Formula::False,
{
    lemma_index_of(st.funs, op);
    lemma_index_of(st.basis, b);
    let fi = index_of(st.funs, op);
    let bi = index_of(st.basis, b);
    if fi >= 0 && bi >= 0 {
        lemma_missing_move_false(moves, op, b);
        assert(lookup(st, st.basis[bi], st.funs[fi]) == provided(moves, st.funs[fi], st.basis[bi]));
    }
    lemma_compose_default(sys, st, op, args, b);
}

proof fn lemma_missing_move_false(moves: Seq<MoveV>, op: Seq<char>, b: Seq<char>)
    requires
        forall|j: int| 0 <= j < moves.len() ==> !((#[trigger] moves[j]).func_name == op && moves[j].basis_elem == b),
    ensures
        provided(moves, op, b) == Formula::False,
    decreases moves.len(),
{
    if moves.len() > 0 {
        assert forall|j: int| 0 <= j < moves.drop_last().len() implies !((#[trigger] moves.drop_last()[j]).func_name == op
            && moves.drop_last()[j].basis_elem == b) by {
            assert(moves.drop_last()[j] == moves[j]);
        }
        lemma_missing_move_false(moves.drop_last(), op, b);
    }
}

/// The game of system `sys` with the moves of store `st` over `basis`:
/// its fixpoint kinds, its basis, and for equation `i` and basis element
/// `b` (equation-major) the simplified composed move.
pub open spec fn game_of(sys: Seq<EqV>, st: StoreV, basis: Seq<Seq<char>>) -> crate::solver::GameV {
    crate::solver::GameV {
        fix: sys.map_values(|e: EqV| e.fix_ty),
        basis,
        moves: Seq::new(
            sys.len() * basis.len(),
            |t: int| simp(compose_spec(sys, st, sys[t / basis.len() as int].exp, basis[t % basis.len() as int])),
        ),
    }
}

/// The game of a system with the moves of a store over a basis (see
/// [`game_of`]).
pub fn game_from_system(system: &Vec<FixEq>, store: &SymbolicExistsMoves, basis: Vec<String>) -> (r: crate::solver::ParityGame)
    requires
        store.wf(),
    ensures
        r.wf(),
        r@ == game_of(system_view(system@), store@, crate::moves::strs_view(basis@)),
{
    let composed = compose_moves(system, store, &basis);
    let ghost bv = crate::moves::strs_view(basis@);
    let ghost n = basis@.len() as int;
    let ghost cv = composed@;
    let r = match crate::solver::ParityGame::new(system, composed, basis) {
        Some(g) => g,
        None => vstd::pervasive::unreached(),
    };
    proof {
        let g = game_of(system_view(system@), store@, bv);
        assert(r@.fix =~= g.fix);
        assert(r@.moves.len() == g.moves.len());
        assert forall|t: int| 0 <= t < r@.moves.len() implies r@.moves[t] == g.moves[t] by {
            vstd::arithmetic::div_mod::lemma_fundamental_div_mod(t, n);
            vstd::arithmetic::div_mod::lemma_mod_pos_bound(t, n);
            vstd::arithmetic::div_mod::lemma_div_pos_is_pos(t, n);
            let q = t / n;
            let m = system@.len() as int;
            assert(q < m) by (nonlinear_arith)
                requires t == n * q + t % n, 0 <= t % n, t < m * n, n > 0;
            assert(q * n + t % n == t) by (nonlinear_arith) requires t == n * q + t % n;
            assert(entry(cv, q, t % n, n) == cv[t]);
            assert(system_view(system@)[q] == system@[q]@);
            assert(bv[t % n] == basis@[t % n]@);
        }
        assert(r@.moves =~= g.moves);
    }
    r
}

} // verus!
