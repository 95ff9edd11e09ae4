//! Symbolic existential moves of the operators: the move store.
use vstd::prelude::*;
use crate::formula::{Formula, LogicFormula};

verus! {

/// The symbolic ∃-move of operator `func_name` at basis element `basis_elem`.
#[derive(Debug, PartialEq, Eq)]
pub struct SymbolicExistsMove {
    pub formula: LogicFormula,
    pub func_name: String,
    pub basis_elem: String,
}

/// The composed symbolic ∃-move of equation `func_name` (1-based) at basis
/// element `basis_elem`.
#[derive(Debug, PartialEq, Eq)]
pub struct SymbolicExistsMoveComposed {
    pub formula: LogicFormula,
    pub func_name: usize,
    pub basis_elem: String,
}

/// Model of a [`SymbolicExistsMove`].
pub struct MoveV {
    pub formula: Formula,
    pub func_name: Seq<char>,
    pub basis_elem: Seq<char>,
}

impl View for SymbolicExistsMove {
    type V = MoveV;

    open spec fn view(&self) -> MoveV {
        MoveV { formula: self.formula@, func_name: self.func_name@, basis_elem: self.basis_elem@ }
    }
}

/// The models of a sequence of moves.
pub open spec fn moves_view(s: Seq<SymbolicExistsMove>) -> Seq<MoveV> {
    s.map_values(|m: SymbolicExistsMove| m@)
}

/// The models of a sequence of strings.
pub open spec fn strs_view(s: Seq<String>) -> Seq<Seq<char>> {
    s.map_values(|x: String| x@)
}

/// The first index at which `x` occurs in `s`, or `-1`.
pub open spec fn index_of(s: Seq<Seq<char>>, x: Seq<char>) -> int
    decreases s.len(),
{
    if s.len() == 0 {
        -1
    } else {
        let r = index_of(s.drop_last(), x);
        if r >= 0 {
            r
        } else if s.last() == x {
            s.len() - 1
        } else {
            -1
        }
    }
}

pub proof fn lemma_index_of(s: Seq<Seq<char>>, x: Seq<char>)
    ensures
        -1 <= index_of(s, x) < s.len(),
        index_of(s, x) >= 0 ==> s[index_of(s, x)] == x,
        index_of(s, x) >= 0 ==> forall|j: int| 0 <= j < index_of(s, x) ==> s[j] != x,
        index_of(s, x) == -1 ==> forall|j: int| 0 <= j < s.len() ==> s[j] != x,
    decreases s.len(),
{
    if s.len() > 0 {
        let d = s.drop_last();
        lemma_index_of(d, x);
        let r = index_of(d, x);
        if r >= 0 {
            assert forall|j: int| 0 <= j < r implies s[j] != x by {
                assert(s[j] == d[j]);
            }
        } else if s.last() == x {
            assert forall|j: int| 0 <= j < s.len() - 1 implies s[j] != x by {
                assert(s[j] == d[j]);
            }
        } else {
            assert forall|j: int| 0 <= j < s.len() implies s[j] != x by {
                if j < s.len() - 1 {
                    assert(s[j] == d[j]);
                }
            }
        }
    }
}

pub proof fn lemma_index_of_first(s: Seq<Seq<char>>, x: Seq<char>, j: int)
    requires
        0 <= j < s.len(),
        s[j] == x,
        forall|t: int| 0 <= t < j ==> s[t] != x,
    ensures
        index_of(s, x) == j,
{
    lemma_index_of(s, x);
}

pub proof fn lemma_index_of_none(s: Seq<Seq<char>>, x: Seq<char>)
    requires
        forall|t: int| 0 <= t < s.len() ==> s[t] != x,
    ensures
        index_of(s, x) == -1,
{
    lemma_index_of(s, x);
}

/// Finds the first position of `x` in `s`.
pub fn position_of(s: &Vec<String>, x: &String) -> (r: Option<usize>)
    ensures
        r is None ==> index_of(strs_view(s@), x@) == -1,
        r is Some ==> index_of(strs_view(s@), x@) == r->0 as int,
{
    let ghost v = strs_view(s@);
    let mut j: usize = 0;
    while j < s.len()
        invariant
            j <= s@.len() == v.len(),
            v == strs_view(s@),
            forall|t: int| 0 <= t < j ==> v[t] != x@,
        decreases s@.len() - j,
    {
        proof { assert(v[j as int] == s@[j as int]@); }
        if s[j] == *x {
            proof { lemma_index_of_first(v, x@, j as int); }
            return Some(j);
        }
        j = j + 1;
    }
    proof { lemma_index_of_none(v, x@); }
    None
}

/// Cell `(f, b)` of a table laid out operator-major over `nb` elements.
pub open spec fn cell<T>(s: Seq<T>, f: int, b: int, nb: int) -> T {
    s[f * nb + b]
}

/// Model of the move store: the operator names, the basis and the dense
/// table, operator-major.
pub struct StoreV {
    pub funs: Seq<Seq<char>>,
    pub basis: Seq<Seq<char>>,
    pub formulas: Seq<Formula>,
}

/// The stored move of `op` at `b`; `False` for a pair not in the table.
pub open spec fn lookup(st: StoreV, b: Seq<char>, op: Seq<char>) -> Formula {
    let fi = index_of(st.funs, op);
    let bi = index_of(st.basis, b);
    if fi >= 0 && bi >= 0 {
        st.formulas[fi * st.basis.len() + bi]
    } else {
        Formula::False
    }
}

/// The move provided for `op` at `b` by the last matching entry of `moves`,
/// `False` if there is none.
pub open spec fn provided(moves: Seq<MoveV>, op: Seq<char>, b: Seq<char>) -> Formula
    decreases moves.len(),
{
    if moves.len() == 0 {
        Formula::False
    } else if moves.last().func_name == op && moves.last().basis_elem == b {
        moves.last().formula
    } else {
        provided(moves.drop_last(), op, b)
    }
}

/// Every pair of an operator and a basis element, each at its first
/// occurrence in the store's lists, holds the move provided for it by the
/// last matching entry of `moves` (`False` when none matches).
pub open spec fn built_from(st: StoreV, moves: Seq<MoveV>) -> bool {
    forall|fi: int, bi: int|
        0 <= fi < st.funs.len() && 0 <= bi < st.basis.len() && index_of(st.funs, st.funs[fi]) == fi
            && index_of(st.basis, st.basis[bi]) == bi
            ==> #[trigger] lookup(st, st.basis[bi], st.funs[fi]) == provided(moves, st.funs[fi], st.basis[bi])
}

/// The dense move store: for each operator name and basis element, the
/// symbolic ∃-move; pairs never provided hold `False`.
#[derive(Debug)]
pub struct SymbolicExistsMoves {
    funs: Vec<String>,
    basis: Vec<String>,
    formulas: Vec<LogicFormula>,
    missing: LogicFormula,
}

impl View for SymbolicExistsMoves {
    type V = StoreV;

    closed spec fn view(&self) -> StoreV {
        StoreV {
            funs: strs_view(self.funs@),
            basis: strs_view(self.basis@),
            formulas: self.formulas@.map_values(|f: LogicFormula| f@),
        }
    }
}

pub proof fn lemma_dense_index(fi: int, bi: int, nf: int, nb: int)
    requires
        0 <= fi < nf,
        0 <= bi < nb,
    ensures
        0 <= fi * nb + bi < nf * nb,
{
    assert(fi * nb + bi < nf * nb) by (nonlinear_arith)
        requires 0 <= fi < nf, 0 <= bi < nb;
    assert(0 <= fi * nb) by (nonlinear_arith)
        requires 0 <= fi, 0 <= nb;
}

impl SymbolicExistsMoves {
    pub closed spec fn wf(&self) -> bool {
        &&& self.formulas@.len() == self.funs@.len() * self.basis@.len()
        &&& self.missing@ == Formula::False
    }

    /// Builds the store for the operators `funs` over `basis` from the
    /// provided moves: each pair takes the move of the last entry for it,
    /// and `False` when no entry names it.
    pub fn new(moves: Vec<SymbolicExistsMove>, funs: Vec<String>, basis: Vec<String>) -> (r: Self)
        requires
            funs@.len() * basis@.len() <= usize::MAX,
        ensures
            r.wf(),
            r@.funs == strs_view(funs@),
            r@.basis == strs_view(basis@),
            r@.formulas.len() == funs@.len() * basis@.len(),
            built_from(r@, moves_view(moves@)),
    {
        let ghost mv = moves_view(moves@);
        let nf = funs.len();
        let nb = basis.len();
        let total = nf * nb;
        let mut formulas: Vec<LogicFormula> = Vec::new();
        let mut t: usize = 0;
        while t < total
            invariant
                t <= total == nf * nb,
                nf == funs@.len(),
                nb == basis@.len(),
                mv == moves_view(moves@),
                formulas@.len() == t,
                forall|u: int| 0 <= u < t ==> (#[trigger] formulas@[u])@ == Formula::False,
            decreases total - t,
        {
            formulas.push(LogicFormula::False);
            t = t + 1;
        }
        proof {
            assert forall|fi: int, bi: int|
                0 <= fi < nf && 0 <= bi < nb implies (#[trigger] formulas@[fi * nb + bi])@ == provided(
                    mv.take(0),
                    strs_view(funs@)[fi],
                    strs_view(basis@)[bi],
                ) by {
                lemma_dense_index(fi, bi, nf as int, nb as int);
                assert(mv.take(0).len() == 0);
            }
        }
        let mut rest = moves;
        let mut j: usize = 0;
        let n = rest.len();
        while j < n
            invariant
                j <= n == mv.len(),
                nf == funs@.len(),
                nb == basis@.len(),
                formulas@.len() == nf * nb,
                moves_view(rest@) == mv.subrange(j as int, n as int),
                forall|fi: int, bi: int|
                    0 <= fi < nf && 0 <= bi < nb && index_of(strs_view(funs@), strs_view(funs@)[fi]) == fi
                        && index_of(strs_view(basis@), strs_view(basis@)[bi]) == bi
                        ==> (#[trigger] formulas@[fi * nb + bi])@ == provided(
                        mv.take(j as int),
                        strs_view(funs@)[fi],
                        strs_view(basis@)[bi],
                    ),
            decreases n - j,
        {
            proof {
                assert(moves_view(rest@).len() == rest@.len());
                assert(moves_view(rest@)[0] == rest@[0]@);
            }
            let ghost before = rest@;
            let m = rest.remove(0);
            proof {
                assert forall|k: int| 0 <= k < rest@.len() implies rest@[k] == before[k + 1] by {}
                assert(moves_view(before) == mv.subrange(j as int, n as int));
                assert forall|k: int| 0 <= k < rest@.len() implies #[trigger] moves_view(rest@)[k] == mv[j + 1 + k] by {
                    assert(moves_view(before)[k + 1] == before[k + 1]@);
                }
                assert(m@ == mv[j as int]);
                assert(moves_view(rest@) =~= mv.subrange(j + 1, n as int));
                assert(mv.take(j + 1).drop_last() =~= mv.take(j as int));
                assert(mv.take(j + 1).last() == mv[j as int]);
            }
            let fi = position_of(&funs, &m.func_name);
            let bi = position_of(&basis, &m.basis_elem);
            match (fi, bi) {
                (Some(fi), Some(bi)) => {
                    proof {
                        lemma_index_of(strs_view(funs@), m.func_name@);
                        lemma_index_of(strs_view(basis@), m.basis_elem@);
                        lemma_dense_index(fi as int, bi as int, nf as int, nb as int);
                    }
                    proof {
                        assert(strs_view(funs@).len() == nf);
                        assert(fi < nf);
                        assert(bi < nb);
                        assert(fi * nb + bi < nf * nb);
                        assert(fi * nb <= fi * nb + bi);
                    }
                    let len = formulas.len();
                    proof {
                        assert(fi * nb + bi < len);
                    }
                    let idx = fi * nb + bi;
                    let ghost before = formulas@;
                    formulas.set(idx, m.formula);
                    proof {
                        assert forall|fi2: int, bi2: int|
                            0 <= fi2 < nf && 0 <= bi2 < nb && index_of(strs_view(funs@), strs_view(funs@)[fi2]) == fi2
                                && index_of(strs_view(basis@), strs_view(basis@)[bi2]) == bi2
                                implies (#[trigger] formulas@[fi2 * nb + bi2])@
                            == provided(mv.take(j + 1), strs_view(funs@)[fi2], strs_view(basis@)[bi2]) by {
                            lemma_dense_index(fi2, bi2, nf as int, nb as int);
                            assert(mv.take(j + 1).drop_last() =~= mv.take(j as int));
                            if fi2 * nb + bi2 == idx {
                                lemma_dense_unique(fi2, bi2, fi as int, bi as int, nb as int);
                                assert(formulas@[idx as int] == m.formula);
                            } else {
                                assert(formulas@[fi2 * nb + bi2] == before[fi2 * nb + bi2]);
                                if strs_view(funs@)[fi2] == m.func_name@ && strs_view(basis@)[bi2] == m.basis_elem@ {
                                    // a later duplicate name: the first occurrence holds the move
                                    assert(strs_view(funs@)[fi2] == funs@[fi2]@);
                                    assert(strs_view(basis@)[bi2] == basis@[bi2]@);
                                }
                            }
                        }
                    }
                },
                _ => {
                    proof {
                        assert forall|fi2: int, bi2: int|
                            0 <= fi2 < nf && 0 <= bi2 < nb && index_of(strs_view(funs@), strs_view(funs@)[fi2]) == fi2
                                && index_of(strs_view(basis@), strs_view(basis@)[bi2]) == bi2
                                implies (#[trigger] formulas@[fi2 * nb + bi2])@
                            == provided(mv.take(j + 1), strs_view(funs@)[fi2], strs_view(basis@)[bi2]) by {
                            lemma_index_of(strs_view(funs@), m.func_name@);
                            lemma_index_of(strs_view(basis@), m.basis_elem@);
                            assert(mv.take(j + 1).drop_last() =~= mv.take(j as int));
                            assert(strs_view(funs@)[fi2] == funs@[fi2]@);
                            assert(strs_view(basis@)[bi2] == basis@[bi2]@);
                        }
                    }
                },
            }
            j = j + 1;
        }
        let r = SymbolicExistsMoves { funs, basis, formulas, missing: LogicFormula::False };
        proof {
            assert forall|fi: int, bi: int|
                0 <= fi < nf && 0 <= bi < nb
                    && index_of(r@.funs, r@.funs[fi]) == fi && index_of(r@.basis, r@.basis[bi]) == bi
                    implies #[trigger] lookup(r@, r@.basis[bi], r@.funs[fi]) == provided(mv, r@.funs[fi], r@.basis[bi]) by {
                lemma_dense_index(fi, bi, nf as int, nb as int);
                assert(mv.take(n as int) =~= mv);
            }
        }
        r
    }

    /// The operator names, in order.
    pub fn funs(&self) -> (r: &Vec<String>)
        ensures
            strs_view(r@) == self@.funs,
    {
        &self.funs
    }

    /// The basis, in order.
    pub fn basis(&self) -> (r: &Vec<String>)
        ensures
            strs_view(r@) == self@.basis,
    {
        &self.basis
    }

    /// The table as moves, operator-major: one per operator name and basis
    /// element, with its stored formula.
    pub fn to_moves(&self) -> (r: Vec<SymbolicExistsMove>)
        requires
            self.wf(),
        ensures
            r@.len() == self@.formulas.len(),
            forall|f: int, b: int| 0 <= f < self@.funs.len() && 0 <= b < self@.basis.len() ==> {
                let m = #[trigger] cell(moves_view(r@), f, b, self@.basis.len() as int);
                &&& m.func_name == self@.funs[f]
                &&& m.basis_elem == self@.basis[b]
                &&& m.formula == self@.formulas[f * self@.basis.len() + b]
            },
    {
        let mut out: Vec<SymbolicExistsMove> = Vec::new();
        let nb = self.basis.len();
        let mut f: usize = 0;
        while f < self.funs.len()
            invariant
                self.wf(),
                nb == self.basis@.len(),
                f <= self.funs@.len(),
                out@.len() == f * nb,
                forall|f2: int, b2: int| 0 <= f2 < f && 0 <= b2 < nb ==> {
                    let m = #[trigger] cell(moves_view(out@), f2, b2, nb as int);
                    &&& m.func_name == self@.funs[f2]
                    &&& m.basis_elem == self@.basis[b2]
                    &&& m.formula == self@.formulas[f2 * nb + b2]
                },
            decreases self.funs@.len() - f,
        {
            let mut b: usize = 0;
            while b < nb
                invariant
                    self.wf(),
                    nb == self.basis@.len(),
                    f < self.funs@.len(),
                    b <= nb,
                    out@.len() == f * nb + b,
                    forall|f2: int, b2: int| 0 <= f2 < f && 0 <= b2 < nb ==> {
                    let m = #[trigger] cell(moves_view(out@), f2, b2, nb as int);
                    &&& m.func_name == self@.funs[f2]
                    &&& m.basis_elem == self@.basis[b2]
                    &&& m.formula == self@.formulas[f2 * nb + b2]
                },
                    forall|b2: int| 0 <= b2 < b ==> {
                        let m = #[trigger] cell(moves_view(out@), f as int, b2, nb as int);
                        &&& m.func_name == self@.funs[f as int]
                        &&& m.basis_elem == self@.basis[b2]
                        &&& m.formula == self@.formulas[f * nb + b2]
                    },
                decreases nb - b,
            {
                proof { lemma_dense_index(f as int, b as int, self.funs@.len() as int, nb as int); }
                let len = self.formulas.len();
                proof { assert(f * nb + b < len); assert(f * nb <= f * nb + b); }
                let ghost ob = out@;
                let mv = SymbolicExistsMove {
                    formula: self.formulas[f * nb + b].copy(),
                    func_name: self.funs[f].clone(),
                    basis_elem: self.basis[b].clone(),
                };
                proof {
                    assert(self@.formulas[f * nb + b] == self.formulas@[f * nb + b]@);
                    assert(self@.funs[f as int] == self.funs@[f as int]@);
                    assert(self@.basis[b as int] == self.basis@[b as int]@);
                }
                out.push(mv);
                proof {
                    assert(moves_view(out@) =~= moves_view(ob).push(mv@));
                    assert(cell(moves_view(out@), f as int, b as int, nb as int) == mv@);
                    assert forall|f2: int, b2: int| 0 <= f2 < f && 0 <= b2 < nb implies
                        #[trigger] cell(moves_view(out@), f2, b2, nb as int) == cell(moves_view(ob), f2, b2, nb as int) by {
                        lemma_dense_index(f2, b2, f as int, nb as int);
                    }
                    assert forall|b2: int| 0 <= b2 < b implies
                        #[trigger] cell(moves_view(out@), f as int, b2, nb as int) == cell(moves_view(ob), f as int, b2, nb as int) by {
                        assert(f * nb + b2 < f * nb + b);
                    }
                }
                b = b + 1;
            }
            proof { assert((f + 1) * nb == f * nb + nb) by (nonlinear_arith); }
            f = f + 1;
            proof {
                assert forall|f2: int, b2: int| 0 <= f2 < f && 0 <= b2 < nb implies {
                    let m = #[trigger] cell(moves_view(out@), f2, b2, nb as int);
                    &&& m.func_name == self@.funs[f2]
                    &&& m.basis_elem == self@.basis[b2]
                    &&& m.formula == self@.formulas[f2 * nb + b2]
                } by {
                    if f2 == f - 1 {
                    }
                }
            }
        }
        out
    }

    /// The move of operator `fun` at basis element `basis_elem`; `False`
    /// when the pair is not in the table.
    pub fn get_formula(&self, basis_elem: &String, fun: &String) -> (r: &LogicFormula)
        requires
            self.wf(),
        ensures
            r@ == lookup(self@, basis_elem@, fun@),
    {
        let fi = position_of(&self.funs, fun);
        let bi = position_of(&self.basis, basis_elem);
        match (fi, bi) {
            (Some(fi), Some(bi)) => {
                proof {
                    lemma_index_of(strs_view(self.funs@), fun@);
                    lemma_index_of(strs_view(self.basis@), basis_elem@);
                    lemma_dense_index(fi as int, bi as int, self.funs@.len() as int, self.basis@.len() as int);
                }
                let total = self.formulas.len();
                let nb = self.basis.len();
                proof {
                    assert(fi * nb + bi < total);
                    assert(fi * nb <= fi * nb + bi);
                }
                &self.formulas[fi * nb + bi]
            },
            _ => &self.missing,
        }
    }
}

proof fn lemma_dense_unique(fi: int, bi: int, fj: int, bj: int, nb: int)
    requires
        0 <= bi < nb,
        0 <= bj < nb,
        0 <= fi,
        0 <= fj,
        fi * nb + bi == fj * nb + bj,
    ensures
        fi == fj,
        bi == bj,
{
    assert(fi == fj) by (nonlinear_arith)
        requires 0 <= bi < nb, 0 <= bj < nb, 0 <= fi, 0 <= fj, fi * nb + bi == fj * nb + bj;
}

} // verus!
