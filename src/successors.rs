//! The full enumeration of Eve's moves from a formula.
use vstd::prelude::*;
use itertools::Itertools;
use crate::formula::{Formula, LogicFormula, lemma_views_conj, views};
use crate::game::{AdamPos, bitmap_view, bitmap_wf, copy_row};
use crate::moves::{lemma_index_of, position_of};
use crate::solver::{ParityGame, atom_pos, empty_bitmap, set_bit};

verus! {

/// The cartesian product of the lists, in lexicographic order (the last
/// list varies fastest): one empty combination for no list, none when a
/// list is empty.
pub open spec fn product(s: Seq<Seq<usize>>) -> Seq<Seq<usize>>
    decreases s.len(),
{
    if s.len() == 0 {
        seq![Seq::empty()]
    } else {
        let p = product(s.drop_last());
        let l = s.last();
        Seq::new(p.len() * l.len(), |t: int| p[t / l.len() as int].push(l[t % l.len() as int]))
    }
}

pub open spec fn nested_view(v: Seq<Vec<usize>>) -> Seq<Seq<usize>> {
    v.map_values(|x: Vec<usize>| x@)
}

/// Relies on itertools' `multi_cartesian_product`: the combinations of one
/// element of each list, in lexicographic order with the last list varying
/// fastest; a single empty combination for no list, and none as soon as one
/// list is empty (as its documentation states).
#[verifier::external_body]
fn cartesian(lists: Vec<Vec<usize>>) -> (r: Vec<Vec<usize>>)
    ensures
        nested_view(r@) == product(nested_view(lists@)),
{
    lists.into_iter().multi_cartesian_product().collect()
}

/// The pointwise union of two Adam positions of `m` rows.
pub open spec fn union(a: Seq<Seq<bool>>, b: Seq<Seq<bool>>) -> Seq<Seq<bool>> {
    Seq::new(a.len(), |j: int| Seq::new(a[j].len(), |t: int| a[j][t] || b[j][t]))
}

/// The union of the positions picked by combination `c` among the first
/// `j` lists `cs`, starting from `x`.
pub open spec fn union_picks(cs: Seq<Seq<Seq<Seq<bool>>>>, c: Seq<usize>, j: int, x: Seq<Seq<bool>>) -> Seq<Seq<bool>>
    decreases j,
{
    if j <= 0 {
        x
    } else {
        union(union_picks(cs, c, j - 1, x), cs[j - 1][c[j - 1] as int])
    }
}

/// The indices of a list of length `n`.
pub open spec fn indices(n: nat) -> Seq<usize> {
    Seq::new(n, |t: int| t as usize)
}

/// The successors of an Eve position whose formula is `f`, as Adam
/// positions: none for `False`; the empty position for `True`; for an atom
/// `[b, i]` the position with `b` alone in row `i`; for a conjunction the
/// unions of one successor of each child, in lexicographic order; for a
/// disjunction the successors of its children one after the other.
pub open spec fn succs(g: crate::solver::GameV, f: Formula) -> Seq<Seq<Seq<bool>>>
    decreases f, 1int,
{
    let e0 = empty_bitmap(g.fix.len(), g.basis.len());
    match f {
        Formula::False => Seq::empty(),
        Formula::True => seq![e0],
        Formula::Atom(b, i) => match atom_pos(g, b, i) {
            Some(e) => seq![set_bit(e0, e)],
            None => seq![e0],
        },
        Formula::Conj(_) => {
            let cs = succ_children(g, f);
            let combos = product(Seq::new(cs.len(), |j: int| indices(cs[j].len())));
            Seq::new(combos.len(), |t: int| union_picks(cs, combos[t], cs.len() as int, e0))
        },
        Formula::Disj(_) => succ_children(g, f).flatten(),
    }
}

pub open spec fn succ_children(g: crate::solver::GameV, f: Formula) -> Seq<Seq<Seq<Seq<bool>>>>
    decreases f, 0int,
{
    match f {
        Formula::Conj(xs) | Formula::Disj(xs) => Seq::new(
            xs.len(),
            |j: int| if 0 <= j < xs.len() { succs(g, xs[j]) } else { Seq::empty() },
        ),
        _ => Seq::empty(),
    }
}

/// Each combination of `product(s)` picks, in order, one element of each
/// list of `s`.
pub proof fn lemma_product_picks(s: Seq<Seq<usize>>)
    ensures
        forall|t: int| 0 <= t < product(s).len() ==> {
            &&& (#[trigger] product(s)[t]).len() == s.len()
            &&& forall|j: int| 0 <= j < s.len() ==> s[j].contains(product(s)[t][j])
        },
    decreases s.len(),
{
    if s.len() > 0 {
        let p = product(s.drop_last());
        let l = s.last();
        lemma_product_picks(s.drop_last());
        assert forall|t: int| 0 <= t < product(s).len() implies {
            &&& (#[trigger] product(s)[t]).len() == s.len()
            &&& forall|j: int| 0 <= j < s.len() ==> s[j].contains(product(s)[t][j])
        } by {
            let L = l.len() as int;
            assert(t < p.len() * L);
            assert(L > 0) by {
                if L == 0 {
                    assert(p.len() * L == 0) by (nonlinear_arith) requires L == 0;
                }
            }
            vstd::arithmetic::div_mod::lemma_fundamental_div_mod(t, L);
            vstd::arithmetic::div_mod::lemma_mod_pos_bound(t, L);
            vstd::arithmetic::div_mod::lemma_div_pos_is_pos(t, L);
            let q = t / L;
            assert(q < p.len()) by (nonlinear_arith)
                requires t == L * q + t % L, 0 <= t % L, t < p.len() * L, L > 0;
            let c = product(s)[t];
            assert(c == p[q].push(l[t % L]));
            assert forall|j: int| 0 <= j < s.len() implies s[j].contains(c[j]) by {
                if j < s.len() - 1 {
                    assert(s.drop_last()[j] == s[j]);
                    assert(c[j] == p[q][j]);
                } else {
                    assert(c[j] == l[t % L]);
                }
            }
        }
    }
}

pub open spec fn lists_view(s: Seq<Vec<Vec<bool>>>) -> Seq<Seq<Seq<bool>>> {
    s.map_values(|x: Vec<Vec<bool>>| bitmap_view(x@))
}

/// Positions of a game with `m` equations over `n` basis elements.
pub open spec fn all_wf(s: Seq<Seq<Seq<bool>>>, m: nat, n: nat) -> bool {
    forall|t: int| 0 <= t < s.len() ==> bitmap_wf(#[trigger] s[t], m, n)
}

fn copy_bitmap(x: &Vec<Vec<bool>>) -> (r: Vec<Vec<bool>>)
    ensures
        bitmap_view(r@) == bitmap_view(x@),
{
    let mut out: Vec<Vec<bool>> = Vec::new();
    let mut j: usize = 0;
    while j < x.len()
        invariant
            j <= x@.len(),
            bitmap_view(out@) == bitmap_view(x@).take(j as int),
        decreases x@.len() - j,
    {
        let row = copy_row(&x[j]);
        let ghost before = out@;
        out.push(row);
        j = j + 1;
        proof {
            assert(bitmap_view(out@) =~= bitmap_view(before).push(row@));
            assert(bitmap_view(out@) =~= bitmap_view(x@).take(j as int));
        }
    }
    proof { assert(bitmap_view(x@).take(x@.len() as int) =~= bitmap_view(x@)); }
    out
}

/// Adds the elements of `y` to `x`, row by row.
fn union_into(x: &mut Vec<Vec<bool>>, y: &Vec<Vec<bool>>, m: usize, n: usize)
    requires
        bitmap_wf(bitmap_view(old(x)@), m as nat, n as nat),
        bitmap_wf(bitmap_view(y@), m as nat, n as nat),
    ensures
        bitmap_view(final(x)@) == union(bitmap_view(old(x)@), bitmap_view(y@)),
        bitmap_wf(bitmap_view(final(x)@), m as nat, n as nat),
{
    let ghost x0 = bitmap_view(x@);
    let ghost yv = bitmap_view(y@);
    let mut j: usize = 0;
    while j < m
        invariant
            j <= m,
            x0.len() == m,
            yv.len() == m,
            forall|u: int| 0 <= u < m ==> (#[trigger] x0[u]).len() == n && yv[u].len() == n,
            yv == bitmap_view(y@),
            bitmap_view(x@).len() == m,
            forall|u: int| 0 <= u < j ==> (#[trigger] bitmap_view(x@)[u]) == union(x0, yv)[u],
            forall|u: int| j <= u < m ==> (#[trigger] bitmap_view(x@)[u]) == x0[u],
        decreases m - j,
    {
        proof {
            assert(bitmap_view(x@)[j as int] == x@[j as int]@);
            assert(yv[j as int] == y@[j as int]@);
        }
        let mut row = copy_row(&x[j]);
        let mut t: usize = 0;
        while t < n
            invariant
                t <= n,
                j < m,
                row@.len() == n,
                y@.len() == m,
                y@[j as int]@.len() == n,
                forall|u: int| 0 <= u < t ==> row@[u] == (x0[j as int][u] || yv[j as int][u]),
                forall|u: int| t <= u < n ==> row@[u] == x0[j as int][u],
                yv[j as int] == y@[j as int]@,
            decreases n - t,
        {
            if y[j][t] {
                row.set(t, true);
            }
            t = t + 1;
        }
        let ghost before = x@;
        x.set(j, row);
        proof {
            assert(row@ =~= union(x0, yv)[j as int]);
            assert forall|u: int| 0 <= u < j + 1 implies (#[trigger] bitmap_view(x@)[u]) == union(x0, yv)[u] by {
                assert(bitmap_view(x@)[u] == x@[u]@);
                if u < j {
                    assert(x@[u] == before[u]);
                    assert(bitmap_view(before)[u] == before[u]@);
                }
            }
            assert forall|u: int| j + 1 <= u < m implies (#[trigger] bitmap_view(x@)[u]) == x0[u] by {
                assert(bitmap_view(x@)[u] == x@[u]@);
                assert(x@[u] == before[u]);
                assert(bitmap_view(before)[u] == before[u]@);
            }
        }
        j = j + 1;
    }
    proof {
        assert(bitmap_view(x@) =~= union(x0, yv));
    }
}

impl ParityGame {
    /// The successors of an Eve position whose formula is `f` (see
    /// [`succs`]), as bitmaps.
    fn succ_list(&self, f: &LogicFormula) -> (r: Vec<Vec<Vec<bool>>>)
        requires
            self.m() <= usize::MAX,
            self.n() <= usize::MAX,
        ensures
            lists_view(r@) == succs(self@, f@),
            all_wf(lists_view(r@), self.m(), self.n()),
        decreases f, 1int,
    {
        let m = self.fix_types().len();
        let n = self.basis().len();
        let mut out: Vec<Vec<Vec<bool>>> = Vec::new();
        match f {
            LogicFormula::False => {
                proof { assert(lists_view(out@) =~= Seq::<Seq<Seq<bool>>>::empty()); }
                out
            },
            LogicFormula::True => {
                out.push(self.empty_position());
                proof { assert(lists_view(out@) =~= succs(self@, f@)); }
                out
            },
            LogicFormula::BasisElem(b, i) => {
                let mut x = self.empty_position();
                proof { lemma_index_of(self@.basis, b@); }
                match position_of(self.basis(), b) {
                    Some(bi) => {
                        if 1 <= *i && *i <= m {
                            let ghost before = bitmap_view(x@);
                            let mut row = copy_row(&x[*i - 1]);
                            proof { assert(before[*i - 1] == row@); }
                            row.set(bi, true);
                            x.set(*i - 1, row);
                            proof {
                                assert(bitmap_view(x@) =~= set_bit(before, crate::game::EvePos { b: bi, i: *i }));
                            }
                        }
                    },
                    None => {},
                }
                out.push(x);
                proof { assert(lists_view(out@) =~= succs(self@, f@)); }
                out
            },
            LogicFormula::Disj(xs) => {
                let cs = self.succ_each(f);
                proof { lemma_views_conj(*xs); }
                let ghost csv = succ_children(self@, f@);
                let mut j: usize = 0;
                while j < cs.len()
                    invariant
                        j <= cs@.len() == csv.len(),
                        csv == succ_children(self@, f@),
                        forall|u: int| 0 <= u < cs@.len() ==> lists_view((#[trigger] cs@[u])@) == csv[u],
                        forall|u: int| 0 <= u < csv.len() ==> all_wf(#[trigger] csv[u], self.m(), self.n()),
                        lists_view(out@) == csv.take(j as int).flatten(),
                        all_wf(lists_view(out@), self.m(), self.n()),
                    decreases cs@.len() - j,
                {
                    let list = &cs[j];
                    let mut t: usize = 0;
                    let ghost base = lists_view(out@);
                    while t < list.len()
                        invariant
                            t <= list@.len(),
                            j < csv.len(),
                            lists_view(list@) == csv[j as int],
                            all_wf(csv[j as int], self.m(), self.n()),
                            lists_view(out@) == base + csv[j as int].take(t as int),
                            all_wf(base, self.m(), self.n()),
                        decreases list@.len() - t,
                    {
                        let x = copy_bitmap(&list[t]);
                        let ghost b2 = out@;
                        out.push(x);
                        proof {
                            assert(lists_view(list@)[t as int] == bitmap_view(list@[t as int]@));
                            assert(lists_view(out@) =~= lists_view(b2).push(bitmap_view(x@)));
                            assert(lists_view(out@) =~= base + csv[j as int].take(t + 1));
                        }
                        t = t + 1;
                    }
                    proof {
                        assert(csv[j as int].take(list@.len() as int) =~= csv[j as int]);
                        assert(csv.take(j + 1) =~= csv.take(j as int).push(csv[j as int]));
                        csv.take(j as int).lemma_flatten_push(csv[j as int]);
                        assert forall|u: int| 0 <= u < lists_view(out@).len() implies bitmap_wf(#[trigger] lists_view(out@)[u], self.m(), self.n()) by {
                            if u >= base.len() {
                                assert(lists_view(out@)[u] == csv[j as int][u - base.len()]);
                            } else {
                                assert(lists_view(out@)[u] == base[u]);
                            }
                        }
                    }
                    j = j + 1;
                }
                proof { assert(csv.take(csv.len() as int) =~= csv); }
                out
            },
            LogicFormula::Conj(xs) => {
                let cs = self.succ_each(f);
                proof { lemma_views_conj(*xs); }
                let ghost csv = succ_children(self@, f@);
                let mut lists: Vec<Vec<usize>> = Vec::new();
                let mut j: usize = 0;
                while j < cs.len()
                    invariant
                        j <= cs@.len() == csv.len(),
                        forall|u: int| 0 <= u < cs@.len() ==> lists_view((#[trigger] cs@[u])@) == csv[u],
                        nested_view(lists@) == Seq::new(j as nat, |u: int| indices(csv[u].len())),
                    decreases cs@.len() - j,
                {
                    let mut idx: Vec<usize> = Vec::new();
                    let mut t: usize = 0;
                    let len = cs[j].len();
                    proof { assert(lists_view(cs@[j as int]@).len() == len); }
                    while t < len
                        invariant
                            t <= len,
                            idx@ == Seq::new(t as nat, |u: int| u as usize),
                        decreases len - t,
                    {
                        idx.push(t);
                        t = t + 1;
                        proof { assert(idx@ =~= Seq::new(t as nat, |u: int| u as usize)); }
                    }
                    let ghost before = lists@;
                    lists.push(idx);
                    j = j + 1;
                    proof {
                        assert(idx@ =~= indices(csv[j - 1].len()));
                        assert(nested_view(lists@) =~= nested_view(before).push(idx@));
                        assert(nested_view(lists@) =~= Seq::new(j as nat, |u: int| indices(csv[u].len())));
                    }
                }
                let ghost lv = nested_view(lists@);
                proof { assert(lv =~= Seq::new(csv.len(), |u: int| indices(csv[u].len()))); }
                let combos = cartesian(lists);
                let ghost cv = nested_view(combos@);
                proof { lemma_product_picks(lv); }
                let ghost e0 = empty_bitmap(self.m(), self.n());
                let mut t: usize = 0;
                while t < combos.len()
                    invariant
                        t <= combos@.len() == cv.len(),
                        cv == nested_view(combos@),
                        cv == product(lv),
                        lv == Seq::new(csv.len(), |u: int| indices(csv[u].len())),
                        lv.len() == cs@.len() == csv.len(),
                        forall|u: int| 0 <= u < cs@.len() ==> lists_view((#[trigger] cs@[u])@) == csv[u],
                        forall|u: int| 0 <= u < csv.len() ==> all_wf(#[trigger] csv[u], self.m(), self.n()),
                        forall|w: int| 0 <= w < cv.len() ==> {
                            &&& (#[trigger] cv[w]).len() == lv.len()
                            &&& forall|u: int| 0 <= u < lv.len() ==> lv[u].contains(cv[w][u])
                        },
                        e0 == empty_bitmap(self.m(), self.n()),
                        m == self.m(),
                        n == self.n(),
                        lists_view(out@) == Seq::new(t as nat, |w: int| union_picks(csv, cv[w], csv.len() as int, e0)),
                        all_wf(lists_view(out@), self.m(), self.n()),
                    decreases combos@.len() - t,
                {
                    let c = &combos[t];
                    proof { assert(cv[t as int] == c@); }
                    let mut x = self.empty_position();
                    let mut j: usize = 0;
                    while j < cs.len()
                        invariant
                            j <= cs@.len() == csv.len() == lv.len(),
                            c@.len() == lv.len(),
                            forall|u: int| 0 <= u < lv.len() ==> lv[u].contains(c@[u]),
                            lv == Seq::new(csv.len(), |u: int| indices(csv[u].len())),
                            forall|u: int| 0 <= u < cs@.len() ==> lists_view((#[trigger] cs@[u])@) == csv[u],
                            forall|u: int| 0 <= u < csv.len() ==> all_wf(#[trigger] csv[u], self.m(), self.n()),
                            bitmap_view(x@) == union_picks(csv, c@, j as int, e0),
                            bitmap_wf(bitmap_view(x@), self.m(), self.n()),
                            m == self.m(),
                            n == self.n(),
                        decreases cs@.len() - j,
                    {
                        let k = c[j];
                        proof {
                            let w = choose|w: int| 0 <= w < lv[j as int].len() && lv[j as int][w] == c@[j as int];
                            assert(lists_view(cs@[j as int]@) == csv[j as int]);
                            assert(k < cs@[j as int]@.len());
                            assert(csv[j as int][k as int] == bitmap_view(cs@[j as int]@[k as int]@));
                            assert(bitmap_wf(csv[j as int][k as int], self.m(), self.n()));
                        }
                        union_into(&mut x, &cs[j][k], m, n);
                        j = j + 1;
                    }
                    let ghost b2 = out@;
                    out.push(x);
                    proof {
                        assert(lists_view(out@) =~= lists_view(b2).push(bitmap_view(x@)));
                        assert(lists_view(out@) =~= Seq::new((t + 1) as nat, |w: int| union_picks(csv, cv[w], csv.len() as int, e0)));
                    }
                    t = t + 1;
                }
                proof { assert(lists_view(out@) =~= succs(self@, f@)); }
                out
            },
        }
    }

    fn succ_each(&self, f: &LogicFormula) -> (r: Vec<Vec<Vec<Vec<bool>>>>)
        requires
            self.m() <= usize::MAX,
            self.n() <= usize::MAX,
        ensures
            r@.len() == succ_children(self@, f@).len(),
            forall|u: int| 0 <= u < r@.len() ==> lists_view((#[trigger] r@[u])@) == succ_children(self@, f@)[u],
            forall|u: int| 0 <= u < r@.len() ==> all_wf(#[trigger] succ_children(self@, f@)[u], self.m(), self.n()),
        decreases f, 0int,
    {
        let mut out: Vec<Vec<Vec<Vec<bool>>>> = Vec::new();
        match f {
            LogicFormula::Conj(xs) | LogicFormula::Disj(xs) => {
                proof { lemma_views_conj(*xs); assert(decreases_to!(*f => *xs)); }
                let ghost target = succ_children(self@, f@);
                let mut j: usize = 0;
                while j < xs.len()
                    invariant
                        j <= xs@.len(),
                        self.m() <= usize::MAX,
                        self.n() <= usize::MAX,
                        target == succ_children(self@, f@),
                        f@ == Formula::Conj(views(xs@)) || f@ == Formula::Disj(views(xs@)),
                        *f == LogicFormula::Conj(*xs) || *f == LogicFormula::Disj(*xs),
                        decreases_to!(*f => *xs),
                        target.len() == xs@.len(),
                        out@.len() == j,
                        forall|u: int| 0 <= u < j ==> lists_view((#[trigger] out@[u])@) == target[u],
                        forall|u: int| 0 <= u < j ==> all_wf(#[trigger] target[u], self.m(), self.n()),
                    decreases xs@.len() - j,
                {
                    proof {
                        assert(views(xs@)[j as int] == xs@[j as int]@);
                        vstd::std_specs::vec::axiom_vec_index_decreases(*xs, j as int);
                    }
                    let l = self.succ_list(&xs[j]);
                    out.push(l);
                    proof {
                        assert(target[j as int] == succs(self@, xs@[j as int]@));
                    }
                    j = j + 1;
                }
                out
            },
            _ => out,
        }
    }

    /// All successors of an Eve position whose formula is `f`, in order (see
    /// [`succs`]); `None` when `f` is `False`.
    pub fn existential_move(&self, f: &LogicFormula) -> (r: Option<Vec<AdamPos>>)
        ensures
            r is None <==> f@ == Formula::False,
            r is Some ==> r->0@.len() == succs(self@, f@).len(),
            r is Some ==> forall|t: int| 0 <= t < r->0@.len() ==> bitmap_view((#[trigger] r->0@[t]).x@) == succs(self@, f@)[t],
    {
        if crate::formula::is_false(f) {
            return None;
        }
        let m = self.fix_types().len();
        let n = self.basis().len();
        let mut list = self.succ_list(f);
        let ghost lv = lists_view(list@);
        let mut out: Vec<AdamPos> = Vec::new();
        let mut rest = list;
        let mut t: usize = 0;
        let total = rest.len();
        while t < total
            invariant
                t <= total == lv.len(),
                rest@.len() == total - t,
                forall|u: int| 0 <= u < rest@.len() ==> bitmap_view((#[trigger] rest@[u])@) == lv[t + u],
                out@.len() == t,
                forall|u: int| 0 <= u < t ==> bitmap_view((#[trigger] out@[u]).x@) == lv[u],
            decreases total - t,
        {
            let ghost before = rest@;
            let x = rest.remove(0);
            proof {
                assert forall|u: int| 0 <= u < rest@.len() implies bitmap_view((#[trigger] rest@[u])@) == lv[t + 1 + u] by {
                    assert(rest@[u] == before[u + 1]);
                }
            }
            out.push(AdamPos { x });
            t = t + 1;
        }
        Some(out)
    }
}

} // verus!
