//! Parity games as fixpoint systems.
use vstd::prelude::*;
use crate::compose::{game_from_system, game_of};
use crate::fixpoint::{EqV, system_view};
use crate::formula::Formula;
use crate::moves::{StoreV, strs_view};
use crate::run::check_spec;
use crate::fixpoint::{Exp, ExpFixEq, FixEq, FixType};
use crate::moves::SymbolicExistsMoves;
use crate::solver::ParityGame;
use crate::game::Player;
use crate::normalizer::{var_name, canonical_name};

verus! {

/// A vertex of a parity game.
#[derive(Debug)]
pub struct Node {
    pub id: u32,
    pub owner: Player,
    pub parity: u32,
    pub name: String,
}

/// A parity game: each vertex with the identifiers of its successors.
#[derive(Debug)]
pub struct PG(pub Vec<(Node, Vec<u32>)>);

/// Model of a vertex with its successors.
pub struct VertexV {
    pub id: u32,
    pub owner: Player,
    pub parity: u32,
    pub name: Seq<char>,
    pub succ: Seq<u32>,
}

pub open spec fn vertex_view(v: (Node, Vec<u32>)) -> VertexV {
    VertexV { id: v.0.id, owner: v.0.owner, parity: v.0.parity, name: v.0.name@, succ: v.1@ }
}

pub open spec fn vertices_view(s: Seq<(Node, Vec<u32>)>) -> Seq<VertexV> {
    s.map_values(|v: (Node, Vec<u32>)| vertex_view(v))
}

/// `x_{s_1} ⊕ ... ⊕ x_{s_j}` over the first `j` successors, associated to
/// the left, with `⊕` a disjunction when `or` holds and a conjunction
/// otherwise.
pub open spec fn chain(succ: Seq<u32>, or: bool, j: int) -> Exp
    decreases j,
{
    if j <= 1 {
        Exp::Id(var_name(succ[0] as nat))
    } else {
        let l = chain(succ, or, j - 1);
        let r = Exp::Id(var_name(succ[j - 1] as nat));
        if or {
            Exp::Or(Box::new(l), Box::new(r))
        } else {
            Exp::And(Box::new(l), Box::new(r))
        }
    }
}

/// Even parities ask for greatest fixpoints, odd ones for least.
pub open spec fn parity_kind(parity: u32) -> FixType {
    if parity % 2 == 0 {
        FixType::Max
    } else {
        FixType::Min
    }
}

/// The equation system of a parity game, from the point of view of `p`:
/// vertex `n` gives `x_n = x_{s_1} ⊕ ... ⊕ x_{s_k}`, with `⊕` a disjunction
/// for vertices of `p` and a conjunction for the others, greatest for even
/// parities and least for odd ones.
pub fn pg_to_pbe(pg: &PG, p: Player) -> (r: Vec<FixEq>)
    requires
        forall|t: int| 0 <= t < pg.0@.len() ==> (#[trigger] pg.0@[t]).1@.len() > 0,
    ensures
        r@.len() == pg.0@.len(),
        forall|t: int| 0 <= t < r@.len() ==> {
            let v = vertex_view(pg.0@[t]);
            &&& (#[trigger] r@[t]).var@ == var_name(v.id as nat)
            &&& r@[t].fix_ty == parity_kind(v.parity)
            &&& r@[t].exp@ == chain(v.succ, v.owner == p, v.succ.len() as int)
        },
{
    let mut out: Vec<FixEq> = Vec::new();
    let mut t: usize = 0;
    while t < pg.0.len()
        invariant
            t <= pg.0@.len(),
            forall|u: int| 0 <= u < pg.0@.len() ==> (#[trigger] pg.0@[u]).1@.len() > 0,
            out@.len() == t,
            forall|u: int| 0 <= u < t ==> {
                let v = vertex_view(pg.0@[u]);
                &&& (#[trigger] out@[u]).var@ == var_name(v.id as nat)
                &&& out@[u].fix_ty == parity_kind(v.parity)
                &&& out@[u].exp@ == chain(v.succ, v.owner == p, v.succ.len() as int)
            },
        decreases pg.0@.len() - t,
    {
        let node = &pg.0[t].0;
        let succ = &pg.0[t].1;
        proof { assert(succ@.len() > 0); }
        let or = node.owner == p;
        let mut acc = ExpFixEq::Id(canonical_name(succ[0] as usize));
        let mut j: usize = 1;
        while j < succ.len()
            invariant
                1 <= j <= succ@.len(),
                acc@ == chain(succ@, or, j as int),
            decreases succ@.len() - j,
        {
            let r = ExpFixEq::Id(canonical_name(succ[j] as usize));
            proof {
                assert(r@ == Exp::Id(var_name(succ@[j as int] as nat)));
            }
            let ghost prev = acc@;
            acc = if or { ExpFixEq::Or(Box::new(acc), Box::new(r)) } else { ExpFixEq::And(Box::new(acc), Box::new(r)) };
            proof {
                assert(prev == chain(succ@, or, j as int));
                assert(chain(succ@, or, j + 1) == if or {
                    Exp::Or(Box::new(prev), Box::new(Exp::Id(var_name(succ@[j as int] as nat))))
                } else {
                    Exp::And(Box::new(prev), Box::new(Exp::Id(var_name(succ@[j as int] as nat))))
                });
            }
            j = j + 1;
        }
        let fix_ty = if node.parity % 2 == 0 { FixType::Max } else { FixType::Min };
        out.push(FixEq { var: canonical_name(node.id as usize), fix_ty, exp: acc });
        t = t + 1;
    }
    out
}

/// Sorts the vertices by parity, ascending, keeping the order of vertices
/// of equal parity.
pub fn sort_by_parity(pg: PG) -> (r: PG)
    ensures
        vertices_view(r.0@).to_multiset() == vertices_view(pg.0@).to_multiset(),
        forall|a: int, b: int| 0 <= a < b < r.0@.len() ==> r.0@[a].0.parity <= r.0@[b].0.parity,
{
    let ghost input = vertices_view(pg.0@);
    let mut rest = pg.0;
    let mut out: Vec<(Node, Vec<u32>)> = Vec::new();
    proof {
        vstd::seq_lib::to_multiset_len(vertices_view(out@));
        vstd::multiset::lemma_multiset_empty_len(vertices_view(out@).to_multiset());
        assert(vertices_view(out@).to_multiset().add(vertices_view(rest@).to_multiset()) =~= input.to_multiset());
    }
    while rest.len() > 0
        invariant
            vertices_view(out@).to_multiset().add(vertices_view(rest@).to_multiset()) == input.to_multiset(),
            forall|a: int, b: int| 0 <= a < b < out@.len() ==> out@[a].0.parity <= out@[b].0.parity,
            forall|a: int, b: int| 0 <= a < out@.len() && 0 <= b < rest@.len() ==> out@[a].0.parity <= rest@[b].0.parity,
        decreases rest@.len(),
    {
        let mut best: usize = 0;
        let mut j: usize = 1;
        while j < rest.len()
            invariant
                rest@.len() > 0,
                best < j <= rest@.len(),
                forall|u: int| 0 <= u < j ==> rest@[best as int].0.parity <= (#[trigger] rest@[u]).0.parity,
            decreases rest@.len() - j,
        {
            if rest[j].0.parity < rest[best].0.parity {
                best = j;
            }
            j = j + 1;
        }
        let ghost rv = vertices_view(rest@);
        let ghost ov = vertices_view(out@);
        let ghost before = rest@;
        let x = rest.remove(best);
        proof {
            assert(vertices_view(rest@) =~= rv.remove(best as int));
            vstd::seq_lib::to_multiset_remove(rv, best as int);
            assert(rv[best as int] == vertex_view(x));
            assert forall|b: int| 0 <= b < rest@.len() implies x.0.parity <= (#[trigger] rest@[b]).0.parity by {
                if b < best {
                    assert(rest@[b] == before[b]);
                } else {
                    assert(rest@[b] == before[b + 1]);
                }
            }
        }
        out.push(x);
        proof {
            assert(vertices_view(out@) =~= ov.push(vertex_view(x)));
            vstd::seq_lib::to_multiset_build(ov, vertex_view(x));
            vstd::seq_lib::to_multiset_contains(rv, vertex_view(x));
            assert(rv.contains(vertex_view(x))) by {
                assert(rv[best as int] == vertex_view(x));
            }
            assert(vertices_view(out@).to_multiset().add(vertices_view(rest@).to_multiset()) =~= input.to_multiset());
            assert forall|a: int, b: int| 0 <= a < out@.len() && 0 <= b < rest@.len() implies out@[a].0.parity <= rest@[b].0.parity by {
                if a < out@.len() - 1 {
                    assert(rest@[b] == before[if b < best { b } else { b + 1 }]);
                }
            }
        }
    }
    proof {
        vstd::seq_lib::to_multiset_len(vertices_view(rest@));
        vstd::multiset::lemma_multiset_empty_len(vertices_view(rest@).to_multiset());
        assert(vertices_view(out@).to_multiset() =~= input.to_multiset());
    }
    PG(out)
}

/// The equations [`pg_to_pbe`] gives for vertices `vs` from the point of
/// view of `p`.
pub open spec fn pg_system(vs: Seq<VertexV>, p: Player) -> Seq<EqV> {
    Seq::new(
        vs.len(),
        |t: int| EqV { var: var_name(vs[t].id as nat), fix_ty: parity_kind(vs[t].parity), exp: chain(vs[t].succ, vs[t].owner == p, vs[t].succ.len() as int) },
    )
}

/// The name `true` of the one basis element of a parity game.
pub open spec fn true_name() -> Seq<char> {
    seq!['t', 'r', 'u', 'e']
}

/// The store with no operator over the basis `true`.
pub open spec fn true_store() -> StoreV {
    StoreV { funs: Seq::empty(), basis: seq![true_name()], formulas: Seq::empty() }
}

/// A parity game with a start vertex, its vertices sorted by parity.
pub struct ParityGameSpec {
    pg: PG,
    node: String,
    position: usize,
}

impl ParityGameSpec {
    /// The start vertex is a vertex of the game.
    pub closed spec fn wf(&self) -> bool {
        self.position < self.pg.0@.len()
    }
}

impl ParityGameSpec {
    /// Sorts the game's vertices by parity and locates the start vertex by
    /// name; `None` when no vertex has that name.
    pub fn new(pg: PG, node: String) -> (r: Option<ParityGameSpec>)
        ensures
            r is Some ==> r->0.wf() && r->0.position() < r->0.pg().0@.len(),
            r is Some ==> r->0.pg().0@[r->0.position() as int].0.name@ == node@,
            r is Some ==> forall|u: int| 0 <= u < r->0.position() ==> (#[trigger] r->0.pg().0@[u]).0.name@ != node@,
            r is Some ==> vertices_view(r->0.pg().0@).to_multiset() == vertices_view(pg.0@).to_multiset(),
            r is Some ==> forall|a: int, b: int|
                0 <= a < b < r->0.pg().0@.len() ==> r->0.pg().0@[a].0.parity <= r->0.pg().0@[b].0.parity,
            r is None ==> forall|u: int| 0 <= u < pg.0@.len() ==> (#[trigger] pg.0@[u]).0.name@ != node@,
    {
        let ghost orig = vertices_view(pg.0@);
        let sorted = sort_by_parity(pg);
        let mut j: usize = 0;
        while j < sorted.0.len()
            invariant
                j <= sorted.0@.len(),
                forall|u: int| 0 <= u < j ==> (#[trigger] sorted.0@[u]).0.name@ != node@,
                vertices_view(sorted.0@).to_multiset() == orig.to_multiset(),
                orig == vertices_view(pg.0@),
                forall|a: int, b: int| 0 <= a < b < sorted.0@.len() ==> sorted.0@[a].0.parity <= sorted.0@[b].0.parity,
            decreases sorted.0@.len() - j,
        {
            if sorted.0[j].0.name == node {
                return Some(ParityGameSpec { pg: sorted, node, position: j });
            }
            j = j + 1;
        }
        proof {
            assert forall|u: int| 0 <= u < orig.len() implies orig[u].name != node@ by {
                vstd::seq_lib::to_multiset_contains(orig, orig[u]);
                assert(orig.contains(orig[u]));
                vstd::seq_lib::to_multiset_contains(vertices_view(sorted.0@), orig[u]);
                let w = choose|w: int| 0 <= w < sorted.0@.len() && vertices_view(sorted.0@)[w] == orig[u];
                assert(vertices_view(sorted.0@)[w] == vertex_view(sorted.0@[w]));
            }
            assert forall|u: int| 0 <= u < pg.0@.len() implies (#[trigger] pg.0@[u]).0.name@ != node@ by {
                assert(orig[u] == vertex_view(pg.0@[u]));
            }
        }
        None
    }

    pub closed spec fn pg(&self) -> PG {
        self.pg
    }

    pub closed spec fn position(&self) -> usize {
        self.position
    }

    /// The vertices, sorted by parity.
    pub fn game(&self) -> (r: &PG)
        ensures
            r == self.pg(),
    {
        &self.pg
    }

    /// The index of the start vertex among the sorted vertices.
    pub fn start(&self) -> (r: usize)
        ensures
            r == self.position(),
    {
        self.position
    }

    /// The winner from the start vertex of the game whose equations are
    /// [`pg_to_pbe`] for Eve, over the one-element basis `true` with no
    /// operator moves: the winner of `Eve(true, i)`, `i` being the start
    /// vertex's equation. `None` when a vertex has no successor, or the
    /// solver gives no answer (see `local_check`).
    pub fn verify(&self) -> (r: Option<Player>)
        requires
            self.wf(),
        ensures
            (exists|t: int| 0 <= t < self.pg().0@.len() && (#[trigger] self.pg().0@[t]).1@.len() == 0) ==> r is None,
            (forall|t: int| 0 <= t < self.pg().0@.len() ==> (#[trigger] self.pg().0@[t]).1@.len() > 0) ==> r == check_spec(
                game_of(pg_system(vertices_view(self.pg().0@), Player::Eve), true_store(), seq![true_name()]),
                true_name(),
                (self.position() + 1) as usize,
            ),
    {
        let n = self.pg.0.len();
        let mut j: usize = 0;
        while j < n
            invariant
                j <= n == self.pg.0@.len(),
                forall|u: int| 0 <= u < j ==> (#[trigger] self.pg.0@[u]).1@.len() > 0,
            decreases n - j,
        {
            if self.pg.0[j].1.len() == 0 {
                return None;
            }
            j = j + 1;
        }
        let system = pg_to_pbe(&self.pg, Player::Eve);
        proof {
            reveal_strlit("true");
            assert(system_view(system@) =~= pg_system(vertices_view(self.pg.0@), Player::Eve));
        }
        let basis = vec!["true".to_owned()];
        let b2 = vec!["true".to_owned()];
        proof {
            assert("true"@ =~= true_name());
            assert(strs_view(b2@) =~= seq![true_name()]);
        }
        let store = SymbolicExistsMoves::new(Vec::new(), Vec::new(), b2);
        proof {
            assert(store@.funs =~= Seq::<Seq<char>>::empty());
            assert(store@.basis =~= seq![true_name()]);
            assert(store@.formulas =~= Seq::<Formula>::empty());
            assert(strs_view(basis@) =~= seq![true_name()]);
        }
        let game = game_from_system(&system, &store, basis);
        let name = "true".to_owned();
        proof { assert(name@ =~= true_name()); }
        game.local_check(&name, self.position + 1)
    }


    /// The name of the start vertex.
    pub fn node(&self) -> (r: &String)
    {
        &self.node
    }
}

} // verus!
