//! The local solver: explores the symbolic parity game from a position and
//! decides its winner, with assumptions, decisions and forgetting.
use vstd::prelude::*;
use crate::counter::{Counter, lt_eve, lt_eve_exec, lt_p, leq_p_spec, next_spec};
use crate::fixpoint::{FixEq, FixType};
use crate::formula::{Formula, LogicFormula, simp, simplify, views, lemma_views_conj, is_false};
use crate::game::{
    AdamPos, EvePos, Player, PosV, Position, bitmap_view, bitmap_wf, controller, copy_row, opponent, pos_wf,
    priority_spec,
};
use crate::run::{check_spec, init_state, run, entry_view, data_of, explore_spec, backtrack_spec, decide_spec, lemma_forgotten_unique, record_spec, cycle_hit, first_hit, lemma_first_hit, na_view, apply_asm, apply_asm_children, atom_asm};
use crate::moves::{SymbolicExistsMoveComposed, index_of, lemma_index_of, position_of, strs_view};
use crate::tables::{
    AltMoves, Assumptions, Decisions, PlayData, PlayV, Playlist, PlaylistEntry, decided_for, entries_wf, first_at,
    lemma_first_at, lemma_remove_key, pl_data, play_wf, remove_key, times_increasing, times_upto, find_key,
    lemma_key_index, keys_unique,
};

verus! {

/// The symbolic parity game of a system: the fixpoint kinds of its `m`
/// equations, the basis of `n` elements and the composed moves, laid out
/// equation-major.
pub struct ParityGame {
    fix_types: Vec<FixType>,
    basis: Vec<String>,
    moves: Vec<LogicFormula>,
}

/// Model of the game: fixpoint kinds, basis and composed moves.
pub struct GameV {
    pub fix: Seq<FixType>,
    pub basis: Seq<Seq<char>>,
    pub moves: Seq<Formula>,
}

impl View for ParityGame {
    type V = GameV;

    closed spec fn view(&self) -> GameV {
        GameV { fix: self.fix_types@, basis: strs_view(self.basis@), moves: views(self.moves@) }
    }
}

/// The composed move of Eve position `e`.
pub open spec fn move_of(g: GameV, e: EvePos) -> Formula {
    g.moves[(e.i - 1) * g.basis.len() + e.b]
}

/// The Eve position named by atom `[b, i]`, if `b` is in the basis and `i`
/// an equation index.
pub open spec fn atom_pos(g: GameV, b: Seq<char>, i: usize) -> Option<EvePos> {
    let bi = index_of(g.basis, b);
    if bi >= 0 && 1 <= i <= g.fix.len() {
        Some(EvePos { b: bi as usize, i })
    } else {
        None
    }
}

/// Eve position of a game with `m` equations over `n` basis elements.
pub open spec fn eve_wf(e: EvePos, m: nat, n: nat) -> bool {
    e.b < n && 1 <= e.i <= m
}

/// The bitmap with no element.
pub open spec fn empty_bitmap(m: nat, n: nat) -> Seq<Seq<bool>> {
    Seq::new(m, |j: int| Seq::new(n, |t: int| false))
}

/// `x` with basis element `e.b` added to row `e.i`.
pub open spec fn set_bit(x: Seq<Seq<bool>>, e: EvePos) -> Seq<Seq<bool>> {
    x.update(e.i - 1, x[e.i - 1].update(e.b as int, true))
}

/// Adds to `x` the elements of the first next-move of `f`: an atom adds its
/// element, a conjunction the elements of all its children, a disjunction
/// those of its first child.
pub open spec fn nm_add(g: GameV, f: Formula, x: Seq<Seq<bool>>) -> Seq<Seq<bool>>
    decreases f, 1int, 0int,
{
    match f {
        Formula::Atom(b, i) => match atom_pos(g, b, i) {
            Some(e) => set_bit(x, e),
            None => x,
        },
        Formula::Conj(xs) => nm_add_all(g, f, x, xs.len() as int),
        Formula::Disj(xs) => if xs.len() > 0 {
            nm_add(g, xs[0], x)
        } else {
            x
        },
        _ => x,
    }
}

/// Adds to `x` the next-moves of the first `j` children of `f`.
pub open spec fn nm_add_all(g: GameV, f: Formula, x: Seq<Seq<bool>>, j: int) -> Seq<Seq<bool>>
    decreases f, 0int, j,
{
    match f {
        Formula::Conj(xs) => if j <= 0 || j > xs.len() {
            x
        } else {
            nm_add(g, xs[j - 1], nm_add_all(g, f, x, j - 1))
        },
        _ => x,
    }
}

/// The first next-move of `f`: none for `False`, else the Adam position
/// built by [`nm_add`] from the empty one.
pub open spec fn next_move_spec(g: GameV, f: Formula) -> Option<Seq<Seq<bool>>> {
    if f == Formula::False {
        None
    } else {
        Some(nm_add(g, f, empty_bitmap(g.fix.len(), g.basis.len())))
    }
}

/// The Eve successors `(b, i)` of row `i` of an Adam position among its
/// first `t` basis elements, in basis order.
pub open spec fn row_succ(row: Seq<bool>, i: usize, t: int) -> Seq<EvePos>
    decreases t,
{
    if t <= 0 {
        Seq::empty()
    } else {
        row_succ(row, i, t - 1) + if row[t - 1] {
            seq![EvePos { b: (t - 1) as usize, i }]
        } else {
            Seq::empty()
        }
    }
}

/// The universal successors of the first `j` rows of `x`: `Eve(b, i)` for
/// each row `i` in order and each `b` of that row in basis order.
pub open spec fn univ_spec(x: Seq<Seq<bool>>, j: int) -> Seq<EvePos>
    decreases j,
{
    if j <= 0 {
        Seq::empty()
    } else {
        univ_spec(x, j - 1) + row_succ(x[j - 1], j as usize, x[j - 1].len() as int)
    }
}

/// Whether no move leaves position `c`.
pub open spec fn no_moves(g: GameV, c: PosV) -> bool {
    match c {
        PosV::Eve(e) => move_of(g, e) == Formula::False,
        PosV::Adam(x) => univ_spec(x, x.len() as int).len() == 0,
    }
}

/// The value an atom takes in a reduction against decisions `da`/`de`
/// (Adam's and Eve's), the play `pl`, the Eve position `last` being left
/// with counter `kl`, at counter `k`.
pub open spec fn atom_value(
    g: GameV,
    b: Seq<char>,
    i: usize,
    k: Seq<u32>,
    da: Seq<(PlayV, u64)>,
    de: Seq<(PlayV, u64)>,
    pl: Seq<PlayV>,
    last: EvePos,
    kl: Seq<u32>,
) -> Formula {
    match atom_pos(g, b, i) {
        None => Formula::Atom(b, i),
        Some(e) => {
            let c = PosV::Eve(e);
            if decided_for(g.fix, de, c, k, Player::Eve) {
                Formula::True
            } else if decided_for(g.fix, da, c, k, Player::Adam) {
                Formula::False
            } else if exists|j: int| 0 <= j < pl.len() && (#[trigger] pl[j]).pos == c && lt_eve(g.fix, pl[j].k, k) {
                Formula::True
            } else if exists|j: int| 0 <= j < pl.len() && (#[trigger] pl[j]).pos == c && lt_eve(g.fix, k, pl[j].k) {
                Formula::False
            } else if e == last && lt_eve(g.fix, k, kl) {
                Formula::False
            } else if e == last && lt_eve(g.fix, kl, k) {
                Formula::True
            } else {
                Formula::Atom(b, i)
            }
        },
    }
}

/// `f` with each atom replaced by its [`atom_value`].
pub open spec fn apply_spec(
    g: GameV,
    f: Formula,
    k: Seq<u32>,
    da: Seq<(PlayV, u64)>,
    de: Seq<(PlayV, u64)>,
    pl: Seq<PlayV>,
    last: EvePos,
    kl: Seq<u32>,
) -> Formula
    decreases f, 1int,
{
    match f {
        Formula::Atom(b, i) => atom_value(g, b, i, k, da, de, pl, last, kl),
        Formula::Conj(_) => Formula::Conj(apply_children(g, f, k, da, de, pl, last, kl)),
        Formula::Disj(_) => Formula::Disj(apply_children(g, f, k, da, de, pl, last, kl)),
        _ => f,
    }
}

pub open spec fn apply_children(
    g: GameV,
    f: Formula,
    k: Seq<u32>,
    da: Seq<(PlayV, u64)>,
    de: Seq<(PlayV, u64)>,
    pl: Seq<PlayV>,
    last: EvePos,
    kl: Seq<u32>,
) -> Seq<Formula>
    decreases f, 0int,
{
    match f {
        Formula::Conj(xs) | Formula::Disj(xs) => Seq::new(
            xs.len(),
            |j: int| if 0 <= j < xs.len() { apply_spec(g, xs[j], k, da, de, pl, last, kl) } else { Formula::True },
        ),
        _ => Seq::empty(),
    }
}

/// Table of one player with entries of a game with `m` equations over `n`
/// basis elements, all recorded no later than `clock`.
pub open spec fn tab_wf(s: Seq<(PlayV, u64)>, m: nat, n: nat, clock: u64) -> bool {
    entries_wf(s, m, n) && times_upto(s, clock) && keys_unique(s)
}

/// Entries of a playlist of a game with `m` equations over `n` elements.
pub open spec fn pl_wf(s: Seq<PlaylistEntry>, m: nat, n: nat) -> bool {
    forall|j: int|
        0 <= j < s.len() ==> {
            &&& play_wf((#[trigger] s[j]).data@, m, n)
            &&& s[j].k@.len() == m
            &&& match s[j].alt {
                AltMoves::Adam(v) => forall|t: int| 0 <= t < v@.len() ==> eve_wf(#[trigger] v@[t], m, n),
                AltMoves::Eve(_) => s[j].data@.pos is Eve,
            }
        }
}

/// The solver's state: the play, the assumptions and decisions, and the
/// logical clock that stamps them.
pub struct SolverState {
    pub pl: Playlist,
    pub assumptions: Assumptions,
    pub dec: Decisions,
    pub clock: u64,
}

impl SolverState {
    /// The state's invariant for a game with `m` equations over `n` elements:
    /// every recorded entry is well formed and stamped no later than the
    /// clock, and decisions are stamped in increasing order.
    pub open spec fn wf(&self, m: nat, n: nat) -> bool {
        &&& tab_wf(self.dec.tab(Player::Eve), m, n, self.clock)
        &&& tab_wf(self.dec.tab(Player::Adam), m, n, self.clock)
        &&& times_increasing(self.dec.tab(Player::Eve))
        &&& times_increasing(self.dec.tab(Player::Adam))
        &&& tab_wf(self.assumptions.tab(Player::Eve), m, n, self.clock)
        &&& tab_wf(self.assumptions.tab(Player::Adam), m, n, self.clock)
        &&& pl_wf(self.pl.0@, m, n)
    }
}

/// `new` is `old` without the entries recorded after `t`, which come last.
pub open spec fn forgotten(old: Seq<(PlayV, u64)>, new: Seq<(PlayV, u64)>, t: u64) -> bool {
    &&& new.len() <= old.len()
    &&& new == old.take(new.len() as int)
    &&& forall|i: int| 0 <= i < new.len() ==> (#[trigger] new[i]).1 <= t
    &&& forall|i: int| new.len() <= i < old.len() ==> (#[trigger] old[i]).1 > t
}

/// The player with a decision on `c` at a counter below or equal to `k` in
/// that player's order, Adam's decisions first.
pub open spec fn decision(g: GameV, da: Seq<(PlayV, u64)>, de: Seq<(PlayV, u64)>, c: PosV, k: Seq<u32>) -> Option<Player> {
    if decided_for(g.fix, da, c, k, Player::Adam) {
        Some(Player::Adam)
    } else if decided_for(g.fix, de, c, k, Player::Eve) {
        Some(Player::Eve)
    } else {
        None
    }
}

/// Whether `d` has an entry in table `s`.
pub open spec fn in_tab(s: Seq<(PlayV, u64)>, d: PlayV) -> bool {
    exists|i: int| 0 <= i < s.len() && (#[trigger] s[i]).0 == d
}

/// The facts behind the consistency of decisions, over the play `pl` and
/// the decision tables `de` (Eve's) and `da` (Adam's): positions on the
/// play are distinct and have moves, play data on the play is undecided, a
/// position without moves is decided only for the opponent of its owner,
/// and no play data is decided for both players.
pub open spec fn consistent_parts(g: GameV, pl: Seq<PlayV>, de: Seq<(PlayV, u64)>, da: Seq<(PlayV, u64)>) -> bool {
    &&& forall|i: int, j: int| 0 <= i < j < pl.len() ==> pl[i].pos != pl[j].pos
    &&& forall|j: int| 0 <= j < pl.len() ==> !no_moves(g, (#[trigger] pl[j]).pos)
    &&& forall|j: int| 0 <= j < pl.len() ==> !in_tab(de, #[trigger] pl[j]) && !in_tab(da, pl[j])
    &&& forall|i: int| 0 <= i < de.len() && no_moves(g, (#[trigger] de[i]).0.pos) ==> controller(de[i].0.pos) == Player::Adam
    &&& forall|i: int| 0 <= i < da.len() && no_moves(g, (#[trigger] da[i]).0.pos) ==> controller(da[i].0.pos) == Player::Eve
    &&& forall|i: int, j: int| 0 <= i < de.len() && 0 <= j < da.len() ==> (#[trigger] de[i]).0 != (#[trigger] da[j]).0
}

impl SolverState {
    /// The initial state: an empty play, no assumptions, no decisions.
    pub fn new() -> (r: SolverState)
        ensures
            r.pl.0@.len() == 0,
            r.clock == 0,
            r.dec.tab(Player::Eve).len() == 0,
            r.dec.tab(Player::Adam).len() == 0,
            r.assumptions.tab(Player::Eve).len() == 0,
            r.assumptions.tab(Player::Adam).len() == 0,
            forall|m: nat, n: nat| r.wf(m, n),
            forall|g: GameV| r.consistent(g),
    {
        let r = SolverState { pl: Playlist(Vec::new()), assumptions: Assumptions::new(), dec: Decisions::new(), clock: 0 };
        proof {
            assert(r.pl.data().len() == 0);
        }
        r
    }

    /// The decisions of the state are consistent with its play (see
    /// [`consistent_parts`]).
    pub open spec fn consistent(&self, g: GameV) -> bool {
        consistent_parts(g, self.pl.data(), self.dec.tab(Player::Eve), self.dec.tab(Player::Adam))
    }
}

/// No play data is decided for both players.
pub proof fn lemma_decisions_disjoint(g: GameV, st: &SolverState, d: PlayV)
    requires
        st.consistent(g),
    ensures
        !(in_tab(st.dec.tab(Player::Eve), d) && in_tab(st.dec.tab(Player::Adam), d)),
{
    if in_tab(st.dec.tab(Player::Eve), d) && in_tab(st.dec.tab(Player::Adam), d) {
        let i = choose|i: int| 0 <= i < st.dec.tab(Player::Eve).len() && (#[trigger] st.dec.tab(Player::Eve)[i]).0 == d;
        let j = choose|j: int| 0 <= j < st.dec.tab(Player::Adam).len() && (#[trigger] st.dec.tab(Player::Adam)[j]).0 == d;
        assert(st.dec.tab(Player::Eve)[i].0 != st.dec.tab(Player::Adam)[j].0);
    }
}

/// Recording a decision for `d` keeps the decisions consistent when `d` is
/// not on the play, not decided for the other player, and has moves or is
/// decided for the opponent of its owner.
proof fn lemma_consistent_decide(
    g: GameV,
    pl: Seq<PlayV>,
    de: Seq<(PlayV, u64)>,
    da: Seq<(PlayV, u64)>,
    p: Player,
    d: PlayV,
    t: u64,
)
    requires
        consistent_parts(g, pl, de, da),
        forall|j: int| 0 <= j < pl.len() ==> pl[j] != d,
        !in_tab(if p == Player::Eve { da } else { de }, d),
        no_moves(g, d.pos) ==> p == opponent(controller(d.pos)),
    ensures
        p == Player::Eve ==> consistent_parts(g, pl, remove_key(de, d).push((d, t)), da),
        p == Player::Adam ==> consistent_parts(g, pl, de, remove_key(da, d).push((d, t))),
{
    lemma_remove_key(de, d);
    lemma_remove_key(da, d);
    if p == Player::Eve {
        let n = remove_key(de, d).push((d, t));
        assert forall|i: int| 0 <= i < n.len() implies de.contains(#[trigger] n[i]) || n[i] == (d, t) by {}
        assert forall|j: int| 0 <= j < pl.len() implies !in_tab(n, #[trigger] pl[j]) && !in_tab(da, pl[j]) by {
            if in_tab(n, pl[j]) {
                let i = choose|i: int| 0 <= i < n.len() && (#[trigger] n[i]).0 == pl[j];
                if i < n.len() - 1 {
                    let w = choose|w: int| 0 <= w < de.len() && de[w] == n[i];
                    assert(in_tab(de, pl[j]));
                }
            }
        }
        assert forall|i: int| 0 <= i < n.len() && no_moves(g, (#[trigger] n[i]).0.pos) implies controller(n[i].0.pos) == Player::Adam by {
            if i < n.len() - 1 {
                let w = choose|w: int| 0 <= w < de.len() && de[w] == n[i];
            }
        }
        assert forall|i: int, j: int| 0 <= i < n.len() && 0 <= j < da.len() implies (#[trigger] n[i]).0 != (#[trigger] da[j]).0 by {
            if i < n.len() - 1 {
                let w = choose|w: int| 0 <= w < de.len() && de[w] == n[i];
            } else {
                if da[j].0 == d {
                    assert(in_tab(da, d));
                }
            }
        }
    } else {
        let n = remove_key(da, d).push((d, t));
        assert forall|i: int| 0 <= i < n.len() implies da.contains(#[trigger] n[i]) || n[i] == (d, t) by {}
        assert forall|j: int| 0 <= j < pl.len() implies !in_tab(de, #[trigger] pl[j]) && !in_tab(n, pl[j]) by {
            if in_tab(n, pl[j]) {
                let i = choose|i: int| 0 <= i < n.len() && (#[trigger] n[i]).0 == pl[j];
                if i < n.len() - 1 {
                    let w = choose|w: int| 0 <= w < da.len() && da[w] == n[i];
                    assert(in_tab(da, pl[j]));
                }
            }
        }
        assert forall|i: int| 0 <= i < n.len() && no_moves(g, (#[trigger] n[i]).0.pos) implies controller(n[i].0.pos) == Player::Eve by {
            if i < n.len() - 1 {
                let w = choose|w: int| 0 <= w < da.len() && da[w] == n[i];
            }
        }
        assert forall|i: int, j: int| 0 <= i < de.len() && 0 <= j < n.len() implies (#[trigger] de[i]).0 != (#[trigger] n[j]).0 by {
            if j < n.len() - 1 {
                let w = choose|w: int| 0 <= w < da.len() && da[w] == n[j];
            } else {
                if de[i].0 == d {
                    assert(in_tab(de, d));
                }
            }
        }
    }
}

/// Dropping decisions recorded last keeps the decisions consistent.
proof fn lemma_consistent_prefix(g: GameV, pl: Seq<PlayV>, de: Seq<(PlayV, u64)>, da: Seq<(PlayV, u64)>, de2: Seq<(PlayV, u64)>, da2: Seq<(PlayV, u64)>)
    requires
        consistent_parts(g, pl, de, da),
        de2 == de.take(de2.len() as int),
        de2.len() <= de.len(),
        da2 == da.take(da2.len() as int),
        da2.len() <= da.len(),
    ensures
        consistent_parts(g, pl, de2, da2),
        forall|d: PlayV| #[trigger] in_tab(de2, d) ==> in_tab(de, d),
        forall|d: PlayV| #[trigger] in_tab(da2, d) ==> in_tab(da, d),
{
    assert forall|d: PlayV| #[trigger] in_tab(de2, d) implies in_tab(de, d) by {
        let i = choose|i: int| 0 <= i < de2.len() && (#[trigger] de2[i]).0 == d;
        assert(de2[i] == de[i]);
    }
    assert forall|d: PlayV| #[trigger] in_tab(da2, d) implies in_tab(da, d) by {
        let i = choose|i: int| 0 <= i < da2.len() && (#[trigger] da2[i]).0 == d;
        assert(da2[i] == da[i]);
    }
    assert forall|j: int| 0 <= j < pl.len() implies !in_tab(de2, #[trigger] pl[j]) && !in_tab(da2, pl[j]) by {
        if in_tab(de2, pl[j]) {
            let i = choose|i: int| 0 <= i < de2.len() && (#[trigger] de2[i]).0 == pl[j];
            assert(de2[i] == de[i]);
            assert(in_tab(de, pl[j]));
        }
        if in_tab(da2, pl[j]) {
            let i = choose|i: int| 0 <= i < da2.len() && (#[trigger] da2[i]).0 == pl[j];
            assert(da2[i] == da[i]);
            assert(in_tab(da, pl[j]));
        }
    }
    assert forall|i: int| 0 <= i < de2.len() && no_moves(g, (#[trigger] de2[i]).0.pos) implies controller(de2[i].0.pos) == Player::Adam by {
        assert(de2[i] == de[i]);
    }
    assert forall|i: int| 0 <= i < da2.len() && no_moves(g, (#[trigger] da2[i]).0.pos) implies controller(da2[i].0.pos) == Player::Eve by {
        assert(da2[i] == da[i]);
    }
    assert forall|i: int, j: int| 0 <= i < de2.len() && 0 <= j < da2.len() implies (#[trigger] de2[i]).0 != (#[trigger] da2[j]).0 by {
        assert(de2[i] == de[i]);
        assert(da2[j] == da[j]);
    }
}

/// Entering `d` keeps the decisions consistent when its position is not on
/// the play, has moves, and `d` is undecided.
proof fn lemma_consistent_enter(g: GameV, pl: Seq<PlayV>, de: Seq<(PlayV, u64)>, da: Seq<(PlayV, u64)>, d: PlayV)
    requires
        consistent_parts(g, pl, de, da),
        forall|j: int| 0 <= j < pl.len() ==> pl[j].pos != d.pos,
        !no_moves(g, d.pos),
        !in_tab(de, d),
        !in_tab(da, d),
    ensures
        consistent_parts(g, pl.push(d), de, da),
{
    let q = pl.push(d);
    assert forall|i: int, j: int| 0 <= i < j < q.len() implies q[i].pos != q[j].pos by {
        if j == pl.len() {
            assert(q[i] == pl[i]);
        } else {
            assert(q[i] == pl[i]);
            assert(q[j] == pl[j]);
        }
    }
    assert forall|j: int| 0 <= j < q.len() implies !no_moves(g, (#[trigger] q[j]).pos) by {
        if j < pl.len() {
            assert(q[j] == pl[j]);
        }
    }
    assert forall|j: int| 0 <= j < q.len() implies !in_tab(de, #[trigger] q[j]) && !in_tab(da, q[j]) by {
        if j < pl.len() {
            assert(q[j] == pl[j]);
        }
    }
}

/// Leaving the last play data keeps the rest consistent, and that play
/// data is on no other entry and undecided.
proof fn lemma_consistent_leave(g: GameV, pl: Seq<PlayV>, de: Seq<(PlayV, u64)>, da: Seq<(PlayV, u64)>)
    requires
        consistent_parts(g, pl, de, da),
        pl.len() > 0,
    ensures
        consistent_parts(g, pl.drop_last(), de, da),
        forall|j: int| 0 <= j < pl.len() - 1 ==> pl[j] != pl.last() && pl[j].pos != pl.last().pos,
        !in_tab(de, pl.last()),
        !in_tab(da, pl.last()),
        !no_moves(g, pl.last().pos),
{
    let q = pl.drop_last();
    assert forall|i: int, j: int| 0 <= i < j < q.len() implies q[i].pos != q[j].pos by {
        assert(q[i] == pl[i]);
        assert(q[j] == pl[j]);
    }
    assert forall|j: int| 0 <= j < q.len() implies !no_moves(g, (#[trigger] q[j]).pos) by {
        assert(q[j] == pl[j]);
    }
    assert forall|j: int| 0 <= j < q.len() implies !in_tab(de, #[trigger] q[j]) && !in_tab(da, q[j]) by {
        assert(q[j] == pl[j]);
    }
    assert(pl.last() == pl[pl.len() - 1]);
    assert forall|j: int| 0 <= j < pl.len() - 1 implies pl[j] != pl.last() && pl[j].pos != pl.last().pos by {
        assert(pl[j].pos != pl[pl.len() - 1].pos);
    }
}

/// What the solver does next.
pub enum Step {
    Explore(PlayData),
    Backtrack(Player),
    Done(Player),
    Exhausted,
}

proof fn lemma_tab_push(s: Seq<(PlayV, u64)>, key: PlayV, t: u64, clock: u64, m: nat, n: nat)
    requires
        tab_wf(s, m, n, clock),
        play_wf(key, m, n),
        clock <= t,
    ensures
        tab_wf(remove_key(s, key).push((key, t)), m, n, t),
        times_increasing(s) && clock < t ==> times_increasing(remove_key(s, key).push((key, t))),
{
    lemma_remove_key(s, key);
    let r = remove_key(s, key);
    let q = r.push((key, t));
    assert forall|i: int| 0 <= i < q.len() implies play_wf(#[trigger] q[i].0, m, n) && q[i].1 <= t by {
        if i < r.len() {
            assert(s.contains(r[i]));
            let j = choose|j: int| 0 <= j < s.len() && s[j] == r[i];
            assert(play_wf(s[j].0, m, n));
        }
    }
    assert forall|a: int, b: int| 0 <= a < b < q.len() implies q[a].0 != q[b].0 by {
        if b == r.len() {
            lemma_key_index(r, key);
        }
    }
    if times_increasing(s) && clock < t {
        assert forall|a: int, b: int| 0 <= a < b < q.len() implies q[a].1 < q[b].1 by {
            if b == r.len() {
                assert(s.contains(r[a]));
                let j = choose|j: int| 0 <= j < s.len() && s[j] == r[a];
                assert(s[j].1 <= clock);
            }
        }
    }
}

proof fn lemma_tab_remove(s: Seq<(PlayV, u64)>, key: PlayV, clock: u64, m: nat, n: nat)
    requires
        tab_wf(s, m, n, clock),
    ensures
        tab_wf(remove_key(s, key), m, n, clock),
{
    lemma_remove_key(s, key);
    let r = remove_key(s, key);
    assert forall|i: int| 0 <= i < r.len() implies play_wf(#[trigger] r[i].0, m, n) && r[i].1 <= clock by {
        assert(s.contains(r[i]));
        let j = choose|j: int| 0 <= j < s.len() && s[j] == r[i];
        assert(play_wf(s[j].0, m, n));
    }
}

impl ParityGame {
    pub open spec fn m(&self) -> nat {
        self@.fix.len()
    }

    pub open spec fn n(&self) -> nat {
        self@.basis.len()
    }

    /// The game's invariant: one composed move per equation and basis element.
    pub open spec fn wf(&self) -> bool {
        self@.moves.len() == self.m() * self.n()
    }

    /// Builds the game of a system from its composed moves, laid out as
    /// `compose_moves` produces them (equation-major). `None` when their
    /// number is not the number of equations times the size of the basis.
    pub fn new(fix_system: &Vec<FixEq>, composed: Vec<SymbolicExistsMoveComposed>, basis: Vec<String>) -> (r: Option<ParityGame>)
        ensures
            r is Some <==> composed@.len() == fix_system@.len() * basis@.len(),
            r is Some ==> {
                let g = r->0;
                &&& g.wf()
                &&& g@.fix == fix_system@.map_values(|e: FixEq| e.fix_ty)
                &&& g@.basis == strs_view(basis@)
                &&& g@.moves == composed@.map_values(|c: SymbolicExistsMoveComposed| c.formula@)
            },
    {
        let mut fix_types: Vec<FixType> = Vec::new();
        let mut j: usize = 0;
        while j < fix_system.len()
            invariant
                j <= fix_system@.len(),
                fix_types@ == fix_system@.map_values(|e: FixEq| e.fix_ty).take(j as int),
            decreases fix_system@.len() - j,
        {
            fix_types.push(fix_system[j].fix_ty);
            j = j + 1;
            proof { assert(fix_types@ =~= fix_system@.map_values(|e: FixEq| e.fix_ty).take(j as int)); }
        }
        proof { assert(fix_types@ =~= fix_system@.map_values(|e: FixEq| e.fix_ty)); }
        let m = fix_system.len();
        let n = basis.len();
        let cl = composed.len();
        let total = match m.checked_mul(n) {
            Some(t) => t,
            None => {
                proof { assert(cl != m * n); }
                return None;
            },
        };
        if composed.len() != total {
            return None;
        }
        let ghost target = composed@.map_values(|c: SymbolicExistsMoveComposed| c.formula@);
        let mut rest = composed;
        let mut moves: Vec<LogicFormula> = Vec::new();
        let mut t: usize = 0;
        while t < total
            invariant
                t <= total == target.len(),
                rest@.len() == total - t,
                forall|u: int| 0 <= u < rest@.len() ==> (#[trigger] rest@[u]).formula@ == target[t + u],
                views(moves@) == target.take(t as int),
            decreases total - t,
        {
            let ghost before = rest@;
            let c = rest.remove(0);
            proof {
                assert(c.formula@ == target[t as int]);
                assert forall|u: int| 0 <= u < rest@.len() implies (#[trigger] rest@[u]).formula@ == target[t + 1 + u] by {
                    assert(rest@[u] == before[u + 1]);
                }
            }
            let ghost mb = moves@;
            moves.push(c.formula);
            t = t + 1;
            proof {
                assert(views(moves@) =~= views(mb).push(c.formula@));
                assert(views(moves@) =~= target.take(t as int));
            }
        }
        proof { assert(target.take(total as int) =~= target); }
        Some(ParityGame { fix_types, basis, moves })
    }

    /// The basis elements, in order.
    pub fn basis(&self) -> (r: &Vec<String>)
        ensures
            strs_view(r@) == self@.basis,
    {
        &self.basis
    }

    /// The fixpoint kinds of the equations, in order.
    pub fn fix_types(&self) -> (r: &Vec<FixType>)
        ensures
            r@ == self@.fix,
    {
        &self.fix_types
    }

    /// The composed move of Eve position `e`.
    pub fn get_formula(&self, e: EvePos) -> (r: &LogicFormula)
        requires
            self.wf(),
            eve_wf(e, self.m(), self.n()),
        ensures
            r@ == move_of(self@, e),
    {
        let n = self.basis.len();
        proof {
            crate::moves::lemma_dense_index((e.i - 1) as int, e.b as int, self.m() as int, n as int);
            assert(((e.i - 1) * n + e.b) < self.moves@.len());
            assert((e.i - 1) * n <= (e.i - 1) * n + e.b);
            assert(views(self.moves@)[(e.i - 1) * n + e.b] == self.moves@[(e.i - 1) * n + e.b]@);
        }
        let len = self.moves.len();
        proof { assert((e.i - 1) * n + e.b < len); }
        &self.moves[(e.i - 1) * n + e.b]
    }

    /// Whether `k <_p kp`.
    pub fn le(&self, k: &Counter, kp: &Counter, p: &Player) -> (r: bool)
        requires
            k@.len() == kp@.len() == self.m(),
        ensures
            r == lt_p(self@.fix, k@, kp@, *p),
    {
        match p {
            Player::Eve => lt_eve_exec(&self.fix_types, k, kp),
            Player::Adam => lt_eve_exec(&self.fix_types, kp, k),
        }
    }

    /// Whether `k <=_p kp`.
    pub fn leq(&self, k: &Counter, kp: &Counter, p: &Player) -> (r: bool)
        requires
            k@.len() == kp@.len() == self.m(),
        ensures
            r == leq_p_spec(self@.fix, k@, kp@, *p),
    {
        Counter::leq_p(k, kp, p, &self.fix_types)
    }

    /// The counter after a position of priority `i`.
    pub fn next(k: &Counter, i: usize) -> (r: Counter)
        requires
            i <= k@.len(),
            i > 0 ==> k@[i - 1] < u32::MAX,
        ensures
            r@ == next_spec(k@, i as nat),
    {
        k.next(i)
    }

    /// The priority of `c`.
    pub fn priority(c: &Position) -> (r: usize)
        ensures
            r == priority_spec(c@),
    {
        Position::priority(c)
    }

    /// The universal successors of Adam position `x`, in order (see
    /// [`univ_spec`]).
    pub fn universal_move(x: &AdamPos) -> (r: Vec<EvePos>)
        ensures
            r@ == univ_spec(bitmap_view(x.x@), x.x@.len() as int),
    {
        let ghost bx = bitmap_view(x.x@);
        let mut out: Vec<EvePos> = Vec::new();
        let len = x.x.len();
        let mut j: usize = 0;
        while j < len
            invariant
                j <= x.x@.len() == bx.len() == len,
                bx == bitmap_view(x.x@),
                out@ == univ_spec(bx, j as int),
            decreases x.x@.len() - j,
        {
            let row = &x.x[j];
            proof { assert(bx[j as int] == row@); }
            let ghost base = out@;
            let mut t: usize = 0;
            while t < row.len()
                invariant
                    t <= row@.len(),
                    j < len,
                    out@ == base + row_succ(row@, (j + 1) as usize, t as int),
                decreases row@.len() - t,
            {
                if row[t] {
                    out.push(EvePos { b: t, i: j + 1 });
                }
                proof {
                    assert(out@ =~= base + row_succ(row@, (j + 1) as usize, t + 1));
                }
                t = t + 1;
            }
            j = j + 1;
            proof { assert(out@ =~= univ_spec(bx, j as int)); }
        }
        out
    }

    /// Whether no move leaves `c`.
    pub fn is_empty(&self, c: &Position) -> (r: bool)
        requires
            self.wf(),
            pos_wf(c@, self.m(), self.n()),
        ensures
            r == no_moves(self@, c@),
    {
        match c {
            Position::Eve(e) => is_false(self.get_formula(*e)),
            Position::Adam(x) => Self::universal_move(x).len() == 0,
        }
    }

    /// The empty Adam position of this game.
    pub fn empty_position(&self) -> (r: Vec<Vec<bool>>)
        ensures
            bitmap_view(r@) == empty_bitmap(self.m(), self.n()),
            bitmap_wf(bitmap_view(r@), self.m(), self.n()),
    {
        self.empty_adam()
    }

    fn empty_adam(&self) -> (r: Vec<Vec<bool>>)
        ensures
            bitmap_view(r@) == empty_bitmap(self.m(), self.n()),
    {
        let m = self.fix_types.len();
        let n = self.basis.len();
        let mut x: Vec<Vec<bool>> = Vec::new();
        let mut j: usize = 0;
        while j < m
            invariant
                j <= m == self.m(),
                n == self.n(),
                bitmap_view(x@) == empty_bitmap(self.m(), self.n()).take(j as int),
            decreases m - j,
        {
            let mut row: Vec<bool> = Vec::new();
            let mut t: usize = 0;
            while t < n
                invariant
                    t <= n,
                    row@ == Seq::new(t as nat, |u: int| false),
                decreases n - t,
            {
                row.push(false);
                t = t + 1;
                proof { assert(row@ =~= Seq::new(t as nat, |u: int| false)); }
            }
            let ghost before = x@;
            x.push(row);
            j = j + 1;
            proof {
                assert(bitmap_view(x@) =~= bitmap_view(before).push(row@));
                assert(bitmap_view(x@) =~= empty_bitmap(self.m(), self.n()).take(j as int));
            }
        }
        proof { assert(empty_bitmap(self.m(), self.n()).take(m as int) =~= empty_bitmap(self.m(), self.n())); }
        x
    }

    /// Adds to `x` the elements of the first next-move of `f` (see
    /// [`nm_add`]).
    pub fn build_next_move(&self, f: &LogicFormula, x: &mut Vec<Vec<bool>>)
        requires
            bitmap_wf(bitmap_view(old(x)@), self.m(), self.n()),
        ensures
            bitmap_view(final(x)@) == nm_add(self@, f@, bitmap_view(old(x)@)),
            bitmap_wf(bitmap_view(final(x)@), self.m(), self.n()),
        decreases f,
    {
        match f {
            LogicFormula::BasisElem(b, i) => {
                let bi = position_of(&self.basis, b);
                proof { lemma_index_of(self@.basis, b@); }
                match bi {
                    Some(bi) => {
                        if 1 <= *i && *i <= self.fix_types.len() {
                            let ghost before = bitmap_view(x@);
                            let mut row = copy_row(&x[*i - 1]);
                            proof { assert(before[*i - 1] == row@); }
                            row.set(bi, true);
                            x.set(*i - 1, row);
                            proof {
                                let e = EvePos { b: bi, i: *i };
                                assert(bitmap_view(x@) =~= set_bit(before, e));
                            }
                        }
                    },
                    None => {},
                }
            },
            LogicFormula::Conj(xs) => {
                proof { lemma_views_conj(*xs); }
                let ghost x0 = bitmap_view(x@);
                let mut j: usize = 0;
                while j < xs.len()
                    invariant
                        j <= xs@.len(),
                        f@ == Formula::Conj(views(xs@)),
                        *f == LogicFormula::Conj(*xs),
                        bitmap_view(x@) == nm_add_all(self@, f@, x0, j as int),
                        bitmap_wf(bitmap_view(x@), self.m(), self.n()),
                    decreases xs@.len() - j,
                {
                    proof {
                        assert(views(xs@)[j as int] == xs@[j as int]@);
                        assert(decreases_to!(*f => xs@[j as int]));
                    }
                    self.build_next_move(&xs[j], x);
                    j = j + 1;
                }
            },
            LogicFormula::Disj(xs) => {
                proof { lemma_views_conj(*xs); }
                if xs.len() > 0 {
                    proof {
                        assert(views(xs@)[0] == xs@[0]@);
                        assert(decreases_to!(*f => xs@[0]));
                    }
                    self.build_next_move(&xs[0], x);
                }
            },
            _ => {},
        }
    }

    /// The first next-move of `f` (see [`next_move_spec`]).
    pub fn next_move(&self, f: &LogicFormula) -> (r: Option<AdamPos>)
        ensures
            r is None <==> next_move_spec(self@, f@) is None,
            r is Some ==> bitmap_view(r->0.x@) == next_move_spec(self@, f@)->0,
            r is Some ==> bitmap_wf(bitmap_view(r->0.x@), self.m(), self.n()),
    {
        if is_false(f) {
            None
        } else {
            let mut x = self.empty_adam();
            self.build_next_move(f, &mut x);
            Some(AdamPos { x })
        }
    }
}


/// Every Eve successor of an Adam position of a game with `m` equations over
/// `n` basis elements is an Eve position of that game.
proof fn lemma_univ_wf(x: Seq<Seq<bool>>, j: int, m: nat, n: nat)
    requires
        bitmap_wf(x, m, n),
        j <= m <= usize::MAX,
    ensures
        forall|t: int| 0 <= t < univ_spec(x, j).len() ==> eve_wf(#[trigger] univ_spec(x, j)[t], m, n),
    decreases j,
{
    if j > 0 {
        lemma_univ_wf(x, j - 1, m, n);
        lemma_row_wf(x[j - 1], j as usize, x[j - 1].len() as int, m, n);
        let a = univ_spec(x, j - 1);
        let b = row_succ(x[j - 1], j as usize, x[j - 1].len() as int);
        assert forall|t: int| 0 <= t < (a + b).len() implies eve_wf(#[trigger] (a + b)[t], m, n) by {
            if t >= a.len() {
                assert((a + b)[t] == b[t - a.len()]);
            }
        }
    }
}

proof fn lemma_row_wf(row: Seq<bool>, i: usize, t: int, m: nat, n: nat)
    requires
        row.len() == n,
        1 <= i <= m,
        t <= n,
    ensures
        forall|u: int| 0 <= u < row_succ(row, i, t).len() ==> eve_wf(#[trigger] row_succ(row, i, t)[u], m, n),
    decreases t,
{
    if t > 0 {
        lemma_row_wf(row, i, t - 1, m, n);
        let a = row_succ(row, i, t - 1);
        let b = if row[t - 1] { seq![EvePos { b: (t - 1) as usize, i }] } else { Seq::<EvePos>::empty() };
        assert forall|u: int| 0 <= u < (a + b).len() implies eve_wf(#[trigger] (a + b)[u], m, n) by {
            if u >= a.len() {
                assert((a + b)[u] == b[u - a.len()]);
            }
        }
    }
}

proof fn lemma_flatten_step<A>(cs: Seq<Seq<A>>, j: int)
    requires
        0 <= j < cs.len(),
    ensures
        cs.take(j + 1).flatten() == cs.take(j).flatten() + cs[j],
{
    assert(cs.take(j + 1) =~= cs.take(j).push(cs[j]));
    cs.take(j).lemma_flatten_push(cs[j]);
}

/// A new assumption found by a reduction: the player and the play data.
pub type NewAssumption = (Player, PlayData);

/// New assumptions that are play data of a game with `m` equations over
/// `n` elements.
pub open spec fn new_wf(s: Seq<NewAssumption>, m: nat, n: nat) -> bool {
    forall|t: int| 0 <= t < s.len() ==> play_wf((#[trigger] s[t]).1@, m, n)
}

impl ParityGame {
    /// The first playlist entry at Eve position `e` whose counter is below
    /// `k` in Eve's order (`below`), or above it.
    fn pl_find(&self, pl: &Playlist, e: EvePos, k: &Counter, below: bool) -> (r: Option<usize>)
        requires
            pl_wf(pl.0@, self.m(), self.n()),
            k@.len() == self.m(),
        ensures
            r is None ==> !exists|j: int|
                0 <= j < pl.data().len() && (#[trigger] pl.data()[j]).pos == PosV::Eve(e) && if below {
                    lt_eve(self@.fix, pl.data()[j].k, k@)
                } else {
                    lt_eve(self@.fix, k@, pl.data()[j].k)
                },
            r is Some ==> r->0 < pl.0@.len() && pl.data()[r->0 as int].pos == PosV::Eve(e) && if below {
                lt_eve(self@.fix, pl.data()[r->0 as int].k, k@)
            } else {
                lt_eve(self@.fix, k@, pl.data()[r->0 as int].k)
            },
            r is None ==> first_hit(self@.fix, pl.data(), PosV::Eve(e), k@, below) == -1,
            r is Some ==> first_hit(self@.fix, pl.data(), PosV::Eve(e), k@, below) == r->0,
    {
        let ghost v = pl.data();
        let c = Position::Eve(e);
        let mut j: usize = 0;
        while j < pl.0.len()
            invariant
                j <= pl.0@.len() == v.len(),
                v == pl.data(),
                c@ == PosV::Eve(e),
                pl_wf(pl.0@, self.m(), self.n()),
                k@.len() == self.m(),
                forall|t: int| 0 <= t < j ==> !((#[trigger] v[t]).pos == PosV::Eve(e) && if below {
                    lt_eve(self@.fix, v[t].k, k@)
                } else {
                    lt_eve(self@.fix, k@, v[t].k)
                }),
            decreases pl.0@.len() - j,
        {
            let d = &pl.0[j].data;
            proof {
                assert(v[j as int] == d@);
                assert(play_wf(pl.0@[j as int].data@, self.m(), self.n()));
            }
            if d.pos.equals(&c) {
                let hit = if below {
                    lt_eve_exec(&self.fix_types, &d.k, k)
                } else {
                    lt_eve_exec(&self.fix_types, k, &d.k)
                };
                if hit {
                    proof {
                        assert forall|i: int| 0 <= i < j implies !cycle_hit(self@.fix, #[trigger] v[i], PosV::Eve(e), k@, below) by {}
                        lemma_first_hit(self@.fix, v, PosV::Eve(e), k@, below, j as int);
                    }
                    return Some(j);
                }
            }
            j = j + 1;
        }
        proof {
            assert(!exists|w: int| 0 <= w < v.len() && cycle_hit(self@.fix, #[trigger] v[w], PosV::Eve(e), k@, below));
        }
        None
    }

    /// Replaces the atoms of `f` by their values against the decisions, the
    /// play and the Eve position `last` left with counter `kl` (see
    /// [`apply_spec`]), and appends the assumptions this takes to `out`.
    fn apply_decisions(
        &self,
        f: &LogicFormula,
        k: &Counter,
        dec: &Decisions,
        last: EvePos,
        kl: &Counter,
        pl: &Playlist,
        out: &mut Vec<NewAssumption>,
    ) -> (r: LogicFormula)
        requires
            k@.len() == self.m(),
            kl@.len() == self.m(),
            eve_wf(last, self.m(), self.n()),
            entries_wf(dec.tab(Player::Eve), self.m(), self.n()),
            entries_wf(dec.tab(Player::Adam), self.m(), self.n()),
            pl_wf(pl.0@, self.m(), self.n()),
            new_wf(old(out)@, self.m(), self.n()),
        ensures
            r@ == apply_spec(self@, f@, k@, dec.tab(Player::Adam), dec.tab(Player::Eve), pl.data(), last, kl@),
            new_wf(final(out)@, self.m(), self.n()),
            na_view(final(out)@) == na_view(old(out)@) + apply_asm(self@, f@, k@, dec.tab(Player::Adam), dec.tab(Player::Eve), pl.data(), last, kl@),
        decreases f, 1int,
    {
        let ghost o = na_view(out@);
        match f {
            LogicFormula::BasisElem(b, i) => {
                proof { lemma_index_of(self@.basis, b@); }
                let bi = match position_of(&self.basis, b) {
                    Some(bi) => bi,
                    None => {
                        proof { assert(na_view(out@) =~= o + apply_asm(self@, f@, k@, dec.tab(Player::Adam), dec.tab(Player::Eve), pl.data(), last, kl@)); }
                        return LogicFormula::BasisElem(b.clone(), *i);
                    },
                };
                if !(1 <= *i && *i <= self.fix_types.len()) {
                    proof { assert(na_view(out@) =~= o + apply_asm(self@, f@, k@, dec.tab(Player::Adam), dec.tab(Player::Eve), pl.data(), last, kl@)); }
                    return LogicFormula::BasisElem(b.clone(), *i);
                }
                let e = EvePos { b: bi, i: *i };
                let c = Position::Eve(e);
                proof {
                    assert forall|t: int| 0 <= t < dec.tab(Player::Eve).len() implies (#[trigger] dec.tab(Player::Eve)[t]).0.k.len() == k@.len() by {
                        assert(play_wf(dec.tab(Player::Eve)[t].0, self.m(), self.n()));
                    }
                    assert forall|t: int| 0 <= t < dec.tab(Player::Adam).len() implies (#[trigger] dec.tab(Player::Adam)[t]).0.k.len() == k@.len() by {
                        assert(play_wf(dec.tab(Player::Adam)[t].0, self.m(), self.n()));
                    }
                }
                if dec.decided(&self.fix_types, &c, k, &Player::Eve) {
                    proof { assert(na_view(out@) =~= o + apply_asm(self@, f@, k@, dec.tab(Player::Adam), dec.tab(Player::Eve), pl.data(), last, kl@)); }
                    return LogicFormula::True;
                }
                if dec.decided(&self.fix_types, &c, k, &Player::Adam) {
                    proof { assert(na_view(out@) =~= o + apply_asm(self@, f@, k@, dec.tab(Player::Adam), dec.tab(Player::Eve), pl.data(), last, kl@)); }
                    return LogicFormula::False;
                }
                match self.pl_find(pl, e, k, true) {
                    Some(j) => {
                        proof { assert(play_wf(pl.0@[j as int].data@, self.m(), self.n())); }
                        let ghost before = out@;
                        out.push((Player::Eve, pl.0[j].data.copy()));
                        proof {
                            assert(out@[out@.len() - 1].1@ == pl.0@[j as int].data@);
                            assert(pl.data()[j as int] == pl.0@[j as int].data@);
                            assert(na_view(out@) =~= o + apply_asm(self@, f@, k@, dec.tab(Player::Adam), dec.tab(Player::Eve), pl.data(), last, kl@));
                        }
                        return LogicFormula::True;
                    },
                    None => {},
                }
                match self.pl_find(pl, e, k, false) {
                    Some(j) => {
                        proof { assert(play_wf(pl.0@[j as int].data@, self.m(), self.n())); }
                        out.push((Player::Adam, pl.0[j].data.copy()));
                        proof {
                            assert(out@[out@.len() - 1].1@ == pl.0@[j as int].data@);
                            assert(pl.data()[j as int] == pl.0@[j as int].data@);
                            assert(na_view(out@) =~= o + apply_asm(self@, f@, k@, dec.tab(Player::Adam), dec.tab(Player::Eve), pl.data(), last, kl@));
                        }
                        return LogicFormula::False;
                    },
                    None => {},
                }
                let is_last = e.b == last.b && e.i == last.i;
                if is_last && lt_eve_exec(&self.fix_types, k, kl) {
                    out.push((Player::Adam, PlayData { pos: Position::Eve(last), k: kl.copy() }));
                    proof { assert(na_view(out@) =~= o + apply_asm(self@, f@, k@, dec.tab(Player::Adam), dec.tab(Player::Eve), pl.data(), last, kl@)); }
                    LogicFormula::False
                } else if is_last && lt_eve_exec(&self.fix_types, kl, k) {
                    out.push((Player::Eve, PlayData { pos: Position::Eve(last), k: kl.copy() }));
                    proof { assert(na_view(out@) =~= o + apply_asm(self@, f@, k@, dec.tab(Player::Adam), dec.tab(Player::Eve), pl.data(), last, kl@)); }
                    LogicFormula::True
                } else {
                    proof { assert(na_view(out@) =~= o + apply_asm(self@, f@, k@, dec.tab(Player::Adam), dec.tab(Player::Eve), pl.data(), last, kl@)); }
                    LogicFormula::BasisElem(b.clone(), *i)
                }
            },
            LogicFormula::Conj(xs) => {
                let v = self.apply_each(f, k, dec, last, kl, pl, out);
                proof { lemma_views_conj(*xs); lemma_views_conj(v); }
                LogicFormula::Conj(v)
            },
            LogicFormula::Disj(xs) => {
                let v = self.apply_each(f, k, dec, last, kl, pl, out);
                proof { lemma_views_conj(*xs); lemma_views_conj(v); }
                LogicFormula::Disj(v)
            },
            LogicFormula::True => {
                proof { assert(na_view(out@) =~= o + apply_asm(self@, f@, k@, dec.tab(Player::Adam), dec.tab(Player::Eve), pl.data(), last, kl@)); }
                LogicFormula::True
            },
            LogicFormula::False => {
                proof { assert(na_view(out@) =~= o + apply_asm(self@, f@, k@, dec.tab(Player::Adam), dec.tab(Player::Eve), pl.data(), last, kl@)); }
                LogicFormula::False
            },
        }
    }

    #[verifier::rlimit(100)]
    fn apply_each(
        &self,
        f: &LogicFormula,
        k: &Counter,
        dec: &Decisions,
        last: EvePos,
        kl: &Counter,
        pl: &Playlist,
        out: &mut Vec<NewAssumption>,
    ) -> (r: Vec<LogicFormula>)
        requires
            k@.len() == self.m(),
            kl@.len() == self.m(),
            eve_wf(last, self.m(), self.n()),
            entries_wf(dec.tab(Player::Eve), self.m(), self.n()),
            entries_wf(dec.tab(Player::Adam), self.m(), self.n()),
            pl_wf(pl.0@, self.m(), self.n()),
            new_wf(old(out)@, self.m(), self.n()),
        ensures
            views(r@) == apply_children(self@, f@, k@, dec.tab(Player::Adam), dec.tab(Player::Eve), pl.data(), last, kl@),
            new_wf(final(out)@, self.m(), self.n()),
            na_view(final(out)@) == na_view(old(out)@) + apply_asm_children(self@, f@, k@, dec.tab(Player::Adam), dec.tab(Player::Eve), pl.data(), last, kl@).flatten(),
        decreases f, 0int,
    {
        let ghost o = na_view(out@);
        let ghost da = dec.tab(Player::Adam);
        let ghost de = dec.tab(Player::Eve);
        let mut res: Vec<LogicFormula> = Vec::new();
        match f {
            LogicFormula::Conj(xs) | LogicFormula::Disj(xs) => {
                proof { lemma_views_conj(*xs); }
                let ghost target = apply_children(self@, f@, k@, da, de, pl.data(), last, kl@);
                let ghost cs = apply_asm_children(self@, f@, k@, da, de, pl.data(), last, kl@);
                let mut j: usize = 0;
                while j < xs.len()
                    invariant
                        j <= xs@.len(),
                        k@.len() == self.m(),
                        kl@.len() == self.m(),
                        eve_wf(last, self.m(), self.n()),
                        entries_wf(dec.tab(Player::Eve), self.m(), self.n()),
                        entries_wf(dec.tab(Player::Adam), self.m(), self.n()),
                        pl_wf(pl.0@, self.m(), self.n()),
                        new_wf(out@, self.m(), self.n()),
                        da == dec.tab(Player::Adam),
                        de == dec.tab(Player::Eve),
                        target == apply_children(self@, f@, k@, da, de, pl.data(), last, kl@),
                        f@ == Formula::Conj(views(xs@)) || f@ == Formula::Disj(views(xs@)),
                        *f == LogicFormula::Conj(*xs) || *f == LogicFormula::Disj(*xs),
                        target.len() == xs@.len(),
                        views(res@) == target.take(j as int),
                        cs == apply_asm_children(self@, f@, k@, da, de, pl.data(), last, kl@),
                        cs.len() == xs@.len(),
                        na_view(out@) == o + cs.take(j as int).flatten(),
                    decreases xs@.len() - j,
                {
                    proof {
                        assert(views(xs@)[j as int] == xs@[j as int]@);
                        assert(decreases_to!(*f => xs@[j as int]));
                    }
                    let y = self.apply_decisions(&xs[j], k, dec, last, kl, pl, out);
                    let ghost before = res@;
                    res.push(y);
                    proof {
                        assert(views(res@) =~= views(before).push(y@));
                        assert(views(res@) =~= target.take(j + 1));
                        assert(cs[j as int] == apply_asm(self@, xs@[j as int]@, k@, da, de, pl.data(), last, kl@));
                        lemma_flatten_step(cs, j as int);
                    }
                    j = j + 1;
                }
                proof {
                    assert(target.take(xs@.len() as int) =~= target);
                    assert(cs.take(xs@.len() as int) =~= cs);
                }
                res
            },
            _ => {
                proof {
                    assert(views(res@) =~= Seq::<Formula>::empty());
                    assert(apply_asm_children(self@, f@, k@, dec.tab(Player::Adam), dec.tab(Player::Eve), pl.data(), last, kl@).flatten() =~= Seq::<(Player, PlayV)>::empty());
                    assert(na_view(out@) =~= o + apply_asm_children(self@, f@, k@, dec.tab(Player::Adam), dec.tab(Player::Eve), pl.data(), last, kl@).flatten());
                }
                res
            },
        }
    }

    /// Reduces the formula `f` of an Eve position `last`, left with counter
    /// `kl`, at the successors' counter `k`: atoms already decided or met
    /// on the play are replaced by their value, then the result is
    /// simplified. The assumptions this takes are appended to `out`.
    pub fn reduce(
        &self,
        f: &LogicFormula,
        k: &Counter,
        dec: &Decisions,
        last: EvePos,
        kl: &Counter,
        pl: &Playlist,
        out: &mut Vec<NewAssumption>,
    ) -> (r: LogicFormula)
        requires
            k@.len() == self.m(),
            kl@.len() == self.m(),
            eve_wf(last, self.m(), self.n()),
            entries_wf(dec.tab(Player::Eve), self.m(), self.n()),
            entries_wf(dec.tab(Player::Adam), self.m(), self.n()),
            pl_wf(pl.0@, self.m(), self.n()),
            new_wf(old(out)@, self.m(), self.n()),
        ensures
            r@ == simp(apply_spec(self@, f@, k@, dec.tab(Player::Adam), dec.tab(Player::Eve), pl.data(), last, kl@)),
            new_wf(final(out)@, self.m(), self.n()),
            na_view(final(out)@) == na_view(old(out)@) + apply_asm(self@, f@, k@, dec.tab(Player::Adam), dec.tab(Player::Eve), pl.data(), last, kl@),
    {
        let g = self.apply_decisions(f, k, dec, last, kl, pl, out);
        simplify(g)
    }

    /// Records the new assumptions at instant `t`.
    fn record_assumptions(&self, st: &mut SolverState, na: Vec<NewAssumption>, t: u64)
        requires
            old(st).wf(self.m(), self.n()),
            t <= old(st).clock,
            times_upto(old(st).assumptions.tab(Player::Eve), t),
            times_upto(old(st).assumptions.tab(Player::Adam), t),
            new_wf(na@, self.m(), self.n()),
        ensures
            final(st).wf(self.m(), self.n()),
            final(st).clock == old(st).clock,
            final(st).dec == old(st).dec,
            final(st).pl == old(st).pl,
            (final(st).assumptions.tab(Player::Eve), final(st).assumptions.tab(Player::Adam)) == record_spec(
                old(st).assumptions.tab(Player::Eve),
                old(st).assumptions.tab(Player::Adam),
                na_view(na@),
                t,
            ),
    {
        let ghost target = record_spec(st.assumptions.tab(Player::Eve), st.assumptions.tab(Player::Adam), na_view(na@), t);
        let mut rest = na;
        while rest.len() > 0
            invariant
                st.wf(self.m(), self.n()),
                st.clock == old(st).clock,
                t <= st.clock,
                times_upto(st.assumptions.tab(Player::Eve), t),
                times_upto(st.assumptions.tab(Player::Adam), t),
                st.dec == old(st).dec,
                st.pl == old(st).pl,
                new_wf(rest@, self.m(), self.n()),
                record_spec(st.assumptions.tab(Player::Eve), st.assumptions.tab(Player::Adam), na_view(rest@), t) == target,
            decreases rest@.len(),
        {
            let ghost before = rest@;
            let (p, d) = rest.remove(0);
            proof {
                assert(play_wf(before[0].1@, self.m(), self.n()));
                assert forall|u: int| 0 <= u < rest@.len() implies play_wf((#[trigger] rest@[u]).1@, self.m(), self.n()) by {
                    assert(rest@[u] == before[u + 1]);
                }
                lemma_tab_push(st.assumptions.tab(p), d@, t, t, self.m(), self.n());
                lemma_tab_push(st.assumptions.tab(opponent(p)), d@, t, t, self.m(), self.n());
            }
            let ghost key = d@;
            st.assumptions.update(p, d.pos, d.k, t);
            proof {
                assert(na_view(rest@) =~= na_view(before).drop_first());
                assert(na_view(before)[0] == (p, key));
            }
        }
        proof {
            assert(na_view(rest@) =~= Seq::<(Player, PlayV)>::empty());
        }
    }

    /// Decides that `p` wins from `d` at instant `t`: the opponent's
    /// assumption on `d`, if any, is dropped together with the opponent's
    /// decisions taken after it; `p`'s own assumption on `d` is dropped.
    fn decide(&self, st: &mut SolverState, p: Player, d: PlayData)
        requires
            old(st).wf(self.m(), self.n()),
            play_wf(d@, self.m(), self.n()),
            old(st).clock > 0,
            forall|i: int| 0 <= i < old(st).dec.tab(Player::Eve).len() ==> (#[trigger] old(st).dec.tab(Player::Eve)[i]).1 < old(st).clock,
            forall|i: int| 0 <= i < old(st).dec.tab(Player::Adam).len() ==> (#[trigger] old(st).dec.tab(Player::Adam)[i]).1 < old(st).clock,
            old(st).consistent(self@),
            forall|j: int| 0 <= j < old(st).pl.data().len() ==> old(st).pl.data()[j] != d@,
            !in_tab(old(st).dec.tab(opponent(p)), d@),
            !no_moves(self@, d@.pos),
        ensures
            final(st).wf(self.m(), self.n()),
            final(st).clock == old(st).clock,
            final(st).pl == old(st).pl,
            final(st).consistent(self@),
            final(st)@ == decide_spec(old(st)@, p, d@, old(st).clock),
            final(st).dec.tab(p) == remove_key(old(st).dec.tab(p), d@).push((d@, old(st).clock)),
            final(st).assumptions.tab(p) == remove_key(old(st).assumptions.tab(p), d@),
            final(st).assumptions.tab(opponent(p)) == remove_key(old(st).assumptions.tab(opponent(p)), d@),
            match find_key(old(st).assumptions.tab(opponent(p)), d@) {
                None => final(st).dec.tab(opponent(p)) == old(st).dec.tab(opponent(p)),
                Some(t0) => forgotten(old(st).dec.tab(opponent(p)), final(st).dec.tab(opponent(p)), t0),
            },
    {
        let opp = Player::get_opponent(&p);
        let t = st.clock;
        match st.assumptions.find(&opp, &d.pos, &d.k) {
            Some(after) => {
                let ghost before = st.dec.tab(opp);
                st.dec.forget(&opp, after);
                proof {
                    lemma_forgotten_unique(before, st.dec.tab(opp), after);
                    let now = st.dec.tab(opp);
                    assert forall|i: int| 0 <= i < now.len() implies play_wf(#[trigger] now[i].0, self.m(), self.n()) && now[i].1 <= t by {
                        assert(now[i] == before[i]);
                    }
                    assert forall|a: int, b: int| 0 <= a < b < now.len() implies now[a].1 < now[b].1 by {
                        assert(now[a] == before[a]);
                        assert(now[b] == before[b]);
                    }
                    lemma_tab_remove(st.assumptions.tab(opp), d@, t, self.m(), self.n());
                }
                st.assumptions.remove(&opp, &d.pos, &d.k);
            },
            None => {
                proof {
                    lemma_key_index(st.assumptions.tab(opp), d@);
                }
            },
        }
        proof {
            lemma_tab_remove(st.assumptions.tab(p), d@, t, self.m(), self.n());
        }
        st.assumptions.remove(&p, &d.pos, &d.k);
        proof {
            let s0 = st.dec.tab(p);
            assert(s0 == old(st).dec.tab(p));
            assert(times_upto(s0, (t - 1) as u64)) by {
                assert forall|i: int| 0 <= i < s0.len() implies s0[i].1 <= (t - 1) as u64 by {
                    assert(s0[i] == old(st).dec.tab(p)[i]);
                    if p == Player::Eve {
                        assert(old(st).dec.tab(Player::Eve)[i].1 < t);
                    } else {
                        assert(old(st).dec.tab(Player::Adam)[i].1 < t);
                    }
                }
            }
            lemma_tab_push(s0, d@, t, (t - 1) as u64, self.m(), self.n());
        }
        let ghost mid_e = st.dec.tab(Player::Eve);
        let ghost mid_a = st.dec.tab(Player::Adam);
        proof {
            let de0 = old(st).dec.tab(Player::Eve);
            let da0 = old(st).dec.tab(Player::Adam);
            assert(de0.take(de0.len() as int) =~= de0);
            assert(da0.take(da0.len() as int) =~= da0);
            lemma_consistent_prefix(self@, st.pl.data(), de0, da0, mid_e, mid_a);
            let other = if p == Player::Eve { mid_a } else { mid_e };
            assert(!in_tab(other, d@));
            lemma_consistent_decide(self@, st.pl.data(), mid_e, mid_a, p, d@, t);
        }
        st.dec.push(&p, d.pos, d.k, t);
    }
}

/// Advancing the clock keeps the state's invariant.
proof fn lemma_state_later(st: &SolverState, m: nat, n: nat, later: u64)
    requires
        st.wf(m, n),
        st.clock <= later,
    ensures
        tab_wf(st.dec.tab(Player::Eve), m, n, later),
        tab_wf(st.dec.tab(Player::Adam), m, n, later),
        tab_wf(st.assumptions.tab(Player::Eve), m, n, later),
        tab_wf(st.assumptions.tab(Player::Adam), m, n, later),
{
}

/// What a step may start from: play data of the game to explore, or a
/// player to backtrack with.
pub open spec fn step_wf(s: Step, m: nat, n: nat) -> bool {
    match s {
        Step::Explore(d) => play_wf(d@, m, n),
        _ => true,
    }
}

impl ParityGame {
    /// Opens a step: assumptions taken in it are stamped `clock + 1`,
    /// decisions `clock + 2`, and the clock moves to `clock + 2`.
    fn tick(&self, st: &mut SolverState) -> (t: u64)
        requires
            old(st).wf(self.m(), self.n()),
            old(st).clock <= u64::MAX - 2,
        ensures
            t == old(st).clock + 1,
            final(st).clock == old(st).clock + 2,
            final(st).wf(self.m(), self.n()),
            final(st).pl == old(st).pl,
            final(st).dec == old(st).dec,
            final(st).assumptions == old(st).assumptions,
            forall|i: int| 0 <= i < final(st).dec.tab(Player::Eve).len() ==> (#[trigger] final(st).dec.tab(Player::Eve)[i]).1 < t,
            forall|i: int| 0 <= i < final(st).dec.tab(Player::Adam).len() ==> (#[trigger] final(st).dec.tab(Player::Adam)[i]).1 < t,
            times_upto(final(st).assumptions.tab(Player::Eve), t),
            times_upto(final(st).assumptions.tab(Player::Adam), t),
    {
        let t = st.clock + 1;
        proof { lemma_state_later(st, self.m(), self.n(), (t + 1) as u64); }
        st.clock = t + 1;
        t
    }

    /// Explores `pd` (one step of the solver): with no move from its
    /// position it is decided for the opponent of the position's owner; a
    /// decision at a counter below or equal to its own settles it; a
    /// position already on the play closes a cycle, won by Eve when the
    /// earlier counter is below the current one in her order, and assumed so;
    /// else the play goes on to the first successor (for an Eve position,
    /// the first next-move of its reduced formula, or a decision for Adam
    /// when that formula is `False`). Assumptions are stamped `clock + 1`,
    /// decisions `clock + 2`.
    pub fn explore(&self, pd: PlayData, st: &mut SolverState) -> (r: Step)
        requires
            self.wf(),
            old(st).consistent(self@),
            self.m() <= usize::MAX,
            old(st).wf(self.m(), self.n()),
            old(st).clock <= u64::MAX - 2,
            play_wf(pd@, self.m(), self.n()),
        ensures
            final(st).wf(self.m(), self.n()),
            final(st).clock == old(st).clock + 2,
            step_wf(r, self.m(), self.n()),
            final(st).consistent(self@),
            r@ == explore_spec(self@, pd@, old(st)@).0,
            final(st)@ == explore_spec(self@, pd@, old(st)@).1,
            no_moves(self@, pd@.pos) ==> {
                let opp = opponent(controller(pd@.pos));
                &&& r == Step::Backtrack(opp)
                &&& final(st).dec.tab(opp) == remove_key(old(st).dec.tab(opp), pd@).push((pd@, final(st).clock))
                &&& final(st).dec.tab(controller(pd@.pos)) == old(st).dec.tab(controller(pd@.pos))
                &&& final(st).assumptions == old(st).assumptions
                &&& final(st).pl == old(st).pl
            },
            !no_moves(self@, pd@.pos) && decision(self@, old(st).dec.tab(Player::Adam), old(st).dec.tab(Player::Eve), pd@.pos, pd@.k) is Some ==> {
                &&& r == Step::Backtrack(decision(self@, old(st).dec.tab(Player::Adam), old(st).dec.tab(Player::Eve), pd@.pos, pd@.k)->0)
                &&& final(st).dec == old(st).dec
                &&& final(st).assumptions == old(st).assumptions
                &&& final(st).pl == old(st).pl
            },
            !no_moves(self@, pd@.pos) && decision(self@, old(st).dec.tab(Player::Adam), old(st).dec.tab(Player::Eve), pd@.pos, pd@.k) is None
                && first_at(old(st).pl.data(), pd@.pos) >= 0 ==> {
                let kp = old(st).pl.data()[first_at(old(st).pl.data(), pd@.pos)].k;
                let p = if lt_eve(self@.fix, kp, pd@.k) { Player::Eve } else { Player::Adam };
                let key = PlayV { pos: pd@.pos, k: kp };
                &&& r == Step::Backtrack(p)
                &&& final(st).assumptions.tab(p) == remove_key(old(st).assumptions.tab(p), key).push((key, (old(st).clock + 1) as u64))
                &&& final(st).assumptions.tab(opponent(p)) == old(st).assumptions.tab(opponent(p))
                &&& final(st).dec == old(st).dec
                &&& final(st).pl == old(st).pl
            },
            !no_moves(self@, pd@.pos) && decision(self@, old(st).dec.tab(Player::Adam), old(st).dec.tab(Player::Eve), pd@.pos, pd@.k) is None
                && first_at(old(st).pl.data(), pd@.pos) < 0 && pd@.pos is Adam ==> {
                let x = pd@.pos->Adam_0;
                &&& r is Explore
                &&& r->Explore_0@ == PlayV { pos: PosV::Eve(univ_spec(x, x.len() as int)[0]), k: pd@.k }
                &&& final(st).pl.data() == old(st).pl.data().push(pd@)
                &&& final(st).dec == old(st).dec
                &&& final(st).assumptions == old(st).assumptions
            },
            !no_moves(self@, pd@.pos) && decision(self@, old(st).dec.tab(Player::Adam), old(st).dec.tab(Player::Eve), pd@.pos, pd@.k) is None
                && first_at(old(st).pl.data(), pd@.pos) < 0 && pd@.pos is Eve && pd@.k[pd@.pos->Eve_0.i - 1] < u32::MAX ==> {
                let e = pd@.pos->Eve_0;
                let kp = next_spec(pd@.k, e.i as nat);
                let f = simp(apply_spec(self@, move_of(self@, e), kp, old(st).dec.tab(Player::Adam),
                    old(st).dec.tab(Player::Eve), old(st).pl.data(), e, pd@.k));
                match next_move_spec(self@, f) {
                    Some(x) => {
                        &&& r is Explore
                        &&& r->Explore_0@ == PlayV { pos: PosV::Adam(x), k: kp }
                        &&& final(st).pl.data() == old(st).pl.data().push(pd@)
                        &&& final(st).dec == old(st).dec
                    },
                    None => {
                        &&& r == Step::Backtrack(Player::Adam)
                        &&& final(st).dec.tab(Player::Adam) == remove_key(old(st).dec.tab(Player::Adam), pd@).push((pd@, final(st).clock))
                        &&& final(st).dec.tab(Player::Eve) == old(st).dec.tab(Player::Eve)
                        &&& final(st).pl == old(st).pl
                    },
                }
            },
    {
        proof { assert(data_of(old(st)@.pl) =~= old(st).pl.data()); }
        let ta = self.tick(st);
        if self.is_empty(&pd.pos) {
            let opp = Player::get_opponent(&Position::get_controller(&pd.pos));
            proof {
                let s0 = st.dec.tab(opp);
                assert(times_upto(s0, ta)) by {
                    assert forall|i: int| 0 <= i < s0.len() implies s0[i].1 <= ta by {
                        if opp == Player::Eve {
                            assert(st.dec.tab(Player::Eve)[i].1 < ta);
                        } else {
                            assert(st.dec.tab(Player::Adam)[i].1 < ta);
                        }
                    }
                }
                lemma_tab_push(s0, pd@, st.clock, ta, self.m(), self.n());
                let pl = st.pl.data();
                let own = st.dec.tab(controller(pd@.pos));
                assert forall|j: int| 0 <= j < pl.len() implies pl[j] != pd@ by {
                    assert(!no_moves(self@, pl[j].pos));
                }
                if in_tab(own, pd@) {
                    let i = choose|i: int| 0 <= i < own.len() && (#[trigger] own[i]).0 == pd@;
                    assert(no_moves(self@, own[i].0.pos));
                }
                lemma_consistent_decide(self@, pl, st.dec.tab(Player::Eve), st.dec.tab(Player::Adam), opp, pd@, st.clock);
            }
            st.dec.push(&opp, pd.pos, pd.k, st.clock);
            return Step::Backtrack(opp);
        }
        proof {
            assert forall|t: int| 0 <= t < st.dec.tab(Player::Eve).len() implies (#[trigger] st.dec.tab(Player::Eve)[t]).0.k.len() == pd.k@.len() by {
                assert(play_wf(st.dec.tab(Player::Eve)[t].0, self.m(), self.n()));
            }
            assert forall|t: int| 0 <= t < st.dec.tab(Player::Adam).len() implies (#[trigger] st.dec.tab(Player::Adam)[t]).0.k.len() == pd.k@.len() by {
                assert(play_wf(st.dec.tab(Player::Adam)[t].0, self.m(), self.n()));
            }
        }
        match st.dec.contains(&self.fix_types, &pd.pos, &pd.k) {
            Some(p) => return Step::Backtrack(p),
            None => {},
        }
        proof {
            let de = st.dec.tab(Player::Eve);
            let da = st.dec.tab(Player::Adam);
            if in_tab(de, pd@) {
                let i = choose|i: int| 0 <= i < de.len() && (#[trigger] de[i]).0 == pd@;
                assert(leq_p_spec(self@.fix, de[i].0.k, pd@.k, Player::Eve));
                assert(decided_for(self@.fix, de, pd@.pos, pd@.k, Player::Eve));
            }
            if in_tab(da, pd@) {
                let i = choose|i: int| 0 <= i < da.len() && (#[trigger] da[i]).0 == pd@;
                assert(leq_p_spec(self@.fix, da[i].0.k, pd@.k, Player::Adam));
                assert(decided_for(self@.fix, da, pd@.pos, pd@.k, Player::Adam));
            }
        }
        match st.pl.contains_position(&pd.pos) {
            Some(kp) => {
                proof {
                    lemma_first_at(st.pl.data(), pd.pos@);
                    let j = first_at(st.pl.data(), pd.pos@);
                    assert(st.pl.data()[j] == st.pl.0@[j].data@);
                    assert(play_wf(st.pl.0@[j].data@, self.m(), self.n()));
                }
                let p = if lt_eve_exec(&self.fix_types, &kp, &pd.k) { Player::Eve } else { Player::Adam };
                proof { lemma_tab_push(st.assumptions.tab(p), PlayV { pos: pd.pos@, k: kp@ }, ta, ta, self.m(), self.n()); }
                st.assumptions.update(p, pd.pos, kp, ta);
                return Step::Backtrack(p);
            },
            None => {},
        }
        proof {
            lemma_first_at(st.pl.data(), pd@.pos);
        }
        let prio = Position::priority(&pd.pos);
        if prio > 0 && pd.k.0[prio - 1] == u32::MAX {
            return Step::Exhausted;
        }
        let kp = Self::next(&pd.k, prio);
        proof { assert(kp@.len() == self.m()); }
        match &pd.pos {
            Position::Adam(x) => {
                let mut succ = Self::universal_move(x);
                proof { lemma_univ_wf(bitmap_view(x.x@), x.x@.len() as int, self.m(), self.n()); }
                let ghost all = succ@;
                let first = succ.remove(0);
                proof {
                    assert(first == all[0]);
                    assert forall|t: int| 0 <= t < succ@.len() implies eve_wf(#[trigger] succ@[t], self.m(), self.n()) by {
                        assert(succ@[t] == all[t + 1]);
                    }
                }
                let k2 = kp.copy();
                proof {
                    lemma_consistent_enter(self@, st.pl.data(), st.dec.tab(Player::Eve), st.dec.tab(Player::Adam), pd@);
                }
                let entry = PlaylistEntry { data: pd, alt: AltMoves::Adam(succ), k: kp };
                let ghost ev = entry_view(entry);
                let ghost before = st.pl.0@;
                st.pl.push(entry);
                proof {
                    assert(succ@ =~= all.drop_first());
                    assert(st@.pl =~= old(st)@.pl.push(ev));
                    assert(pl_data(st.pl.0@) =~= pl_data(before).push(entry.data@));
                    assert forall|j: int| 0 <= j < st.pl.0@.len() implies {
                        &&& play_wf((#[trigger] st.pl.0@[j]).data@, self.m(), self.n())
                        &&& st.pl.0@[j].k@.len() == self.m()
                        &&& match st.pl.0@[j].alt {
                            AltMoves::Adam(v) => forall|t: int| 0 <= t < v@.len() ==> eve_wf(#[trigger] v@[t], self.m(), self.n()),
                            AltMoves::Eve(_) => st.pl.0@[j].data@.pos is Eve,
                        }
                    } by {
                        if j < before.len() {
                            assert(st.pl.0@[j] == before[j]);
                        }
                    }
                }
                Step::Explore(PlayData { pos: Position::Eve(first), k: k2 })
            },
            Position::Eve(e) => {
                let e = *e;
                let f = self.get_formula(e);
                let mut na: Vec<NewAssumption> = Vec::new();
                let nf = self.reduce(f, &kp, &st.dec, e, &pd.k, &st.pl, &mut na);
                self.record_assumptions(st, na, ta);
                match self.next_move(&nf) {
                    Some(x) => {
                        let k2 = kp.copy();
                        proof {
                            lemma_consistent_enter(self@, st.pl.data(), st.dec.tab(Player::Eve), st.dec.tab(Player::Adam), pd@);
                        }
                        let entry = PlaylistEntry { data: pd, alt: AltMoves::Eve(nf), k: kp };
                        let ghost ev = entry_view(entry);
                        let ghost before = st.pl.0@;
                        st.pl.push(entry);
                        proof {
                            assert(st@.pl =~= old(st)@.pl.push(ev));
                            assert(pl_data(st.pl.0@) =~= pl_data(before).push(entry.data@));
                            assert forall|j: int| 0 <= j < st.pl.0@.len() implies {
                                &&& play_wf((#[trigger] st.pl.0@[j]).data@, self.m(), self.n())
                                &&& st.pl.0@[j].k@.len() == self.m()
                                &&& match st.pl.0@[j].alt {
                                    AltMoves::Adam(v) => forall|t: int| 0 <= t < v@.len() ==> eve_wf(#[trigger] v@[t], self.m(), self.n()),
                                    AltMoves::Eve(_) => st.pl.0@[j].data@.pos is Eve,
                                }
                            } by {
                                if j < before.len() {
                                    assert(st.pl.0@[j] == before[j]);
                                }
                            }
                        }
                        Step::Explore(PlayData { pos: Position::Adam(x), k: k2 })
                    },
                    None => {
                        proof {
                            let s0 = st.dec.tab(Player::Adam);
                            assert(times_upto(s0, ta)) by {
                                assert forall|i: int| 0 <= i < s0.len() implies s0[i].1 <= ta by {
                                    assert(s0[i].1 < ta);
                                }
                            }
                            lemma_tab_push(s0, pd@, st.clock, ta, self.m(), self.n());
                            let pl = st.pl.data();
                            assert forall|j: int| 0 <= j < pl.len() implies pl[j] != pd@ by {
                                assert(pl[j].pos != pd@.pos);
                            }
                            lemma_consistent_decide(self@, pl, st.dec.tab(Player::Eve), st.dec.tab(Player::Adam), Player::Adam, pd@, st.clock);
                        }
                        st.dec.push(&Player::Adam, pd.pos, pd.k, st.clock);
                        Step::Backtrack(Player::Adam)
                    },
                }
            },
        }
    }
}

proof fn lemma_pl_pop(s: Seq<PlaylistEntry>, m: nat, n: nat)
    requires
        pl_wf(s, m, n),
        s.len() > 0,
    ensures
        pl_wf(s.drop_last(), m, n),
        play_wf(s.last().data@, m, n),
        s.last().k@.len() == m,
{
    let d = s.drop_last();
    assert forall|j: int| 0 <= j < d.len() implies {
        &&& play_wf((#[trigger] d[j]).data@, m, n)
        &&& d[j].k@.len() == m
        &&& match d[j].alt {
            AltMoves::Adam(v) => forall|t: int| 0 <= t < v@.len() ==> eve_wf(#[trigger] v@[t], m, n),
            AltMoves::Eve(_) => d[j].data@.pos is Eve,
        }
    } by {
        assert(d[j] == s[j]);
    }
    assert(s.last() == s[s.len() - 1]);
}

proof fn lemma_pl_push(s: Seq<PlaylistEntry>, e: PlaylistEntry, m: nat, n: nat)
    requires
        pl_wf(s, m, n),
        play_wf(e.data@, m, n),
        e.k@.len() == m,
        match e.alt {
            AltMoves::Adam(v) => forall|t: int| 0 <= t < v@.len() ==> eve_wf(#[trigger] v@[t], m, n),
            AltMoves::Eve(_) => e.data@.pos is Eve,
        },
    ensures
        pl_wf(s.push(e), m, n),
{
    let q = s.push(e);
    assert forall|j: int| 0 <= j < q.len() implies {
        &&& play_wf((#[trigger] q[j]).data@, m, n)
        &&& q[j].k@.len() == m
        &&& match q[j].alt {
            AltMoves::Adam(v) => forall|t: int| 0 <= t < v@.len() ==> eve_wf(#[trigger] v@[t], m, n),
            AltMoves::Eve(_) => q[j].data@.pos is Eve,
        }
    } by {
        if j < s.len() {
            assert(q[j] == s[j]);
        }
    }
}

impl ParityGame {
    /// Backtracks with `p` as the winner of the last explored play data
    /// (one step of the solver): on an empty play `p` wins; else the last
    /// entry is popped, and if its owner is not `p` and an alternative is
    /// left (the next Eve successor of an Adam position, or the first
    /// next-move of the re-reduced formula of an Eve position), the play
    /// goes on with it; otherwise `p` is decided the winner of the entry
    /// (see `decide`), and the backtrack goes on.
    pub fn backtrack(&self, p: Player, st: &mut SolverState) -> (r: Step)
        requires
            self.wf(),
            old(st).consistent(self@),
            self.m() <= usize::MAX,
            old(st).wf(self.m(), self.n()),
            old(st).clock <= u64::MAX - 2,
        ensures
            final(st).wf(self.m(), self.n()),
            final(st).clock == old(st).clock + 2,
            step_wf(r, self.m(), self.n()),
            final(st).consistent(self@),
            r@ == backtrack_spec(self@, p, old(st)@).0,
            final(st)@ == backtrack_spec(self@, p, old(st)@).1,
            old(st).pl.0@.len() == 0 ==> r == Step::Done(p) && final(st).dec == old(st).dec
                && final(st).assumptions == old(st).assumptions,
            old(st).pl.0@.len() > 0 ==> {
                let e = old(st).pl.0@.last();
                let d = e.data@;
                let rest = old(st).pl.data().drop_last();
                &&& (controller(d.pos) != p && e.alt is Adam && e.alt->Adam_0@.len() > 0) ==> {
                    &&& r is Explore
                    &&& r->Explore_0@ == PlayV { pos: PosV::Eve(e.alt->Adam_0@[0]), k: e.k@ }
                    &&& final(st).pl.data() == old(st).pl.data()
                    &&& final(st).dec == old(st).dec
                    &&& final(st).assumptions == old(st).assumptions
                }
                &&& (controller(d.pos) != p && e.alt is Eve && d.pos is Eve) ==> {
                    let f = simp(apply_spec(self@, e.alt->Eve_0@, e.k@, old(st).dec.tab(Player::Adam),
                        old(st).dec.tab(Player::Eve), rest, d.pos->Eve_0, d.k));
                    next_move_spec(self@, f) is Some ==> {
                        &&& r is Explore
                        &&& r->Explore_0@ == PlayV { pos: PosV::Adam(next_move_spec(self@, f)->0), k: e.k@ }
                        &&& final(st).pl.data() == old(st).pl.data()
                        &&& final(st).dec == old(st).dec
                    }
                }
                &&& (controller(d.pos) == p || (e.alt is Adam && e.alt->Adam_0@.len() == 0)) ==> {
                    &&& r == Step::Backtrack(p)
                    &&& final(st).pl.data() == rest
                    &&& final(st).dec.tab(p) == remove_key(old(st).dec.tab(p), d).push((d, final(st).clock))
                    &&& final(st).assumptions.tab(p) == remove_key(old(st).assumptions.tab(p), d)
                    &&& final(st).assumptions.tab(opponent(p)) == remove_key(old(st).assumptions.tab(opponent(p)), d)
                    &&& match find_key(old(st).assumptions.tab(opponent(p)), d) {
                        None => final(st).dec.tab(opponent(p)) == old(st).dec.tab(opponent(p)),
                        Some(t0) => forgotten(old(st).dec.tab(opponent(p)), final(st).dec.tab(opponent(p)), t0),
                    }
                }
            },
    {
        let ta = self.tick(st);
        let entry = match st.pl.pop() {
            None => return Step::Done(p),
            Some(e) => e,
        };
        proof {
            lemma_pl_pop(old(st).pl.0@, self.m(), self.n());
            assert(pl_data(st.pl.0@) =~= pl_data(old(st).pl.0@).drop_last());
            lemma_consistent_leave(self@, old(st).pl.data(), old(st).dec.tab(Player::Eve), old(st).dec.tab(Player::Adam));
            assert(old(st).pl.data().last() == entry.data@);
            assert(st@.pl =~= old(st)@.pl.drop_last());
            assert(old(st)@.pl.last() == entry_view(entry));
            assert(data_of(st@.pl) =~= st.pl.data());
        }
        let ghost popped = entry;
        let PlaylistEntry { data, alt, k } = entry;
        if Position::get_controller(&data.pos) != p {
            match alt {
                AltMoves::Adam(rest) => {
                    if rest.len() > 0 {
                        let mut rest = rest;
                        let ghost all = rest@;
                        let next = rest.remove(0);
                        proof {
                            assert(eve_wf(all[0], self.m(), self.n()));
                            assert forall|t: int| 0 <= t < rest@.len() implies eve_wf(#[trigger] rest@[t], self.m(), self.n()) by {
                                assert(rest@[t] == all[t + 1]);
                            }
                        }
                        let k2 = k.copy();
                        let e = PlaylistEntry { data, alt: AltMoves::Adam(rest), k };
                        proof { lemma_pl_push(st.pl.0@, e, self.m(), self.n()); }
                        let ghost ev = entry_view(e);
                        let ghost b = st.pl.0@;
                        st.pl.push(e);
                        proof {
                            assert(rest@ =~= all.drop_first());
                            assert(st@.pl =~= old(st)@.pl.drop_last().push(ev));
                            assert(pl_data(st.pl.0@) =~= pl_data(b).push(popped.data@));
                            assert(pl_data(old(st).pl.0@) =~= pl_data(old(st).pl.0@).drop_last().push(popped.data@));
                        }
                        return Step::Explore(PlayData { pos: Position::Eve(next), k: k2 });
                    }
                },
                AltMoves::Eve(f) => {
                    let e = match &data.pos {
                        Position::Eve(e) => *e,
                        Position::Adam(_) => {
                            proof { assert(false); }
                            return Step::Exhausted;
                        },
                    };
                    let mut na: Vec<NewAssumption> = Vec::new();
                    let fp = self.reduce(&f, &k, &st.dec, e, &data.k, &st.pl, &mut na);
                    self.record_assumptions(st, na, ta);
                    match self.next_move(&fp) {
                        Some(x) => {
                            let k2 = k.copy();
                            let en = PlaylistEntry { data, alt: AltMoves::Eve(fp), k };
                            proof { lemma_pl_push(st.pl.0@, en, self.m(), self.n()); }
                            let ghost ev = entry_view(en);
                            let ghost b = st.pl.0@;
                            st.pl.push(en);
                            proof {
                                assert(st@.pl =~= old(st)@.pl.drop_last().push(ev));
                                assert(pl_data(st.pl.0@) =~= pl_data(b).push(popped.data@));
                                assert(pl_data(old(st).pl.0@) =~= pl_data(old(st).pl.0@).drop_last().push(popped.data@));
                            }
                            return Step::Explore(PlayData { pos: Position::Adam(x), k: k2 });
                        },
                        None => {},
                    }
                },
            }
        }
        self.decide(st, p, data);
        Step::Backtrack(p)
    }

    /// The winner of the game from Eve position `(b, i)` (`i` 1-based) with
    /// the all-zero counter. `None` when `b` is not in the basis or `i` is
    /// not an equation index, and when the logical clock or a counter entry
    /// would overflow.
    pub fn local_check(&self, b: &String, i: usize) -> (r: Option<Player>)
        requires
            self.wf(),
        ensures
            r == check_spec(self@, b@, i),
            index_of(self@.basis, b@) < 0 ==> r is None,
            !(1 <= i <= self.m()) ==> r is None,
    {
        let ghost target = check_spec(self@, b@, i);
        let m = self.fix_types.len();
        proof { lemma_index_of(self@.basis, b@); }
        let bi = match position_of(&self.basis, b) {
            Some(bi) => bi,
            None => return None,
        };
        if !(1 <= i && i <= m) {
            return None;
        }
        let start = PlayData { pos: Position::Eve(EvePos { b: bi, i }), k: Counter::zero(m) };
        let mut st = SolverState::new();
        let mut step = Step::Explore(start);
        proof {
            assert(st@.pl =~= Seq::<crate::run::EntryV>::empty());
            assert(st@.ae =~= Seq::<(PlayV, u64)>::empty());
            assert(st@.aa =~= Seq::<(PlayV, u64)>::empty());
            assert(st@.de =~= Seq::<(PlayV, u64)>::empty());
            assert(st@.da =~= Seq::<(PlayV, u64)>::empty());
            assert(st@ == init_state());
            assert(start.k@ =~= Seq::new(self@.fix.len(), |j: int| 0u32));
            assert(run(self@, step@, st@) == target);
        }
        loop
            invariant
                run(self@, step@, st@) == target,
                target == check_spec(self@, b@, i),
                self.wf(),
                m == self.m(),
                index_of(self@.basis, b@) >= 0,
                1 <= i <= m,
                st.wf(self.m(), self.n()),
                st.consistent(self@),
                step_wf(step, self.m(), self.n()),
            decreases u64::MAX - st.clock,
        {
            if st.clock > u64::MAX - 2 {
                proof { assert(run(self@, step@, st@) is None); }
                return None;
            }
            step = match step {
                Step::Explore(pd) => self.explore(pd, &mut st),
                Step::Backtrack(p) => self.backtrack(p, &mut st),
                Step::Done(p) => return Some(p),
                Step::Exhausted => {
                    proof { assert(run(self@, crate::run::StepV::Exhausted, st@) is None); }
                    return None;
                },
            };
        }
    }
}

} // verus!
