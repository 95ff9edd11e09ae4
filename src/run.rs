//! The solver's run as mathematics: each step from a state to the next,
//! and the winner a run from the start position reaches.
use vstd::prelude::*;
use crate::counter::{lt_eve, next_spec};
use crate::formula::{Formula, simp};
use crate::game::{EvePos, Player, PosV, controller, opponent, priority_spec};
use crate::moves::index_of;
use crate::solver::{
    GameV, SolverState, Step, apply_spec, atom_pos, decision, forgotten, move_of, next_move_spec, no_moves,
    univ_spec,
};
use crate::tables::{AltMoves, PlayV, PlaylistEntry, decided_for, find_key, first_at, remove_key};

verus! {

/// Model of what is left to try from a playlist entry.
pub enum AltV {
    Adam(Seq<EvePos>),
    Eve(Formula),
}

/// Model of a playlist entry.
pub struct EntryV {
    pub data: PlayV,
    pub alt: AltV,
    pub k: Seq<u32>,
}

/// Model of the solver's state: the play, the assumptions (`ae`, `aa`)
/// and decisions (`de`, `da`) of Eve and Adam, and the clock.
pub struct StateV {
    pub pl: Seq<EntryV>,
    pub ae: Seq<(PlayV, u64)>,
    pub aa: Seq<(PlayV, u64)>,
    pub de: Seq<(PlayV, u64)>,
    pub da: Seq<(PlayV, u64)>,
    pub clock: u64,
}

/// Model of a solver step.
pub enum StepV {
    Explore(PlayV),
    Backtrack(Player),
    Done(Player),
    Exhausted,
}

pub open spec fn entry_view(e: PlaylistEntry) -> EntryV {
    EntryV {
        data: e.data@,
        alt: match e.alt {
            AltMoves::Adam(v) => AltV::Adam(v@),
            AltMoves::Eve(f) => AltV::Eve(f@),
        },
        k: e.k@,
    }
}

impl View for SolverState {
    type V = StateV;

    open spec fn view(&self) -> StateV {
        StateV {
            pl: self.pl.0@.map_values(|e: PlaylistEntry| entry_view(e)),
            ae: self.assumptions.tab(Player::Eve),
            aa: self.assumptions.tab(Player::Adam),
            de: self.dec.tab(Player::Eve),
            da: self.dec.tab(Player::Adam),
            clock: self.clock,
        }
    }
}

impl View for Step {
    type V = StepV;

    open spec fn view(&self) -> StepV {
        match self {
            Step::Explore(d) => StepV::Explore(d@),
            Step::Backtrack(p) => StepV::Backtrack(*p),
            Step::Done(p) => StepV::Done(*p),
            Step::Exhausted => StepV::Exhausted,
        }
    }
}

/// The play data of the entries, in order.
pub open spec fn data_of(pl: Seq<EntryV>) -> Seq<PlayV> {
    pl.map_values(|e: EntryV| e.data)
}

/// The table with `key` recorded at `t`, replacing an earlier entry.
pub open spec fn upd(s: Seq<(PlayV, u64)>, key: PlayV, t: u64) -> Seq<(PlayV, u64)> {
    remove_key(s, key).push((key, t))
}

/// The table without the entries recorded after `t` (see [`forgotten`]).
pub open spec fn cut(s: Seq<(PlayV, u64)>, t: u64) -> Seq<(PlayV, u64)> {
    choose|n: Seq<(PlayV, u64)>| forgotten(s, n, t)
}

/// The assumptions after recording the new ones `na`, in order, at `t`.
pub open spec fn record_spec(
    ae: Seq<(PlayV, u64)>,
    aa: Seq<(PlayV, u64)>,
    na: Seq<(Player, PlayV)>,
    t: u64,
) -> (Seq<(PlayV, u64)>, Seq<(PlayV, u64)>)
    decreases na.len(),
{
    if na.len() == 0 {
        (ae, aa)
    } else if na[0].0 == Player::Eve {
        record_spec(upd(ae, na[0].1, t), aa, na.drop_first(), t)
    } else {
        record_spec(ae, upd(aa, na[0].1, t), na.drop_first(), t)
    }
}

/// Whether playlist data `d` is at `c` with a counter below `k` in Eve's
/// order (`below`), or above it.
pub open spec fn cycle_hit(fix: Seq<crate::fixpoint::FixType>, d: PlayV, c: PosV, k: Seq<u32>, below: bool) -> bool {
    d.pos == c && if below { lt_eve(fix, d.k, k) } else { lt_eve(fix, k, d.k) }
}

/// The first index of the play with a [`cycle_hit`], or `-1`.
pub open spec fn first_hit(fix: Seq<crate::fixpoint::FixType>, pl: Seq<PlayV>, c: PosV, k: Seq<u32>, below: bool) -> int {
    if exists|j: int| 0 <= j < pl.len() && cycle_hit(fix, #[trigger] pl[j], c, k, below) {
        choose|j: int|
            0 <= j < pl.len() && cycle_hit(fix, pl[j], c, k, below) && forall|i: int|
                0 <= i < j ==> !cycle_hit(fix, #[trigger] pl[i], c, k, below)
    } else {
        -1
    }
}

/// The assumption an atom `[b, i]` takes in a reduction (see
/// `atom_value`): the first entry of the play closing a cycle below (for
/// Eve) or above (for Adam) the counter `k`, else the position `last` being
/// left, when it closes one; none when the atom is decided or stays.
pub open spec fn atom_asm(
    g: GameV,
    b: Seq<char>,
    i: usize,
    k: Seq<u32>,
    da: Seq<(PlayV, u64)>,
    de: Seq<(PlayV, u64)>,
    pl: Seq<PlayV>,
    last: EvePos,
    kl: Seq<u32>,
) -> Seq<(Player, PlayV)> {
    match atom_pos(g, b, i) {
        None => Seq::empty(),
        Some(e) => {
            let c = PosV::Eve(e);
            if decided_for(g.fix, de, c, k, Player::Eve) || decided_for(g.fix, da, c, k, Player::Adam) {
                Seq::empty()
            } else if first_hit(g.fix, pl, c, k, true) >= 0 {
                seq![(Player::Eve, pl[first_hit(g.fix, pl, c, k, true)])]
            } else if first_hit(g.fix, pl, c, k, false) >= 0 {
                seq![(Player::Adam, pl[first_hit(g.fix, pl, c, k, false)])]
            } else if e == last && lt_eve(g.fix, k, kl) {
                seq![(Player::Adam, PlayV { pos: PosV::Eve(last), k: kl })]
            } else if e == last && lt_eve(g.fix, kl, k) {
                seq![(Player::Eve, PlayV { pos: PosV::Eve(last), k: kl })]
            } else {
                Seq::empty()
            }
        },
    }
}

/// The assumptions a reduction of `f` takes, atom by atom from left to
/// right.
pub open spec fn apply_asm(
    g: GameV,
    f: Formula,
    k: Seq<u32>,
    da: Seq<(PlayV, u64)>,
    de: Seq<(PlayV, u64)>,
    pl: Seq<PlayV>,
    last: EvePos,
    kl: Seq<u32>,
) -> Seq<(Player, PlayV)>
    decreases f, 1int,
{
    match f {
        Formula::Atom(b, i) => atom_asm(g, b, i, k, da, de, pl, last, kl),
        Formula::Conj(_) | Formula::Disj(_) => apply_asm_children(g, f, k, da, de, pl, last, kl).flatten(),
        _ => Seq::empty(),
    }
}

pub open spec fn apply_asm_children(
    g: GameV,
    f: Formula,
    k: Seq<u32>,
    da: Seq<(PlayV, u64)>,
    de: Seq<(PlayV, u64)>,
    pl: Seq<PlayV>,
    last: EvePos,
    kl: Seq<u32>,
) -> Seq<Seq<(Player, PlayV)>>
    decreases f, 0int,
{
    match f {
        Formula::Conj(xs) | Formula::Disj(xs) => Seq::new(
            xs.len(),
            |j: int| if 0 <= j < xs.len() { apply_asm(g, xs[j], k, da, de, pl, last, kl) } else { Seq::empty() },
        ),
        _ => Seq::empty(),
    }
}

/// The decision table of `p`.
pub open spec fn dec_of(s: StateV, p: Player) -> Seq<(PlayV, u64)> {
    if p == Player::Eve { s.de } else { s.da }
}

/// The assumption table of `p`.
pub open spec fn asm_of(s: StateV, p: Player) -> Seq<(PlayV, u64)> {
    if p == Player::Eve { s.ae } else { s.aa }
}

pub open spec fn with_dec(s: StateV, p: Player, t: Seq<(PlayV, u64)>) -> StateV {
    if p == Player::Eve { StateV { de: t, ..s } } else { StateV { da: t, ..s } }
}

pub open spec fn with_asm(s: StateV, p: Player, t: Seq<(PlayV, u64)>) -> StateV {
    if p == Player::Eve { StateV { ae: t, ..s } } else { StateV { aa: t, ..s } }
}

/// Deciding that `p` wins from `d` at `td`: the opponent's assumption on
/// `d`, if any, goes, with the opponent's decisions recorded after it;
/// `p`'s assumption on `d` goes; the decision is recorded.
pub open spec fn decide_spec(s: StateV, p: Player, d: PlayV, td: u64) -> StateV {
    let opp = opponent(p);
    let s1 = match find_key(asm_of(s, opp), d) {
        Some(t0) => with_asm(with_dec(s, opp, cut(dec_of(s, opp), t0)), opp, remove_key(asm_of(s, opp), d)),
        None => s,
    };
    with_dec(with_asm(s1, p, remove_key(asm_of(s1, p), d)), p, upd(dec_of(s1, p), d, td))
}

/// One exploration step from `d` (see `ParityGame::explore`).
pub open spec fn explore_spec(g: GameV, d: PlayV, s: StateV) -> (StepV, StateV) {
    let ta = (s.clock + 1) as u64;
    let td = (s.clock + 2) as u64;
    let s1 = StateV { clock: td, ..s };
    let pl = data_of(s.pl);
    if no_moves(g, d.pos) {
        let opp = opponent(controller(d.pos));
        (StepV::Backtrack(opp), with_dec(s1, opp, upd(dec_of(s, opp), d, td)))
    } else if decision(g, s.da, s.de, d.pos, d.k) is Some {
        (StepV::Backtrack(decision(g, s.da, s.de, d.pos, d.k)->0), s1)
    } else if first_at(pl, d.pos) >= 0 {
        let kp = pl[first_at(pl, d.pos)].k;
        let p = if lt_eve(g.fix, kp, d.k) { Player::Eve } else { Player::Adam };
        (StepV::Backtrack(p), with_asm(s1, p, upd(asm_of(s, p), PlayV { pos: d.pos, k: kp }, ta)))
    } else if priority_spec(d.pos) > 0 && d.k[priority_spec(d.pos) - 1] == u32::MAX {
        (StepV::Exhausted, s1)
    } else {
        let kp = next_spec(d.k, priority_spec(d.pos));
        match d.pos {
            PosV::Adam(x) => {
                let succ = univ_spec(x, x.len() as int);
                (
                    StepV::Explore(PlayV { pos: PosV::Eve(succ[0]), k: kp }),
                    StateV { pl: s.pl.push(EntryV { data: d, alt: AltV::Adam(succ.drop_first()), k: kp }), ..s1 },
                )
            },
            PosV::Eve(e) => {
                let f = simp(apply_spec(g, move_of(g, e), kp, s.da, s.de, pl, e, d.k));
                let na = apply_asm(g, move_of(g, e), kp, s.da, s.de, pl, e, d.k);
                let recorded = record_spec(s.ae, s.aa, na, ta);
                let s2 = StateV { ae: recorded.0, aa: recorded.1, ..s1 };
                match next_move_spec(g, f) {
                    Some(x) => (
                        StepV::Explore(PlayV { pos: PosV::Adam(x), k: kp }),
                        StateV { pl: s.pl.push(EntryV { data: d, alt: AltV::Eve(f), k: kp }), ..s2 },
                    ),
                    None => (StepV::Backtrack(Player::Adam), StateV { da: upd(s.da, d, td), ..s2 }),
                }
            },
        }
    }
}

/// One backtracking step with `p` as winner (see `ParityGame::backtrack`).
pub open spec fn backtrack_spec(g: GameV, p: Player, s: StateV) -> (StepV, StateV) {
    let ta = (s.clock + 1) as u64;
    let td = (s.clock + 2) as u64;
    let s1 = StateV { clock: td, ..s };
    if s.pl.len() == 0 {
        (StepV::Done(p), s1)
    } else {
        let e = s.pl.last();
        let rest = s.pl.drop_last();
        let s1r = StateV { pl: rest, ..s1 };
        if controller(e.data.pos) != p {
            match e.alt {
                AltV::Adam(v) => if v.len() > 0 {
                    (
                        StepV::Explore(PlayV { pos: PosV::Eve(v[0]), k: e.k }),
                        StateV { pl: rest.push(EntryV { data: e.data, alt: AltV::Adam(v.drop_first()), k: e.k }), ..s1 },
                    )
                } else {
                    (StepV::Backtrack(p), decide_spec(s1r, p, e.data, td))
                },
                AltV::Eve(f) => match e.data.pos {
                    PosV::Eve(ev) => {
                        let fp = simp(apply_spec(g, f, e.k, s.da, s.de, data_of(rest), ev, e.data.k));
                        let na = apply_asm(g, f, e.k, s.da, s.de, data_of(rest), ev, e.data.k);
                        let recorded = record_spec(s.ae, s.aa, na, ta);
                        let s2 = StateV { ae: recorded.0, aa: recorded.1, ..s1r };
                        match next_move_spec(g, fp) {
                            Some(x) => (
                                StepV::Explore(PlayV { pos: PosV::Adam(x), k: e.k }),
                                StateV { pl: rest.push(EntryV { data: e.data, alt: AltV::Eve(fp), k: e.k }), ..s2 },
                            ),
                            None => (StepV::Backtrack(p), decide_spec(s2, p, e.data, td)),
                        }
                    },
                    PosV::Adam(_) => (StepV::Exhausted, s1r),
                },
            }
        } else {
            (StepV::Backtrack(p), decide_spec(s1r, p, e.data, td))
        }
    }
}

/// The winner a run reaches from `step` in state `s`: `None` when the
/// clock would pass `u64::MAX` or a counter entry would overflow.
pub open spec fn run(g: GameV, step: StepV, s: StateV) -> Option<Player>
    decreases u64::MAX - s.clock,
{
    if s.clock > u64::MAX - 2 {
        None
    } else {
        match step {
            StepV::Done(p) => Some(p),
            StepV::Exhausted => None,
            StepV::Explore(d) => {
                let n = explore_spec(g, d, s);
                run(g, n.0, StateV { clock: (s.clock + 2) as u64, ..n.1 })
            },
            StepV::Backtrack(p) => {
                let n = backtrack_spec(g, p, s);
                run(g, n.0, StateV { clock: (s.clock + 2) as u64, ..n.1 })
            },
        }
    }
}

/// The initial state: empty play and tables, clock `0`.
pub open spec fn init_state() -> StateV {
    StateV {
        pl: Seq::empty(),
        ae: Seq::empty(),
        aa: Seq::empty(),
        de: Seq::empty(),
        da: Seq::empty(),
        clock: 0,
    }
}

/// The winner of the game from `Eve(b, i)` with the all-zero counter, as
/// the run of the solver decides it; `None` for an unknown basis element
/// or equation index, or when the run exhausts the clock or a counter.
pub open spec fn check_spec(g: GameV, b: Seq<char>, i: usize) -> Option<Player> {
    let bi = index_of(g.basis, b);
    if bi >= 0 && 1 <= i <= g.fix.len() {
        run(
            g,
            StepV::Explore(PlayV { pos: PosV::Eve(EvePos { b: bi as usize, i }), k: Seq::new(g.fix.len(), |j: int| 0u32) }),
            init_state(),
        )
    } else {
        None
    }
}

/// The solver is a function of its inputs: two runs from the same query
/// of the same game reach the same winner.
pub proof fn lemma_check_deterministic(g: GameV, b: Seq<char>, i: usize, g2: GameV, b2: Seq<char>, i2: usize)
    requires
        g == g2,
        b == b2,
        i == i2,
    ensures
        check_spec(g, b, i) == check_spec(g2, b2, i2),
{
}

/// The models of new assumptions.
pub open spec fn na_view(s: Seq<crate::solver::NewAssumption>) -> Seq<(Player, PlayV)> {
    s.map_values(|x: crate::solver::NewAssumption| (x.0, x.1@))
}

/// At most one table is what remains of `s` once the entries after `t` go.
pub proof fn lemma_forgotten_unique(s: Seq<(PlayV, u64)>, n: Seq<(PlayV, u64)>, t: u64)
    requires
        forgotten(s, n, t),
    ensures
        cut(s, t) == n,
{
    let c = cut(s, t);
    assert(forgotten(s, c, t));
    if c.len() < n.len() {
        assert(s[c.len() as int].1 > t);
        assert(n[c.len() as int] == s[c.len() as int]);
    } else if n.len() < c.len() {
        assert(s[n.len() as int].1 > t);
        assert(c[n.len() as int] == s[n.len() as int]);
    }
}

/// An index with a hit and none before it is [`first_hit`].
pub proof fn lemma_first_hit(fix: Seq<crate::fixpoint::FixType>, pl: Seq<PlayV>, c: PosV, k: Seq<u32>, below: bool, j: int)
    requires
        0 <= j < pl.len(),
        cycle_hit(fix, pl[j], c, k, below),
        forall|i: int| 0 <= i < j ==> !cycle_hit(fix, #[trigger] pl[i], c, k, below),
    ensures
        first_hit(fix, pl, c, k, below) == j,
{
    assert(exists|w: int| 0 <= w < pl.len() && cycle_hit(fix, #[trigger] pl[w], c, k, below));
    let w = first_hit(fix, pl, c, k, below);
    assert(0 <= w < pl.len() && cycle_hit(fix, pl[w], c, k, below) && forall|i: int| 0 <= i < w ==> !cycle_hit(fix, #[trigger] pl[i], c, k, below));
    if w < j {
        assert(!cycle_hit(fix, pl[w], c, k, below));
    } else if j < w {
        assert(!cycle_hit(fix, pl[j], c, k, below));
    }
}

} // verus!
