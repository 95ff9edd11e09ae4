//! The solver's bookkeeping: play data, assumptions, decisions and the
//! playlist.
use vstd::prelude::*;
use crate::counter::{Counter, counters_equal, leq_p_spec};
use crate::fixpoint::FixType;
use crate::formula::LogicFormula;
use crate::game::{EvePos, Player, PosV, Position, pos_wf};

verus! {

/// A position together with the priority counter it was reached with.
#[derive(Debug, PartialEq, Eq)]
pub struct PlayData {
    pub pos: Position,
    pub k: Counter,
}

/// Model of a [`PlayData`].
pub struct PlayV {
    pub pos: PosV,
    pub k: Seq<u32>,
}

impl View for PlayData {
    type V = PlayV;

    open spec fn view(&self) -> PlayV {
        PlayV { pos: self.pos@, k: self.k@ }
    }
}

/// Play data of a game with `m` equations over `n` basis elements.
pub open spec fn play_wf(d: PlayV, m: nat, n: nat) -> bool {
    pos_wf(d.pos, m, n) && d.k.len() == m
}

impl PlayData {
    /// A copy of this play data.
    pub fn copy(&self) -> (r: PlayData)
        ensures
            r@ == self@,
    {
        PlayData { pos: self.pos.copy(), k: self.k.copy() }
    }

    /// Whether two play data are equal.
    pub fn equals(&self, o: &PlayData) -> (r: bool)
        ensures
            r == (self@ == o@),
    {
        self.pos.equals(&o.pos) && counters_equal(&self.k, &o.k)
    }
}

/// A table entry: play data and the logical instant it was recorded at.
pub type Stamped = (PlayData, u64);

pub open spec fn stamped_view(s: Seq<Stamped>) -> Seq<(PlayV, u64)> {
    s.map_values(|e: Stamped| (e.0@, e.1))
}

/// The first index of an entry for `key`, or `-1`.
pub open spec fn key_index(s: Seq<(PlayV, u64)>, key: PlayV) -> int
    decreases s.len(),
{
    if s.len() == 0 {
        -1
    } else {
        let r = key_index(s.drop_last(), key);
        if r >= 0 {
            r
        } else if s.last().0 == key {
            s.len() - 1
        } else {
            -1
        }
    }
}

pub proof fn lemma_key_index(s: Seq<(PlayV, u64)>, key: PlayV)
    ensures
        -1 <= key_index(s, key) < s.len(),
        key_index(s, key) >= 0 ==> s[key_index(s, key)].0 == key,
        key_index(s, key) >= 0 ==> forall|j: int| 0 <= j < key_index(s, key) ==> s[j].0 != key,
        key_index(s, key) == -1 ==> forall|j: int| 0 <= j < s.len() ==> s[j].0 != key,
    decreases s.len(),
{
    if s.len() > 0 {
        let d = s.drop_last();
        lemma_key_index(d, key);
        let r = key_index(d, key);
        if r >= 0 {
            assert forall|j: int| 0 <= j < r implies s[j].0 != key by {
                assert(s[j] == d[j]);
            }
        } else if s.last().0 == key {
            assert forall|j: int| 0 <= j < s.len() - 1 implies s[j].0 != key by {
                assert(s[j] == d[j]);
            }
        } else {
            assert forall|j: int| 0 <= j < s.len() implies s[j].0 != key by {
                if j < s.len() - 1 {
                    assert(s[j] == d[j]);
                }
            }
        }
    }
}

/// The table without the entry for `key`.
pub open spec fn remove_key(s: Seq<(PlayV, u64)>, key: PlayV) -> Seq<(PlayV, u64)> {
    let j = key_index(s, key);
    if j >= 0 {
        s.remove(j)
    } else {
        s
    }
}

/// The instant recorded for `key`, if any.
pub open spec fn find_key(s: Seq<(PlayV, u64)>, key: PlayV) -> Option<u64> {
    let j = key_index(s, key);
    if j >= 0 {
        Some(s[j].1)
    } else {
        None
    }
}

/// No two entries for the same play data.
pub open spec fn keys_unique(s: Seq<(PlayV, u64)>) -> bool {
    forall|i: int, j: int| 0 <= i < j < s.len() ==> s[i].0 != s[j].0
}

/// Instants strictly increase along the table.
pub open spec fn times_increasing(s: Seq<(PlayV, u64)>) -> bool {
    forall|i: int, j: int| 0 <= i < j < s.len() ==> s[i].1 < s[j].1
}

/// Every entry is recorded no later than `t`.
pub open spec fn times_upto(s: Seq<(PlayV, u64)>, t: u64) -> bool {
    forall|i: int| 0 <= i < s.len() ==> s[i].1 <= t
}

/// Every entry is play data of a game with `m` equations over `n` elements.
pub open spec fn entries_wf(s: Seq<(PlayV, u64)>, m: nat, n: nat) -> bool {
    forall|i: int| 0 <= i < s.len() ==> play_wf(#[trigger] s[i].0, m, n)
}

/// Finds the entry for `key`.
fn find_index(s: &Vec<Stamped>, key: &PlayData) -> (r: Option<usize>)
    ensures
        r is None ==> key_index(stamped_view(s@), key@) == -1,
        r is Some ==> key_index(stamped_view(s@), key@) == r->0 as int && r->0 < s@.len(),
{
    let ghost v = stamped_view(s@);
    proof { lemma_key_index(v, key@); }
    let mut j: usize = 0;
    while j < s.len()
        invariant
            j <= s@.len() == v.len(),
            v == stamped_view(s@),
            forall|t: int| 0 <= t < j ==> v[t].0 != key@,
        decreases s@.len() - j,
    {
        proof { assert(v[j as int].0 == s@[j as int].0@); }
        if s[j].0.equals(key) {
            proof {
                lemma_key_index(v, key@);
                let r = key_index(v, key@);
                if r != j as int {
                    assert(r < 0 || r > j);
                }
            }
            return Some(j);
        }
        j = j + 1;
    }
    proof { lemma_key_index(v, key@); }
    None
}

/// Removes the entry for `key` from a table.
fn remove_entry(s: &mut Vec<Stamped>, key: &PlayData)
    ensures
        stamped_view(final(s)@) == remove_key(stamped_view(old(s)@), key@),
{
    match find_index(s, key) {
        Some(j) => {
            let ghost before = s@;
            s.remove(j);
            proof { assert(stamped_view(s@) =~= stamped_view(before).remove(j as int)); }
        },
        None => {},
    }
}

pub proof fn lemma_remove_key(s: Seq<(PlayV, u64)>, key: PlayV)
    ensures
        forall|i: int| 0 <= i < remove_key(s, key).len() ==> s.contains(#[trigger] remove_key(s, key)[i]),
        keys_unique(s) ==> keys_unique(remove_key(s, key)),
        keys_unique(s) ==> key_index(remove_key(s, key), key) == -1,
        times_increasing(s) ==> times_increasing(remove_key(s, key)),
        remove_key(s, key).len() <= s.len(),
{
    lemma_key_index(s, key);
    let r = remove_key(s, key);
    let j = key_index(s, key);
    if j >= 0 {
        assert forall|i: int| 0 <= i < r.len() implies s.contains(#[trigger] r[i]) by {
            if i < j {
                assert(r[i] == s[i]);
            } else {
                assert(r[i] == s[i + 1]);
            }
        }
        if keys_unique(s) {
            assert forall|a: int, b: int| 0 <= a < b < r.len() implies r[a].0 != r[b].0 by {
                let a2 = if a < j { a } else { a + 1 };
                let b2 = if b < j { b } else { b + 1 };
                assert(r[a] == s[a2]);
                assert(r[b] == s[b2]);
            }
            lemma_key_index(r, key);
            if key_index(r, key) >= 0 {
                let t = key_index(r, key);
                let t2 = if t < j { t } else { t + 1 };
                assert(r[t] == s[t2]);
            }
        }
        if times_increasing(s) {
            assert forall|a: int, b: int| 0 <= a < b < r.len() implies r[a].1 < r[b].1 by {
                let a2 = if a < j { a } else { a + 1 };
                let b2 = if b < j { b } else { b + 1 };
                assert(r[a] == s[a2]);
                assert(r[b] == s[b2]);
            }
        }
    } else {
        if keys_unique(s) {
            lemma_key_index(r, key);
        }
    }
}

/// Per-player assumptions: play data whose winner is conjectured, with the
/// instant each conjecture was made.
pub struct Assumptions {
    eve: Vec<Stamped>,
    adam: Vec<Stamped>,
}

impl Assumptions {
    /// One assumption per play data and player.
    pub open spec fn wf(&self) -> bool {
        keys_unique(self.tab(Player::Eve)) && keys_unique(self.tab(Player::Adam))
    }

    /// The table of player `p`.
    pub closed spec fn tab(&self, p: Player) -> Seq<(PlayV, u64)> {
        match p {
            Player::Eve => stamped_view(self.eve@),
            Player::Adam => stamped_view(self.adam@),
        }
    }

    pub fn new() -> (r: Assumptions)
        ensures
            r.wf(),
            r.tab(Player::Eve).len() == 0,
            r.tab(Player::Adam).len() == 0,
    {
        Assumptions { eve: Vec::new(), adam: Vec::new() }
    }

    /// Records at instant `t` the assumption that `p` wins from `(c, k)`,
    /// replacing an earlier one for the same play data.
    pub fn update(&mut self, p: Player, c: Position, k: Counter, t: u64)
        ensures
            old(self).wf() ==> final(self).wf(),
            final(self).tab(p) == remove_key(old(self).tab(p), PlayV { pos: c@, k: k@ }).push(
                (PlayV { pos: c@, k: k@ }, t),
            ),
            final(self).tab(crate::game::opponent(p)) == old(self).tab(crate::game::opponent(p)),
    {
        let d = PlayData { pos: c, k };
        let ghost key = d@;
        proof {
            lemma_remove_key(old(self).tab(p), key);
            lemma_key_index(remove_key(old(self).tab(p), key), key);
        }
        match p {
            Player::Eve => {
                remove_entry(&mut self.eve, &d);
                let ghost before = self.eve@;
                self.eve.push((d, t));
                proof { assert(stamped_view(self.eve@) =~= stamped_view(before).push((key, t))); }
            },
            Player::Adam => {
                remove_entry(&mut self.adam, &d);
                let ghost before = self.adam@;
                self.adam.push((d, t));
                proof { assert(stamped_view(self.adam@) =~= stamped_view(before).push((key, t))); }
            },
        }
        proof {
            let r = remove_key(old(self).tab(p), key);
            let q = self.tab(p);
            if old(self).wf() {
                assert(keys_unique(r));
                assert forall|a: int, b: int| 0 <= a < b < q.len() implies q[a].0 != q[b].0 by {
                    if b == r.len() {
                        assert(q[a] == r[a]);
                    }
                }
            }
        }
    }

    /// Drops the assumption of `p` on `(c, k)`, if any.
    pub fn remove(&mut self, p: &Player, c: &Position, k: &Counter)
        ensures
            old(self).wf() ==> final(self).wf(),
            old(self).wf() ==> find_key(final(self).tab(*p), PlayV { pos: c@, k: k@ }) is None,
            final(self).tab(*p) == remove_key(old(self).tab(*p), PlayV { pos: c@, k: k@ }),
            final(self).tab(crate::game::opponent(*p)) == old(self).tab(crate::game::opponent(*p)),
    {
        let d = PlayData { pos: c.copy(), k: k.copy() };
        proof { lemma_remove_key(old(self).tab(*p), d@); }
        match p {
            Player::Eve => remove_entry(&mut self.eve, &d),
            Player::Adam => remove_entry(&mut self.adam, &d),
        }
    }

    /// The instant of the assumption of `p` on `(c, k)`, if any.
    pub fn find(&self, p: &Player, c: &Position, k: &Counter) -> (r: Option<u64>)
        ensures
            r == find_key(self.tab(*p), PlayV { pos: c@, k: k@ }),
    {
        let d = PlayData { pos: c.copy(), k: k.copy() };
        let tab = match p {
            Player::Eve => &self.eve,
            Player::Adam => &self.adam,
        };
        match find_index(tab, &d) {
            Some(j) => {
                proof { assert(stamped_view(tab@)[j as int].1 == tab@[j as int].1); }
                Some(tab[j].1)
            },
            None => None,
        }
    }
}

/// Whether some entry of `s` is for position `c` with a counter `<=_p k`.
pub open spec fn decided_for(fix: Seq<FixType>, s: Seq<(PlayV, u64)>, c: PosV, k: Seq<u32>, p: Player) -> bool {
    exists|i: int| 0 <= i < s.len() && (#[trigger] s[i]).0.pos == c && leq_p_spec(fix, s[i].0.k, k, p)
}

/// Per-player decisions: play data whose winner is settled, with the
/// instant of each decision; instants increase along each table.
pub struct Decisions {
    eve: Vec<Stamped>,
    adam: Vec<Stamped>,
}

impl Decisions {
    /// The table of player `p`.
    pub closed spec fn tab(&self, p: Player) -> Seq<(PlayV, u64)> {
        match p {
            Player::Eve => stamped_view(self.eve@),
            Player::Adam => stamped_view(self.adam@),
        }
    }

    pub fn new() -> (r: Decisions)
        ensures
            r.tab(Player::Eve).len() == 0,
            r.tab(Player::Adam).len() == 0,
    {
        Decisions { eve: Vec::new(), adam: Vec::new() }
    }

    /// Records at instant `t` that `p` wins from `(pos, k)`, replacing an
    /// earlier decision for the same play data.
    pub fn push(&mut self, p: &Player, pos: Position, k: Counter, t: u64)
        requires
            forall|i: int| 0 <= i < old(self).tab(*p).len() ==> (#[trigger] old(self).tab(*p)[i]).1 < t,
        ensures
            times_increasing(old(self).tab(*p)) ==> times_increasing(final(self).tab(*p)),
            forall|i: int| 0 <= i < final(self).tab(*p).len() ==> (#[trigger] final(self).tab(*p)[i]).1 <= t,
            final(self).tab(*p) == remove_key(old(self).tab(*p), PlayV { pos: pos@, k: k@ }).push(
                (PlayV { pos: pos@, k: k@ }, t),
            ),
            final(self).tab(crate::game::opponent(*p)) == old(self).tab(crate::game::opponent(*p)),
    {
        let d = PlayData { pos, k };
        let ghost key = d@;
        proof { lemma_remove_key(self.tab(*p), key); }
        match p {
            Player::Eve => {
                remove_entry(&mut self.eve, &d);
                let ghost before = self.eve@;
                self.eve.push((d, t));
                proof { assert(stamped_view(self.eve@) =~= stamped_view(before).push((key, t))); }
            },
            Player::Adam => {
                remove_entry(&mut self.adam, &d);
                let ghost before = self.adam@;
                self.adam.push((d, t));
                proof { assert(stamped_view(self.adam@) =~= stamped_view(before).push((key, t))); }
            },
        }
        proof {
            let o = old(self).tab(*p);
            let r = remove_key(o, key);
            let q = self.tab(*p);
            assert forall|i: int| 0 <= i < q.len() implies (#[trigger] q[i]).1 <= t by {
                if i < r.len() {
                    assert(o.contains(r[i]));
                }
            }
            if times_increasing(o) {
                assert forall|a: int, b: int| 0 <= a < b < q.len() implies q[a].1 < q[b].1 by {
                    if b == r.len() {
                        assert(o.contains(r[a]));
                    }
                }
            }
        }
    }

    /// The player, if any, with a decision on position `c` at a counter
    /// below or equal to `k` in that player's order; Adam's table is
    /// consulted first.
    pub fn contains(&self, fix: &Vec<FixType>, c: &Position, k: &Counter) -> (r: Option<Player>)
        requires
            fix@.len() == k@.len(),
            forall|i: int| 0 <= i < self.tab(Player::Eve).len() ==> (#[trigger] self.tab(Player::Eve)[i]).0.k.len() == k@.len(),
            forall|i: int| 0 <= i < self.tab(Player::Adam).len() ==> (#[trigger] self.tab(Player::Adam)[i]).0.k.len() == k@.len(),
        ensures
            r == if decided_for(fix@, self.tab(Player::Adam), c@, k@, Player::Adam) {
                Some(Player::Adam)
            } else if decided_for(fix@, self.tab(Player::Eve), c@, k@, Player::Eve) {
                Some(Player::Eve)
            } else {
                None
            },
    {
        proof {
            assert forall|i: int| 0 <= i < stamped_view(self.adam@).len() implies (#[trigger] stamped_view(self.adam@)[i]).0.k.len() == k@.len() by {
                assert(self.tab(Player::Adam)[i] == stamped_view(self.adam@)[i]);
            }
            assert forall|i: int| 0 <= i < stamped_view(self.eve@).len() implies (#[trigger] stamped_view(self.eve@)[i]).0.k.len() == k@.len() by {
                assert(self.tab(Player::Eve)[i] == stamped_view(self.eve@)[i]);
            }
        }
        if any_decided(fix, &self.adam, c, k, &Player::Adam) {
            Some(Player::Adam)
        } else if any_decided(fix, &self.eve, c, k, &Player::Eve) {
            Some(Player::Eve)
        } else {
            None
        }
    }

    /// Whether `p` has a decision on position `c` at a counter below or
    /// equal to `k` in `p`'s order.
    pub fn decided(&self, fix: &Vec<FixType>, c: &Position, k: &Counter, p: &Player) -> (r: bool)
        requires
            fix@.len() == k@.len(),
            forall|i: int| 0 <= i < self.tab(*p).len() ==> (#[trigger] self.tab(*p)[i]).0.k.len() == k@.len(),
        ensures
            r == decided_for(fix@, self.tab(*p), c@, k@, *p),
    {
        match p {
            Player::Eve => {
                proof {
                    assert forall|i: int| 0 <= i < stamped_view(self.eve@).len() implies (#[trigger] stamped_view(self.eve@)[i]).0.k.len() == k@.len() by {
                        assert(self.tab(Player::Eve)[i] == stamped_view(self.eve@)[i]);
                    }
                }
                any_decided(fix, &self.eve, c, k, p)
            },
            Player::Adam => {
                proof {
                    assert forall|i: int| 0 <= i < stamped_view(self.adam@).len() implies (#[trigger] stamped_view(self.adam@)[i]).0.k.len() == k@.len() by {
                        assert(self.tab(Player::Adam)[i] == stamped_view(self.adam@)[i]);
                    }
                }
                any_decided(fix, &self.adam, c, k, p)
            },
        }
    }

    /// Forgets the decisions of `p` recorded after instant `after`.
    pub fn forget(&mut self, p: &Player, after: u64)
        requires
            times_increasing(old(self).tab(*p)),
        ensures
            final(self).tab(*p).len() <= old(self).tab(*p).len(),
            final(self).tab(*p) == old(self).tab(*p).take(final(self).tab(*p).len() as int),
            forall|i: int| 0 <= i < final(self).tab(*p).len() ==> (#[trigger] final(self).tab(*p)[i]).1 <= after,
            forall|i: int|
                final(self).tab(*p).len() <= i < old(self).tab(*p).len() ==> (#[trigger] old(self).tab(*p)[i]).1 > after,
            final(self).tab(crate::game::opponent(*p)) == old(self).tab(crate::game::opponent(*p)),
    {
        match p {
            Player::Eve => cut_after(&mut self.eve, after),
            Player::Adam => cut_after(&mut self.adam, after),
        }
    }
}

fn cut_after(s: &mut Vec<Stamped>, after: u64)
    requires
        times_increasing(stamped_view(old(s)@)),
    ensures
        final(s)@.len() <= old(s)@.len(),
        stamped_view(final(s)@) == stamped_view(old(s)@).take(final(s)@.len() as int),
        forall|i: int| 0 <= i < final(s)@.len() ==> (#[trigger] stamped_view(final(s)@)[i]).1 <= after,
        forall|i: int| final(s)@.len() <= i < old(s)@.len() ==> (#[trigger] stamped_view(old(s)@)[i]).1 > after,
{
    let ghost v = stamped_view(s@);
    let mut j: usize = 0;
    while j < s.len() && s[j].1 <= after
        invariant
            j <= s@.len(),
            v == stamped_view(s@),
            times_increasing(v),
            forall|t: int| 0 <= t < j ==> (#[trigger] v[t]).1 <= after,
        decreases s@.len() - j,
    {
        proof { assert(v[j as int].1 == s@[j as int].1); }
        j = j + 1;
    }
    proof {
        if j < s@.len() {
            assert(v[j as int].1 == s@[j as int].1);
            assert forall|i: int| j <= i < s@.len() implies (#[trigger] v[i]).1 > after by {
                if i > j {
                    assert(v[j as int].1 < v[i].1);
                }
            }
        }
    }
    s.truncate(j);
    proof {
        assert(stamped_view(s@) =~= v.take(j as int));
    }
}

/// Whether some entry of `s` is for `c` with a counter `<=_p k`.
fn any_decided(fix: &Vec<FixType>, s: &Vec<Stamped>, c: &Position, k: &Counter, p: &Player) -> (r: bool)
    requires
        fix@.len() == k@.len(),
        forall|i: int| 0 <= i < stamped_view(s@).len() ==> (#[trigger] stamped_view(s@)[i]).0.k.len() == k@.len(),
    ensures
        r == decided_for(fix@, stamped_view(s@), c@, k@, *p),
{
    let ghost v = stamped_view(s@);
    let mut j: usize = 0;
    while j < s.len()
        invariant
            j <= s@.len() == v.len(),
            v == stamped_view(s@),
            fix@.len() == k@.len(),
            forall|i: int| 0 <= i < v.len() ==> (#[trigger] v[i]).0.k.len() == k@.len(),
            forall|t: int| 0 <= t < j ==> !((#[trigger] v[t]).0.pos == c@ && leq_p_spec(fix@, v[t].0.k, k@, *p)),
        decreases s@.len() - j,
    {
        proof { assert(v[j as int].0 == s@[j as int].0@); }
        if s[j].0.pos.equals(c) && Counter::leq_p(&s[j].0.k, k, p, fix) {
            return true;
        }
        j = j + 1;
    }
    false
}

/// Moves still to try from a playlist entry: for an Adam position the Eve
/// successors not yet explored; for an Eve position the residual formula.
pub enum AltMoves {
    Adam(Vec<EvePos>),
    Eve(LogicFormula),
}

/// An entry of the playlist: the play data entered, what is left to try
/// from it, and the counter of its successors.
pub struct PlaylistEntry {
    pub data: PlayData,
    pub alt: AltMoves,
    pub k: Counter,
}

/// The current play, as a stack of entries.
pub struct Playlist(pub Vec<PlaylistEntry>);

/// The play data of the entries of a playlist.
pub open spec fn pl_data(s: Seq<PlaylistEntry>) -> Seq<PlayV> {
    s.map_values(|e: PlaylistEntry| e.data@)
}

/// The index of the first entry at position `c`, or `-1`.
pub open spec fn first_at(s: Seq<PlayV>, c: PosV) -> int
    decreases s.len(),
{
    if s.len() == 0 {
        -1
    } else {
        let r = first_at(s.drop_last(), c);
        if r >= 0 {
            r
        } else if s.last().pos == c {
            s.len() - 1
        } else {
            -1
        }
    }
}

pub proof fn lemma_first_at(s: Seq<PlayV>, c: PosV)
    ensures
        -1 <= first_at(s, c) < s.len(),
        first_at(s, c) >= 0 ==> s[first_at(s, c)].pos == c,
        first_at(s, c) >= 0 ==> forall|j: int| 0 <= j < first_at(s, c) ==> s[j].pos != c,
        first_at(s, c) == -1 ==> forall|j: int| 0 <= j < s.len() ==> s[j].pos != c,
    decreases s.len(),
{
    if s.len() > 0 {
        let d = s.drop_last();
        lemma_first_at(d, c);
        let r = first_at(d, c);
        if r >= 0 {
            assert forall|j: int| 0 <= j < r implies s[j].pos != c by {
                assert(s[j] == d[j]);
            }
        } else if s.last().pos == c {
            assert forall|j: int| 0 <= j < s.len() - 1 implies s[j].pos != c by {
                assert(s[j] == d[j]);
            }
        } else {
            assert forall|j: int| 0 <= j < s.len() implies s[j].pos != c by {
                if j < s.len() - 1 {
                    assert(s[j] == d[j]);
                }
            }
        }
    }
}

impl Playlist {
    pub open spec fn data(&self) -> Seq<PlayV> {
        pl_data(self.0@)
    }

    /// The counter of the first entry at position `c`, if any.
    pub fn contains_position(&self, c: &Position) -> (r: Option<Counter>)
        ensures
            r is None ==> first_at(self.data(), c@) == -1,
            r is Some ==> first_at(self.data(), c@) >= 0 && r->0@ == self.data()[first_at(self.data(), c@)].k,
    {
        let ghost v = self.data();
        proof { lemma_first_at(v, c@); }
        let mut j: usize = 0;
        while j < self.0.len()
            invariant
                j <= self.0@.len() == v.len(),
                v == self.data(),
                forall|t: int| 0 <= t < j ==> v[t].pos != c@,
            decreases self.0@.len() - j,
        {
            proof { assert(v[j as int] == self.0@[j as int].data@); }
            if self.0[j].data.pos.equals(c) {
                proof {
                    lemma_first_at(v, c@);
                    let r = first_at(v, c@);
                    if r != j as int {
                        assert(r < 0 || r > j);
                    }
                }
                return Some(self.0[j].data.k.copy());
            }
            j = j + 1;
        }
        None
    }

    pub fn push(&mut self, e: PlaylistEntry)
        ensures
            final(self).0@ == old(self).0@.push(e),
    {
        self.0.push(e);
    }

    pub fn pop(&mut self) -> (r: Option<PlaylistEntry>)
        ensures
            old(self).0@.len() == 0 ==> r is None && final(self).0@ == old(self).0@,
            old(self).0@.len() > 0 ==> r == Some(old(self).0@.last()) && final(self).0@ == old(self).0@.drop_last(),
    {
        self.0.pop()
    }

    #[allow(non_snake_case)]
    pub fn isEmpty(&self) -> (r: bool)
        ensures
            r == (self.0@.len() == 0),
    {
        self.0.len() == 0
    }
}

} // verus!
