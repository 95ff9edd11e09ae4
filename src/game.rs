//! Players and positions of the symbolic parity game.
use vstd::prelude::*;

verus! {

/// The existential (`Eve`) and the universal (`Adam`) player.
#[derive(Debug, Clone, Copy, PartialEq, Eq, Structural)]
pub enum Player {
    Eve,
    Adam,
}

impl Player {
    /// The other player.
    pub fn get_opponent(p: &Player) -> (r: Player)
        ensures
            r != *p,
    {
        match p {
            Player::Eve => Player::Adam,
            Player::Adam => Player::Eve,
        }
    }
}

} // verus!

verus! {

/// An Eve position `(b, i)`: basis element `b` (index into the basis) and
/// equation `i` (1-based).
#[derive(Debug, Clone, Copy, PartialEq, Eq, Structural)]
pub struct EvePos {
    pub b: usize,
    pub i: usize,
}

/// An Adam position `X = (X_1, ..., X_m)`: `x[j][b]` holds when basis
/// element `b` belongs to `X_{j+1}`.
#[derive(Debug, PartialEq, Eq)]
pub struct AdamPos {
    pub x: Vec<Vec<bool>>,
}

/// A position of the symbolic parity game.
#[derive(Debug, PartialEq, Eq)]
pub enum Position {
    Eve(EvePos),
    Adam(AdamPos),
}

/// Model of a [`Position`].
pub enum PosV {
    Eve(EvePos),
    Adam(Seq<Seq<bool>>),
}

pub open spec fn bitmap_view(x: Seq<Vec<bool>>) -> Seq<Seq<bool>> {
    x.map_values(|r: Vec<bool>| r@)
}

impl View for Position {
    type V = PosV;

    open spec fn view(&self) -> PosV {
        match self {
            Position::Eve(e) => PosV::Eve(*e),
            Position::Adam(a) => PosV::Adam(bitmap_view(a.x@)),
        }
    }
}

/// An Adam position of `m` rows over `n` basis elements.
pub open spec fn bitmap_wf(x: Seq<Seq<bool>>, m: nat, n: nat) -> bool {
    x.len() == m && forall|j: int| 0 <= j < m ==> (#[trigger] x[j]).len() == n
}

/// A position of a game with `m` equations over `n` basis elements.
pub open spec fn pos_wf(c: PosV, m: nat, n: nat) -> bool {
    match c {
        PosV::Eve(e) => e.b < n && 1 <= e.i <= m,
        PosV::Adam(x) => bitmap_wf(x, m, n),
    }
}

pub open spec fn controller(c: PosV) -> Player {
    match c {
        PosV::Eve(_) => Player::Eve,
        PosV::Adam(_) => Player::Adam,
    }
}

pub open spec fn priority_spec(c: PosV) -> nat {
    match c {
        PosV::Eve(e) => e.i as nat,
        PosV::Adam(_) => 0,
    }
}

pub open spec fn opponent(p: Player) -> Player {
    match p {
        Player::Eve => Player::Adam,
        Player::Adam => Player::Eve,
    }
}

/// Copies a row of an Adam position.
pub fn copy_row(r: &Vec<bool>) -> (c: Vec<bool>)
    ensures
        c@ == r@,
{
    let mut c: Vec<bool> = Vec::new();
    let mut j: usize = 0;
    while j < r.len()
        invariant
            j <= r@.len(),
            c@ == r@.take(j as int),
        decreases r@.len() - j,
    {
        c.push(r[j]);
        j = j + 1;
        proof { assert(c@ =~= r@.take(j as int)); }
    }
    proof { assert(r@.take(r@.len() as int) =~= r@); }
    c
}

/// Whether two rows are equal.
pub fn rows_equal(a: &Vec<bool>, b: &Vec<bool>) -> (r: bool)
    ensures
        r == (a@ == b@),
{
    if a.len() != b.len() {
        return false;
    }
    let mut j: usize = 0;
    while j < a.len()
        invariant
            j <= a@.len() == b@.len(),
            forall|t: int| 0 <= t < j ==> a@[t] == b@[t],
        decreases a@.len() - j,
    {
        if a[j] != b[j] {
            return false;
        }
        j = j + 1;
    }
    proof { assert(a@ =~= b@); }
    true
}

impl AdamPos {
    /// A copy of this position.
    pub fn copy(&self) -> (r: AdamPos)
        ensures
            bitmap_view(r.x@) == bitmap_view(self.x@),
    {
        let mut x: Vec<Vec<bool>> = Vec::new();
        let mut j: usize = 0;
        while j < self.x.len()
            invariant
                j <= self.x@.len(),
                bitmap_view(x@) == bitmap_view(self.x@).take(j as int),
            decreases self.x@.len() - j,
        {
            let row = copy_row(&self.x[j]);
            let ghost before = x@;
            x.push(row);
            j = j + 1;
            proof {
                assert(bitmap_view(x@) =~= bitmap_view(before).push(row@));
                assert(bitmap_view(x@) =~= bitmap_view(self.x@).take(j as int));
            }
        }
        proof { assert(bitmap_view(self.x@).take(self.x@.len() as int) =~= bitmap_view(self.x@)); }
        AdamPos { x }
    }

    /// Whether two Adam positions are equal.
    pub fn equals(&self, o: &AdamPos) -> (r: bool)
        ensures
            r == (bitmap_view(self.x@) == bitmap_view(o.x@)),
    {
        if self.x.len() != o.x.len() {
            proof {
                assert(bitmap_view(self.x@).len() != bitmap_view(o.x@).len());
            }
            return false;
        }
        let mut j: usize = 0;
        while j < self.x.len()
            invariant
                j <= self.x@.len() == o.x@.len(),
                forall|t: int| 0 <= t < j ==> self.x@[t]@ == o.x@[t]@,
            decreases self.x@.len() - j,
        {
            if !rows_equal(&self.x[j], &o.x[j]) {
                proof {
                    assert(bitmap_view(self.x@)[j as int] != bitmap_view(o.x@)[j as int]);
                }
                return false;
            }
            j = j + 1;
        }
        proof { assert(bitmap_view(self.x@) =~= bitmap_view(o.x@)); }
        true
    }
}

impl Position {
    /// The player who moves from `c`.
    pub fn get_controller(c: &Position) -> (r: Player)
        ensures
            r == controller(c@),
    {
        match c {
            Position::Eve(_) => Player::Eve,
            Position::Adam(_) => Player::Adam,
        }
    }

    /// The priority of `c`: `i` for `Eve(b, i)`, `0` for an Adam position.
    pub fn priority(c: &Position) -> (r: usize)
        ensures
            r == priority_spec(c@),
    {
        match c {
            Position::Eve(e) => e.i,
            Position::Adam(_) => 0,
        }
    }

    /// A copy of this position.
    pub fn copy(&self) -> (r: Position)
        ensures
            r@ == self@,
    {
        match self {
            Position::Eve(e) => Position::Eve(*e),
            Position::Adam(a) => Position::Adam(a.copy()),
        }
    }

    /// Whether two positions are equal.
    pub fn equals(&self, o: &Position) -> (r: bool)
        ensures
            r == (self@ == o@),
    {
        match (self, o) {
            (Position::Eve(a), Position::Eve(b)) => a.b == b.b && a.i == b.i,
            (Position::Adam(a), Position::Adam(b)) => a.equals(b),
            _ => false,
        }
    }
}

} // verus!
