//! Priority counters and the per-player orders on them.
use vstd::prelude::*;
use crate::fixpoint::FixType;
use crate::game::Player;

verus! {

/// A priority counter: entry `j` (0-based) counts how often priority `j + 1`
/// has been met since a higher priority was last met.
#[derive(Debug, PartialEq, Eq)]
pub struct Counter(pub Vec<u32>);

impl View for Counter {
    type V = Seq<u32>;

    open spec fn view(&self) -> Seq<u32> {
        self.0@
    }
}

/// `next(k, 0) = k`; for `i >= 1`, entries below `i` are reset, entry `i` is
/// incremented and entries above `i` are kept (priorities are 1-based).
pub open spec fn next_spec(k: Seq<u32>, i: nat) -> Seq<u32>
    recommends
        i <= k.len(),
{
    if i == 0 {
        k
    } else {
        Seq::new(
            k.len(),
            |j: int|
                if j < i - 1 {
                    0u32
                } else if j == i - 1 {
                    (k[j] + 1) as u32
                } else {
                    k[j]
                },
        )
    }
}

/// The largest index below `n` at which `k` and `kp` differ, or `-1`.
pub open spec fn last_diff(k: Seq<u32>, kp: Seq<u32>, n: int) -> int
    decreases n,
{
    if n <= 0 {
        -1
    } else if k[n - 1] != kp[n - 1] {
        n - 1
    } else {
        last_diff(k, kp, n - 1)
    }
}

/// `k <_E kp`: at the largest index where they differ, a greatest fixpoint
/// with the smaller count in `k`, or a least fixpoint with the larger one.
pub open spec fn lt_eve(fix: Seq<FixType>, k: Seq<u32>, kp: Seq<u32>) -> bool {
    let d = last_diff(k, kp, k.len() as int);
    d >= 0 && match fix[d] {
        FixType::Max => k[d] < kp[d],
        FixType::Min => k[d] > kp[d],
    }
}

/// `k <_p kp`; for Adam it is `kp <_E k`.
pub open spec fn lt_p(fix: Seq<FixType>, k: Seq<u32>, kp: Seq<u32>, p: Player) -> bool {
    match p {
        Player::Eve => lt_eve(fix, k, kp),
        Player::Adam => lt_eve(fix, kp, k),
    }
}

/// `k <=_p kp`.
pub open spec fn leq_p_spec(fix: Seq<FixType>, k: Seq<u32>, kp: Seq<u32>, p: Player) -> bool {
    k == kp || lt_p(fix, k, kp, p)
}

proof fn lemma_last_diff(k: Seq<u32>, kp: Seq<u32>, n: int)
    requires
        0 <= n <= k.len(),
        k.len() == kp.len(),
    ensures
        last_diff(k, kp, n) == last_diff(kp, k, n),
        -1 <= last_diff(k, kp, n) < n,
        last_diff(k, kp, n) >= 0 ==> k[last_diff(k, kp, n)] != kp[last_diff(k, kp, n)],
        last_diff(k, kp, n) == -1 ==> forall|j: int| 0 <= j < n ==> k[j] == kp[j],
    decreases n,
{
    if n > 0 {
        lemma_last_diff(k, kp, n - 1);
    }
}

/// For two distinct counters of the system's length, exactly one is below
/// the other in Eve's order, and Adam's order is Eve's reversed.
pub proof fn lemma_counter_order_total(fix: Seq<FixType>, k: Seq<u32>, kp: Seq<u32>)
    requires
        k.len() == kp.len(),
        fix.len() == k.len(),
        k != kp,
    ensures
        lt_eve(fix, k, kp) != lt_eve(fix, kp, k),
        lt_p(fix, k, kp, Player::Adam) == lt_eve(fix, kp, k),
{
    lemma_last_diff(k, kp, k.len() as int);
    if last_diff(k, kp, k.len() as int) == -1 {
        assert(k =~= kp);
    }
}

/// The fixpoint kinds with every `Min` and `Max` swapped.
pub open spec fn dual(fix: Seq<FixType>) -> Seq<FixType> {
    fix.map_values(|t: FixType| match t {
        FixType::Min => FixType::Max,
        FixType::Max => FixType::Min,
    })
}

/// Swapping every `Min` and `Max` turns Eve's order on counters into
/// Adam's, and Adam's into Eve's.
pub proof fn lemma_dual_order(fix: Seq<FixType>, k: Seq<u32>, kp: Seq<u32>)
    requires
        k.len() == kp.len(),
        fix.len() == k.len(),
    ensures
        lt_p(dual(fix), k, kp, Player::Eve) == lt_p(fix, k, kp, Player::Adam),
        lt_p(dual(fix), k, kp, Player::Adam) == lt_p(fix, k, kp, Player::Eve),
{
    lemma_last_diff(k, kp, k.len() as int);
}

impl Counter {
    /// The all-zero counter of length `m`.
    pub fn zero(m: usize) -> (r: Counter)
        ensures
            r@ == Seq::new(m as nat, |j: int| 0u32),
    {
        let mut v: Vec<u32> = Vec::new();
        let mut j: usize = 0;
        while j < m
            invariant
                j <= m,
                v@ == Seq::new(j as nat, |t: int| 0u32),
            decreases m - j,
        {
            v.push(0);
            j = j + 1;
            proof { assert(v@ =~= Seq::new(j as nat, |t: int| 0u32)); }
        }
        Counter(v)
    }

    /// A copy of this counter.
    pub fn copy(&self) -> (r: Counter)
        ensures
            r@ == self@,
    {
        Counter(self.0.clone())
    }

    /// Updates the counter for a move through a position of priority `i`
    /// (see [`next_spec`]).
    pub fn next(&self, i: usize) -> (r: Counter)
        requires
            i <= self@.len(),
            i > 0 ==> self@[i - 1] < u32::MAX,
        ensures
            r@ == next_spec(self@, i as nat),
    {
        if i == 0 {
            self.copy()
        } else {
            let n = self.0.len();
            let mut v: Vec<u32> = Vec::new();
            let mut j: usize = 0;
            while j < n
                invariant
                    j <= n == self@.len(),
                    0 < i <= n,
                    self@[i - 1] < u32::MAX,
                    v@ =~= next_spec(self@, i as nat).take(j as int),
                decreases n - j,
            {
                let x: u32 = if j + 1 < i {
                    0
                } else if j + 1 == i {
                    self.0[j] + 1
                } else {
                    self.0[j]
                };
                v.push(x);
                j = j + 1;
            }
            proof { assert(v@ =~= next_spec(self@, i as nat)); }
            Counter(v)
        }
    }

    /// Whether `k1 <=_player k2`, for a system whose fixpoint kinds are `fix`.
    pub fn leq_p(k1: &Counter, k2: &Counter, player: &Player, fix: &Vec<FixType>) -> (r: bool)
        requires
            k1@.len() == k2@.len(),
            fix@.len() == k1@.len(),
        ensures
            r == leq_p_spec(fix@, k1@, k2@, *player),
    {
        counters_equal(k1, k2) || match player {
            Player::Eve => lt_eve_exec(fix, k1, k2),
            Player::Adam => lt_eve_exec(fix, k2, k1),
        }
    }
}

/// Whether two counters are equal.
pub fn counters_equal(k1: &Counter, k2: &Counter) -> (r: bool)
    ensures
        r == (k1@ == k2@),
{
    if k1.0.len() != k2.0.len() {
        return false;
    }
    let mut j: usize = 0;
    while j < k1.0.len()
        invariant
            j <= k1@.len() == k2@.len(),
            forall|t: int| 0 <= t < j ==> k1@[t] == k2@[t],
        decreases k1@.len() - j,
    {
        if k1.0[j] != k2.0[j] {
            return false;
        }
        j = j + 1;
    }
    proof { assert(k1@ =~= k2@); }
    true
}

/// Whether `k <_E kp`.
pub fn lt_eve_exec(fix: &Vec<FixType>, k: &Counter, kp: &Counter) -> (r: bool)
    requires
        k@.len() == kp@.len(),
        fix@.len() == k@.len(),
    ensures
        r == lt_eve(fix@, k@, kp@),
{
    let mut n: usize = k.0.len();
    while n > 0
        invariant
            n <= k@.len() == kp@.len() == fix@.len(),
            last_diff(k@, kp@, k@.len() as int) == last_diff(k@, kp@, n as int),
        decreases n,
    {
        if k.0[n - 1] != kp.0[n - 1] {
            let d = n - 1;
            return match fix[d] {
                FixType::Max => k.0[d] < kp.0[d],
                FixType::Min => k.0[d] > kp.0[d],
            };
        }
        n = n - 1;
    }
    false
}

} // verus!
