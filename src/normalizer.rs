//! Normalization of a fixpoint system into canonical form.
use vstd::prelude::*;
use vstd::string::StringExecFns;
use crate::basis::string_of;
use crate::fixpoint::{Exp, ExpFixEq, FixEq, FixType, EqV, system_view, exps_view, lemma_args_view};
use crate::compose::vars;
use crate::moves::{index_of, lemma_index_of, lemma_index_of_first, lemma_index_of_none};

verus! {

/// The decimal digit `d`.
pub open spec fn digit(d: nat) -> char {
    if d == 0 { '0' }
    else if d == 1 { '1' }
    else if d == 2 { '2' }
    else if d == 3 { '3' }
    else if d == 4 { '4' }
    else if d == 5 { '5' }
    else if d == 6 { '6' }
    else if d == 7 { '7' }
    else if d == 8 { '8' }
    else { '9' }
}

/// The decimal spelling of `n`, without leading zeros.
pub open spec fn decimal(n: nat) -> Seq<char>
    decreases n,
{
    if n < 10 {
        seq![digit(n)]
    } else {
        decimal(n / 10).push(digit(n % 10))
    }
}

proof fn lemma_decimal_len(n: nat)
    ensures
        decimal(n).len() >= 1,
        n >= 10 ==> decimal(n).len() >= 2,
    decreases n,
{
    if n >= 10 {
        lemma_decimal_len(n / 10);
    }
}

/// Different numbers are spelt differently.
pub proof fn lemma_decimal_injective(a: nat, b: nat)
    requires
        decimal(a) == decimal(b),
    ensures
        a == b,
    decreases a,
{
    lemma_decimal_len(a);
    lemma_decimal_len(b);
    if a < 10 && b < 10 {
        assert(decimal(a)[0] == digit(a));
        assert(decimal(b)[0] == digit(b));
    } else if a >= 10 && b >= 10 {
        let da = decimal(a / 10);
        let db = decimal(b / 10);
        assert(decimal(a) == da.push(digit(a % 10)));
        assert(decimal(b) == db.push(digit(b % 10)));
        assert(da == decimal(a).drop_last());
        assert(db == decimal(b).drop_last());
        assert(digit(a % 10) == decimal(a).last());
        assert(digit(b % 10) == decimal(b).last());
        lemma_decimal_injective(a / 10, b / 10);
        assert(a == 10 * (a / 10) + a % 10);
        assert(b == 10 * (b / 10) + b % 10);
    }
}

/// The canonical names of different equations differ.
pub proof fn lemma_var_name_injective(a: nat, b: nat)
    requires
        var_name(a) == var_name(b),
    ensures
        a == b,
{
    assert(decimal(a) =~= var_name(a).subrange(2, var_name(a).len() as int));
    assert(decimal(b) =~= var_name(b).subrange(2, var_name(b).len() as int));
    lemma_decimal_injective(a, b);
}

/// The canonical name `x_k` of the `k`-th equation.
pub open spec fn var_name(k: nat) -> Seq<char> {
    seq!['x', '_'] + decimal(k)
}

/// The canonical name `x_k`.
pub(crate) fn canonical_name(k: usize) -> (r: String)
    ensures
        r@ == var_name(k as nat),
{
    proof {
        reveal_strlit("x_");
        assert("x_"@ =~= seq!['x', '_']);
    }
    concat("x_", decimal_name(k).as_str())
}

/// The decimal digit `d`.
fn digit_char(d: usize) -> (r: char)
    requires
        d < 10,
    ensures
        r == digit(d as nat),
{
    if d == 0 { '0' }
    else if d == 1 { '1' }
    else if d == 2 { '2' }
    else if d == 3 { '3' }
    else if d == 4 { '4' }
    else if d == 5 { '5' }
    else if d == 6 { '6' }
    else if d == 7 { '7' }
    else if d == 8 { '8' }
    else { '9' }
}

/// The decimal digits of `k`.
fn decimal_chars(k: usize) -> (r: Vec<char>)
    ensures
        r@ == decimal(k as nat),
    decreases k,
{
    if k < 10 {
        let mut v: Vec<char> = Vec::new();
        v.push(digit_char(k));
        proof { assert(v@ =~= seq![digit(k as nat)]); }
        v
    } else {
        let mut v = decimal_chars(k / 10);
        v.push(digit_char(k % 10));
        v
    }
}

/// The decimal spelling of `k`, without leading zeros.
pub(crate) fn decimal_name(k: usize) -> (r: String)
    ensures
        r@ == decimal(k as nat),
{
    string_of(&decimal_chars(k))
}

/// The two strings one after the other.
pub(crate) fn concat(a: &str, b: &str) -> (r: String)
    ensures
        r@ == a@ + b@,
{
    let mut r = String::from_str(a);
    r.append(b);
    r
}

/// A right-hand side in canonical form: an identifier, or a connective or
/// an operator applied to identifiers only.
pub open spec fn canonical(e: Exp) -> bool {
    match e {
        Exp::Id(_) => true,
        Exp::And(l, r) => *l is Id && *r is Id,
        Exp::Or(l, r) => *l is Id && *r is Id,
        Exp::Operator(_, args) => forall|j: int| 0 <= j < args.len() ==> (#[trigger] args[j]) is Id,
    }
}

/// The number of nodes of an expression.
pub open spec fn exp_size(e: Exp) -> nat
    decreases e, 1int,
{
    match e {
        Exp::Id(_) => 1,
        Exp::And(l, r) => 1 + exp_size(*l) + exp_size(*r),
        Exp::Or(l, r) => 1 + exp_size(*l) + exp_size(*r),
        Exp::Operator(_, args) => 1 + args_size(e, args.len() as int),
    }
}

/// The number of nodes of the first `j` arguments of an operator.
pub open spec fn args_size(e: Exp, j: int) -> nat
    decreases e, 0int, j,
{
    match e {
        Exp::Operator(_, args) => if 0 < j <= args.len() {
            args_size(e, j - 1) + exp_size(args[j - 1])
        } else {
            0
        },
        _ => 0,
    }
}

/// The number of nodes of the right-hand sides of the first `j` equations.
pub open spec fn system_size(s: Seq<EqV>, j: int) -> nat
    decreases j,
{
    if 0 < j <= s.len() {
        system_size(s, j - 1) + exp_size(s[j - 1].exp)
    } else {
        0
    }
}

/// Fresh equations of a system of `m` equations: fresh equation `t` is
/// named `x_{m+1+t}` and has a right-hand side in canonical form.
pub open spec fn extra_wf(extra: Seq<EqV>, m: nat) -> bool {
    forall|t: int| 0 <= t < extra.len() ==> {
        &&& (#[trigger] extra[t]).var == var_name((m + 1 + t) as nat)
        &&& canonical(extra[t].exp)
    }
}

/// The name standing for variable `x` in the normalized system: `x_i` for
/// the `i`-th input variable, else `x` itself.
pub open spec fn rename_spec(sys: Seq<EqV>, x: Seq<char>) -> Seq<char> {
    let i = index_of(vars(sys), x);
    if i >= 0 { var_name((i + 1) as nat) } else { x }
}

/// Lifting child `e` when the next fresh equation is number `n`: an
/// identifier is renamed; anything else becomes `x_n`, whose equation (kind
/// `fix`, right-hand side the canonical form of `e`) comes first, then
/// those of `e`'s own children.
pub open spec fn lift_spec(sys: Seq<EqV>, e: Exp, fix: FixType, n: nat) -> (Exp, Seq<EqV>)
    decreases e, 2int, 0int,
{
    match e {
        Exp::Id(x) => (Exp::Id(rename_spec(sys, x)), Seq::empty()),
        _ => {
            let c = canon_spec(sys, e, fix, n + 1);
            (Exp::Id(var_name(n)), seq![EqV { var: var_name(n), fix_ty: fix, exp: c.0 }] + c.1)
        },
    }
}

/// The canonical form of right-hand side `e` and the fresh equations it
/// needs, numbered from `n`, children left to right.
pub open spec fn canon_spec(sys: Seq<EqV>, e: Exp, fix: FixType, n: nat) -> (Exp, Seq<EqV>)
    decreases e, 1int, 0int,
{
    match e {
        Exp::Id(x) => (Exp::Id(rename_spec(sys, x)), Seq::empty()),
        Exp::And(l, r) => {
            let a = lift_spec(sys, *l, fix, n);
            let b = lift_spec(sys, *r, fix, n + a.1.len());
            (Exp::And(Box::new(a.0), Box::new(b.0)), a.1 + b.1)
        },
        Exp::Or(l, r) => {
            let a = lift_spec(sys, *l, fix, n);
            let b = lift_spec(sys, *r, fix, n + a.1.len());
            (Exp::Or(Box::new(a.0), Box::new(b.0)), a.1 + b.1)
        },
        Exp::Operator(op, args) => {
            let c = canon_args(sys, e, args.len() as int, fix, n);
            (Exp::Operator(op, c.0), c.1)
        },
    }
}

/// The lifted first `j` arguments of operator application `e`.
pub open spec fn canon_args(sys: Seq<EqV>, e: Exp, j: int, fix: FixType, n: nat) -> (Seq<Exp>, Seq<EqV>)
    decreases e, 0int, j,
{
    match e {
        Exp::Operator(_, args) => if j <= 0 || j > args.len() {
            (Seq::empty(), Seq::empty())
        } else {
            let p = canon_args(sys, e, j - 1, fix, n);
            let a = lift_spec(sys, args[j - 1], fix, n + p.1.len());
            (p.0.push(a.0), p.1 + a.1)
        },
        _ => (Seq::empty(), Seq::empty()),
    }
}

/// The first `i` equations of `sys` normalized, and the fresh equations
/// they need, in order.
pub open spec fn norm_spec(sys: Seq<EqV>, i: int) -> (Seq<EqV>, Seq<EqV>)
    decreases i,
{
    if i <= 0 || i > sys.len() {
        (Seq::empty(), Seq::empty())
    } else {
        let p = norm_spec(sys, i - 1);
        let c = canon_spec(sys, sys[i - 1].exp, sys[i - 1].fix_ty, sys.len() + 1 + p.1.len());
        (p.0.push(EqV { var: var_name(i as nat), fix_ty: sys[i - 1].fix_ty, exp: c.0 }), p.1 + c.1)
    }
}

/// The normalized system: the input equations in canonical form, then the
/// fresh ones.
pub open spec fn normalized(sys: Seq<EqV>) -> Seq<EqV> {
    norm_spec(sys, sys.len() as int).0 + norm_spec(sys, sys.len() as int).1
}

/// The canonical identifier of variable `x` of the input system.
fn rename(system: &Vec<FixEq>, x: &String) -> (r: String)
    ensures
        index_of(vars(system_view(system@)), x@) >= 0 ==> r@ == var_name((index_of(vars(system_view(system@)), x@) + 1) as nat),
        index_of(vars(system_view(system@)), x@) < 0 ==> r@ == x@,
{
    let ghost v = vars(system_view(system@));
    let mut j: usize = 0;
    while j < system.len()
        invariant
            j <= system@.len() == v.len(),
            v == vars(system_view(system@)),
            forall|t: int| 0 <= t < j ==> v[t] != x@,
        decreases system@.len() - j,
    {
        proof { assert(v[j as int] == system@[j as int].var@); }
        if system[j].var == *x {
            proof { lemma_index_of_first(v, x@, j as int); }
            return canonical_name(j + 1);
        }
        j = j + 1;
    }
    proof { lemma_index_of_none(v, x@); }
    x.clone()
}

/// What lifting or canonicalizing keeps: earlier fresh equations stay, new
/// ones keep the naming and shape, and the counter names the next one.
pub open spec fn grows(old_extra: Seq<EqV>, new_extra: Seq<EqV>, m: nat, counter: nat) -> bool {
    &&& old_extra.len() <= new_extra.len()
    &&& forall|t: int| 0 <= t < old_extra.len() ==> #[trigger] new_extra[t] == old_extra[t]
    &&& extra_wf(new_extra, m)
    &&& counter == m + 1 + new_extra.len()
}

/// The identifier standing for child `e` of a right-hand side: its canonical
/// name if it is an identifier, else a fresh variable whose equation (with
/// kind `fix_ty`) is appended to `extra`, followed by those of its own
/// children.
fn lift(
    system: &Vec<FixEq>,
    e: &ExpFixEq,
    fix_ty: FixType,
    counter: &mut usize,
    extra: &mut Vec<FixEq>,
) -> (r: ExpFixEq)
    requires
        *old(counter) == system@.len() + 1 + old(extra)@.len(),
        extra_wf(system_view(old(extra)@), system@.len()),
        *old(counter) + exp_size(e@) <= usize::MAX,
    ensures
        r is Id,
        grows(system_view(old(extra)@), system_view(final(extra)@), system@.len(), *final(counter) as nat),
        *final(counter) <= *old(counter) + exp_size(e@),
        r@ == lift_spec(system_view(system@), e@, fix_ty, *old(counter) as nat).0,
        system_view(final(extra)@) == system_view(old(extra)@) + lift_spec(system_view(system@), e@, fix_ty, *old(counter) as nat).1,
    decreases e, 2int, 0int,
{
    match e {
        ExpFixEq::Id(x) => {
            let r = ExpFixEq::Id(rename(system, x));
            proof { assert(system_view(extra@) =~= system_view(old(extra)@) + Seq::<EqV>::empty()); }
            r
        },
        _ => {
            let k = *counter;
            *counter = k + 1;
            let slot = extra.len();
            let ghost before = system_view(extra@);
            extra.push(FixEq { var: canonical_name(k), fix_ty, exp: ExpFixEq::Id(canonical_name(k)) });
            proof {
                assert forall|t: int| 0 <= t < extra@.len() implies {
                    &&& (#[trigger] system_view(extra@)[t]).var == var_name((system@.len() + 1 + t) as nat)
                    &&& canonical(system_view(extra@)[t].exp)
                } by {
                    if t < before.len() {
                        assert(system_view(extra@)[t] == before[t]);
                    }
                }
            }
            let rhs = canon(system, e, fix_ty, counter, extra);
            let ghost mid = system_view(extra@);
            extra.set(slot, FixEq { var: canonical_name(k), fix_ty, exp: rhs });
            proof {
                assert forall|t: int| 0 <= t < extra@.len() implies {
                    &&& (#[trigger] system_view(extra@)[t]).var == var_name((system@.len() + 1 + t) as nat)
                    &&& canonical(system_view(extra@)[t].exp)
                } by {
                    if t != slot {
                        assert(system_view(extra@)[t] == mid[t]);
                    }
                }
                assert forall|t: int| 0 <= t < before.len() implies #[trigger] system_view(extra@)[t] == before[t] by {
                    assert(system_view(extra@)[t] == mid[t]);
                }
                let c = canon_spec(system_view(system@), e@, fix_ty, (k + 1) as nat);
                let eqv = EqV { var: var_name(k as nat), fix_ty, exp: rhs@ };
                assert(system_view(extra@)[slot as int] == eqv);
                assert(system_view(extra@) =~= before + (seq![eqv] + c.1)) by {
                    assert forall|t: int| 0 <= t < system_view(extra@).len() implies system_view(extra@)[t] == (before + (seq![eqv] + c.1))[t] by {
                        if t < before.len() {
                        } else if t == slot {
                        } else {
                            assert(system_view(extra@)[t] == mid[t]);
                        }
                    }
                }
            }
            ExpFixEq::Id(canonical_name(k))
        },
    }
}

/// The canonical form of right-hand side `e`: each child that is not an
/// identifier is lifted into a fresh equation of kind `fix_ty`.
fn canon(
    system: &Vec<FixEq>,
    e: &ExpFixEq,
    fix_ty: FixType,
    counter: &mut usize,
    extra: &mut Vec<FixEq>,
) -> (r: ExpFixEq)
    requires
        *old(counter) == system@.len() + 1 + old(extra)@.len(),
        extra_wf(system_view(old(extra)@), system@.len()),
        *old(counter) + exp_size(e@) <= usize::MAX + 1,
    ensures
        canonical(r@),
        grows(system_view(old(extra)@), system_view(final(extra)@), system@.len(), *final(counter) as nat),
        *final(counter) < *old(counter) + exp_size(e@),
        r@ == canon_spec(system_view(system@), e@, fix_ty, *old(counter) as nat).0,
        system_view(final(extra)@) == system_view(old(extra)@) + canon_spec(system_view(system@), e@, fix_ty, *old(counter) as nat).1,
    decreases e, 1int, 0int,
{
    match e {
        ExpFixEq::Id(x) => {
            let r = ExpFixEq::Id(rename(system, x));
            proof {
                assert(r@ is Id);
                assert(system_view(extra@) =~= system_view(old(extra)@) + Seq::<EqV>::empty());
            }
            r
        },
        ExpFixEq::And(l, r) => {
            let ghost e0 = system_view(extra@);
            let a = lift(system, l, fix_ty, counter, extra);
            let ghost e1 = system_view(extra@);
            let b = lift(system, r, fix_ty, counter, extra);
            proof {
                assert forall|t: int| 0 <= t < e0.len() implies #[trigger] system_view(extra@)[t] == e0[t] by {
                    assert(system_view(extra@)[t] == e1[t]);
                }
                assert(a@ is Id);
                assert(b@ is Id);
                assert(system_view(extra@) =~= e0 + (lift_spec(system_view(system@), l@, fix_ty, e0.len() + system_view(system@).len() + 1).1
                    + lift_spec(system_view(system@), r@, fix_ty, e1.len() + system_view(system@).len() + 1).1));
            }
            ExpFixEq::And(Box::new(a), Box::new(b))
        },
        ExpFixEq::Or(l, r) => {
            let ghost e0 = system_view(extra@);
            let a = lift(system, l, fix_ty, counter, extra);
            let ghost e1 = system_view(extra@);
            let b = lift(system, r, fix_ty, counter, extra);
            proof {
                assert forall|t: int| 0 <= t < e0.len() implies #[trigger] system_view(extra@)[t] == e0[t] by {
                    assert(system_view(extra@)[t] == e1[t]);
                }
                assert(a@ is Id);
                assert(b@ is Id);
                assert(system_view(extra@) =~= e0 + (lift_spec(system_view(system@), l@, fix_ty, e0.len() + system_view(system@).len() + 1).1
                    + lift_spec(system_view(system@), r@, fix_ty, e1.len() + system_view(system@).len() + 1).1));
            }
            ExpFixEq::Or(Box::new(a), Box::new(b))
        },
        ExpFixEq::Operator(op, args) => {
            proof { lemma_args_view(*op, *args); }
            let ghost start = *counter;
            let ghost e0 = system_view(extra@);
            let mut out: Vec<ExpFixEq> = Vec::new();
            let mut j: usize = 0;
            while j < args.len()
                invariant
                    j <= args@.len(),
                    e@ == Exp::Operator(op@, exps_view(args@)),
                    *e == ExpFixEq::Operator(*op, *args),
                    decreases_to!(*e => *args),
                    start + exp_size(e@) <= usize::MAX + 1,
                    *counter <= start + args_size(e@, j as int),
                    grows(e0, system_view(extra@), system@.len(), *counter as nat),
                    out@.len() == j,
                    forall|t: int| 0 <= t < j ==> (#[trigger] out@[t]) is Id,
                    start == system_view(system@).len() + 1 + e0.len(),
                    exps_view(out@) == canon_args(system_view(system@), e@, j as int, fix_ty, start as nat).0,
                    system_view(extra@) == e0 + canon_args(system_view(system@), e@, j as int, fix_ty, start as nat).1,
                decreases args@.len() - j,
            {
                proof {
                    assert(exps_view(args@)[j as int] == args@[j as int]@);
                    vstd::std_specs::vec::axiom_vec_index_decreases(*args, j as int);
                    lemma_args_size_mono(e@, j as int + 1);
                }
                let ghost before = system_view(extra@);
                let ghost ob = out@;
                let a = lift(system, &args[j], fix_ty, counter, extra);
                out.push(a);
                proof {
                    let p = canon_args(system_view(system@), e@, j as int, fix_ty, start as nat);
                    assert(exps_view(out@) =~= exps_view(ob).push(a@));
                    assert(system_view(extra@) =~= e0 + (p.1 + lift_spec(system_view(system@), args@[j as int]@, fix_ty, (start + p.1.len()) as nat).1));
                    assert forall|t: int| 0 <= t < e0.len() implies #[trigger] system_view(extra@)[t] == e0[t] by {
                        assert(system_view(extra@)[t] == before[t]);
                    }
                }
                j = j + 1;
            }
            let name = op.clone();
            proof { lemma_args_view(name, out); }
            proof { assert(start == *old(counter)); }
            let r = ExpFixEq::Operator(name, out);
            proof {
                assert forall|t: int| 0 <= t < exps_view(out@).len() implies (#[trigger] exps_view(out@)[t]) is Id by {
                    assert(exps_view(out@)[t] == out@[t]@);
                }
            }
            r
        },
    }
}

proof fn lemma_args_size_mono(e: Exp, j: int)
    requires
        e is Operator,
        0 <= j <= e->Operator_1.len(),
    ensures
        args_size(e, j) <= args_size(e, e->Operator_1.len() as int),
    decreases e->Operator_1.len() - j,
{
    if j < e->Operator_1.len() {
        lemma_args_size_mono(e, j + 1);
    }
}

/// Normalizes a system: input equation `i` (1-based) becomes `x_i` with
/// its right-hand side in canonical form, each child that is not an
/// identifier being lifted into a fresh equation with the kind of the
/// equation it came from; fresh equations are appended after the input ones,
/// depth-first and left to right, so that every equation `t` is named
/// `x_t`. Also returns, for each input variable, its canonical name.
pub fn normalize_system(fix_system: &Vec<FixEq>) -> (r: (Vec<FixEq>, Vec<(String, String)>))
    requires
        fix_system@.len() + 1 + system_size(system_view(fix_system@), fix_system@.len() as int) <= usize::MAX,
    ensures
        r.0@.len() >= fix_system@.len(),
        forall|t: int| 0 <= t < r.0@.len() ==> (#[trigger] r.0@[t]).var@ == var_name((t + 1) as nat),
        forall|t: int| 0 <= t < r.0@.len() ==> canonical((#[trigger] r.0@[t]).exp@),
        forall|t: int| 0 <= t < fix_system@.len() ==> (#[trigger] r.0@[t]).fix_ty == fix_system@[t].fix_ty,
        system_view(r.0@) == normalized(system_view(fix_system@)),
        forall|i: int, j: int| 0 <= i < j < r.0@.len() ==> r.0@[i].var@ != r.0@[j].var@,
        r.1@.len() == fix_system@.len(),
        forall|t: int| 0 <= t < fix_system@.len() ==> {
            &&& (#[trigger] r.1@[t]).0@ == fix_system@[t].var@
            &&& r.1@[t].1@ == var_name((t + 1) as nat)
        },
{
    let ghost sys = system_view(fix_system@);
    let m = fix_system.len();
    let mut counter: usize = m + 1;
    let mut extra: Vec<FixEq> = Vec::new();
    let mut heads: Vec<FixEq> = Vec::new();
    let mut names: Vec<(String, String)> = Vec::new();
    let mut i: usize = 0;
    while i < m
        invariant
            i <= m == fix_system@.len(),
            sys == system_view(fix_system@),
            m + 1 + system_size(sys, m as int) <= usize::MAX,
            counter == m + 1 + extra@.len(),
            counter <= m + 1 + system_size(sys, i as int),
            extra_wf(system_view(extra@), m as nat),
            heads@.len() == i,
            names@.len() == i,
            system_view(heads@) == norm_spec(sys, i as int).0,
            system_view(extra@) == norm_spec(sys, i as int).1,
            forall|t: int| 0 <= t < i ==> {
                &&& (#[trigger] heads@[t]).var@ == var_name((t + 1) as nat)
                &&& canonical(heads@[t].exp@)
                &&& heads@[t].fix_ty == fix_system@[t].fix_ty
            },
            forall|t: int| 0 <= t < i ==> {
                &&& (#[trigger] names@[t]).0@ == fix_system@[t].var@
                &&& names@[t].1@ == var_name((t + 1) as nat)
            },
        decreases m - i,
    {
        proof {
            assert(sys[i as int] == fix_system@[i as int]@);
            lemma_system_size_mono(sys, i as int + 1, m as int);
        }
        let fix_ty = fix_system[i].fix_ty;
        let rhs = canon(fix_system, &fix_system[i].exp, fix_ty, &mut counter, &mut extra);
        let ghost hb = heads@;
        let eq = FixEq { var: canonical_name(i + 1), fix_ty, exp: rhs };
        let ghost ev = eq@;
        heads.push(eq);
        proof { assert(system_view(heads@) =~= system_view(hb).push(ev)); }
        names.push((fix_system[i].var.clone(), canonical_name(i + 1)));
        i = i + 1;
    }
    let ghost h = heads@;
    let ghost x = extra@;
    heads.append(&mut extra);
    proof {
        assert(system_view(heads@) =~= system_view(h) + system_view(x));
        assert forall|t: int| 0 <= t < heads@.len() implies {
            &&& (#[trigger] heads@[t]).var@ == var_name((t + 1) as nat)
            &&& canonical(heads@[t].exp@)
        } by {
            if t >= m {
                assert(heads@[t] == x[t - m]);
                assert(system_view(x)[t - m] == x[t - m]@);
            } else {
                assert(heads@[t] == h[t]);
            }
        }
        assert forall|a: int, b: int| 0 <= a < b < heads@.len() implies heads@[a].var@ != heads@[b].var@ by {
            if heads@[a].var@ == heads@[b].var@ {
                assert(heads@[a].var@ == var_name((a + 1) as nat));
                assert(heads@[b].var@ == var_name((b + 1) as nat));
                lemma_var_name_injective((a + 1) as nat, (b + 1) as nat);
            }
        }
        assert forall|t: int| 0 <= t < m implies (#[trigger] heads@[t]).fix_ty == fix_system@[t].fix_ty by {
            assert(heads@[t] == h[t]);
        }
    }
    (heads, names)
}

proof fn lemma_system_size_mono(s: Seq<EqV>, j: int, k: int)
    requires
        0 <= j <= k <= s.len(),
    ensures
        system_size(s, j) <= system_size(s, k),
    decreases k - j,
{
    if j < k {
        lemma_system_size_mono(s, j, k - 1);
    }
}

/// The number of nodes of `e`, if it does not exceed `bound`.
fn size_within(e: &ExpFixEq, bound: usize) -> (r: Option<usize>)
    ensures
        r is Some <==> exp_size(e@) <= bound,
        r is Some ==> r->0 == exp_size(e@),
    decreases e, 1int,
{
    match e {
        ExpFixEq::Id(_) => if bound >= 1 { Some(1) } else { None },
        ExpFixEq::And(l, r) | ExpFixEq::Or(l, r) => {
            if bound == 0 {
                return None;
            }
            let a = match size_within(l, bound - 1) {
                Some(a) => a,
                None => return None,
            };
            match size_within(r, bound - 1 - a) {
                Some(b) => Some(1 + a + b),
                None => None,
            }
        },
        ExpFixEq::Operator(op, args) => {
            proof { lemma_args_view(*op, *args); }
            if bound == 0 {
                return None;
            }
            let mut total: usize = 1;
            let mut j: usize = 0;
            while j < args.len()
                invariant
                    j <= args@.len(),
                    e@ == Exp::Operator(op@, exps_view(args@)),
                    *e == ExpFixEq::Operator(*op, *args),
                    decreases_to!(*e => *args),
                    total == 1 + args_size(e@, j as int),
                    total <= bound,
                decreases args@.len() - j,
            {
                proof {
                    assert(exps_view(args@)[j as int] == args@[j as int]@);
                    vstd::std_specs::vec::axiom_vec_index_decreases(*args, j as int);
                }
                match size_within(&args[j], bound - total) {
                    Some(s) => total = total + s,
                    None => {
                        proof { lemma_args_size_mono(e@, j as int + 1); }
                        return None;
                    },
                }
                j = j + 1;
            }
            Some(total)
        },
    }
}

/// Whether `normalize_system` accepts the system: its equations and the
/// nodes of its right-hand sides, plus one, fit in a `usize`.
pub fn fits_normalization(fix_system: &Vec<FixEq>) -> (r: bool)
    ensures
        r == (fix_system@.len() + 1 + system_size(system_view(fix_system@), fix_system@.len() as int) <= usize::MAX),
{
    let ghost sys = system_view(fix_system@);
    let m = fix_system.len();
    if m == usize::MAX {
        return false;
    }
    let mut total: usize = m + 1;
    let mut i: usize = 0;
    while i < m
        invariant
            i <= m == fix_system@.len() < usize::MAX,
            sys == system_view(fix_system@),
            total == m + 1 + system_size(sys, i as int),
        decreases m - i,
    {
        proof { assert(sys[i as int] == fix_system@[i as int]@); }
        match size_within(&fix_system[i].exp, usize::MAX - total) {
            Some(s) => total = total + s,
            None => {
                proof { lemma_system_size_mono(sys, i as int + 1, m as int); }
                return false;
            },
        }
        i = i + 1;
    }
    true
}

/// Fresh equations numbered from `n`, of kind `fix`, in canonical form.
pub open spec fn fresh_ok(eqs: Seq<EqV>, fix: FixType, n: nat) -> bool {
    forall|t: int| 0 <= t < eqs.len() ==> {
        &&& (#[trigger] eqs[t]).var == var_name((n + t) as nat)
        &&& eqs[t].fix_ty == fix
        &&& canonical(eqs[t].exp)
    }
}

proof fn lemma_fresh_concat(a: Seq<EqV>, b: Seq<EqV>, fix: FixType, n: nat)
    requires
        fresh_ok(a, fix, n),
        fresh_ok(b, fix, n + a.len()),
    ensures
        fresh_ok(a + b, fix, n),
{
    assert forall|t: int| 0 <= t < (a + b).len() implies {
        &&& (#[trigger] (a + b)[t]).var == var_name((n + t) as nat)
        &&& (a + b)[t].fix_ty == fix
        &&& canonical((a + b)[t].exp)
    } by {
        if t >= a.len() {
            assert((a + b)[t] == b[t - a.len()]);
        }
    }
}

proof fn lemma_lift(sys: Seq<EqV>, e: Exp, fix: FixType, n: nat)
    ensures
        lift_spec(sys, e, fix, n).0 is Id,
        fresh_ok(lift_spec(sys, e, fix, n).1, fix, n),
    decreases e, 2int, 0int,
{
    match e {
        Exp::Id(_) => {},
        _ => {
            lemma_canon(sys, e, fix, n + 1);
            let c = canon_spec(sys, e, fix, n + 1);
            let h = seq![EqV { var: var_name(n), fix_ty: fix, exp: c.0 }];
            lemma_fresh_concat(h, c.1, fix, n);
        },
    }
}

proof fn lemma_canon(sys: Seq<EqV>, e: Exp, fix: FixType, n: nat)
    ensures
        canonical(canon_spec(sys, e, fix, n).0),
        fresh_ok(canon_spec(sys, e, fix, n).1, fix, n),
    decreases e, 1int, 0int,
{
    match e {
        Exp::Id(_) => {},
        Exp::And(l, r) | Exp::Or(l, r) => {
            lemma_lift(sys, *l, fix, n);
            let a = lift_spec(sys, *l, fix, n);
            lemma_lift(sys, *r, fix, n + a.1.len());
            let b = lift_spec(sys, *r, fix, n + a.1.len());
            lemma_fresh_concat(a.1, b.1, fix, n);
        },
        Exp::Operator(_, args) => {
            lemma_canon_args(sys, e, args.len() as int, fix, n);
        },
    }
}

proof fn lemma_canon_args(sys: Seq<EqV>, e: Exp, j: int, fix: FixType, n: nat)
    ensures
        forall|t: int| 0 <= t < canon_args(sys, e, j, fix, n).0.len() ==> (#[trigger] canon_args(sys, e, j, fix, n).0[t]) is Id,
        fresh_ok(canon_args(sys, e, j, fix, n).1, fix, n),
    decreases e, 0int, j,
{
    match e {
        Exp::Operator(_, args) => if 0 < j <= args.len() {
            lemma_canon_args(sys, e, j - 1, fix, n);
            let p = canon_args(sys, e, j - 1, fix, n);
            lemma_lift(sys, args[j - 1], fix, n + p.1.len());
            let a = lift_spec(sys, args[j - 1], fix, n + p.1.len());
            lemma_fresh_concat(p.1, a.1, fix, n);
            assert forall|t: int| 0 <= t < p.0.push(a.0).len() implies (#[trigger] p.0.push(a.0)[t]) is Id by {
                if t < p.0.len() {
                    assert(p.0.push(a.0)[t] == p.0[t]);
                }
            }
        },
        _ => {},
    }
}

proof fn lemma_norm_spec(sys: Seq<EqV>, i: int)
    requires
        0 <= i <= sys.len(),
    ensures
        norm_spec(sys, i).0.len() == i,
        forall|t: int| 0 <= t < i ==> {
            &&& (#[trigger] norm_spec(sys, i).0[t]).var == var_name((t + 1) as nat)
            &&& norm_spec(sys, i).0[t].fix_ty == sys[t].fix_ty
            &&& canonical(norm_spec(sys, i).0[t].exp)
        },
        forall|t: int| 0 <= t < norm_spec(sys, i).1.len() ==> {
            &&& (#[trigger] norm_spec(sys, i).1[t]).var == var_name((sys.len() + 1 + t) as nat)
            &&& canonical(norm_spec(sys, i).1[t].exp)
        },
    decreases i,
{
    if i > 0 {
        lemma_norm_spec(sys, i - 1);
        let p = norm_spec(sys, i - 1);
        let n = (sys.len() + 1 + p.1.len()) as nat;
        lemma_canon(sys, sys[i - 1].exp, sys[i - 1].fix_ty, n);
        let c = canon_spec(sys, sys[i - 1].exp, sys[i - 1].fix_ty, n);
        let q = p.1 + c.1;
        assert forall|t: int| 0 <= t < q.len() implies {
            &&& (#[trigger] q[t]).var == var_name((sys.len() + 1 + t) as nat)
            &&& canonical(q[t].exp)
        } by {
            if t >= p.1.len() {
                assert(q[t] == c.1[t - p.1.len()]);
            }
        }
        assert forall|t: int| 0 <= t < i implies {
            &&& (#[trigger] norm_spec(sys, i).0[t]).var == var_name((t + 1) as nat)
            &&& norm_spec(sys, i).0[t].fix_ty == sys[t].fix_ty
            &&& canonical(norm_spec(sys, i).0[t].exp)
        } by {
            if t < i - 1 {
                assert(norm_spec(sys, i).0[t] == p.0[t]);
            }
        }
    }
}

/// Normalization fidelity: equation `i` of the input becomes equation `i`
/// of the result, named `x_{i+1}` with its kind; every right-hand side is
/// canonical; fresh equations come after the input ones, each named by its
/// position, so no fresh name is an input equation's name.
pub proof fn lemma_normalization_fidelity(sys: Seq<EqV>)
    ensures
        normalized(sys).len() >= sys.len(),
        forall|t: int| 0 <= t < normalized(sys).len() ==> {
            &&& (#[trigger] normalized(sys)[t]).var == var_name((t + 1) as nat)
            &&& canonical(normalized(sys)[t].exp)
        },
        forall|t: int| 0 <= t < sys.len() ==> (#[trigger] normalized(sys)[t]).fix_ty == sys[t].fix_ty,
        forall|t: int, u: int| 0 <= t < sys.len() <= u < normalized(sys).len() ==> normalized(sys)[t].var != normalized(sys)[u].var,
{
    lemma_norm_spec(sys, sys.len() as int);
    let h = norm_spec(sys, sys.len() as int).0;
    let f = norm_spec(sys, sys.len() as int).1;
    assert forall|t: int| 0 <= t < normalized(sys).len() implies {
        &&& (#[trigger] normalized(sys)[t]).var == var_name((t + 1) as nat)
        &&& canonical(normalized(sys)[t].exp)
    } by {
        if t >= h.len() {
            assert(normalized(sys)[t] == f[t - h.len()]);
        } else {
            assert(normalized(sys)[t] == h[t]);
        }
    }
    assert forall|t: int| 0 <= t < sys.len() implies (#[trigger] normalized(sys)[t]).fix_ty == sys[t].fix_ty by {
        assert(normalized(sys)[t] == h[t]);
    }
    assert forall|t: int, u: int| 0 <= t < sys.len() <= u < normalized(sys).len() implies normalized(sys)[t].var != normalized(sys)[u].var by {
        if normalized(sys)[t].var == normalized(sys)[u].var {
            lemma_var_name_injective((t + 1) as nat, (u + 1) as nat);
        }
    }
}

} // verus!
