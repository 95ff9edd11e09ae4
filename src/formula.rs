//! Positive boolean formulas over atoms `[b, i]`, and their simplification.
use vstd::prelude::*;

verus! {

/// A positive boolean formula whose atoms `[b, i]` name a basis element and
/// a (1-based) equation index.
#[derive(Debug, PartialEq, Eq)]
pub enum LogicFormula {
    BasisElem(String, usize),
    True,
    False,
    Conj(Vec<LogicFormula>),
    Disj(Vec<LogicFormula>),
}

/// Mathematical model of a [`LogicFormula`].
pub enum Formula {
    Atom(Seq<char>, usize),
    True,
    False,
    Conj(Seq<Formula>),
    Disj(Seq<Formula>),
}

pub open spec fn formula_view(f: LogicFormula) -> Formula
    decreases f, 1int,
{
    match f {
        LogicFormula::BasisElem(b, i) => Formula::Atom(b@, i),
        LogicFormula::True => Formula::True,
        LogicFormula::False => Formula::False,
        LogicFormula::Conj(v) => Formula::Conj(children_view(f)),
        LogicFormula::Disj(v) => Formula::Disj(children_view(f)),
    }
}

/// The models of the children of a connective.
pub open spec fn children_view(f: LogicFormula) -> Seq<Formula>
    decreases f, 0int,
{
    match f {
        LogicFormula::Conj(v) | LogicFormula::Disj(v) => Seq::new(
            v.len() as nat,
            |j: int| if 0 <= j < v.len() { formula_view(v[j]) } else { Formula::True },
        ),
        _ => Seq::empty(),
    }
}

impl View for LogicFormula {
    type V = Formula;

    open spec fn view(&self) -> Formula {
        formula_view(*self)
    }
}

/// The models of a sequence of formulas.
pub open spec fn views(s: Seq<LogicFormula>) -> Seq<Formula> {
    s.map_values(|x: LogicFormula| x@)
}

/// `s` with every occurrence of `c` removed, order kept.
pub open spec fn without(s: Seq<Formula>, c: Formula) -> Seq<Formula>
    decreases s.len(),
{
    if s.len() == 0 {
        s
    } else {
        let rest = without(s.drop_last(), c);
        if s.last() == c {
            rest
        } else {
            rest.push(s.last())
        }
    }
}

/// Builds a conjunction from already simplified children from which every
/// `True` has been removed.
pub open spec fn mk_conj(ys: Seq<Formula>) -> Formula {
    if ys.len() == 0 {
        Formula::True
    } else if ys.contains(Formula::False) {
        Formula::False
    } else if ys.len() == 1 {
        ys[0]
    } else {
        Formula::Conj(ys)
    }
}

/// Builds a disjunction from already simplified children from which every
/// `False` has been removed.
pub open spec fn mk_disj(ys: Seq<Formula>) -> Formula {
    if ys.len() == 0 {
        Formula::False
    } else if ys.contains(Formula::True) {
        Formula::True
    } else if ys.len() == 1 {
        ys[0]
    } else {
        Formula::Disj(ys)
    }
}

/// Bottom-up simplification: empty `Conj`/`Disj` become `True`/`False`,
/// neutral constants are dropped, absorbing constants absorb, and singleton
/// `Conj`/`Disj` collapse to their child.
pub open spec fn simp(f: Formula) -> Formula
    decreases f, 1int,
{
    match f {
        Formula::Conj(xs) => mk_conj(without(simp_children(f), Formula::True)),
        Formula::Disj(xs) => mk_disj(without(simp_children(f), Formula::False)),
        _ => f,
    }
}

/// The children of a connective, each simplified.
pub open spec fn simp_children(f: Formula) -> Seq<Formula>
    decreases f, 0int,
{
    match f {
        Formula::Conj(xs) | Formula::Disj(xs) => Seq::new(
            xs.len(),
            |j: int| if 0 <= j < xs.len() { simp(xs[j]) } else { Formula::True },
        ),
        _ => Seq::empty(),
    }
}

/// The children of `xs` simplified one by one.
pub open spec fn simp_all(xs: Seq<Formula>) -> Seq<Formula> {
    xs.map_values(|x: Formula| simp(x))
}

/// A formula in simplified form: no constant below a connective and no
/// connective with fewer than two children.
pub open spec fn is_simplified(f: Formula) -> bool
    decreases f,
{
    match f {
        Formula::Conj(xs) => xs.len() >= 2 && forall|j: int|
            0 <= j < xs.len() ==> {
                &&& #[trigger] xs[j] != Formula::True
                &&& xs[j] != Formula::False
                &&& is_simplified(xs[j])
            },
        Formula::Disj(xs) => xs.len() >= 2 && forall|j: int|
            0 <= j < xs.len() ==> {
                &&& #[trigger] xs[j] != Formula::True
                &&& xs[j] != Formula::False
                &&& is_simplified(xs[j])
            },
        _ => true,
    }
}

pub proof fn lemma_views_conj(v: Vec<LogicFormula>)
    ensures
        LogicFormula::Conj(v)@ == Formula::Conj(views(v@)),
        LogicFormula::Disj(v)@ == Formula::Disj(views(v@)),
{
    assert(children_view(LogicFormula::Conj(v)) =~= views(v@));
    assert(children_view(LogicFormula::Disj(v)) =~= views(v@));
}

pub proof fn lemma_simp_unfold(xs: Seq<Formula>)
    ensures
        simp(Formula::Conj(xs)) == mk_conj(without(simp_all(xs), Formula::True)),
        simp(Formula::Disj(xs)) == mk_disj(without(simp_all(xs), Formula::False)),
{
    assert(simp_children(Formula::Conj(xs)) =~= simp_all(xs));
    assert(simp_children(Formula::Disj(xs)) =~= simp_all(xs));
}

pub proof fn lemma_without_push(s: Seq<Formula>, x: Formula, c: Formula)
    ensures
        without(s.push(x), c) == if x == c { without(s, c) } else { without(s, c).push(x) },
{
    assert(s.push(x).drop_last() =~= s);
}

/// What `without` keeps: elements of `s` other than `c`, and every one of them.
pub proof fn lemma_without_members(s: Seq<Formula>, c: Formula)
    ensures
        forall|j: int| 0 <= j < without(s, c).len() ==> #[trigger] without(s, c)[j] != c && s.contains(without(s, c)[j]),
        forall|j: int| 0 <= j < s.len() && s[j] != c ==> without(s, c).contains(#[trigger] s[j]),
        without(s, c).len() <= s.len(),
    decreases s.len(),
{
    if s.len() > 0 {
        let r = without(s.drop_last(), c);
        lemma_without_members(s.drop_last(), c);
        assert forall|j: int| 0 <= j < without(s, c).len() implies #[trigger] without(s, c)[j] != c && s.contains(without(s, c)[j]) by {
            if j < r.len() {
                assert(without(s, c)[j] == r[j]);
                let k = choose|k: int| 0 <= k < s.drop_last().len() && s.drop_last()[k] == r[j];
                assert(s[k] == r[j]);
            } else {
                assert(s[s.len() - 1] == without(s, c)[j]);
            }
        }
        assert forall|j: int| 0 <= j < s.len() && s[j] != c implies without(s, c).contains(#[trigger] s[j]) by {
            if j < s.len() - 1 {
                assert(s.drop_last()[j] == s[j]);
                let k = choose|k: int| 0 <= k < r.len() && r[k] == s[j];
                assert(without(s, c)[k] == s[j]);
            } else {
                assert(without(s, c)[without(s, c).len() - 1] == s[j]);
            }
        }
    }
}

pub proof fn lemma_without_id(s: Seq<Formula>, c: Formula)
    requires
        forall|j: int| 0 <= j < s.len() ==> #[trigger] s[j] != c,
    ensures
        without(s, c) == s,
    decreases s.len(),
{
    if s.len() > 0 {
        lemma_without_id(s.drop_last(), c);
        assert(s.drop_last().push(s.last()) =~= s);
    }
}

/// The result of `simp` is in simplified form.
pub proof fn lemma_simp_simplified(f: Formula)
    ensures
        is_simplified(simp(f)),
    decreases f,
{
    match f {
        Formula::Conj(xs) => {
            lemma_simp_unfold(xs);
            let m = simp_all(xs);
            assert forall|j: int| 0 <= j < m.len() implies is_simplified(#[trigger] m[j]) by {
                lemma_simp_simplified(xs[j]);
            }
            let ys = without(m, Formula::True);
            lemma_without_members(m, Formula::True);
            assert forall|j: int| 0 <= j < ys.len() implies is_simplified(#[trigger] ys[j]) by {
                let k = choose|k: int| 0 <= k < m.len() && m[k] == ys[j];
            }
        },
        Formula::Disj(xs) => {
            lemma_simp_unfold(xs);
            let m = simp_all(xs);
            assert forall|j: int| 0 <= j < m.len() implies is_simplified(#[trigger] m[j]) by {
                lemma_simp_simplified(xs[j]);
            }
            let ys = without(m, Formula::False);
            lemma_without_members(m, Formula::False);
            assert forall|j: int| 0 <= j < ys.len() implies is_simplified(#[trigger] ys[j]) by {
                let k = choose|k: int| 0 <= k < m.len() && m[k] == ys[j];
            }
        },
        _ => {},
    }
}

/// A formula in simplified form is left unchanged by `simp`.
pub proof fn lemma_simp_fixed(f: Formula)
    requires
        is_simplified(f),
    ensures
        simp(f) == f,
    decreases f,
{
    match f {
        Formula::Conj(xs) => {
            lemma_simp_unfold(xs);
            assert forall|j: int| 0 <= j < xs.len() implies simp(#[trigger] xs[j]) == xs[j] by {
                lemma_simp_fixed(xs[j]);
            }
            assert(simp_all(xs) =~= xs);
            lemma_without_id(xs, Formula::True);
            assert(!xs.contains(Formula::False));
        },
        Formula::Disj(xs) => {
            lemma_simp_unfold(xs);
            assert forall|j: int| 0 <= j < xs.len() implies simp(#[trigger] xs[j]) == xs[j] by {
                lemma_simp_fixed(xs[j]);
            }
            assert(simp_all(xs) =~= xs);
            lemma_without_id(xs, Formula::False);
            assert(!xs.contains(Formula::True));
        },
        _ => {},
    }
}

/// Simplifying twice gives what simplifying once gives.
pub proof fn lemma_simplify_idempotent(f: Formula)
    ensures
        simp(simp(f)) == simp(f),
{
    lemma_simp_simplified(f);
    lemma_simp_fixed(simp(f));
}

/// Adding `True` to a conjunction, or `False` to a disjunction, does not
/// change its simplification.
pub proof fn lemma_simplify_neutral(xs: Seq<Formula>)
    ensures
        simp(Formula::Conj(xs.push(Formula::True))) == simp(Formula::Conj(xs)),
        simp(Formula::Disj(xs.push(Formula::False))) == simp(Formula::Disj(xs)),
{
    lemma_simp_unfold(xs);
    lemma_simp_unfold(xs.push(Formula::True));
    lemma_simp_unfold(xs.push(Formula::False));
    assert(simp_all(xs.push(Formula::True)) =~= simp_all(xs).push(Formula::True));
    assert(simp_all(xs.push(Formula::False)) =~= simp_all(xs).push(Formula::False));
    lemma_without_push(simp_all(xs), Formula::True, Formula::True);
    lemma_without_push(simp_all(xs), Formula::False, Formula::False);
}

/// Adding `False` to a conjunction makes it `False`; adding `True` to a
/// disjunction makes it `True`.
pub proof fn lemma_simplify_absorbing(xs: Seq<Formula>)
    ensures
        simp(Formula::Conj(xs.push(Formula::False))) == Formula::False,
        simp(Formula::Disj(xs.push(Formula::True))) == Formula::True,
{
    lemma_simp_unfold(xs.push(Formula::True));
    lemma_simp_unfold(xs.push(Formula::False));
    assert(simp_all(xs.push(Formula::True)) =~= simp_all(xs).push(Formula::True));
    assert(simp_all(xs.push(Formula::False)) =~= simp_all(xs).push(Formula::False));
    lemma_without_push(simp_all(xs), Formula::False, Formula::True);
    lemma_without_push(simp_all(xs), Formula::True, Formula::False);
    let a = without(simp_all(xs), Formula::True).push(Formula::False);
    assert(a[a.len() - 1] == Formula::False);
    let b = without(simp_all(xs), Formula::False).push(Formula::True);
    assert(b[b.len() - 1] == Formula::True);
}

pub fn is_true(f: &LogicFormula) -> (r: bool)
    ensures
        r == (f@ == Formula::True),
{
    match f {
        LogicFormula::True => true,
        LogicFormula::BasisElem(..) => false,
        LogicFormula::False => false,
        LogicFormula::Conj(v) => {
            proof { lemma_views_conj(*v); }
            false
        },
        LogicFormula::Disj(v) => {
            proof { lemma_views_conj(*v); }
            false
        },
    }
}

pub fn is_false(f: &LogicFormula) -> (r: bool)
    ensures
        r == (f@ == Formula::False),
{
    match f {
        LogicFormula::False => true,
        LogicFormula::BasisElem(..) => false,
        LogicFormula::True => false,
        LogicFormula::Conj(v) => {
            proof { lemma_views_conj(*v); }
            false
        },
        LogicFormula::Disj(v) => {
            proof { lemma_views_conj(*v); }
            false
        },
    }
}

/// Simplifies each child of `xs` and keeps those whose simplification is not
/// `neutral`.
fn simplify_children(xs: Vec<LogicFormula>, neutral: bool) -> (r: Vec<LogicFormula>)
    ensures
        views(r@) == without(simp_all(views(xs@)), if neutral { Formula::True } else { Formula::False }),
    decreases xs,
{
    let ghost c = if neutral { Formula::True } else { Formula::False };
    let ghost orig = xs@;
    let ghost xs_g = xs;
    let ghost m = simp_all(views(orig));
    let mut rest = xs;
    let mut out: Vec<LogicFormula> = Vec::new();
    let n = rest.len();
    let mut j: usize = 0;
    while j < n
        invariant
            0 <= j <= n == orig.len(),
            rest@ == orig.subrange(j as int, n as int),
            xs_g@ == orig,
            xs_g == xs,
            m == simp_all(views(orig)),
            views(out@) == without(m.take(j as int), c),
            m.len() == n,
            c == if neutral { Formula::True } else { Formula::False },
        decreases n - j,
    {
        proof {
            assert(orig.subrange(j as int, n as int)[0] == orig[j as int]);
        }
        let x = rest.remove(0);
        proof {
            assert(orig[j as int] == xs_g@[j as int]);
            vstd::std_specs::vec::axiom_vec_index_decreases(xs_g, j as int);
            assert(decreases_to!(xs_g => x));
        }
        let y = simplify(x);
        let keep = if neutral { !is_true(&y) } else { !is_false(&y) };
        proof {
            assert(m.take(j + 1) =~= m.take(j as int).push(m[j as int]));
            assert(views(orig)[j as int] == orig[j as int]@);
            assert(m == simp_all(views(orig)));
            assert(views(orig).len() == n);
            assert(simp_all(views(orig))[j as int] == simp(views(orig)[j as int]));
            lemma_without_push(m.take(j as int), m[j as int], c);
            assert(orig.subrange(j as int, n as int).remove(0) =~= orig.subrange(j + 1, n as int));
        }
        if keep {
            let ghost before = out@;
            out.push(y);
            proof {
                assert(views(out@) =~= views(before).push(y@));
            }
        }
        j = j + 1;
    }
    proof {
        assert(m.take(n as int) =~= m);
    }
    out
}

/// Simplifies a formula bottom-up (see [`simp`]).
pub fn simplify(s: LogicFormula) -> (r: LogicFormula)
    ensures
        r@ == simp(s@),
    decreases s,
{
    match s {
        LogicFormula::Conj(x) => {
            proof { lemma_views_conj(x); lemma_simp_unfold(views(x@)); }
            let simplified = simplify_children(x, true);
            extract(simplified, true)
        },
        LogicFormula::Disj(x) => {
            proof { lemma_views_conj(x); lemma_simp_unfold(views(x@)); }
            let simplified = simplify_children(x, false);
            extract(simplified, false)
        },
        _ => s,
    }
}

/// Turns simplified children into a conjunction (`conj`) or a disjunction,
/// collapsing the empty, absorbed and singleton cases.
fn extract(xs: Vec<LogicFormula>, conj: bool) -> (r: LogicFormula)
    ensures
        r@ == if conj { mk_conj(views(xs@)) } else { mk_disj(views(xs@)) },
{
    let ghost v = views(xs@);
    let absorbing = if conj { LogicFormula::False } else { LogicFormula::True };
    let mut xs = xs;
    if xs.len() == 0 {
        if conj { LogicFormula::True } else { LogicFormula::False }
    } else {
        let mut found = false;
        let mut j: usize = 0;
        while j < xs.len()
            invariant
                0 <= j <= xs.len(),
                v == views(xs@),
                found == exists|k: int| 0 <= k < j && #[trigger] v[k] == absorbing@,
                absorbing@ == if conj { Formula::False } else { Formula::True },
            decreases xs.len() - j,
        {
            let hit = if conj { is_false(&xs[j]) } else { is_true(&xs[j]) };
            proof {
                assert(v[j as int] == xs@[j as int]@);
                if hit {
                    assert(v[j as int] == absorbing@);
                }
            }
            if hit {
                found = true;
            }
            j = j + 1;
        }
        proof {
            if found {
                let k = choose|k: int| 0 <= k < j && #[trigger] v[k] == absorbing@;
                assert(v.contains(absorbing@));
            } else {
                assert(!v.contains(absorbing@));
            }
        }
        if found {
            absorbing
        } else if xs.len() == 1 {
            xs.remove(0)
        } else if conj {
            proof { lemma_views_conj(xs); }
            LogicFormula::Conj(xs)
        } else {
            proof { lemma_views_conj(xs); }
            LogicFormula::Disj(xs)
        }
    }
}

impl LogicFormula {
    /// A copy of this formula.
    pub fn copy(&self) -> (r: LogicFormula)
        ensures
            r@ == self@,
        decreases self,
    {
        match self {
            LogicFormula::BasisElem(b, i) => LogicFormula::BasisElem(b.clone(), *i),
            LogicFormula::True => LogicFormula::True,
            LogicFormula::False => LogicFormula::False,
            LogicFormula::Conj(xs) => {
                let v = copy_all(self);
                proof { lemma_views_conj(*xs); lemma_views_conj(v); }
                LogicFormula::Conj(v)
            },
            LogicFormula::Disj(xs) => {
                let v = copy_all(self);
                proof { lemma_views_conj(*xs); lemma_views_conj(v); }
                LogicFormula::Disj(v)
            },
        }
    }
}

fn copy_all(f: &LogicFormula) -> (r: Vec<LogicFormula>)
    ensures
        f is Conj ==> views(r@) == views(f->Conj_0@),
        f is Disj ==> views(r@) == views(f->Disj_0@),
    decreases f, 0int,
{
    let mut out: Vec<LogicFormula> = Vec::new();
    match f {
        LogicFormula::Conj(xs) | LogicFormula::Disj(xs) => {
            proof { assert(decreases_to!(*f => *xs)); }
            let mut j: usize = 0;
            while j < xs.len()
                invariant
                    j <= xs@.len(),
                    *f == LogicFormula::Conj(*xs) || *f == LogicFormula::Disj(*xs),
                    decreases_to!(*f => *xs),
                    views(out@) == views(xs@).take(j as int),
                decreases xs@.len() - j,
            {
                proof {
                    vstd::std_specs::vec::axiom_vec_index_decreases(*xs, j as int);
                    assert(decreases_to!(*f => xs@[j as int]));
                }
                let y = xs[j].copy();
                let ghost before = out@;
                out.push(y);
                proof {
                    assert(views(out@) =~= views(before).push(y@));
                    assert(views(out@) =~= views(xs@).take(j + 1));
                }
                j = j + 1;
            }
            proof { assert(views(xs@).take(xs@.len() as int) =~= views(xs@)); }
            out
        },
        _ => out,
    }
}

} // verus!
