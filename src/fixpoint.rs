//! Systems of fixpoint equations.
use vstd::prelude::*;

verus! {

/// Whether an equation asks for the least (`Min`) or greatest (`Max`)
/// fixpoint.
#[derive(Debug, Clone, Copy, PartialEq, Eq, Structural)]
pub enum FixType {
    Min,
    Max,
}

/// Right-hand side of a fixpoint equation.
#[derive(Debug, PartialEq, Eq)]
pub enum ExpFixEq {
    And(Box<ExpFixEq>, Box<ExpFixEq>),
    Or(Box<ExpFixEq>, Box<ExpFixEq>),
    Operator(String, Vec<ExpFixEq>),
    Id(String),
}

/// One equation `var =fix_ty exp`.
#[derive(Debug, PartialEq, Eq)]
pub struct FixEq {
    pub var: String,
    pub fix_ty: FixType,
    pub exp: ExpFixEq,
}

/// Mathematical model of an [`ExpFixEq`].
pub enum Exp {
    And(Box<Exp>, Box<Exp>),
    Or(Box<Exp>, Box<Exp>),
    Operator(Seq<char>, Seq<Exp>),
    Id(Seq<char>),
}

/// Mathematical model of a [`FixEq`].
pub struct EqV {
    pub var: Seq<char>,
    pub fix_ty: FixType,
    pub exp: Exp,
}

pub open spec fn exp_view(e: ExpFixEq) -> Exp
    decreases e, 1int,
{
    match e {
        ExpFixEq::And(l, r) => Exp::And(Box::new(exp_view(*l)), Box::new(exp_view(*r))),
        ExpFixEq::Or(l, r) => Exp::Or(Box::new(exp_view(*l)), Box::new(exp_view(*r))),
        ExpFixEq::Operator(op, _) => Exp::Operator(op@, args_view(e)),
        ExpFixEq::Id(x) => Exp::Id(x@),
    }
}

/// The models of the arguments of an operator application.
pub open spec fn args_view(e: ExpFixEq) -> Seq<Exp>
    decreases e, 0int,
{
    match e {
        ExpFixEq::Operator(_, args) => Seq::new(
            args.len() as nat,
            |j: int| if 0 <= j < args.len() { exp_view(args[j]) } else { Exp::Id(Seq::empty()) },
        ),
        _ => Seq::empty(),
    }
}

impl View for ExpFixEq {
    type V = Exp;

    open spec fn view(&self) -> Exp {
        exp_view(*self)
    }
}

impl View for FixEq {
    type V = EqV;

    open spec fn view(&self) -> EqV {
        EqV { var: self.var@, fix_ty: self.fix_ty, exp: self.exp@ }
    }
}

/// The models of a sequence of expressions.
pub open spec fn exps_view(s: Seq<ExpFixEq>) -> Seq<Exp> {
    s.map_values(|x: ExpFixEq| x@)
}

/// The models of a system of equations.
pub open spec fn system_view(s: Seq<FixEq>) -> Seq<EqV> {
    s.map_values(|x: FixEq| x@)
}

pub proof fn lemma_args_view(op: String, args: Vec<ExpFixEq>)
    ensures
        ExpFixEq::Operator(op, args)@ == Exp::Operator(op@, exps_view(args@)),
{
    assert(args_view(ExpFixEq::Operator(op, args)) =~= exps_view(args@));
}

} // verus!
