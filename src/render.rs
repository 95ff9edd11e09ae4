//! Text of systems, formulas and moves, for explanations.
use vstd::prelude::*;
use crate::fixpoint::{EqV, Exp, ExpFixEq, FixEq, FixType, exps_view, lemma_args_view};
use crate::formula::{Formula, LogicFormula, lemma_views_conj, views};
use crate::moves::{SymbolicExistsMove, SymbolicExistsMoveComposed};
use crate::normalizer::{concat, decimal, decimal_name};

verus! {

/// The parts separated by `sep`.
pub open spec fn join(parts: Seq<Seq<char>>, sep: Seq<char>) -> Seq<char>
    decreases parts.len(),
{
    if parts.len() == 0 {
        Seq::empty()
    } else if parts.len() == 1 {
        parts[0]
    } else {
        join(parts.drop_last(), sep) + sep + parts.last()
    }
}

/// `[b, i]`, `true`, `false`, and the children of a conjunction
/// (disjunction) separated by ` and ` (` or `).
pub open spec fn formula_text(f: Formula) -> Seq<char>
    decreases f, 1int,
{
    match f {
        Formula::Atom(b, i) => seq!['['] + b + seq![',', ' '] + decimal(i as nat) + seq![']'],
        Formula::True => seq!['t', 'r', 'u', 'e'],
        Formula::False => seq!['f', 'a', 'l', 's', 'e'],
        Formula::Conj(_) => join(children_text(f), seq![' ', 'a', 'n', 'd', ' ']),
        Formula::Disj(_) => join(children_text(f), seq![' ', 'o', 'r', ' ']),
    }
}

pub open spec fn children_text(f: Formula) -> Seq<Seq<char>>
    decreases f, 0int,
{
    match f {
        Formula::Conj(xs) | Formula::Disj(xs) => Seq::new(
            xs.len(),
            |j: int| if 0 <= j < xs.len() { formula_text(xs[j]) } else { Seq::empty() },
        ),
        _ => Seq::empty(),
    }
}

/// An expression: `l and r`, `l or r` (operands that are neither
/// identifiers nor operator applications in parentheses), `op(a, ...)`, or
/// an identifier.
pub open spec fn exp_text(e: Exp) -> Seq<char>
    decreases e, 2int,
{
    match e {
        Exp::And(l, r) => operand_text(*l) + seq![' ', 'a', 'n', 'd', ' '] + operand_text(*r),
        Exp::Or(l, r) => operand_text(*l) + seq![' ', 'o', 'r', ' '] + operand_text(*r),
        Exp::Operator(op, _) => op + seq!['('] + join(args_text(e), seq![',', ' ']) + seq![')'],
        Exp::Id(x) => x,
    }
}

pub open spec fn operand_text(e: Exp) -> Seq<char>
    decreases e, 3int,
{
    match e {
        Exp::Id(x) => x,
        Exp::Operator(_, _) => exp_text(e),
        _ => seq!['('] + exp_text(e) + seq![')'],
    }
}

pub open spec fn args_text(e: Exp) -> Seq<Seq<char>>
    decreases e, 1int,
{
    match e {
        Exp::Operator(_, args) => Seq::new(
            args.len(),
            |j: int| if 0 <= j < args.len() { exp_text(args[j]) } else { Seq::empty() },
        ),
        _ => Seq::empty(),
    }
}

pub open spec fn fix_text(t: FixType) -> Seq<char> {
    match t {
        FixType::Max => seq!['=', 'm', 'a', 'x'],
        FixType::Min => seq!['=', 'm', 'i', 'n'],
    }
}

/// An equation: `var =max exp` or `var =min exp`.
pub open spec fn eq_text(e: EqV) -> Seq<char> {
    e.var + seq![' '] + fix_text(e.fix_ty) + seq![' '] + exp_text(e.exp)
}

/// Joins the strings with `sep`.
fn join_strings(parts: &Vec<String>, sep: &str) -> (r: String)
    ensures
        r@ == join(parts@.map_values(|s: String| s@), sep@),
{
    let ghost pv = parts@.map_values(|s: String| s@);
    if parts.len() == 0 {
        proof {
            assert(pv.len() == 0);
            reveal_strlit("");
            assert(""@ =~= Seq::<char>::empty());
        }
        return "".to_owned();
    }
    let mut out = concat(parts[0].as_str(), "");
    proof {
        reveal_strlit("");
        assert(out@ =~= pv[0]);
        assert(pv.take(1).len() == 1);
        assert(join(pv.take(1), sep@) == pv.take(1)[0]);
    }
    let mut j: usize = 1;
    while j < parts.len()
        invariant
            1 <= j <= parts@.len(),
            pv == parts@.map_values(|s: String| s@),
            out@ == join(pv.take(j as int), sep@),
        decreases parts@.len() - j,
    {
        let a = concat(out.as_str(), sep);
        out = concat(a.as_str(), parts[j].as_str());
        proof {
            assert(pv.take(j + 1).drop_last() =~= pv.take(j as int));
            assert(pv.take(j + 1).last() == parts@[j as int]@);
        }
        j = j + 1;
    }
    proof { assert(pv.take(parts@.len() as int) =~= pv); }
    out
}

/// The text of a formula (see [`formula_text`]).
pub fn formula_string(f: &LogicFormula) -> (r: String)
    ensures
        r@ == formula_text(f@),
    decreases f, 1int,
{
    match f {
        LogicFormula::BasisElem(b, i) => {
            proof { reveal_strlit("["); reveal_strlit(", "); reveal_strlit("]"); }
            let a = concat("[", b.as_str());
            let c = concat(a.as_str(), ", ");
            let d = concat(c.as_str(), decimal_name(*i).as_str());
            let r = concat(d.as_str(), "]");
            proof { assert(r@ =~= formula_text(f@)); }
            r
        },
        LogicFormula::True => {
            proof { reveal_strlit("true"); }
            "true".to_owned()
        },
        LogicFormula::False => {
            proof { reveal_strlit("false"); }
            "false".to_owned()
        },
        LogicFormula::Conj(xs) => {
            proof { lemma_views_conj(*xs); reveal_strlit(" and "); assert(" and "@ =~= seq![' ', 'a', 'n', 'd', ' ']); }
            let parts = children_strings(f);
            join_strings(&parts, " and ")
        },
        LogicFormula::Disj(xs) => {
            proof { lemma_views_conj(*xs); reveal_strlit(" or "); assert(" or "@ =~= seq![' ', 'o', 'r', ' ']); }
            let parts = children_strings(f);
            join_strings(&parts, " or ")
        },
    }
}

fn children_strings(f: &LogicFormula) -> (r: Vec<String>)
    ensures
        r@.map_values(|s: String| s@) == children_text(f@),
    decreases f, 0int,
{
    let mut out: Vec<String> = Vec::new();
    match f {
        LogicFormula::Conj(xs) | LogicFormula::Disj(xs) => {
            proof { lemma_views_conj(*xs); }
            let ghost target = children_text(f@);
            let mut j: usize = 0;
            while j < xs.len()
                invariant
                    j <= xs@.len(),
                    target == children_text(f@),
                    f@ == Formula::Conj(views(xs@)) || f@ == Formula::Disj(views(xs@)),
                    *f == LogicFormula::Conj(*xs) || *f == LogicFormula::Disj(*xs),
                    target.len() == xs@.len(),
                    out@.map_values(|s: String| s@) == target.take(j as int),
                decreases xs@.len() - j,
            {
                proof {
                    assert(views(xs@)[j as int] == xs@[j as int]@);
                    assert(decreases_to!(*f => xs@[j as int]));
                }
                let s = formula_string(&xs[j]);
                let ghost before = out@;
                out.push(s);
                proof {
                    assert(out@.map_values(|s: String| s@) =~= before.map_values(|s: String| s@).push(s@));
                    assert(out@.map_values(|s: String| s@) =~= target.take(j + 1));
                }
                j = j + 1;
            }
            proof { assert(target.take(xs@.len() as int) =~= target); }
            out
        },
        _ => {
            proof { assert(out@.map_values(|s: String| s@) =~= Seq::<Seq<char>>::empty()); }
            out
        },
    }
}

/// The text of an expression (see [`exp_text`]).
pub fn exp_string(e: &ExpFixEq) -> (r: String)
    ensures
        r@ == exp_text(e@),
    decreases e, 2int,
{
    match e {
        ExpFixEq::And(l, r) => {
            proof { reveal_strlit(" and "); }
            let a = operand_string(l);
            let b = operand_string(r);
            let c = concat(a.as_str(), " and ");
            concat(c.as_str(), b.as_str())
        },
        ExpFixEq::Or(l, r) => {
            proof { reveal_strlit(" or "); }
            let a = operand_string(l);
            let b = operand_string(r);
            let c = concat(a.as_str(), " or ");
            concat(c.as_str(), b.as_str())
        },
        ExpFixEq::Operator(op, args) => {
            proof {
                lemma_args_view(*op, *args);
                reveal_strlit("(");
                reveal_strlit(")");
                reveal_strlit(", ");
                assert(", "@ =~= seq![',', ' ']);
            }
            let parts = args_strings(e);
            let j = join_strings(&parts, ", ");
            let a = concat(op.as_str(), "(");
            let b = concat(a.as_str(), j.as_str());
            let r = concat(b.as_str(), ")");
            proof { assert(r@ =~= exp_text(e@)); }
            r
        },
        ExpFixEq::Id(x) => x.as_str().to_owned(),
    }
}

fn operand_string(e: &ExpFixEq) -> (r: String)
    ensures
        r@ == operand_text(e@),
    decreases e, 3int,
{
    match e {
        ExpFixEq::Id(x) => x.as_str().to_owned(),
        ExpFixEq::Operator(op, args) => {
            proof { lemma_args_view(*op, *args); }
            exp_string(e)
        },
        _ => {
            proof { reveal_strlit("("); reveal_strlit(")"); }
            let a = concat("(", exp_string(e).as_str());
            let r = concat(a.as_str(), ")");
            proof { assert(r@ =~= operand_text(e@)); }
            r
        },
    }
}

fn args_strings(e: &ExpFixEq) -> (r: Vec<String>)
    ensures
        r@.map_values(|s: String| s@) == args_text(e@),
    decreases e, 1int,
{
    let mut out: Vec<String> = Vec::new();
    match e {
        ExpFixEq::Operator(op, args) => {
            proof { lemma_args_view(*op, *args); }
            let ghost target = args_text(e@);
            let mut j: usize = 0;
            while j < args.len()
                invariant
                    j <= args@.len(),
                    target == args_text(e@),
                    e@ == Exp::Operator(op@, exps_view(args@)),
                    *e == ExpFixEq::Operator(*op, *args),
                    decreases_to!(*e => *args),
                    target.len() == args@.len(),
                    out@.map_values(|s: String| s@) == target.take(j as int),
                decreases args@.len() - j,
            {
                proof {
                    assert(exps_view(args@)[j as int] == args@[j as int]@);
                    vstd::std_specs::vec::axiom_vec_index_decreases(*args, j as int);
                }
                let s = exp_string(&args[j]);
                let ghost before = out@;
                out.push(s);
                proof {
                    assert(out@.map_values(|s: String| s@) =~= before.map_values(|s: String| s@).push(s@));
                    assert(out@.map_values(|s: String| s@) =~= target.take(j + 1));
                }
                j = j + 1;
            }
            proof { assert(target.take(args@.len() as int) =~= target); }
            out
        },
        _ => {
            proof { assert(out@.map_values(|s: String| s@) =~= Seq::<Seq<char>>::empty()); }
            out
        },
    }
}

/// The text of an equation (see [`eq_text`]).
pub fn eq_string(e: &FixEq) -> (r: String)
    ensures
        r@ == eq_text(e@),
{
    proof { reveal_strlit(" "); reveal_strlit("=max"); reveal_strlit("=min"); }
    let fix = match e.fix_ty {
        FixType::Max => "=max",
        FixType::Min => "=min",
    };
    let a = concat(e.var.as_str(), " ");
    let b = concat(a.as_str(), fix);
    let c = concat(b.as_str(), " ");
    let r = concat(c.as_str(), exp_string(&e.exp).as_str());
    proof { assert(r@ =~= eq_text(e@)); }
    r
}

/// `phi(b)(op) = formula`.
pub open spec fn move_text(b: Seq<char>, op: Seq<char>, f: Formula) -> Seq<char> {
    seq!['p', 'h', 'i', '('] + b + seq![')', '('] + op + seq![')', ' ', '=', ' '] + formula_text(f)
}

fn phi_string(b: &str, op: &str, f: &LogicFormula) -> (r: String)
    ensures
        r@ == move_text(b@, op@, f@),
{
    proof { reveal_strlit("phi("); reveal_strlit(")("); reveal_strlit(") = "); }
    let a = concat("phi(", b);
    let c = concat(a.as_str(), ")(");
    let d = concat(c.as_str(), op);
    let e = concat(d.as_str(), ") = ");
    let r = concat(e.as_str(), formula_string(f).as_str());
    proof { assert(r@ =~= move_text(b@, op@, f@)); }
    r
}

impl SymbolicExistsMove {
    pub open spec fn to_text_spec(&self) -> Seq<char> {
        move_text(self.basis_elem@, self.func_name@, self.formula@)
    }

    /// `phi(b)(op) = formula`.
    pub fn to_text(&self) -> (r: String)
        ensures
            r@ == move_text(self.basis_elem@, self.func_name@, self.formula@),
    {
        phi_string(self.basis_elem.as_str(), self.func_name.as_str(), &self.formula)
    }
}

impl SymbolicExistsMoveComposed {
    pub open spec fn to_text_spec(&self) -> Seq<char> {
        move_text(self.basis_elem@, decimal(self.func_name as nat), self.formula@)
    }

    /// `phi(b)(i) = formula`.
    pub fn to_text(&self) -> (r: String)
        ensures
            r@ == move_text(self.basis_elem@, decimal(self.func_name as nat), self.formula@),
    {
        let i = decimal_name(self.func_name);
        phi_string(self.basis_elem.as_str(), i.as_str(), &self.formula)
    }
}

/// The options of a verification task.
pub struct InputFlags {
    pub normalize: bool,
}

/// What a verification task produced: the system (and its normalized
/// form, if asked for), the operators' moves, the composed moves and the
/// result.
pub struct VerificationOutput {
    pub moves: Vec<SymbolicExistsMove>,
    pub moves_composed: Vec<SymbolicExistsMoveComposed>,
    pub fix_system: Vec<FixEq>,
    pub fix_system_normalized: Option<Vec<FixEq>>,
    pub result: String,
}

/// `title: `, a blank line, the items separated by `;` and a line feed,
/// and a blank line.
pub open spec fn section_text(title: Seq<char>, items: Seq<Seq<char>>) -> Seq<char> {
    title + seq![':', ' ', '\n', '\n'] + join(items, seq![';', '\n']) + seq!['\n', '\n']
}

pub open spec fn eqs_text(sys: Seq<FixEq>) -> Seq<Seq<char>> {
    sys.map_values(|e: FixEq| eq_text(e@))
}

pub open spec fn normalized_title() -> Seq<char> {
    seq!['N', 'o', 'r', 'm', 'a', 'l', 'i', 'z', 'e', 'd', ' ', 'f', 'i', 'x', 'p', 'o', 'i', 'n', 't', ' ', 's', 'y', 's', 't', 'e', 'm']
}

pub open spec fn moves_title() -> Seq<char> {
    seq!['S', 'y', 'm', 'b', 'o', 'l', 'i', 'c', ' ', 'e', 'x', 'i', 's', 't', 'e', 'n', 't', 'i', 'a', 'l', '-', 'm', 'o', 'v', 'e', 's']
}

pub open spec fn composed_suffix() -> Seq<char> {
    seq![' ', 'c', 'o', 'm', 'p', 'o', 's', 'e', 'd']
}

fn section(title: &str, items: &Vec<String>) -> (r: String)
    ensures
        r@ == section_text(title@, items@.map_values(|s: String| s@)),
{
    proof {
        reveal_strlit(": \n\n");
        reveal_strlit(";\n");
        reveal_strlit("\n\n");
        assert(";\n"@ =~= seq![';', '\n']);
    }
    let a = concat(title, ": \n\n");
    let b = concat(a.as_str(), join_strings(items, ";\n").as_str());
    let r = concat(b.as_str(), "\n\n");
    proof { assert(r@ =~= title@ + seq![':', ' ', '\n', '\n'] + join(items@.map_values(|s: String| s@), seq![';', '\n']) + seq!['\n', '\n']); }
    r
}

fn eq_strings(sys: &Vec<FixEq>) -> (r: Vec<String>)
    ensures
        r@.len() == sys@.len(),
        forall|j: int| 0 <= j < r@.len() ==> (#[trigger] r@[j])@ == eq_text(sys@[j]@),
{
    let mut out: Vec<String> = Vec::new();
    let mut j: usize = 0;
    while j < sys.len()
        invariant
            j <= sys@.len(),
            out@.len() == j,
            forall|t: int| 0 <= t < j ==> (#[trigger] out@[t])@ == eq_text(sys@[t]@),
        decreases sys@.len() - j,
    {
        out.push(eq_string(&sys[j]));
        j = j + 1;
    }
    out
}

impl VerificationOutput {
    /// The explanation of the task: the system, its normalized form (when
    /// there is one), the operators' moves and the composed moves, each
    /// under a title, one item per line; then the result.
    pub fn format_verbose(&self) -> (r: String)
        ensures
            r@ == section_text(seq!['F', 'i', 'x', 'p', 'o', 'i', 'n', 't', ' ', 's', 'y', 's', 't', 'e', 'm'], eqs_text(self.fix_system@))
                + match self.fix_system_normalized {
                    None => Seq::<char>::empty(),
                    Some(n) => section_text(normalized_title(), eqs_text(n@)),
                }
                + section_text(moves_title(), Seq::new(self.moves@.len(), |t: int| self.moves@[t].to_text_spec()))
                + section_text(moves_title() + composed_suffix(), Seq::new(self.moves_composed@.len(), |t: int| self.moves_composed@[t].to_text_spec()))
                + seq!['R', 'e', 's', 'u', 'l', 't', ':', ' '] + self.result@,
            r@.len() >= self.result@.len(),
            r@.subrange(r@.len() - self.result@.len(), r@.len() as int) == self.result@,
    {
        proof {
            reveal_strlit("Fixpoint system");
            reveal_strlit("Normalized fixpoint system");
            reveal_strlit("Symbolic existential-moves");
            reveal_strlit("Symbolic existential-moves composed");
            reveal_strlit("Result: ");
            reveal_strlit("");
            assert("Fixpoint system"@ =~= seq!['F', 'i', 'x', 'p', 'o', 'i', 'n', 't', ' ', 's', 'y', 's', 't', 'e', 'm']);
            assert("Normalized fixpoint system"@ =~= normalized_title());
            assert("Symbolic existential-moves"@ =~= moves_title());
            assert("Symbolic existential-moves composed"@ =~= moves_title() + composed_suffix());
            assert("Result: "@ =~= seq!['R', 'e', 's', 'u', 'l', 't', ':', ' ']);
            assert(""@ =~= Seq::<char>::empty());
        }
        let es = eq_strings(&self.fix_system);
        proof { assert(es@.map_values(|x: String| x@) =~= eqs_text(self.fix_system@)); }
        let sys = section("Fixpoint system", &es);
        let normalized = match &self.fix_system_normalized {
            None => "".to_owned(),
            Some(s) => {
                let ns = eq_strings(s);
                proof { assert(ns@.map_values(|x: String| x@) =~= eqs_text(s@)); }
                section("Normalized fixpoint system", &ns)
            },
        };
        let mut moves: Vec<String> = Vec::new();
        let mut j: usize = 0;
        while j < self.moves.len()
            invariant
                j <= self.moves@.len(),
                moves@.len() == j,
                forall|t: int| 0 <= t < j ==> (#[trigger] moves@[t])@ == self.moves@[t].to_text_spec(),
            decreases self.moves@.len() - j,
        {
            moves.push(self.moves[j].to_text());
            j = j + 1;
        }
        proof { assert(moves@.map_values(|x: String| x@) =~= Seq::new(self.moves@.len(), |t: int| self.moves@[t].to_text_spec())); }
        let mut composed: Vec<String> = Vec::new();
        let mut j: usize = 0;
        while j < self.moves_composed.len()
            invariant
                j <= self.moves_composed@.len(),
                composed@.len() == j,
                forall|t: int| 0 <= t < j ==> (#[trigger] composed@[t])@ == self.moves_composed@[t].to_text_spec(),
            decreases self.moves_composed@.len() - j,
        {
            composed.push(self.moves_composed[j].to_text());
            j = j + 1;
        }
        proof { assert(composed@.map_values(|x: String| x@) =~= Seq::new(self.moves_composed@.len(), |t: int| self.moves_composed@[t].to_text_spec())); }
        let a = concat(sys.as_str(), normalized.as_str());
        let b = concat(a.as_str(), section("Symbolic existential-moves", &moves).as_str());
        let c = concat(b.as_str(), section("Symbolic existential-moves composed", &composed).as_str());
        let d = concat(c.as_str(), "Result: ");
        let r = concat(d.as_str(), self.result.as_str());
        proof { assert(r@.subrange(r@.len() - self.result@.len(), r@.len() as int) =~= self.result@); }
        r
    }

}

} // verus!
