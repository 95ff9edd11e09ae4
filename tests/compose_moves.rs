use sem_sfe::compose::{compose_move_base, compose_moves};
use sem_sfe::fixpoint::{ExpFixEq, FixEq, FixType};
use sem_sfe::formula::LogicFormula;
use sem_sfe::moves::{SymbolicExistsMove, SymbolicExistsMoveComposed, SymbolicExistsMoves};

fn atom(b: &str, i: usize) -> LogicFormula {
    LogicFormula::BasisElem(b.to_string(), i)
}

fn id(x: &str) -> ExpFixEq {
    ExpFixEq::Id(x.to_string())
}

fn strings(xs: &[&str]) -> Vec<String> {
    xs.iter().map(|x| x.to_string()).collect()
}

fn mv(f: LogicFormula, op: &str, b: &str) -> SymbolicExistsMove {
    SymbolicExistsMove { formula: f, func_name: op.to_string(), basis_elem: b.to_string() }
}

#[test]
fn compose_moves_subst_basic_example() {
    let fix_eq_1 = || {
        ExpFixEq::And(
            Box::new(ExpFixEq::Operator("p".to_string(), vec![])),
            Box::new(ExpFixEq::Operator("box".to_string(), vec![id("x_1")])),
        )
    };
    let moves = SymbolicExistsMoves::new(
        vec![
            mv(LogicFormula::True, "p", "{b}"),
            mv(LogicFormula::Conj(vec![atom("{d}", 1), atom("{e}", 1)]), "box", "{b}"),
        ],
        strings(&["p", "box"]),
        strings(&["{a}", "{b}", "{c}", "{d}", "{e}"]),
    );
    let fix_eq = vec![FixEq { var: "x_1".to_string(), fix_ty: FixType::Max, exp: fix_eq_1() }];
    assert_eq!(
        compose_move_base(&fix_eq, &"{b}".to_string(), &fix_eq_1(), &moves),
        LogicFormula::Conj(vec![
            LogicFormula::True,
            LogicFormula::Conj(vec![atom("{d}", 1), atom("{e}", 1)])
        ])
    )
}

fn paper_system() -> Vec<FixEq> {
    vec![
        FixEq {
            var: "x_1".to_string(),
            fix_ty: FixType::Max,
            exp: ExpFixEq::Or(Box::new(id("x_2")), Box::new(ExpFixEq::Operator("box".to_string(), vec![id("x_1")]))),
        },
        FixEq {
            var: "x_2".to_string(),
            fix_ty: FixType::Min,
            exp: ExpFixEq::And(
                Box::new(id("x_1")),
                Box::new(ExpFixEq::Operator("diamond".to_string(), vec![id("x_2")])),
            ),
        },
    ]
}

fn paper_moves() -> SymbolicExistsMoves {
    let bx = |bs: Vec<&str>| {
        if bs.len() > 1 {
            LogicFormula::Conj(bs.into_iter().map(|b| atom(b, 1)).collect())
        } else {
            atom(bs[0], 1)
        }
    };
    let dia = |bs: Vec<&str>| {
        if bs.len() > 1 {
            LogicFormula::Disj(bs.into_iter().map(|b| atom(b, 1)).collect())
        } else {
            atom(bs[0], 1)
        }
    };
    SymbolicExistsMoves::new(
        vec![
            mv(bx(vec!["{a}", "{b}", "{c}"]), "box", "{a}"),
            mv(bx(vec!["{c}", "{d}"]), "box", "{b}"),
            mv(bx(vec!["{c}"]), "box", "{c}"),
            mv(bx(vec!["{d}"]), "box", "{d}"),
            mv(dia(vec!["{a}", "{b}", "{c}"]), "diamond", "{a}"),
            mv(dia(vec!["{c}", "{d}"]), "diamond", "{b}"),
            mv(dia(vec!["{c}"]), "diamond", "{c}"),
            mv(dia(vec!["{d}"]), "diamond", "{d}"),
        ],
        strings(&["box", "diamond"]),
        strings(&["{a}", "{b}", "{c}", "{d}"]),
    )
}

#[test]
fn compose_moves_system() {
    let basis = strings(&["{a}", "{b}", "{c}", "{d}"]);
    let conj = |bs: Vec<&str>, p: usize| {
        if bs.len() > 1 {
            LogicFormula::Conj(bs.into_iter().map(|b| atom(b, p)).collect())
        } else {
            atom(bs[0], p)
        }
    };
    let disj = |bs: Vec<&str>, p: usize| {
        if bs.len() > 1 {
            LogicFormula::Disj(bs.into_iter().map(|b| atom(b, p)).collect())
        } else {
            atom(bs[0], p)
        }
    };
    let or = |b: &str, bs: Vec<&str>| LogicFormula::Disj(vec![atom(b, 2), conj(bs, 1)]);
    let and = |b: &str, bs: Vec<&str>| LogicFormula::Conj(vec![atom(b, 1), disj(bs, 2)]);
    let c = |formula: LogicFormula, i: usize, b: &str| SymbolicExistsMoveComposed {
        formula,
        func_name: i,
        basis_elem: b.to_string(),
    };
    let expected = vec![
        c(or("{a}", vec!["{a}", "{b}", "{c}"]), 1, "{a}"),
        c(or("{b}", vec!["{c}", "{d}"]), 1, "{b}"),
        c(or("{c}", vec!["{c}"]), 1, "{c}"),
        c(or("{d}", vec!["{d}"]), 1, "{d}"),
        c(and("{a}", vec!["{a}", "{b}", "{c}"]), 2, "{a}"),
        c(and("{b}", vec!["{c}", "{d}"]), 2, "{b}"),
        c(and("{c}", vec!["{c}"]), 2, "{c}"),
        c(and("{d}", vec!["{d}"]), 2, "{d}"),
    ];
    assert_eq!(compose_moves(&paper_system(), &paper_moves(), &basis), expected)
}

#[test]
fn compose_missing_move_is_false() {
    let system = vec![FixEq {
        var: "x_1".to_string(),
        fix_ty: FixType::Max,
        exp: ExpFixEq::Operator("box".to_string(), vec![id("x_1")]),
    }];
    let store = SymbolicExistsMoves::new(vec![], strings(&["box"]), strings(&["a"]));
    assert_eq!(compose_move_base(&system, &"a".to_string(), &system[0].exp, &store), LogicFormula::False);
    let unknown = SymbolicExistsMoves::new(vec![], vec![], strings(&["a"]));
    assert_eq!(compose_move_base(&system, &"a".to_string(), &system[0].exp, &unknown), LogicFormula::False);
}

#[test]
fn store_lookup_defaults_and_last_entry_wins() {
    let store = SymbolicExistsMoves::new(
        vec![mv(atom("a", 1), "f", "a"), mv(atom("b", 1), "f", "a")],
        strings(&["f", "g"]),
        strings(&["a", "b"]),
    );
    assert_eq!(store.get_formula(&"a".to_string(), &"f".to_string()), &atom("b", 1));
    assert_eq!(store.get_formula(&"b".to_string(), &"f".to_string()), &LogicFormula::False);
    assert_eq!(store.get_formula(&"a".to_string(), &"g".to_string()), &LogicFormula::False);
    assert_eq!(store.get_formula(&"a".to_string(), &"h".to_string()), &LogicFormula::False);
}

#[test]
fn projection_is_one_based() {
    let system = paper_system();
    assert_eq!(sem_sfe::compose::projection(&system, &"x_1".to_string()), 1);
    assert_eq!(sem_sfe::compose::projection(&system, &"x_2".to_string()), 2);
    assert_eq!(sem_sfe::compose::projection(&system, &"y".to_string()), 0);
}
