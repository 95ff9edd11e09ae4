use sem_sfe::basis::basis_parser;
use sem_sfe::compose::compose_moves;
use sem_sfe::fixpoint::{ExpFixEq, FixEq, FixType};
use sem_sfe::formula::LogicFormula;
use sem_sfe::game::Player;
use sem_sfe::parse::{parse_fixpoint_system, parse_fun_arity, parse_symbolic_system};
use sem_sfe::render::{eq_string, formula_string, VerificationOutput};
use sem_sfe::solver::ParityGame;

#[test]
fn basis_lines_are_trimmed() {
    assert_eq!(basis_parser("{a}\n  {b} \r\n{c}\n".to_string()), vec!["{a}", "{b}", "{c}"]);
    assert_eq!(basis_parser(String::new()), Vec::<String>::new());
    assert_eq!(basis_parser("a\n\nb".to_string()), vec!["a", "", "b"]);
}

#[test]
fn formula_text() {
    let f = LogicFormula::Disj(vec![
        LogicFormula::BasisElem("{a}".to_string(), 2),
        LogicFormula::Conj(vec![LogicFormula::BasisElem("{b}".to_string(), 1), LogicFormula::True]),
    ]);
    assert_eq!(formula_string(&f), "[{a}, 2] or [{b}, 1] and true");
}

#[test]
fn equation_text() {
    let e = FixEq {
        var: "x_1".to_string(),
        fix_ty: FixType::Max,
        exp: ExpFixEq::Or(
            Box::new(ExpFixEq::Id("x_2".to_string())),
            Box::new(ExpFixEq::Operator(
                "box".to_string(),
                vec![ExpFixEq::And(Box::new(ExpFixEq::Id("x_1".to_string())), Box::new(ExpFixEq::Id("x_2".to_string())))],
            )),
        ),
    };
    assert_eq!(eq_string(&e), "x_1 =max x_2 or box(x_1 and x_2)");
}

#[test]
fn verbose_output_sections() {
    let out = VerificationOutput {
        moves: vec![],
        moves_composed: vec![],
        fix_system: vec![FixEq { var: "x_1".to_string(), fix_ty: FixType::Min, exp: ExpFixEq::Id("x_1".to_string()) }],
        fix_system_normalized: None,
        result: "done".to_string(),
    };
    let text = out.format_verbose();
    assert!(text.starts_with("Fixpoint system: \n\nx_1 =min x_1\n\n"));
    assert!(text.ends_with("Result: done"));
}

#[test]
fn debug_pipeline_from_text() {
    let arity = parse_fun_arity("box 1\ndiamond 1\n").unwrap();
    let sys = parse_fixpoint_system(&arity, "x_1 =max x_2 or box(x_1);\nx_2 =min x_1 and diamond(x_2);\n").unwrap();
    let basis = basis_parser("{a}\n{b}\n".to_string());
    let moves = "phi({a})(box) = [{a}, 1] and [{b}, 1];\nphi({b})(box) = [{b}, 1];\nphi({a})(diamond) = [{b}, 1];\nphi({b})(diamond) = [{b}, 1];";
    let store = parse_symbolic_system(&arity, &basis, moves).unwrap();
    let composed = compose_moves(&sys, &store, &basis);
    assert_eq!(
        composed[0].formula,
        LogicFormula::Disj(vec![
            LogicFormula::BasisElem("{a}".to_string(), 2),
            LogicFormula::Conj(vec![
                LogicFormula::BasisElem("{a}".to_string(), 1),
                LogicFormula::BasisElem("{b}".to_string(), 1)
            ])
        ])
    );
    let game = ParityGame::new(&sys, composed, basis).unwrap();
    assert_eq!(game.local_check(&"{a}".to_string(), 1), Some(Player::Eve));
}
