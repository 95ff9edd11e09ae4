use sem_sfe::compose::compose_moves;
use sem_sfe::fixpoint::{ExpFixEq, FixEq, FixType};
use sem_sfe::formula::LogicFormula;
use sem_sfe::game::Player;
use sem_sfe::moves::SymbolicExistsMoves;
use sem_sfe::solver::ParityGame;

fn id(x: &str) -> ExpFixEq {
    ExpFixEq::Id(x.to_string())
}

fn eq(var: &str, fix_ty: FixType, exp: ExpFixEq) -> FixEq {
    FixEq { var: var.to_string(), fix_ty, exp }
}

fn solve(system: Vec<FixEq>, basis: &[&str], b: &str, i: usize) -> Option<Player> {
    let basis: Vec<String> = basis.iter().map(|x| x.to_string()).collect();
    let store = SymbolicExistsMoves::new(vec![], vec![], basis.clone());
    let composed = compose_moves(&system, &store, &basis);
    let game = ParityGame::new(&system, composed, basis).unwrap();
    game.local_check(&b.to_string(), i)
}

#[test]
fn trivial_max_eve_wins() {
    let system = vec![eq("x_1", FixType::Max, id("x_1"))];
    assert_eq!(solve(system, &["a"], "a", 1), Some(Player::Eve));
}

#[test]
fn trivial_min_adam_wins() {
    let system = vec![eq("x_1", FixType::Min, id("x_1"))];
    assert_eq!(solve(system, &["a"], "a", 1), Some(Player::Adam));
}

#[test]
fn nested_min_max_eve_wins() {
    let system = vec![
        eq("x_1", FixType::Min, ExpFixEq::Or(Box::new(id("x_1")), Box::new(id("x_2")))),
        eq("x_2", FixType::Max, ExpFixEq::Or(Box::new(id("x_1")), Box::new(id("x_2")))),
    ];
    assert_eq!(solve(system, &["a"], "a", 1), Some(Player::Eve));
}

#[test]
fn solver_is_deterministic() {
    let mk = || {
        vec![
            eq("x_1", FixType::Min, ExpFixEq::Or(Box::new(id("x_1")), Box::new(id("x_2")))),
            eq("x_2", FixType::Max, ExpFixEq::And(Box::new(id("x_1")), Box::new(id("x_2")))),
        ]
    };
    let first = solve(mk(), &["a"], "a", 1);
    for _ in 0..3 {
        assert_eq!(solve(mk(), &["a"], "a", 1), first);
    }
}

#[test]
fn duality_swaps_winner() {
    let sys = |outer: FixType, inner: FixType, conj: bool| {
        let rhs = || {
            if conj {
                ExpFixEq::And(Box::new(id("x_1")), Box::new(id("x_2")))
            } else {
                ExpFixEq::Or(Box::new(id("x_1")), Box::new(id("x_2")))
            }
        };
        vec![eq("x_1", outer, rhs()), eq("x_2", inner, rhs())]
    };
    let w = solve(sys(FixType::Min, FixType::Max, false), &["a"], "a", 1);
    let d = solve(sys(FixType::Max, FixType::Min, true), &["a"], "a", 1);
    assert_eq!(w, Some(Player::Eve));
    assert_eq!(d, Some(Player::Adam));
}

#[test]
fn invalid_query_gives_none() {
    let system = vec![eq("x_1", FixType::Max, id("x_1"))];
    assert_eq!(solve(system, &["a"], "b", 1), None);
    let system = vec![eq("x_1", FixType::Max, id("x_1"))];
    assert_eq!(solve(system, &["a"], "a", 0), None);
    let system = vec![eq("x_1", FixType::Max, id("x_1"))];
    assert_eq!(solve(system, &["a"], "a", 2), None);
}

fn two_by_two() -> ParityGame {
    let system = vec![eq("x_1", FixType::Max, id("x_1")), eq("x_2", FixType::Min, id("x_2"))];
    let basis: Vec<String> = vec!["a".to_string(), "b".to_string()];
    let store = SymbolicExistsMoves::new(vec![], vec![], basis.clone());
    let composed = compose_moves(&system, &store, &basis);
    ParityGame::new(&system, composed, basis).unwrap()
}

#[test]
fn existential_moves_cross_product_in_order() {
    let atom = |b: &str, i: usize| LogicFormula::BasisElem(b.to_string(), i);
    let f = LogicFormula::Conj(vec![
        LogicFormula::Disj(vec![atom("a", 1), atom("b", 1)]),
        LogicFormula::Disj(vec![atom("a", 2), atom("b", 2)]),
    ]);
    let moves = two_by_two().existential_move(&f).unwrap();
    let xs: Vec<Vec<Vec<bool>>> = moves.into_iter().map(|p| p.x).collect();
    assert_eq!(
        xs,
        vec![
            vec![vec![true, false], vec![true, false]],
            vec![vec![true, false], vec![false, true]],
            vec![vec![false, true], vec![true, false]],
            vec![vec![false, true], vec![false, true]],
        ]
    );
}

#[test]
fn existential_moves_constants() {
    let g = two_by_two();
    assert!(g.existential_move(&LogicFormula::False).is_none());
    let t = g.existential_move(&LogicFormula::True).unwrap();
    assert_eq!(t.len(), 1);
    assert_eq!(t[0].x, vec![vec![false, false], vec![false, false]]);
    let c = g.existential_move(&LogicFormula::Conj(vec![LogicFormula::BasisElem("b".to_string(), 2), LogicFormula::False])).unwrap();
    assert!(c.is_empty());
}

#[test]
fn next_move_picks_first_disjunct() {
    let atom = |b: &str, i: usize| LogicFormula::BasisElem(b.to_string(), i);
    let f = LogicFormula::Conj(vec![LogicFormula::Disj(vec![atom("b", 1), atom("a", 1)]), atom("a", 2)]);
    let x = two_by_two().next_move(&f).unwrap().x;
    assert_eq!(x, vec![vec![false, true], vec![true, false]]);
}
