use sem_sfe::fixpoint::{ExpFixEq, FixEq, FixType};
use sem_sfe::game::Player;
use sem_sfe::mucalc::{Act, Lts, MuCalc};
use sem_sfe::pg::{pg_to_pbe, Node, ParityGameSpec, PG};

fn id(x: &str) -> ExpFixEq {
    ExpFixEq::Id(x.to_string())
}

fn node(id: u32, parity: u32, owner: Player, succ: Vec<u32>) -> (Node, Vec<u32>) {
    (Node { id, owner, parity, name: id.to_string() }, succ)
}

fn small_game() -> PG {
    PG(vec![
        node(0, 1, Player::Eve, vec![1]),
        node(1, 2, Player::Adam, vec![0, 2]),
        node(2, 0, Player::Eve, vec![2]),
    ])
}

#[test]
fn pg_small_game_player_0_wins() {
    let spec = ParityGameSpec::new(small_game(), "0".to_string()).unwrap();
    assert_eq!(spec.verify(), Some(Player::Eve));
}

#[test]
fn pg_start_vertex_must_exist() {
    assert!(ParityGameSpec::new(small_game(), "7".to_string()).is_none());
}

#[test]
fn pg_sorted_by_parity() {
    let spec = ParityGameSpec::new(small_game(), "1".to_string()).unwrap();
    let ids: Vec<u32> = spec.game().0.iter().map(|(n, _)| n.id).collect();
    assert_eq!(ids, vec![2, 0, 1]);
    assert_eq!(spec.start(), 2);
}

#[test]
fn pg_equations() {
    let sys = pg_to_pbe(&small_game(), Player::Eve);
    let expected = vec![
        FixEq { var: "x_0".to_string(), fix_ty: FixType::Min, exp: id("x_1") },
        FixEq {
            var: "x_1".to_string(),
            fix_ty: FixType::Max,
            exp: ExpFixEq::And(Box::new(id("x_0")), Box::new(id("x_2"))),
        },
        FixEq { var: "x_2".to_string(), fix_ty: FixType::Max, exp: id("x_2") },
    ];
    assert_eq!(sys, expected);
}

#[test]
fn pg_equations_left_associated() {
    let g = PG(vec![node(5, 3, Player::Eve, vec![1, 2, 3])]);
    let sys = pg_to_pbe(&g, Player::Eve);
    assert_eq!(
        sys[0].exp,
        ExpFixEq::Or(Box::new(ExpFixEq::Or(Box::new(id("x_1")), Box::new(id("x_2")))), Box::new(id("x_3")))
    );
    assert_eq!(sys[0].fix_ty, FixType::Min);
}

fn three_states() -> Lts {
    Lts {
        first_state: 0,
        labels: vec!["a".to_string()],
        adj_list: vec![(0, vec![(0, 1)]), (1, vec![(0, 2)]), (2, vec![])],
    }
}

fn reach_formula() -> MuCalc {
    MuCalc::Eta(
        "X".to_string(),
        FixType::Min,
        Box::new(MuCalc::Or(
            Box::new(MuCalc::Diamond(Act::Label("a".to_string()), Box::new(MuCalc::Var("X".to_string())))),
            Box::new(MuCalc::Diamond(Act::Label("a".to_string()), Box::new(MuCalc::True))),
        )),
    )
}

#[test]
fn mu_diamond_from_s0_eve_wins() {
    assert_eq!(three_states().check(&reach_formula(), 0), Some(Player::Eve));
}

#[test]
fn mu_diamond_from_s2_adam_wins() {
    assert_eq!(three_states().check(&reach_formula(), 2), Some(Player::Adam));
}

#[test]
fn mu_box_without_successor_holds() {
    let f = MuCalc::Eta(
        "Y".to_string(),
        FixType::Max,
        Box::new(MuCalc::Box(Act::Label("a".to_string()), Box::new(MuCalc::False))),
    );
    assert_eq!(three_states().check(&f, 2), Some(Player::Eve));
    let f = MuCalc::Eta(
        "Y".to_string(),
        FixType::Max,
        Box::new(MuCalc::Box(Act::Label("a".to_string()), Box::new(MuCalc::False))),
    );
    assert_eq!(three_states().check(&f, 0), Some(Player::Adam));
}

#[test]
fn mu_non_fixpoint_formula_refused() {
    assert_eq!(three_states().check(&MuCalc::True, 0), None);
}

#[test]
fn mu_encoding_names_binders_in_post_order() {
    let f = MuCalc::Eta(
        "X".to_string(),
        FixType::Max,
        Box::new(MuCalc::Eta("Y".to_string(), FixType::Min, Box::new(MuCalc::Var("X".to_string())))),
    );
    let (sys, _) = three_states().to_fix_system(&f).unwrap();
    assert_eq!(
        sys,
        vec![
            FixEq { var: "x_1".to_string(), fix_ty: FixType::Min, exp: id("x_2") },
            FixEq { var: "x_2".to_string(), fix_ty: FixType::Max, exp: id("x_1") },
        ]
    );
}

#[test]
fn parse_pg_reads_small_game() {
    let src = "parity 2;\n0 1 0 1 \"0\";\n1 2 1 0,2 \"1\";\n2 0 0 2 \"2\";\n";
    let pg = sem_sfe::parse::parse_pg(src).unwrap();
    assert_eq!(pg.0.len(), 3);
    assert_eq!(pg.0[1].1, vec![0, 2]);
    assert_eq!(pg.0[1].0.owner, Player::Adam);
    let spec = ParityGameSpec::new(pg, "0".to_string()).unwrap();
    assert_eq!(spec.verify(), Some(Player::Eve));
}

#[test]
fn parse_ald_and_mu_formula() {
    let lts = sem_sfe::parse::parse_ald("des (0, 2, 3)\n(0, \"a\", 1)\n(1, \"a\", 2)\n").unwrap();
    let f = sem_sfe::parse::parse_mu_calc("mu X. <a> X || <a> tt").unwrap();
    assert_eq!(lts.check(&f, 0), Some(Player::Eve));
    let f = sem_sfe::parse::parse_mu_calc("mu X. <a> X || <a> tt").unwrap();
    assert_eq!(lts.check(&f, 2), Some(Player::Adam));
}

#[test]
fn parse_errors_are_reported() {
    assert!(sem_sfe::parse::parse_mu_calc("mu X. (<a> X").is_err());
    assert!(sem_sfe::parse::parse_pg("0 1 2 1;").is_err());
    assert!(sem_sfe::parse::parse_ald("(0, \"a\", 1)").is_err());
}
