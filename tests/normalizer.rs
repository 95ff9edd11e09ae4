use sem_sfe::fixpoint::{ExpFixEq, FixEq, FixType};
use sem_sfe::normalizer::normalize_system;

fn id(x: &str) -> ExpFixEq {
    ExpFixEq::Id(x.to_string())
}

fn eq(var: &str, fix_ty: FixType, exp: ExpFixEq) -> FixEq {
    FixEq { var: var.to_owned(), fix_ty, exp }
}

fn and(l: ExpFixEq, r: ExpFixEq) -> ExpFixEq {
    ExpFixEq::And(Box::new(l), Box::new(r))
}

fn or(l: ExpFixEq, r: ExpFixEq) -> ExpFixEq {
    ExpFixEq::Or(Box::new(l), Box::new(r))
}

/// νx1.µx2.(x1 ∨ x2 ∨ νx3.µx4.νx5.(x3 ∧ diamond(x4 ∧ x5))); the fresh
/// equations follow the given ones.
#[test]
fn normalizer_normalize_system_mu_calc() {
    let system = vec![
        eq("x_1", FixType::Max, id("x_2")),
        eq("x_2", FixType::Min, or(or(id("x_1"), id("x_2")), id("x_3"))),
        eq("x_3", FixType::Max, id("x_4")),
        eq("x_4", FixType::Min, id("x_5")),
        eq(
            "x_5",
            FixType::Max,
            and(id("x_3"), ExpFixEq::Operator("diamond".to_owned(), vec![and(id("x_4"), id("x_5"))])),
        ),
    ];
    let normalized_system = vec![
        eq("x_1", FixType::Max, id("x_2")),
        eq("x_2", FixType::Min, or(id("x_6"), id("x_3"))),
        eq("x_3", FixType::Max, id("x_4")),
        eq("x_4", FixType::Min, id("x_5")),
        eq("x_5", FixType::Max, and(id("x_3"), id("x_7"))),
        eq("x_6", FixType::Min, or(id("x_1"), id("x_2"))),
        eq("x_7", FixType::Max, ExpFixEq::Operator("diamond".to_owned(), vec![id("x_8")])),
        eq("x_8", FixType::Max, and(id("x_4"), id("x_5"))),
    ];
    let (fun_normalized_system, _) = normalize_system(&system);
    assert_eq!(fun_normalized_system, normalized_system)
}

#[test]
fn normalizer_renames_input_variables() {
    let system = vec![
        eq("a", FixType::Max, or(id("b"), and(id("a"), id("b")))),
        eq("b", FixType::Min, id("b")),
    ];
    let (sys, names) = normalize_system(&system);
    assert_eq!(
        sys,
        vec![
            eq("x_1", FixType::Max, or(id("x_2"), id("x_3"))),
            eq("x_2", FixType::Min, id("x_2")),
            eq("x_3", FixType::Max, and(id("x_1"), id("x_2"))),
        ]
    );
    assert_eq!(names, vec![("a".to_string(), "x_1".to_string()), ("b".to_string(), "x_2".to_string())]);
}

#[test]
fn normalizer_keeps_canonical_system() {
    let system = vec![eq("x_1", FixType::Min, ExpFixEq::Operator("f".to_owned(), vec![id("x_1"), id("x_1")]))];
    let (sys, _) = normalize_system(&system);
    assert_eq!(sys, vec![eq("x_1", FixType::Min, ExpFixEq::Operator("f".to_owned(), vec![id("x_1"), id("x_1")]))]);
}

#[test]
fn normalizer_accepts_ordinary_systems() {
    let system = vec![eq("a", FixType::Max, or(id("b"), and(id("a"), id("b")))), eq("b", FixType::Min, id("b"))];
    assert!(sem_sfe::normalizer::fits_normalization(&system));
}
