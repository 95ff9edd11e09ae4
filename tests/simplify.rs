use sem_sfe::formula::{simplify, LogicFormula};

fn atom(b: &str, i: usize) -> LogicFormula {
    LogicFormula::BasisElem(b.to_string(), i)
}

#[test]
fn simplify_symplify_conj_false() {
    let formula = LogicFormula::Conj(vec![atom("a", 1), LogicFormula::False, atom("b", 3)]);
    assert_eq!(simplify(formula), LogicFormula::False);
}

#[test]
fn simplify_symplify_conj_true() {
    let formula = LogicFormula::Conj(vec![atom("a", 1), LogicFormula::True, atom("b", 3)]);
    assert_eq!(simplify(formula), LogicFormula::Conj(vec![atom("a", 1), atom("b", 3)]))
}

#[test]
fn simplify_symplify_disj_true() {
    let formula = LogicFormula::Disj(vec![atom("a", 1), LogicFormula::True, atom("b", 3)]);
    assert_eq!(simplify(formula), LogicFormula::True);
}

#[test]
fn simplify_symplify_disj_false() {
    let formula = LogicFormula::Disj(vec![atom("a", 1), LogicFormula::False, atom("b", 3)]);
    assert_eq!(simplify(formula), LogicFormula::Disj(vec![atom("a", 1), atom("b", 3)]))
}

#[test]
fn simplify_symplify_disj_nested_false() {
    let formula = LogicFormula::Disj(vec![
        atom("a", 1),
        LogicFormula::Conj(vec![atom("a", 1), LogicFormula::False, atom("b", 3)]),
        atom("b", 3),
    ]);
    assert_eq!(simplify(formula), LogicFormula::Disj(vec![atom("a", 1), atom("b", 3)]))
}

#[test]
fn simplify_symplify_disj_nested_true() {
    let formula = LogicFormula::Disj(vec![
        atom("a", 1),
        LogicFormula::Conj(vec![atom("a", 1), LogicFormula::True, atom("b", 3)]),
        atom("b", 3),
    ]);
    assert_eq!(
        simplify(formula),
        LogicFormula::Disj(vec![
            atom("a", 1),
            LogicFormula::Conj(vec![atom("a", 1), atom("b", 3)]),
            atom("b", 3)
        ])
    )
}

#[test]
fn simplify_extract() {
    assert_eq!(
        simplify(LogicFormula::Conj(vec![
            LogicFormula::True,
            LogicFormula::Conj(vec![atom("{d}", 1), atom("{e}", 1)])
        ])),
        LogicFormula::Conj(vec![atom("{d}", 1), atom("{e}", 1)])
    )
}

#[test]
fn simplify_empty_connectives() {
    assert_eq!(simplify(LogicFormula::Conj(vec![])), LogicFormula::True);
    assert_eq!(simplify(LogicFormula::Disj(vec![])), LogicFormula::False);
}

#[test]
fn simplify_singleton_collapses() {
    assert_eq!(simplify(LogicFormula::Disj(vec![atom("a", 2)])), atom("a", 2));
    assert_eq!(simplify(LogicFormula::Conj(vec![LogicFormula::Disj(vec![atom("a", 2)])])), atom("a", 2));
}

#[test]
fn simplify_twice_is_once() {
    let f = || {
        LogicFormula::Disj(vec![
            LogicFormula::Conj(vec![LogicFormula::True, atom("a", 1)]),
            LogicFormula::Disj(vec![LogicFormula::False, atom("b", 2), atom("c", 1)]),
        ])
    };
    let once = simplify(f());
    let twice = simplify(simplify(f()));
    assert_eq!(once, twice);
    assert_eq!(once, LogicFormula::Disj(vec![atom("a", 1), LogicFormula::Disj(vec![atom("b", 2), atom("c", 1)])]));
}

#[test]
fn simplify_neutral_and_absorbing_members() {
    let xs = || vec![atom("a", 1), atom("b", 2)];
    let mut with_true = xs();
    with_true.push(LogicFormula::True);
    assert_eq!(simplify(LogicFormula::Conj(with_true)), simplify(LogicFormula::Conj(xs())));
    let mut with_false = xs();
    with_false.push(LogicFormula::False);
    assert_eq!(simplify(LogicFormula::Conj(with_false)), LogicFormula::False);
    let mut d_false = xs();
    d_false.push(LogicFormula::False);
    assert_eq!(simplify(LogicFormula::Disj(d_false)), simplify(LogicFormula::Disj(xs())));
    let mut d_true = xs();
    d_true.push(LogicFormula::True);
    assert_eq!(simplify(LogicFormula::Disj(d_true)), LogicFormula::True);
}
