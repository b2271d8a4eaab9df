use ontime::formulae::{CompileError, Expr, Formula};

#[test]
fn test_is_quantifier_free() {
    // Quantifier-free formula: Eq
    let f1 = Formula::Eq(
        Box::new(Expr::Var("x".to_string())),
        Box::new(Expr::Const(1)),
    );
    assert!(f1.is_quantifier_free());

    // Formula with quantifier: Forall
    let f2 = Formula::Forall(
        "x".to_string(),
        Box::new(Formula::Eq(
            Box::new(Expr::Var("x".to_string())),
            Box::new(Expr::Const(2)),
        )),
    );
    assert!(!f2.is_quantifier_free());

    // Nested quantifier-free formula: And
    let f3 = Formula::And(vec![
        Formula::Eq(
            Box::new(Expr::Var("y".to_string())),
            Box::new(Expr::Const(3)),
        ),
        Formula::Neq(
            Box::new(Expr::Var("z".to_string())),
            Box::new(Expr::Const(4)),
        ),
    ]);
    assert!(f3.is_quantifier_free());

    // Nested formula with quantifier: Or contains Exists
    let f4 = Formula::Or(vec![
        Formula::Eq(
            Box::new(Expr::Var("a".to_string())),
            Box::new(Expr::Const(5)),
        ),
        Formula::Exists(
            "b".to_string(),
            Box::new(Formula::Eq(
                Box::new(Expr::Var("b".to_string())),
                Box::new(Expr::Const(6)),
            )),
        ),
    ]);
    assert!(!f4.is_quantifier_free());
}

#[test]
fn test_free_variables() {
    // Simple case
    let f = Formula::Eq(
        Box::new(Expr::Var("x".to_string())),
        Box::new(Expr::Const(1)),
    );
    let free = f.free_variables();
    assert_eq!(free, vec!["x".to_string()]);
    assert!(f.has_exactly_one_free_variable("x"));
    assert!(!f.has_exactly_one_free_variable("y"));

    // With quantifier
    let f = Formula::Forall(
        "x".to_string(),
        Box::new(Formula::Eq(
            Box::new(Expr::Var("x".to_string())),
            Box::new(Expr::Var("y".to_string())),
        )),
    );
    let free = f.free_variables();
    assert_eq!(free, vec!["y".to_string()]);
    assert!(f.has_exactly_one_free_variable("y"));
    assert!(!f.has_exactly_one_free_variable("x"));

    // Nested quantifiers
    let f = Formula::Exists(
        "z".to_string(),
        Box::new(Formula::And(vec![
            Formula::Eq(
                Box::new(Expr::Var("x".to_string())),
                Box::new(Expr::Var("z".to_string())),
            ),
            Formula::Eq(
                Box::new(Expr::Var("y".to_string())),
                Box::new(Expr::Const(0)),
            ),
        ])),
    );
    let mut free = f.free_variables();
    free.sort();
    assert_eq!(free, vec!["x".to_string(), "y".to_string()]);
    assert!(!f.has_exactly_one_free_variable("x"));
    assert!(!f.has_exactly_one_free_variable("y"));
}

#[test]
fn test_as_closure() {
    // Quantifier-free, one free variable
    let f = Formula::Eq(
        Box::new(Expr::Add(
            Box::new(Expr::Var("x".to_string())),
            Box::new(Expr::Const(2)),
        )),
        Box::new(Expr::Const(5)),
    );
    let closure = f.as_closure().expect("Should succeed");
    assert_eq!(closure.eval(3), true);
    assert_eq!(closure.eval(2), false);

    // Quantifier-free, no free variable
    let f2 = Formula::True;
    let closure2 = f2.as_closure().expect("Should succeed");
    assert_eq!(closure2.eval(0), true);
    assert_eq!(closure2.eval(42), true);

    // Not quantifier-free
    let f3 = Formula::Forall(
        "x".to_string(),
        Box::new(Formula::Eq(
            Box::new(Expr::Var("x".to_string())),
            Box::new(Expr::Const(1)),
        )),
    );
    assert!(f3.as_closure().is_err());

    // More than one free variable
    let f4 = Formula::Eq(
        Box::new(Expr::Add(
            Box::new(Expr::Var("x".to_string())),
            Box::new(Expr::Var("y".to_string())),
        )),
        Box::new(Expr::Const(5)),
    );
    assert!(f4.as_closure().is_err());
}

#[test]
fn test_compile_true_holds_everywhere() {
    // compiling True yields a predicate that is true for every tested
    // input, including 0 and large values
    let p = Formula::True.as_closure().expect("True must compile");
    assert!(p.eval(0));
    assert!(p.eval(1));
    assert!(p.eval(42));
    assert!(p.eval(1_000_000));
    assert!(p.eval(usize::MAX));
}

#[test]
fn test_compile_shifted_equation() {
    // (x + 2) = 5 holds exactly at x = 3
    let f = Formula::Eq(
        Box::new(Expr::Add(
            Box::new(Expr::Var("x".to_string())),
            Box::new(Expr::Const(2)),
        )),
        Box::new(Expr::Const(5)),
    );
    let p = f.as_closure().expect("Should succeed");
    for t in 0..100 {
        assert_eq!(p.eval(t), t == 3);
    }
}

#[test]
fn test_compile_error_kinds_are_distinguishable() {
    let quantified = Formula::Exists(
        "y".to_string(),
        Box::new(Formula::Eq(
            Box::new(Expr::Var("y".to_string())),
            Box::new(Expr::Const(0)),
        )),
    );
    assert_eq!(
        quantified.as_closure().unwrap_err(),
        CompileError::ContainsQuantifiers
    );

    let two_vars = Formula::Lt(
        Box::new(Expr::Var("x".to_string())),
        Box::new(Expr::Var("y".to_string())),
    );
    assert_eq!(
        two_vars.as_closure().unwrap_err(),
        CompileError::MoreThanOneFreeVariable
    );

    // a quantified formula with two free variables reports the quantifier
    let both = Formula::And(vec![
        Formula::Exists(
            "q".to_string(),
            Box::new(Formula::Eq(
                Box::new(Expr::Var("q".to_string())),
                Box::new(Expr::Const(0)),
            )),
        ),
        Formula::Lt(
            Box::new(Expr::Var("x".to_string())),
            Box::new(Expr::Var("y".to_string())),
        ),
    ]);
    assert_eq!(
        both.as_closure().unwrap_err(),
        CompileError::ContainsQuantifiers
    );
}

#[test]
fn test_remainder_follows_dividend_sign() {
    // (0 - x) mod 3 = -1 exactly where x leaves remainder 1 by 3:
    // truncating-division semantics, the sign following the dividend
    let f = Formula::Eq(
        Box::new(Expr::Mod(
            Box::new(Expr::Sub(
                Box::new(Expr::Const(0)),
                Box::new(Expr::Var("x".to_string())),
            )),
            3,
        )),
        Box::new(Expr::Const(-1)),
    );
    let p = f.as_closure().expect("Should succeed");
    assert!(!p.eval(0)); // 0 % 3 == 0
    assert!(p.eval(1)); // -1 % 3 == -1
    assert!(!p.eval(2)); // -2 % 3 == -2
    assert!(!p.eval(3)); // -3 % 3 == 0
    assert!(p.eval(4)); // -4 % 3 == -1
    assert!(p.eval(7)); // -7 % 3 == -1
}

#[test]
fn test_scaling_and_ordering() {
    // 3 * x <= 12 holds exactly for x in 0..=4
    let f = Formula::Le(
        Box::new(Expr::MulConst(3, Box::new(Expr::Var("x".to_string())))),
        Box::new(Expr::Const(12)),
    );
    let p = f.as_closure().expect("Should succeed");
    for t in 0..20 {
        assert_eq!(p.eval(t), t <= 4);
    }
}

#[test]
fn test_connectives_and_negation() {
    // not (x < 2 or x > 5) holds exactly for x in 2..=5
    let f = Formula::Not(Box::new(Formula::Or(vec![
        Formula::Lt(
            Box::new(Expr::Var("x".to_string())),
            Box::new(Expr::Const(2)),
        ),
        Formula::Gt(
            Box::new(Expr::Var("x".to_string())),
            Box::new(Expr::Const(5)),
        ),
    ])));
    let p = f.as_closure().expect("Should succeed");
    for t in 0..10 {
        assert_eq!(p.eval(t), (2..=5).contains(&t));
    }

    // an empty conjunction holds, an empty disjunction does not
    let all = Formula::And(vec![]).as_closure().expect("Should succeed");
    assert!(all.eval(0));
    let any = Formula::Or(vec![]).as_closure().expect("Should succeed");
    assert!(!any.eval(0));

    // False never holds
    let never = Formula::False.as_closure().expect("Should succeed");
    assert!(!never.eval(0));
    assert!(!never.eval(9));
}
