use locus::arith::form::{gcd, read_form, Atoms, Form, Kind};
use locus::arith::fourier::{point, Row, Stage};
use locus::arith::rational::Rational;
use locus::arith::{prove, Budget, Counterexample, Reason, MAX_LINEAR_ATOMS, MAX_LINEAR_PAIRS};
use locus::integer::Integer;
use locus::term::{binary, unary, Context, MachineInt, Prelude, Prim, Proof, Term, Type};

fn number(value: i64) -> Integer {
    Integer::from_i64(value)
}

fn x() -> Term {
    Term::Var(0)
}

fn y() -> Term {
    Term::Var(1)
}

fn lit(value: i64) -> Term {
    Term::literal(value)
}

fn prelude() -> Prelude {
    Prelude { and: 70, falsehood: 71 }
}

#[test]
fn budget_default_counts() {
    let budget = Budget::default();
    assert_eq!(budget.eliminations, 1024);
    assert_eq!(budget.derived, 16384);
    assert_eq!(budget.pairs, MAX_LINEAR_PAIRS);
    assert_eq!(budget.atoms, MAX_LINEAR_ATOMS);
    assert_eq!(budget.bits, 256);
    assert_eq!(budget.depth, 4);
    assert_eq!(budget.branches, 64);
}

#[test]
fn prove_weakens_a_hypothesis() {
    let mut ctx = Context::new();
    ctx.suppose(10, Term::int_le(x(), lit(5)));
    let goal = Term::int_le(x(), lit(7));
    assert!(prove(&ctx, None, &goal, &Budget::default()).is_ok());
}

#[test]
fn prove_refuses_a_goal_that_is_not_linear() {
    let ctx = Context::new();
    let goal = Term::Var(3);
    match prove(&ctx, Some(prelude()), &goal, &Budget::default()) {
        Err(gave_up) => assert!(matches!(gave_up.reason, Reason::NotLinear(_))),
        Ok(_) => panic!("a variable is not a comparison"),
    }
}

#[test]
fn prove_reports_a_checked_counterexample() {
    let mut ctx = Context::new();
    ctx.suppose(10, Term::int_le(x(), lit(5)));
    let goal = Term::int_le(x(), lit(3));
    match prove(&ctx, None, &goal, &Budget::default()) {
        Err(gave_up) => {
            assert!(matches!(gave_up.reason, Reason::Consistent));
            assert_eq!(gave_up.constraints.len(), 1);
            match gave_up.counterexample {
                Counterexample::Found(assignment) => {
                    assert_eq!(assignment.len(), 1);
                    let value = &assignment[0].1;
                    assert_eq!(value.compare(&number(3)), 1);
                    assert_eq!(value.compare(&number(5)), if value.equals(&number(5)) { 0 } else { -1 });
                }
                _ => panic!("the elimination's point is a counterexample"),
            }
        }
        Ok(_) => panic!("x <= 5 does not give x <= 3"),
    }
}

#[test]
fn prove_an_equation_from_two_inequalities() {
    let mut ctx = Context::new();
    ctx.suppose(10, Term::int_le(x(), lit(3)));
    ctx.suppose(11, Term::int_le(lit(3), x()));
    let goal = Term::eq_int(x(), lit(3));
    assert!(prove(&ctx, None, &goal, &Budget::default()).is_ok());
}

#[test]
fn prove_splits_where_the_rationals_are_not_enough() {
    // 1 <= 2x <= 1 holds at x = 1/2 only, which is no integer.
    let two_x = binary(Prim::IntMul, lit(2), x());
    let mut ctx = Context::new();
    ctx.suppose(10, Term::int_le(lit(1), binary(Prim::IntMul, lit(2), x())));
    ctx.suppose(11, Term::int_le(two_x, lit(1)));
    let goal = prelude().falsehood_prop();
    assert!(prove(&ctx, Some(prelude()), &goal, &Budget::default()).is_ok());
}

#[test]
fn prove_without_branches_gives_up_on_the_budget() {
    let two_x = binary(Prim::IntMul, lit(2), x());
    let mut ctx = Context::new();
    ctx.suppose(10, Term::int_le(lit(1), binary(Prim::IntMul, lit(2), x())));
    ctx.suppose(11, Term::int_le(two_x, lit(1)));
    let goal = prelude().falsehood_prop();
    let budget = Budget { branches: 0, ..Budget::default() };
    match prove(&ctx, Some(prelude()), &goal, &budget) {
        Err(gave_up) => match gave_up.reason {
            Reason::Budget { name, limit } => {
                assert_eq!(name, "branches");
                assert_eq!(limit, 0);
            }
            _ => panic!("the branches ran out"),
        },
        Ok(_) => panic!("no branch was allowed"),
    }
}

#[test]
fn prove_gives_up_when_the_atoms_run_out() {
    let ctx = Context::new();
    let goal = Term::int_le(x(), y());
    let budget = Budget { atoms: 1, ..Budget::default() };
    match prove(&ctx, None, &goal, &budget) {
        Err(gave_up) => match gave_up.reason {
            Reason::Budget { name, limit } => {
                assert_eq!(name, "atoms");
                assert_eq!(limit, 1);
            }
            _ => panic!("the atoms ran out"),
        },
        Ok(_) => panic!("x <= y does not hold"),
    }
}

#[test]
fn prove_uses_the_range_of_a_view() {
    let ctx = Context::new();
    let view = unary(Prim::View(MachineInt::U8), y());
    let goal = Term::int_le(view, lit(255));
    assert!(prove(&ctx, None, &goal, &Budget::default()).is_ok());
    let view = unary(Prim::View(MachineInt::U8), y());
    let goal = Term::int_le(view, lit(254));
    assert!(prove(&ctx, None, &goal, &Budget::default()).is_err());
    let view = unary(Prim::View(MachineInt::I8), y());
    let goal = Term::int_le(lit(-128), view);
    assert!(prove(&ctx, None, &goal, &Budget::default()).is_ok());
}

#[test]
fn prove_uses_the_facts_of_a_division_by_a_literal() {
    let ctx = Context::new();
    let remainder = binary(Prim::IntRem, x(), lit(2));
    let goal = Term::int_le(remainder, lit(1));
    assert!(prove(&ctx, None, &goal, &Budget::default()).is_ok());
    let mut ctx = Context::new();
    ctx.suppose(10, Term::int_le(lit(0), x()));
    let remainder = binary(Prim::IntRem, x(), lit(3));
    let goal = Term::int_le(lit(0), remainder);
    assert!(prove(&ctx, None, &goal, &Budget::default()).is_ok());
    let ctx = Context::new();
    let remainder = binary(Prim::IntRem, x(), lit(3));
    let goal = Term::int_le(lit(0), remainder);
    assert!(prove(&ctx, None, &goal, &Budget::default()).is_err());
}

#[test]
fn prove_splits_a_conjunction() {
    let mut ctx = Context::new();
    let both = Term::PropApp(70, vec![Term::int_le(x(), lit(1)), Term::int_le(y(), lit(1))]);
    ctx.suppose(10, both);
    let goal = Term::int_le(binary(Prim::IntAdd, x(), y()), lit(2));
    assert!(prove(&ctx, Some(prelude()), &goal, &Budget::default()).is_ok());
    assert!(prove(&ctx, None, &goal, &Budget::default()).is_err());
}

#[test]
fn prove_reads_the_proofs_a_tuple_carries() {
    let mut ctx = Context::new();
    let claim = Term::int_le(x(), lit(2));
    ctx.declare(5, Type::Tuple(vec![Type::Int, Type::Proof(Box::new(claim))]));
    let goal = Term::int_le(x(), lit(2));
    assert!(prove(&ctx, None, &goal, &Budget::default()).is_ok());
}

#[test]
fn prove_a_contradiction_in_the_facts_proves_anything_linear() {
    let mut ctx = Context::new();
    ctx.suppose(10, Term::int_le(lit(1), lit(0)));
    let goal = Term::int_le(x(), lit(-100));
    assert!(prove(&ctx, Some(prelude()), &goal, &Budget::default()).is_ok());
}

#[test]
fn read_form_reads_linear_arithmetic() {
    let mut atoms = Atoms::new();
    let sum = binary(Prim::IntAdd, x(), lit(1));
    let term = binary(Prim::IntSub, binary(Prim::IntMul, lit(2), sum), x());
    let form = read_form(&mut atoms, &term);
    assert_eq!(atoms.len(), 1);
    assert!(form.constant.equals(&number(2)));
    assert!(form.coefficient(0).equals(&number(1)));
    let product = binary(Prim::IntMul, x(), y());
    let form = read_form(&mut atoms, &product);
    assert_eq!(atoms.len(), 3);
    assert!(form.coefficient(1).is_zero());
    assert!(form.coefficient(2).equals(&number(1)));
    assert!(form.constant.is_zero());
}

#[test]
fn gcd_of_two_integers() {
    assert!(gcd(&number(12), &number(-18)).equals(&number(6)));
    assert!(gcd(&number(0), &number(5)).equals(&number(5)));
    assert!(gcd(&number(0), &number(0)).is_zero());
}

#[test]
fn rational_floor_and_ceiling() {
    let half = Rational::new(number(-7), number(2));
    assert!(half.floor().equals(&number(-4)));
    assert!(half.ceiling().equals(&number(-3)));
    let whole = Rational::new(number(6), number(-3));
    assert!(whole.floor().equals(&number(-2)));
    assert!(whole.ceiling().equals(&number(-2)));
    assert!(half.less_than(&whole));
    assert!(!whole.less_than(&half));
    assert!(Rational::new(number(1), number(3)).less_than(&Rational::new(number(1), number(2))));
}

#[test]
fn machine_bounds() {
    let (low, high) = MachineInt::I8.bounds();
    assert!(low.equals(&number(-128)));
    assert!(high.equals(&number(127)));
    let (low, high) = MachineInt::U16.bounds();
    assert!(low.is_zero());
    assert!(high.equals(&number(65535)));
    let (_, high) = MachineInt::U128.bounds();
    assert_eq!(high.bit_length(), 128);
}

#[test]
fn terms_read_as_text() {
    let term = Term::int_le(binary(Prim::IntAdd, x(), lit(-3)), y());
    assert_eq!(term.text(), "int_le(int_add(v0, -3), v1)");
    let view = unary(Prim::View(MachineInt::U8), x());
    assert_eq!(view.text(), "view_u8(v0)");
    let implication = Term::Implies(Box::new(Term::EqInt(Box::new(x()), Box::new(lit(1)))), Box::new(Term::PropApp(7, vec![])));
    assert_eq!(implication.text(), "(v0 ==[Int] 1 => P7())");
    let projection = Term::Proj(Box::new(Term::Apply(3, vec![x(), y()])), 1);
    assert_eq!(projection.text(), "fn_3(v0, v1).1");
}

#[test]
fn giving_up_on_a_nonlinear_goal_reads_as_text() {
    let ctx = Context::new();
    let gave_up = match prove(&ctx, None, &Term::Var(4), &Budget::default()) {
        Err(gave_up) => gave_up,
        Ok(_) => panic!("a variable is no comparison"),
    };
    assert!(matches!(gave_up.reason, Reason::NotLinear(_)));
    assert_eq!(gave_up.reason.text(), "the goal v4 is not a linear comparison");
    assert!(gave_up.text().starts_with("the arithmetic procedure gave up: the goal v4 is not a linear comparison"));
}

#[test]
fn reasons_and_counterexamples_read_as_text() {
    assert_eq!(
        Reason::Budget { name: "pairs", limit: 12 }.text(),
        "the budget `pairs` of 12 ran out"
    );
    assert_eq!(Reason::NoPrelude.text(), "the goal needs the prelude's False");
    assert_eq!(Counterexample::NoneInBox.text(), "\nno counterexample within -8..8");
    assert_eq!(Counterexample::NotSought.text(), "");
    assert_eq!(
        Counterexample::Found(vec![]).text(),
        "\na counterexample: the goal is false as it stands, with no atoms"
    );
    assert_eq!(
        Counterexample::Found(vec![(x(), number(3)), (y(), number(-1))]).text(),
        "\na counterexample: v0 = 3, v1 = -1"
    );
}

#[test]
fn a_consistent_goal_reports_its_constraints_and_a_counterexample() {
    let ctx = Context::new();
    let goal = Term::int_le(x(), lit(2));
    let gave_up = match prove(&ctx, None, &goal, &Budget::default()) {
        Err(gave_up) => gave_up,
        Ok(_) => panic!("x <= 2 does not follow from nothing"),
    };
    let text = gave_up.text();
    assert!(text.starts_with("the arithmetic procedure gave up: "), "{text}");
    assert!(text.contains("a counterexample") || text.contains("no counterexample"), "{text}");
}

#[test]
fn prove_zero_at_most_one_with_its_certificate() {
    let ctx = Context::new();
    let goal = Term::int_le(lit(0), lit(1));
    match prove(&ctx, None, &goal, &Budget::default()) {
        Ok(Proof::Linear { goal: proved, goal_coefficient, pairs }) => {
            assert_eq!(proved.text(), goal.text());
            assert!(goal_coefficient.equals(&number(1)));
            assert!(pairs.is_empty());
        },
        Ok(_) => panic!("a certificate of the linear rule is expected"),
        Err(_) => panic!("0 <= 1 is provable"),
    }
}

#[test]
fn prove_one_at_most_zero_is_consistent_with_an_empty_counterexample() {
    let ctx = Context::new();
    let goal = Term::int_le(lit(1), lit(0));
    match prove(&ctx, None, &goal, &Budget::default()) {
        Err(gave_up) => {
            assert!(matches!(gave_up.reason, Reason::Consistent));
            assert!(gave_up.constraints.is_empty());
            assert!(matches!(gave_up.counterexample, Counterexample::Found(ref found) if found.is_empty()));
        },
        Ok(_) => panic!("1 <= 0 is false"),
    }
}

#[test]
fn prove_names_a_goal_that_is_not_linear() {
    let ctx = Context::new();
    let goal = Term::Var(9);
    match prove(&ctx, None, &goal, &Budget::default()) {
        Err(gave_up) => {
            match gave_up.reason {
                Reason::NotLinear(ref term) => assert_eq!(term.text(), goal.text()),
                _ => panic!("the reason names the goal"),
            }
            assert!(gave_up.constraints.is_empty());
            assert!(matches!(gave_up.counterexample, Counterexample::NotSought));
        },
        Ok(_) => panic!("a variable is no comparison"),
    }
}

#[test]
fn rational_new_reduces_to_lowest_terms() {
    let reduced = Rational::new(number(6), number(-4));
    assert!(reduced.as_integer().is_none());
    assert!(reduced.floor().equals(&number(-2)));
    assert!(reduced.ceiling().equals(&number(-1)));
    assert!(!reduced.less_than(&Rational::new(number(-3), number(2))));
    assert!(!Rational::new(number(-3), number(2)).less_than(&reduced));
    let zero = Rational::new(number(0), number(5));
    assert!(zero.as_integer().map_or(false, |value| value.is_zero()));
}

#[test]
fn read_form_registers_the_factors_before_their_product() {
    let mut atoms = Atoms::new();
    let product = binary(Prim::IntMul, x(), y());
    let form = read_form(&mut atoms, &product);
    assert_eq!(atoms.len(), 3);
    assert_eq!(atoms.term(0).text(), x().text());
    assert_eq!(atoms.term(1).text(), y().text());
    assert_eq!(atoms.term(2).text(), product.text());
    assert!(form.coefficient(2).equals(&number(1)));
}

#[test]
fn point_splits_an_atom_whose_bounds_hold_no_integer() {
    let at_least_half = Row {
        form: Form { constant: number(-1), coefficients: vec![number(2)] },
        kind: Kind::Inequality,
        multipliers: vec![number(1), number(0)],
    };
    let at_most_half = Row {
        form: Form { constant: number(1), coefficients: vec![number(-2)] },
        kind: Kind::Inequality,
        multipliers: vec![number(0), number(1)],
    };
    let stages = vec![Stage { atom: 0, rows: vec![at_least_half, at_most_half] }];
    match point(&stages, 1) {
        Err((atom, floor)) => {
            assert_eq!(atom, 0);
            assert!(floor.is_zero());
        },
        Ok(_) => panic!("1/2 <= x <= 1/2 holds no integer"),
    }
}

fn row(constant: i64, coefficients: &[i64], kind: Kind) -> Row {
    let mut values = Vec::new();
    for value in coefficients {
        values.push(number(*value));
    }
    Row { form: Form { constant: number(constant), coefficients: values }, kind, multipliers: vec![number(1)] }
}

#[test]
fn point_gives_the_least_integer_over_the_lower_bounds() {
    // 2x - 3 >= 0 and 4x - 5 >= 0 and -x + 5 >= 0: 3/2 <= x <= 5, so x = 2.
    let stages = vec![Stage {
        atom: 0,
        rows: vec![
            row(-3, &[2], Kind::Inequality),
            row(-5, &[4], Kind::Inequality),
            row(5, &[-1], Kind::Inequality),
        ],
    }];
    match point(&stages, 1) {
        Ok(values) => {
            assert_eq!(values.len(), 1);
            assert!(values[0].equals(&number(2)));
        },
        Err(_) => panic!("3/2 <= x <= 5 holds an integer"),
    }
}

#[test]
fn point_gives_the_greatest_integer_under_the_upper_bounds_alone() {
    // -2x + 7 >= 0: x <= 7/2, so x = 3; an atom no row bounds gets 0.
    let stages = vec![Stage { atom: 1, rows: vec![row(7, &[0, -2], Kind::Inequality)] }];
    match point(&stages, 2) {
        Ok(values) => {
            assert_eq!(values.len(), 2);
            assert!(values[0].is_zero());
            assert!(values[1].equals(&number(3)));
        },
        Err(_) => panic!("x <= 7/2 holds an integer"),
    }
}

#[test]
fn point_substitutes_the_later_atoms_first() {
    // y was eliminated last: y - 2 >= 0 gives y = 2. Then x + y - 5 == 0
    // gives x = 3.
    let stages = vec![
        Stage { atom: 0, rows: vec![row(-5, &[1, 1], Kind::Equation), row(-2, &[0, 1], Kind::Inequality)] },
        Stage { atom: 1, rows: vec![row(-2, &[0, 1], Kind::Inequality)] },
    ];
    match point(&stages, 2) {
        Ok(values) => {
            assert!(values[0].equals(&number(3)));
            assert!(values[1].equals(&number(2)));
        },
        Err(_) => panic!("the rows hold an integral point"),
    }
}

#[test]
fn point_splits_at_the_floor_of_the_greatest_lower_bound() {
    // 3x - 4 >= 0 and 2x - 3 >= 0 and -3x + 5 >= 0: 3/2 <= x <= 5/3, so the
    // split is at floor(3/2) = 1.
    let stages = vec![Stage {
        atom: 0,
        rows: vec![
            row(-4, &[3], Kind::Inequality),
            row(-3, &[2], Kind::Inequality),
            row(5, &[-3], Kind::Inequality),
        ],
    }];
    match point(&stages, 1) {
        Err((atom, floor)) => {
            assert_eq!(atom, 0);
            assert!(floor.equals(&number(1)));
        },
        Ok(_) => panic!("3/2 <= x <= 5/3 holds no integer"),
    }
}

#[test]
fn prove_a_true_comparison_of_literal_arithmetic_in_an_empty_context() {
    let ctx = Context::new();
    let product = binary(Prim::IntMul, lit(2), lit(3));
    let sum = binary(Prim::IntAdd, lit(4), unary(Prim::IntNeg, lit(-3)));
    let goal = Term::int_le(product, sum);
    match prove(&ctx, None, &goal, &Budget::default()) {
        Ok(Proof::Linear { goal_coefficient, pairs, .. }) => {
            assert!(!goal_coefficient.is_zero());
            assert!(pairs.is_empty());
        },
        Ok(_) => panic!("a certificate of the linear rule is expected"),
        Err(_) => panic!("2 * 3 <= 4 - -3 is provable"),
    }
}

#[test]
fn prove_a_true_equation_of_literal_arithmetic_in_an_empty_context() {
    let ctx = Context::new();
    let sum = binary(Prim::IntAdd, lit(2), lit(2));
    let goal = Term::EqInt(Box::new(sum), Box::new(lit(4)));
    assert!(prove(&ctx, None, &goal, &Budget::default()).is_ok());
}
