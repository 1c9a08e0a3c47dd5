use witgen::affine_expression::AffineExpression;
use witgen::bit_constraints::BitConstraint;
use witgen::eval_error::EvalError;
use witgen::expression::{
    BinaryOperator, Expression, Identity, IdentityKind, PolynomialReference, SelectedExpressions,
};
use witgen::field::FieldElement;
use witgen::fixed_data::{FixedColumn, FixedData, WitnessColumn};
use witgen::generator::Generator;
use witgen::query::query_answer;
use witgen::window::EvaluationRow;
use witgen::machines::FixedLookup;
use witgen::Constraint;

type NoCallback = fn(&str) -> Option<FieldElement>;

fn fe(value: u64) -> FieldElement {
    FieldElement::new(value)
}

fn number(value: u64) -> Expression {
    Expression::Number(fe(value))
}

fn column(name: &str) -> Expression {
    Expression::PolynomialReference(PolynomialReference { name: name.to_string(), next: false })
}

fn next_of(name: &str) -> Expression {
    Expression::PolynomialReference(PolynomialReference { name: name.to_string(), next: true })
}

fn op(left: Expression, op: BinaryOperator, right: Expression) -> Expression {
    Expression::BinaryOperation(Box::new(left), op, Box::new(right))
}

fn minus(left: Expression, right: Expression) -> Expression {
    op(left, BinaryOperator::Sub, right)
}

fn times(left: Expression, right: Expression) -> Expression {
    op(left, BinaryOperator::Mul, right)
}

fn text(value: &str) -> Expression {
    Expression::String(value.to_string())
}

fn holds(expression: Expression) -> Identity {
    Identity {
        kind: IdentityKind::Polynomial,
        left: SelectedExpressions { selector: Some(expression), expressions: vec![] },
        right: SelectedExpressions { selector: None, expressions: vec![] },
    }
}

fn circuit(degree: u64, fixed: Vec<(&str, Vec<u64>)>, witnesses: Vec<&str>) -> FixedData {
    let fixed_cols = fixed
        .into_iter()
        .map(|(name, values)| FixedColumn {
            name: name.to_string(),
            values: values.into_iter().map(fe).collect(),
        })
        .collect();
    let witness_cols = witnesses
        .into_iter()
        .enumerate()
        .map(|(id, name)| WitnessColumn { id, name: name.to_string(), query: None })
        .collect();
    FixedData::new(degree, vec![("N".to_string(), fe(degree))], fixed_cols, witness_cols).unwrap()
}

fn assign(id: usize, value: u64) -> (usize, Constraint) {
    (id, Constraint::Assignment(fe(value)))
}

fn value_of(result: Result<AffineExpression, EvalError>) -> Option<FieldElement> {
    result.unwrap().constant_value()
}

#[test]
fn a_new_generator_knows_nothing() {
    let data = circuit(4, vec![], vec!["a", "b"]);
    let identities: Vec<&Identity> = vec![];
    let mut lookup = FixedLookup::new();
    let generator =
        Generator::new(&data, &mut lookup, &identities, vec![], vec![], None::<NoCallback>);
    assert_eq!(generator.row(), 0);
    assert_eq!(generator.reported_row(), 0);
    assert_eq!(generator.current_values(), vec![None, None]);
    assert_eq!(generator.reasons(), Vec::<String>::new());
    assert_eq!(generator.format_next_values(), vec!["a = <unknown>", "b = <unknown>"]);
}

#[test]
fn references_are_resolved_by_the_row_of_evaluation() {
    let data = circuit(4, vec![("F", vec![10, 20, 30, 40])], vec!["w", "v"]);
    let identity = holds(minus(column("w"), number(5)));
    let identities = vec![&identity];
    let mut lookup = FixedLookup::new();
    let mut generator =
        Generator::new(&data, &mut lookup, &identities, vec![], vec![], None::<NoCallback>);

    // Before the first row nothing is known of the current row.
    let error = generator.evaluate(&column("w"), EvaluationRow::Current).unwrap_err();
    assert!(matches!(&error, EvalError::PreviousValueUnknown(name) if name == "w"));
    assert_eq!(
        error.to_string(),
        "Previous value of the following column is not (yet) known: w."
    );

    assert_eq!(generator.compute_next_row(0).unwrap(), vec![fe(5), fe(0)]);
    assert_eq!(generator.current_values(), vec![Some(fe(5)), None]);
    generator.handle_eval_result(Ok(vec![assign(1, 8)]));

    // on the current row: w is the value of the row before, w' that of the next row
    assert_eq!(value_of(generator.evaluate(&column("w"), EvaluationRow::Current)), Some(fe(5)));
    let unknown = generator.evaluate(&next_of("w"), EvaluationRow::Current).unwrap();
    assert_eq!(unknown.constant_value(), None);
    assert_eq!(unknown.format(&data), "w");
    assert_eq!(value_of(generator.evaluate(&next_of("v"), EvaluationRow::Current)), Some(fe(8)));
    // on the next row: w is the unknown of the next row, w' is an error
    let unknown = generator.evaluate(&column("w"), EvaluationRow::Next).unwrap();
    assert_eq!(unknown.format(&data), "w");
    assert_eq!(value_of(generator.evaluate(&column("v"), EvaluationRow::Next)), Some(fe(8)));
    let error = generator.evaluate(&next_of("w"), EvaluationRow::Next).unwrap_err();
    assert!(matches!(error, EvalError::Generic(_)));

    // fixed columns: the row before the first row is the last one
    assert_eq!(value_of(generator.evaluate(&column("F"), EvaluationRow::Next)), Some(fe(10)));
    assert_eq!(value_of(generator.evaluate(&next_of("F"), EvaluationRow::Next)), Some(fe(20)));
    assert_eq!(value_of(generator.evaluate(&column("F"), EvaluationRow::Current)), Some(fe(40)));
    assert_eq!(value_of(generator.evaluate(&next_of("F"), EvaluationRow::Current)), Some(fe(10)));

    // constants and unknown names
    let constant = Expression::Constant("N".to_string());
    assert_eq!(value_of(generator.evaluate(&constant, EvaluationRow::Next)), Some(fe(4)));
    let error = generator
        .evaluate(&Expression::Constant("M".to_string()), EvaluationRow::Next)
        .unwrap_err();
    assert_eq!(error.to_string(), "Unknown constant: M");
    let error = generator.evaluate(&column("nowhere"), EvaluationRow::Next).unwrap_err();
    assert_eq!(error.to_string(), "Unknown column: nowhere");
}

#[test]
fn arithmetic_goes_through_the_affine_algebra() {
    let data = circuit(4, vec![], vec!["w", "v"]);
    let identities: Vec<&Identity> = vec![];
    let mut lookup = FixedLookup::new();
    let generator =
        Generator::new(&data, &mut lookup, &identities, vec![], vec![], None::<NoCallback>);
    let evaluate = |e: &Expression| generator.evaluate(e, EvaluationRow::Next);

    let e = op(times(number(2), column("w")), BinaryOperator::Add, number(3));
    assert_eq!(evaluate(&e).unwrap().format(&data), "2 * w + 3");
    let e = minus(column("w"), column("w"));
    assert_eq!(value_of(evaluate(&e)), Some(fe(0)));
    let e = op(number(6), BinaryOperator::Div, number(3));
    assert_eq!(value_of(evaluate(&e)), Some(fe(2)));
    let e = op(times(column("w"), number(6)), BinaryOperator::Div, number(3));
    assert_eq!(evaluate(&e).unwrap().format(&data), "2 * w");
    let e = Expression::UnaryOperation(
        witgen::expression::UnaryOperator::Minus,
        Box::new(number(1)),
    );
    assert_eq!(value_of(evaluate(&e)), Some(fe(18446744069414584320)));

    let e = times(column("w"), column("v"));
    assert_eq!(evaluate(&e).unwrap_err().to_string(), "Multiplication of two non-constants.");
    let e = op(number(1), BinaryOperator::Div, number(0));
    assert_eq!(evaluate(&e).unwrap_err().to_string(), "Division by a number without inverse.");
    let e = op(number(1), BinaryOperator::Div, column("w"));
    assert_eq!(evaluate(&e).unwrap_err().to_string(), "Division by a non-constant.");
    // zero times what cannot be evaluated is zero
    let e = times(number(0), next_of("w"));
    assert_eq!(value_of(evaluate(&e)), Some(fe(0)));
    let e = times(times(column("w"), column("v")), minus(number(1), number(1)));
    assert_eq!(value_of(evaluate(&e)), Some(fe(0)));
    // the error of the left side comes first
    let e = op(next_of("w"), BinaryOperator::Add, column("nowhere"));
    assert!(evaluate(&e).unwrap_err().to_string().starts_with("w' references"));

    for (e, message) in [
        (Expression::Tuple(vec![]), "Tuple not implemented."),
        (text("s"), "String not implemented."),
        (Expression::LocalVariableReference(0), "Local variable references not implemented."),
        (Expression::PublicReference("p".to_string()), "Public references not implemented."),
        (Expression::FunctionCall("f".to_string(), vec![]), "Function calls not implemented."),
        (
            Expression::MatchExpression(Box::new(number(1)), vec![]),
            "Match expressions not implemented.",
        ),
    ] {
        assert_eq!(evaluate(&e).unwrap_err().to_string(), message);
    }
}

#[test]
fn polynomial_identities_are_solved_or_say_why_not() {
    let data = circuit(4, vec![], vec!["w", "v"]);
    let identities: Vec<&Identity> = vec![];
    let mut lookup = FixedLookup::new();
    let generator =
        Generator::new(&data, &mut lookup, &identities, vec![], vec![], None::<NoCallback>);

    let solved = generator.process_polynomial_identity(&minus(column("w"), number(5))).unwrap();
    assert_eq!(solved, vec![assign(0, 5)]);
    // an identity with a next reference is evaluated on the current row
    let solved = generator.process_polynomial_identity(&minus(next_of("v"), number(7))).unwrap();
    assert_eq!(solved, vec![assign(1, 7)]);
    let error = generator
        .process_polynomial_identity(&minus(next_of("v"), column("w")))
        .unwrap_err();
    assert!(matches!(error, EvalError::PreviousValueUnknown(_)));
    // zero holds
    let solved = generator.process_polynomial_identity(&minus(number(2), number(2))).unwrap();
    assert_eq!(solved, vec![]);
    // two unknowns: nothing is concluded
    let solved = generator.process_polynomial_identity(&minus(column("w"), column("v"))).unwrap();
    assert_eq!(solved, vec![]);
    // a constant other than zero
    let error = generator.process_polynomial_identity(&minus(number(2), number(3))).unwrap_err();
    assert!(matches!(error, EvalError::ConstraintUnsatisfiable(_)));
    assert_eq!(
        error.to_string(),
        "Linear constraint is not satisfiable: Constraint is invalid (18446744069414584320 != 0)."
    );
}

#[test]
fn queries_read_as_the_callback_expects_them() {
    let data = circuit(8, vec![], vec!["w"]);
    let identities: Vec<&Identity> = vec![];
    let mut lookup = FixedLookup::new();
    let mut generator =
        Generator::new(&data, &mut lookup, &identities, vec![], vec![], None::<NoCallback>);
    generator.compute_next_row(0).unwrap();
    generator.compute_next_row(1).unwrap();
    generator.compute_next_row(2).unwrap();

    let query = Expression::Tuple(vec![text("in"), Expression::LocalVariableReference(0)]);
    assert_eq!(generator.interpolate_query(&query).unwrap(), "\"in\", 2");
    assert_eq!(generator.interpolate_query(&number(7)).unwrap(), "7");
    assert_eq!(generator.interpolate_query(&minus(number(7), number(2))).unwrap(), "5");
    assert_eq!(generator.interpolate_query(&Expression::Tuple(vec![])).unwrap(), "");
    assert_eq!(generator.interpolate_query(&text("a\"b\\c")).unwrap(), "\"a\\\"b\\\\c\"");
    let nested = Expression::Tuple(vec![
        text("x"),
        Expression::Tuple(vec![number(1), number(2)]),
        Expression::Constant("N".to_string()),
    ]);
    assert_eq!(generator.interpolate_query(&nested).unwrap(), "\"x\", 1, 2, 8");

    let arms = || vec![(Some(fe(0)), text("zero")), (Some(fe(1)), number(5)), (None, text("other"))];
    let choose = |scrutinee: Expression| Expression::MatchExpression(Box::new(scrutinee), arms());
    assert_eq!(generator.interpolate_query(&choose(number(0))).unwrap(), "\"zero\"");
    assert_eq!(generator.interpolate_query(&choose(number(1))).unwrap(), "5");
    assert_eq!(generator.interpolate_query(&choose(number(9))).unwrap(), "\"other\"");

    assert_eq!(
        generator.interpolate_query(&Expression::LocalVariableReference(1)).unwrap_err(),
        "Cannot handle / evaluate $1"
    );
    assert_eq!(
        generator
            .interpolate_query(&Expression::FunctionCall("f".to_string(), vec![]))
            .unwrap_err(),
        "Cannot handle / evaluate f()"
    );
    assert_eq!(
        generator.interpolate_query(&column("w")).unwrap_err(),
        "Cannot handle / evaluate w"
    );
    let no_arm = Expression::MatchExpression(Box::new(number(1)), vec![(Some(fe(0)), text("z"))]);
    assert_eq!(
        generator.interpolate_query(&no_arm).unwrap_err(),
        "Cannot handle / evaluate match 1 { 0 => \"z\", }: Match arm not found for value 1"
    );
    let unknown = Expression::MatchExpression(Box::new(column("w")), vec![(None, text("z"))]);
    assert_eq!(
        generator.interpolate_query(&unknown).unwrap_err(),
        "Cannot handle / evaluate match w { _ => \"z\", }: Match scrutinee not constant"
    );
    let broken = Expression::Tuple(vec![text("a"), Expression::LocalVariableReference(3)]);
    assert_eq!(
        generator.interpolate_query(&broken).unwrap_err(),
        "Cannot handle / evaluate $3"
    );
}

#[test]
fn the_callback_is_asked_with_the_text_of_the_query() {
    let query = Expression::Tuple(vec![text("input"), Expression::LocalVariableReference(0)]);
    let witness_cols = vec![
        WitnessColumn { id: 0, name: "w".to_string(), query: Some(query) },
        WitnessColumn { id: 1, name: "broken".to_string(), query: Some(column("w")) },
        WitnessColumn { id: 2, name: "silent".to_string(), query: None },
    ];
    let data = FixedData::new(4, vec![], vec![], witness_cols).unwrap();
    let identities: Vec<&Identity> = vec![];
    let mut lookup = FixedLookup::new();
    let mut asked = vec![];
    let callback = |query: &str| {
        asked.push(query.to_string());
        if query == "\"input\", 0" {
            Some(fe(3))
        } else {
            None
        }
    };
    let mut generator =
        Generator::new(&data, &mut lookup, &identities, vec![], vec![], Some(callback));
    let answer = generator.process_witness_query(&data.witness_cols[0]).unwrap();
    assert_eq!(answer, vec![assign(0, 3)]);
    let error = generator.process_witness_query(&data.witness_cols[1]).unwrap_err();
    assert_eq!(error.to_string(), "Cannot handle / evaluate w");
    let error = generator.process_witness_query(&data.witness_cols[2]).unwrap_err();
    assert_eq!(error.to_string(), "The column has no query.");
    // The row takes the answer. Once w is known, the query of the second
    // column reads as the value of w; it is asked in both passes of the row.
    assert_eq!(generator.compute_next_row(0).unwrap(), vec![fe(3), fe(0), fe(0)]);
    // No answer is no error, and a query that cannot be made is no failure of the row.
    assert_eq!(generator.compute_next_row(1).unwrap(), vec![fe(0), fe(0), fe(0)]);
    drop(generator);
    assert_eq!(asked, vec!["\"input\", 0", "\"input\", 0", "3", "3", "\"input\", 1"]);
}

#[test]
fn an_answer_is_the_value_of_the_witness() {
    assert_eq!(query_answer(2, Some(fe(7))), vec![assign(2, 7)]);
    assert_eq!(query_answer(2, None), vec![]);
}

#[test]
fn a_value_is_written_once_per_row() {
    let data = circuit(4, vec![], vec!["a", "b", "c"]);
    let identities: Vec<&Identity> = vec![];
    let mut lookup = FixedLookup::new();
    let mut generator =
        Generator::new(&data, &mut lookup, &identities, vec![], vec![], None::<NoCallback>);
    generator.handle_eval_result(Ok(vec![assign(1, 3), assign(1, 4)]));
    generator.handle_eval_result(Ok(vec![
        assign(1, 5),
        (0, Constraint::BitConstraint(BitConstraint::from_mask(0xff))),
        assign(2, 0),
    ]));
    generator.handle_eval_result(Err(EvalError::generic("no luck")));
    assert_eq!(generator.reasons(), vec!["no luck"]);
    assert_eq!(value_of(generator.evaluate(&column("b"), EvaluationRow::Next)), Some(fe(3)));
    // known values other than zero first, then zeros, then what is not known
    assert_eq!(generator.format_next_values(), vec!["b = 3", "c = 0", "a = <unknown>"]);
    let report = generator.failure_report();
    assert!(report.starts_with(
        "\nError: Row 0: Identity check failed or unable to derive values for witness polynomials: a\n"
    ));
    assert!(report.contains("Reasons:\nno luck\n"));
    assert!(report.contains("Known bit constraints:\nGlobal:\nFor this row:\n  a: 0xff\n"));
    assert!(report.contains(
        "Current values (known nonzero first, then zero, then unknown):\n    b = 3\n    c = 0\n    a = <unknown>\n"
    ));
    assert!(report.ends_with("Witness generation failed."));
}

#[test]
fn a_proposed_row_is_taken_or_left_as_a_whole() {
    let data = circuit(4, vec![], vec!["w"]);
    let identity = holds(minus(column("w"), number(5)));
    let identities = vec![&identity];
    let mut lookup = FixedLookup::new();
    let mut generator =
        Generator::new(&data, &mut lookup, &identities, vec![], vec![], None::<NoCallback>);
    assert!(generator.propose_next_row(0, &[fe(5)]));
    assert_eq!(generator.current_values(), vec![Some(fe(5))]);
    assert_eq!(generator.row(), 0);
    assert!(!generator.propose_next_row(1, &[fe(6)]));
    assert_eq!(generator.current_values(), vec![Some(fe(5))]);
    assert_eq!(generator.row(), 1);
    assert_eq!(generator.format_next_values(), vec!["w = <unknown>"]);
    assert_eq!(generator.compute_next_row(1).unwrap(), vec![fe(5)]);
}

fn counter() -> (FixedData, Vec<Identity>) {
    let data = circuit(8, vec![("ISLAST", vec![0, 0, 0, 0, 0, 0, 0, 1])], vec!["c", "d"]);
    let identities = vec![
        // c' = (1 - ISLAST) * (c + 1)
        holds(minus(
            next_of("c"),
            times(
                minus(number(1), column("ISLAST")),
                op(column("c"), BinaryOperator::Add, number(1)),
            ),
        )),
        // d = 2 * c
        holds(minus(column("d"), times(number(2), column("c")))),
    ];
    (data, identities)
}

#[test]
fn a_proposed_row_is_as_good_as_a_computed_one() {
    let (data, identities) = counter();
    let references: Vec<&Identity> = identities.iter().collect();
    let mut first_lookup = FixedLookup::new();
    let mut computed =
        Generator::new(&data, &mut first_lookup, &references, vec![], vec![], None::<NoCallback>);
    let rows: Vec<Vec<FieldElement>> =
        (0..8).map(|row| computed.compute_next_row(row).unwrap()).collect();
    assert_eq!(rows[5], vec![fe(5), fe(10)]);

    let mut second_lookup = FixedLookup::new();
    let mut proposed =
        Generator::new(&data, &mut second_lookup, &references, vec![], vec![], None::<NoCallback>);
    for row in 0..4 {
        assert_eq!(proposed.compute_next_row(row).unwrap(), rows[row as usize]);
    }
    assert!(!proposed.propose_next_row(4, &[fe(4), fe(9)]));
    assert!(proposed.propose_next_row(4, &rows[4]));
    for row in 5..8 {
        assert_eq!(proposed.compute_next_row(row).unwrap(), rows[row as usize]);
    }
}

#[test]
fn the_same_inputs_give_the_same_trace() {
    let (data, identities) = counter();
    let references: Vec<&Identity> = identities.iter().collect();
    let run = || {
        let mut lookup = FixedLookup::new();
        let mut generator =
            Generator::new(&data, &mut lookup, &references, vec![], vec![], None::<NoCallback>);
        (0..8).map(|row| generator.compute_next_row(row).unwrap()).collect::<Vec<_>>()
    };
    let first = run();
    assert_eq!(first, run());
    let c: Vec<FieldElement> = first.iter().map(|row| row[0]).collect();
    assert_eq!(c, (0..8).map(fe).collect::<Vec<_>>());
}

#[test]
fn every_identity_holds_on_the_committed_rows() {
    let (data, identities) = counter();
    let references: Vec<&Identity> = identities.iter().collect();
    let mut lookup = FixedLookup::new();
    let mut generator =
        Generator::new(&data, &mut lookup, &references, vec![], vec![], None::<NoCallback>);
    let rows: Vec<Vec<FieldElement>> =
        (0..8).map(|row| generator.compute_next_row(row).unwrap()).collect();
    // The rows are checked against the identities, the last row before the first included.
    let mut second_lookup = FixedLookup::new();
    let mut replay =
        Generator::new(&data, &mut second_lookup, &references, vec![], vec![], None::<NoCallback>);
    for row in 0..8 {
        assert!(replay.propose_next_row(row, &rows[row as usize]));
    }
    assert!(replay.propose_next_row(0, &rows[0]));
    // A row that is not the one computed does not pass.
    assert!(!replay.propose_next_row(1, &rows[2]));
}

#[test]
fn bytes_are_read_off_a_known_sum() {
    let data = circuit(4, vec![], vec!["x", "lo", "hi"]);
    let identities = vec![
        holds(minus(column("x"), number(0x1234))),
        // x = lo + 256 * hi
        holds(minus(
            column("x"),
            op(column("lo"), BinaryOperator::Add, times(number(256), column("hi"))),
        )),
    ];
    let references: Vec<&Identity> = identities.iter().collect();
    let global = vec![
        ("lo".to_string(), BitConstraint::from_mask(0xff)),
        ("hi".to_string(), BitConstraint::from_mask(0xff)),
    ];
    let mut lookup = FixedLookup::new();
    let mut generator =
        Generator::new(&data, &mut lookup, &references, global, vec![], None::<NoCallback>);
    for row in 0..4 {
        assert_eq!(generator.compute_next_row(row).unwrap(), vec![fe(0x1234), fe(0x34), fe(0x12)]);
    }
}

#[test]
fn a_constraint_on_every_row_comes_before_that_of_the_row() {
    let data = circuit(4, vec![], vec!["x", "lo", "hi"]);
    // x = lo + 16 * hi, with x = 0x12
    let identities = vec![
        holds(minus(column("x"), number(0x12))),
        holds(minus(
            column("x"),
            op(column("lo"), BinaryOperator::Add, times(number(16), column("hi"))),
        )),
    ];
    let references: Vec<&Identity> = identities.iter().collect();
    let global = vec![("lo".to_string(), BitConstraint::from_mask(0xf))];
    let mut lookup = FixedLookup::new();
    let mut generator =
        Generator::new(&data, &mut lookup, &references, global, vec![], None::<NoCallback>);
    // For this row lo is said to have eight bits, which would overlap with hi.
    generator.handle_eval_result(Ok(vec![
        (1, Constraint::BitConstraint(BitConstraint::from_mask(0xff))),
        (2, Constraint::BitConstraint(BitConstraint::from_mask(0xf))),
    ]));
    assert_eq!(generator.compute_next_row(0).unwrap(), vec![fe(0x12), fe(2), fe(1)]);
    // On the next row nothing is known of hi, and the row stays incomplete.
    assert_eq!(generator.compute_next_row(1).unwrap(), vec![fe(0x12), fe(0), fe(0)]);
}

#[test]
fn an_identity_of_another_kind_is_not_supported() {
    let data = circuit(4, vec![], vec!["w"]);
    let connect = Identity {
        kind: IdentityKind::Connect,
        left: SelectedExpressions { selector: None, expressions: vec![column("w")] },
        right: SelectedExpressions { selector: None, expressions: vec![column("w")] },
    };
    let empty = Identity {
        kind: IdentityKind::Polynomial,
        left: SelectedExpressions { selector: None, expressions: vec![] },
        right: SelectedExpressions { selector: None, expressions: vec![] },
    };
    let identities: Vec<&Identity> = vec![];
    let mut lookup = FixedLookup::new();
    let mut generator =
        Generator::new(&data, &mut lookup, &identities, vec![], vec![], None::<NoCallback>);
    let error = generator.process_identity(&connect).unwrap_err();
    assert_eq!(error.to_string(), "Unsupported lookup type");
    let error = generator.process_identity(&empty).unwrap_err();
    assert_eq!(error.to_string(), "Polynomial identity without an expression.");
}

#[test]
fn a_report_is_due_every_thousand_rows() {
    let data = circuit(2001, vec![], vec!["w"]);
    let identity = holds(minus(column("w"), number(5)));
    let identities = vec![&identity];
    let mut lookup = FixedLookup::new();
    let mut generator =
        Generator::new(&data, &mut lookup, &identities, vec![], vec![], None::<NoCallback>);
    let mut reported = vec![];
    for row in 0..2001 {
        assert_eq!(generator.compute_next_row(row).unwrap(), vec![fe(5)]);
        assert_eq!(generator.row(), row);
        if reported.last() != Some(&generator.reported_row()) {
            reported.push(generator.reported_row());
        }
    }
    assert_eq!(reported, vec![0, 1000, 2000]);
}

#[test]
fn a_circuit_of_one_row_wraps_around_to_itself() {
    let data = circuit(1, vec![("F", vec![7])], vec!["w"]);
    // w' = F' + F: on the only row both are the same value
    let identity = holds(minus(
        next_of("w"),
        op(next_of("F"), BinaryOperator::Add, column("F")),
    ));
    let identities = vec![&identity];
    let mut lookup = FixedLookup::new();
    let mut generator =
        Generator::new(&data, &mut lookup, &identities, vec![], vec![], None::<NoCallback>);
    assert_eq!(generator.compute_next_row(0).unwrap(), vec![fe(14)]);
    assert!(generator.propose_next_row(0, &[fe(14)]));
    assert!(!generator.propose_next_row(0, &[fe(7)]));
}

#[test]
fn a_circuit_without_witnesses_has_empty_rows() {
    let data = circuit(2, vec![("F", vec![0, 0])], vec![]);
    let identity = holds(column("F"));
    let identities = vec![&identity];
    let mut lookup = FixedLookup::new();
    let mut generator =
        Generator::new(&data, &mut lookup, &identities, vec![], vec![], None::<NoCallback>);
    assert_eq!(generator.compute_next_row(0).unwrap(), vec![]);
    assert_eq!(generator.compute_next_row(1).unwrap(), vec![]);
    assert!(generator.propose_next_row(0, &[]));
    assert_eq!(generator.format_next_values(), Vec::<String>::new());
}

#[test]
fn an_identity_that_cannot_be_evaluated_stops_a_later_row() {
    let data = circuit(4, vec![], vec!["w", "v"]);
    // w * v = 4 can be met, but not be solved
    let identity = holds(minus(times(column("w"), column("v")), number(4)));
    let identities = vec![&identity];
    let mut lookup = FixedLookup::new();
    let mut generator =
        Generator::new(&data, &mut lookup, &identities, vec![], vec![], None::<NoCallback>);
    assert_eq!(generator.compute_next_row(0).unwrap(), vec![fe(0), fe(0)]);
    let failure = generator.compute_next_row(1).unwrap_err();
    assert_eq!(failure.row, 1);
    assert!(failure.report.contains("Multiplication of two non-constants."));
    assert!(failure
        .report
        .contains("unable to derive values for witness polynomials: w, v\n"));
}

#[test]
fn the_report_lists_the_global_constraints_by_name() {
    let data = circuit(4, vec![], vec!["w"]);
    let identities: Vec<&Identity> = vec![];
    let global = vec![
        ("b".to_string(), BitConstraint::from_mask(0xf)),
        ("ab".to_string(), BitConstraint::from_mask(0x3)),
        ("a".to_string(), BitConstraint::from_mask(0x1)),
        ("B".to_string(), BitConstraint::from_mask(0x7)),
    ];
    let mut lookup = FixedLookup::new();
    let generator =
        Generator::new(&data, &mut lookup, &identities, global, vec![], None::<NoCallback>);
    let report = generator.failure_report();
    assert!(report.contains(
        "Known bit constraints:\nGlobal:\n  B: 0x7\n  a: 0x1\n  ab: 0x3\n  b: 0xf\nFor this row:\n"
    ));
}

#[test]
fn constraints_are_sorted_by_name() {
    let c = BitConstraint::from_mask;
    let given = vec![
        ("z".to_string(), c(1)),
        ("".to_string(), c(2)),
        ("m".to_string(), c(3)),
        ("z".to_string(), c(4)),
        ("ma".to_string(), c(5)),
    ];
    assert_eq!(
        witgen::report::sort_by_name(&given),
        vec![
            ("".to_string(), c(2)),
            ("m".to_string(), c(3)),
            ("ma".to_string(), c(5)),
            ("z".to_string(), c(1)),
        ]
    );
    assert_eq!(witgen::report::sort_by_name(&vec![]), vec![]);
    for (a, b) in [("", "a"), ("a", "b"), ("a", "ab"), ("B", "a"), ("a", "é"), ("ab", "b")] {
        assert!(witgen::text::precedes(a, b));
        assert!(!witgen::text::precedes(b, a));
        assert_eq!(a < b, witgen::text::precedes(a, b));
    }
    assert!(!witgen::text::precedes("a", "a"));
    assert!(!witgen::text::precedes("", ""));
}

#[test]
fn the_row_completed_last_is_reported_like_the_next_row() {
    let data = circuit(4, vec![], vec!["a", "b", "c"]);
    let identities: Vec<&Identity> = vec![];
    let mut lookup = FixedLookup::new();
    let mut generator =
        Generator::new(&data, &mut lookup, &identities, vec![], vec![], None::<NoCallback>);
    generator.handle_eval_result(Ok(vec![assign(1, 0), assign(2, 7)]));
    let before = generator.format_next_values();
    assert_eq!(before, vec!["c = 7", "b = 0", "a = <unknown>"]);
    generator.compute_next_row(0).unwrap();
    assert_eq!(generator.format_current_values(), before);
}

#[test]
fn a_refused_proposal_changes_nothing_else() {
    let data = circuit(4, vec![], vec!["w"]);
    let identity = holds(minus(column("w"), number(5)));
    let identities = vec![&identity];
    let mut lookup = FixedLookup::new();
    let mut generator =
        Generator::new(&data, &mut lookup, &identities, vec![], vec![], None::<NoCallback>);
    generator.handle_eval_result(Err(EvalError::generic("from before")));
    assert!(!generator.propose_next_row(1, &[fe(6)]));
    assert_eq!(generator.reasons(), vec!["from before"]);
    assert_eq!(generator.current_values(), vec![None]);
    assert!(generator.propose_next_row(1, &[fe(5)]));
    assert_eq!(generator.reasons(), vec!["from before"]);
}

#[test]
fn the_left_side_of_a_lookup_is_evaluated_on_the_next_row() {
    let data = circuit(4, vec![("F", vec![10, 20, 30, 40])], vec!["a", "b"]);
    let identities: Vec<&Identity> = vec![];
    let mut lookup = FixedLookup::new();
    let mut generator =
        Generator::new(&data, &mut lookup, &identities, vec![], vec![], None::<NoCallback>);
    generator.handle_eval_result(Ok(vec![assign(0, 3)]));
    let expressions = vec![
        column("a"),
        op(times(number(2), column("b")), BinaryOperator::Add, column("a")),
        column("F"),
        next_of("a"),
    ];
    let left = generator.evaluate_left(&expressions);
    assert_eq!(left.len(), 4);
    // a known witness is its value
    assert_eq!(left[0].as_ref().unwrap().constant_value(), Some(fe(3)));
    // an unknown witness stands as itself
    assert_eq!(left[1].as_ref().unwrap().format(&data), "2 * b + 3");
    assert_eq!(left[2].as_ref().unwrap().constant_value(), Some(fe(10)));
    // what cannot be evaluated is handed on as its error
    assert!(left[3].as_ref().unwrap_err().to_string().starts_with("a' references"));
    assert_eq!(generator.evaluate_left(&vec![]).len(), 0);
}
