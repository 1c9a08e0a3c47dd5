use witgen::bit_constraints::BitConstraint;
use witgen::expression::{
    BinaryOperator, Expression, Identity, IdentityKind, PolynomialReference, SelectedExpressions,
};
use witgen::field::FieldElement;
use witgen::fixed_data::{FixedColumn, FixedData, WitnessColumn};
use witgen::generator::Generator;
use witgen::window::EvaluationRow;
use witgen::machines::FixedLookup;

type Callback = fn(&str) -> Option<FieldElement>;

fn num(value: u64) -> Expression {
    Expression::Number(FieldElement::new(value))
}

fn col(name: &str) -> Expression {
    Expression::PolynomialReference(PolynomialReference { name: name.to_string(), next: false })
}

fn next(name: &str) -> Expression {
    Expression::PolynomialReference(PolynomialReference { name: name.to_string(), next: true })
}

fn bin(left: Expression, op: BinaryOperator, right: Expression) -> Expression {
    Expression::BinaryOperation(Box::new(left), op, Box::new(right))
}

fn sub(left: Expression, right: Expression) -> Expression {
    bin(left, BinaryOperator::Sub, right)
}

fn add(left: Expression, right: Expression) -> Expression {
    bin(left, BinaryOperator::Add, right)
}

fn mul(left: Expression, right: Expression) -> Expression {
    bin(left, BinaryOperator::Mul, right)
}

fn none() -> SelectedExpressions {
    SelectedExpressions { selector: None, expressions: vec![] }
}

fn polynomial(expression: Expression) -> Identity {
    Identity {
        kind: IdentityKind::Polynomial,
        left: SelectedExpressions { selector: Some(expression), expressions: vec![] },
        right: none(),
    }
}

fn plookup(left: Vec<Expression>, right: Vec<Expression>) -> Identity {
    Identity {
        kind: IdentityKind::Plookup,
        left: SelectedExpressions { selector: None, expressions: left },
        right: SelectedExpressions { selector: None, expressions: right },
    }
}

fn witness(id: usize, name: &str, query: Option<Expression>) -> WitnessColumn {
    WitnessColumn { id, name: name.to_string(), query }
}

fn fixed(name: &str, values: Vec<u64>) -> FixedColumn {
    FixedColumn {
        name: name.to_string(),
        values: values.into_iter().map(FieldElement::new).collect(),
    }
}

fn is_last(degree: u64) -> FixedColumn {
    fixed("ISLAST", (0..degree).map(|i| if i == degree - 1 { 1 } else { 0 }).collect())
}

fn field(values: &[u64]) -> Vec<FieldElement> {
    values.iter().map(|v| FieldElement::new(*v)).collect()
}

/// Runs all rows and returns them; panics with the report where a row fails.
fn trace(
    fixed_data: &FixedData,
    identities: &[Identity],
    callback: Option<Callback>,
) -> Vec<Vec<FieldElement>> {
    let mut fixed_lookup = FixedLookup::new();
    let references: Vec<&Identity> = identities.iter().collect();
    let mut generator =
        Generator::new(fixed_data, &mut fixed_lookup, &references, vec![], vec![], callback);
    let mut rows = vec![];
    for row in 0..fixed_data.degree {
        match generator.compute_next_row(row) {
            Ok(values) => rows.push(values),
            Err(failure) => panic!("{}", failure.report),
        }
    }
    rows
}

fn fibonacci_identities() -> Vec<Identity> {
    vec![
        polynomial(mul(col("ISLAST"), sub(next("y"), num(1)))),
        polynomial(mul(col("ISLAST"), sub(next("x"), num(1)))),
        polynomial(mul(sub(num(1), col("ISLAST")), sub(next("x"), col("y")))),
        polynomial(mul(sub(num(1), col("ISLAST")), sub(sub(next("y"), col("x")), col("y")))),
    ]
}

#[test]
fn test_fibonacci() {
    let fixed_data = FixedData::new(
        16,
        vec![],
        vec![is_last(16)],
        vec![witness(0, "x", None), witness(1, "y", None)],
    )
    .unwrap();
    let rows = trace(&fixed_data, &fibonacci_identities(), None);
    let x: Vec<FieldElement> = rows.iter().map(|row| row[0]).collect();
    assert_eq!(x, field(&[1, 1, 2, 3, 5, 8, 13, 21, 34, 55, 89, 144, 233, 377, 610, 987]));
    let y: Vec<FieldElement> = rows.iter().map(|row| row[1]).collect();
    assert_eq!(y, field(&[1, 2, 3, 5, 8, 13, 21, 34, 55, 89, 144, 233, 377, 610, 987, 1597]));
}

#[test]
fn test_constant_in_identity() {
    let fixed_data =
        FixedData::new(8, vec![], vec![], vec![witness(0, "w", None)]).unwrap();
    let identities = vec![polynomial(sub(col("w"), num(5)))];
    let rows = trace(&fixed_data, &identities, None);
    assert_eq!(rows.len(), 8);
    for row in rows {
        assert_eq!(row, field(&[5]));
    }
}

fn sum_callback(query: &str) -> Option<FieldElement> {
    match query {
        "\"in\", 0" => Some(FieldElement::new(7)),
        "\"in\", 1" => Some(FieldElement::new(8)),
        "\"in\", 2" => Some(FieldElement::new(2)),
        "\"in\", 3" => None, // The generator has to figure this one out on its own.
        _ => None,
    }
}

fn sum_query() -> Expression {
    Expression::Tuple(vec![
        Expression::String("in".to_string()),
        Expression::LocalVariableReference(0),
    ])
}

#[test]
fn test_sum_via_witness_query() {
    let fixed_data = FixedData::new(
        4,
        vec![],
        vec![fixed("L", vec![0, 0, 0, 1]), fixed("A", vec![0, 0, 1, 0])],
        vec![witness(0, "in", Some(sum_query())), witness(1, "sum", None)],
    )
    .unwrap();
    let identities = vec![
        // L * sum' = 0
        polynomial(mul(col("L"), next("sum"))),
        // sum' = (1 - L) * (sum + in)
        polynomial(sub(
            next("sum"),
            mul(sub(num(1), col("L")), add(col("sum"), col("in"))),
        )),
        // A * (in' - sum') = 0
        polynomial(mul(col("A"), sub(next("in"), next("sum")))),
    ];
    let rows = trace(&fixed_data, &identities, Some(sum_callback as Callback));
    assert_eq!(rows, vec![field(&[7, 0]), field(&[8, 7]), field(&[2, 15]), field(&[17, 17])]);
    // sum[r] is the sum of in[0] to in[r - 1]
    let mut total = FieldElement::new(0);
    for row in rows {
        assert_eq!(row[1], total);
        total = total.add(row[0]);
    }
}

#[test]
fn a_total_that_is_given_decides_what_the_callback_does_not_answer() {
    let fixed_data = FixedData::new(
        4,
        vec![],
        vec![is_last(4)],
        vec![witness(0, "input", Some(sum_query())), witness(1, "sum", None)],
    )
    .unwrap();
    let identities = vec![
        // sum' = (1 - ISLAST) * sum + input'
        polynomial(sub(
            sub(next("sum"), mul(sub(num(1), col("ISLAST")), col("sum"))),
            next("input"),
        )),
        // the total is 20
        polynomial(mul(col("ISLAST"), sub(col("sum"), num(20)))),
    ];
    let rows = trace(&fixed_data, &identities, Some(sum_callback as Callback));
    let input: Vec<FieldElement> = rows.iter().map(|row| row[0]).collect();
    let sum: Vec<FieldElement> = rows.iter().map(|row| row[1]).collect();
    assert_eq!(input, field(&[7, 8, 2, 3]));
    assert_eq!(sum, field(&[7, 15, 17, 20]));
}

fn underdetermined() -> (FixedData, Vec<Identity>) {
    let fixed_data =
        FixedData::new(4, vec![], vec![], vec![witness(0, "w", None)]).unwrap();
    // 0 * w - 1 = 0
    let identities = vec![polynomial(sub(mul(num(0), col("w")), num(1)))];
    (fixed_data, identities)
}

#[test]
#[should_panic(expected = "Witness generation failed.")]
fn test_underdetermined_zero_no_solution() {
    let (fixed_data, identities) = underdetermined();
    trace(&fixed_data, &identities, None);
}

#[test]
fn underdetermined_fails_after_the_first_row() {
    let (fixed_data, identities) = underdetermined();
    let mut fixed_lookup = FixedLookup::new();
    let references: Vec<&Identity> = identities.iter().collect();
    let mut generator = Generator::new(
        &fixed_data,
        &mut fixed_lookup,
        &references,
        vec![],
        vec![],
        None::<Callback>,
    );
    // The first row is let through with its unknown taken for zero.
    assert_eq!(generator.compute_next_row(0).unwrap(), field(&[0]));
    let failure = generator.compute_next_row(1).unwrap_err();
    assert_eq!(failure.row, 1);
    assert!(failure.report.contains("Identity check failed"));
    assert!(failure.report.contains("Witness generation failed."));
    assert!(failure.report.contains("Constraint is invalid (18446744069414584320 != 0)."));
    assert!(failure.report.contains("No progress on ((0 * w) - 1) = 0;:"));
    assert!(failure.report.contains("    w = <unknown>"));
    assert_eq!(generator.row(), 1);
    // The row was not committed.
    assert_eq!(generator.current_values(), vec![None]);
}

#[test]
fn test_double_next_reference_is_rejected() {
    let fixed_data = FixedData::new(
        4,
        vec![],
        vec![fixed("T", vec![0, 1, 2, 3])],
        vec![witness(0, "w", None)],
    )
    .unwrap();
    // The left side of a lookup is evaluated on the next row, where w' is the row after it.
    let identities = vec![plookup(vec![next("w")], vec![col("T")])];
    let mut fixed_lookup = FixedLookup::new();
    let references: Vec<&Identity> = identities.iter().collect();
    let mut generator = Generator::new(
        &fixed_data,
        &mut fixed_lookup,
        &references,
        vec![],
        vec![],
        None::<Callback>,
    );
    let error = generator.evaluate(&next("w"), EvaluationRow::Next).unwrap_err();
    assert_eq!(
        error.to_string(),
        "w' references the next-next row when evaluating on the current row."
    );
    assert!(matches!(error, witgen::eval_error::EvalError::Generic(_)));
    assert_eq!(generator.compute_next_row(0).unwrap(), field(&[0]));
    let before = generator.current_values();
    let failure = generator.compute_next_row(1).unwrap_err();
    assert!(failure.report.contains("w' references the next-next row"));
    assert_eq!(generator.current_values(), before);
}

#[test]
fn test_pair_lookup() {
    let fixed_data = FixedData::new(
        8,
        vec![],
        vec![
            fixed("A", (0..8).collect()),
            fixed("B", (0..8).map(|i| i * i).collect()),
        ],
        vec![witness(0, "a", None), witness(1, "b", None)],
    )
    .unwrap();
    let identities = vec![
        polynomial(sub(col("a"), num(3))),
        plookup(vec![col("a"), col("b")], vec![col("A"), col("B")]),
    ];
    let rows = trace(&fixed_data, &identities, None);
    for row in rows {
        assert_eq!(row, field(&[3, 9]));
    }
}

#[test]
fn pair_lookup_is_solved_in_the_first_pass() {
    let fixed_data = FixedData::new(
        8,
        vec![],
        vec![
            fixed("A", (0..8).collect()),
            fixed("B", (0..8).map(|i| i * i).collect()),
        ],
        vec![witness(0, "a", None), witness(1, "b", None)],
    )
    .unwrap();
    let lookup = plookup(vec![col("a"), col("b")], vec![col("A"), col("B")]);
    let identities: Vec<&Identity> = vec![];
    let mut fixed_lookup = FixedLookup::new();
    let mut generator = Generator::new(
        &fixed_data,
        &mut fixed_lookup,
        &identities,
        vec![],
        vec![],
        None::<Callback>,
    );
    generator.handle_eval_result(Ok(vec![(
        0,
        witgen::Constraint::Assignment(FieldElement::new(3)),
    )]));
    let result = generator.process_plookup(&lookup).unwrap();
    assert_eq!(result, vec![(1, witgen::Constraint::Assignment(FieldElement::new(9)))]);
}

#[test]
fn global_bit_constraints_come_first() {
    let fixed_data =
        FixedData::new(4, vec![], vec![], vec![witness(0, "w", None)]).unwrap();
    let identities: Vec<&Identity> = vec![];
    let mut fixed_lookup = FixedLookup::new();
    let generator = Generator::new(
        &fixed_data,
        &mut fixed_lookup,
        &identities,
        vec![("w".to_string(), BitConstraint::from_mask(0xff))],
        vec![],
        None::<Callback>,
    );
    assert_eq!(generator.row(), 0);
    assert!(add(col("w"), num(1)).to_string() == "(w + 1)");
}
