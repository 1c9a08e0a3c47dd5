use witgen::affine_expression::AffineExpression;
use witgen::eval_error::EvalError;
use witgen::expression::{
    BinaryOperator, Expression, Identity, IdentityKind, PolynomialReference, SelectedExpressions,
};
use witgen::field::FieldElement;
use witgen::fixed_data::{FixedColumn, FixedData, WitnessColumn};
use witgen::generator::{checked_result, insert_column, merge_columns, Generator};
use witgen::machines::{FixedLookup, Machine};
use witgen::{Constraint, EvalResult};

type Silent = fn(&str) -> Option<FieldElement>;

fn el(value: u64) -> FieldElement {
    FieldElement::new(value)
}

fn named(name: &str) -> Expression {
    Expression::PolynomialReference(PolynomialReference { name: name.to_string(), next: false })
}

fn exactly(value: u64) -> Expression {
    Expression::Number(el(value))
}

fn equal(left: Expression, right: Expression) -> Identity {
    Identity {
        kind: IdentityKind::Polynomial,
        left: SelectedExpressions {
            selector: Some(Expression::BinaryOperation(
                Box::new(left),
                BinaryOperator::Sub,
                Box::new(right),
            )),
            expressions: vec![],
        },
        right: SelectedExpressions { selector: None, expressions: vec![] },
    }
}

fn lookup_into(
    selector: Option<Expression>,
    left: Vec<Expression>,
    right: Vec<Expression>,
) -> Identity {
    Identity {
        kind: IdentityKind::Plookup,
        left: SelectedExpressions { selector, expressions: left },
        right: SelectedExpressions { selector: None, expressions: right },
    }
}

fn squares() -> FixedData {
    let fixed_cols = vec![
        FixedColumn { name: "A".to_string(), values: (0..8).map(el).collect() },
        FixedColumn { name: "B".to_string(), values: (0..8).map(|i| el(i * i)).collect() },
        FixedColumn { name: "PARITY".to_string(), values: (0..8).map(|i| el(i % 2)).collect() },
    ];
    let witness_cols = ["a", "b", "s"]
        .iter()
        .enumerate()
        .map(|(id, name)| WitnessColumn { id, name: name.to_string(), query: None })
        .collect();
    FixedData::new(8, vec![], fixed_cols, witness_cols).unwrap()
}

fn known(value: u64) -> Result<AffineExpression, EvalError> {
    Ok(AffineExpression::from_field(el(value)))
}

fn unknown(id: usize) -> Result<AffineExpression, EvalError> {
    Ok(AffineExpression::from_witness_poly_value(id))
}

fn right_side(names: &[&str]) -> SelectedExpressions {
    SelectedExpressions { selector: None, expressions: names.iter().map(|n| named(n)).collect() }
}

fn is(id: usize, value: u64) -> (usize, Constraint) {
    (id, Constraint::Assignment(el(value)))
}

#[test]
fn the_fixed_lookup_finds_the_one_row() {
    let data = squares();
    let mut lookup = FixedLookup::new();
    let right = right_side(&["A", "B"]);
    let answer = lookup
        .process_plookup(&data, IdentityKind::Plookup, &[known(3), unknown(1)], &right)
        .unwrap();
    assert_eq!(answer.unwrap(), vec![is(1, 9)]);
    // from the square to the root
    let answer = lookup
        .process_plookup(&data, IdentityKind::Plookup, &[unknown(0), known(49)], &right)
        .unwrap();
    assert_eq!(answer.unwrap(), vec![is(0, 7)]);
    // all known and there
    let answer = lookup
        .process_plookup(&data, IdentityKind::Plookup, &[known(2), known(4)], &right)
        .unwrap();
    assert_eq!(answer.unwrap(), vec![]);
    // an unknown with a coefficient: 2 * a + 1 = 7
    let scaled = AffineExpression::from_witness_poly_value(0)
        .mul(el(2))
        .add(&AffineExpression::from_field(el(1)));
    let answer = lookup
        .process_plookup(&data, IdentityKind::Plookup, &[Ok(scaled), known(49)], &right)
        .unwrap();
    assert_eq!(answer.unwrap(), vec![is(0, 3)]);
}

#[test]
fn the_fixed_lookup_fails_without_a_row_and_waits_with_several() {
    let data = squares();
    let mut lookup = FixedLookup::new();
    let right = right_side(&["A", "B"]);
    let answer = lookup
        .process_plookup(&data, IdentityKind::Plookup, &[known(3), known(8)], &right)
        .unwrap();
    let error = answer.unwrap_err();
    assert!(matches!(&error, EvalError::ConstraintUnsatisfiable(detail) if detail == "Plookup is not satisfied"));
    let answer = lookup
        .process_plookup(&data, IdentityKind::Plookup, &[known(9), unknown(1)], &right)
        .unwrap();
    assert!(matches!(answer.unwrap_err(), EvalError::ConstraintUnsatisfiable(_)));
    // nothing known: every row agrees
    let answer = lookup
        .process_plookup(&data, IdentityKind::Plookup, &[unknown(0), unknown(1)], &right)
        .unwrap();
    assert_eq!(answer.unwrap(), vec![]);
    // four rows have parity one
    let parity = right_side(&["A", "PARITY"]);
    let answer = lookup
        .process_plookup(&data, IdentityKind::Plookup, &[unknown(0), known(1)], &parity)
        .unwrap();
    assert_eq!(answer.unwrap(), vec![]);
    // an error of the left side is handed on
    let left = [known(3), Err(EvalError::generic("unknown"))];
    let answer = lookup.process_plookup(&data, IdentityKind::Plookup, &left, &right).unwrap();
    assert_eq!(answer.unwrap_err().to_string(), "unknown");
}

#[test]
fn the_fixed_lookup_leaves_what_is_not_its_own() {
    let data = squares();
    let mut lookup = FixedLookup::new();
    let left = [known(3), unknown(1)];
    let right = right_side(&["A", "B"]);
    assert!(lookup.process_plookup(&data, IdentityKind::Permutation, &left, &right).is_none());
    assert!(lookup.process_plookup(&data, IdentityKind::Connect, &left, &right).is_none());
    // a witness column on the right
    let witness = right_side(&["A", "b"]);
    assert!(lookup.process_plookup(&data, IdentityKind::Plookup, &left, &witness).is_none());
    // a selector on the right
    let selected = SelectedExpressions {
        selector: Some(named("PARITY")),
        expressions: vec![named("A"), named("B")],
    };
    assert!(lookup.process_plookup(&data, IdentityKind::Plookup, &left, &selected).is_none());
    // a reference to the next row on the right
    let shifted = SelectedExpressions {
        selector: None,
        expressions: vec![
            named("A"),
            Expression::PolynomialReference(PolynomialReference {
                name: "B".to_string(),
                next: true,
            }),
        ],
    };
    assert!(lookup.process_plookup(&data, IdentityKind::Plookup, &left, &shifted).is_none());
    // sides of different lengths
    let short = right_side(&["A"]);
    assert!(lookup.process_plookup(&data, IdentityKind::Plookup, &left, &short).is_none());
}

#[test]
fn a_lookup_is_switched_by_its_selector() {
    let data = squares();
    let identities: Vec<&Identity> = vec![];
    let mut lookup = FixedLookup::new();
    let mut generator =
        Generator::new(&data, &mut lookup, &identities, vec![], vec![], None::<Silent>);
    generator.handle_eval_result(Ok(vec![is(0, 3)]));
    let with = |selector: Expression| {
        lookup_into(Some(selector), vec![named("a"), named("b")], vec![named("A"), named("B")])
    };
    assert_eq!(generator.process_plookup(&with(exactly(0))).unwrap(), vec![]);
    assert_eq!(generator.process_plookup(&with(exactly(1))).unwrap(), vec![is(1, 9)]);
    let error = generator.process_plookup(&with(exactly(2))).unwrap_err();
    assert_eq!(
        error.to_string(),
        "Value of the selector on the left hand side unknown or not boolean: 2"
    );
    let error = generator.process_plookup(&with(named("s"))).unwrap_err();
    assert_eq!(
        error.to_string(),
        "Value of the selector on the left hand side unknown or not boolean: s"
    );
    let error = generator.process_plookup(&with(named("nowhere"))).unwrap_err();
    assert_eq!(error.to_string(), "Unknown column: nowhere");
}

/// Doubles: answers lookups into the column `DOUBLE` with twice the first value on the left.
struct Doubler {
    asked: usize,
}

impl Machine for Doubler {
    fn process_plookup(
        &mut self,
        _fixed_data: &FixedData,
        _fixed_lookup: &mut FixedLookup,
        _kind: IdentityKind,
        left: &[Result<AffineExpression, EvalError>],
        right: &SelectedExpressions,
    ) -> Option<EvalResult> {
        match right.expressions.first() {
            Some(Expression::PolynomialReference(reference)) if reference.name == "DOUBLE" => {}
            _ => return None,
        }
        self.asked += 1;
        let value = left[0].as_ref().ok().and_then(|value| value.constant_value());
        Some(Ok(match value {
            Some(value) => vec![(1, Constraint::Assignment(value.add(value)))],
            None => vec![],
        }))
    }

    fn witness_col_values(&mut self, _fixed_data: &FixedData) -> Vec<(String, Vec<FieldElement>)> {
        vec![
            ("asked".to_string(), vec![el(self.asked as u64)]),
            ("shared".to_string(), vec![el(1)]),
        ]
    }
}

/// Answers every lookup with a constraint on a witness that is not there.
struct Careless;

impl Machine for Careless {
    fn process_plookup(
        &mut self,
        _fixed_data: &FixedData,
        _fixed_lookup: &mut FixedLookup,
        _kind: IdentityKind,
        _left: &[Result<AffineExpression, EvalError>],
        _right: &SelectedExpressions,
    ) -> Option<EvalResult> {
        Some(Ok(vec![(17, Constraint::Assignment(el(1)))]))
    }

    fn witness_col_values(&mut self, _fixed_data: &FixedData) -> Vec<(String, Vec<FieldElement>)> {
        vec![("shared".to_string(), vec![el(2)]), ("own".to_string(), vec![])]
    }
}

fn doubling() -> Vec<Identity> {
    vec![
        equal(named("a"), exactly(4)),
        lookup_into(None, vec![named("a"), named("b")], vec![named("DOUBLE")]),
    ]
}

#[test]
fn machines_are_asked_in_the_order_of_their_registration() {
    let data = squares();
    let identities = doubling();
    let references: Vec<&Identity> = identities.iter().collect();
    let mut lookup = FixedLookup::new();
    let machines: Vec<Box<dyn Machine>> = vec![Box::new(Doubler { asked: 0 }), Box::new(Careless)];
    let mut generator =
        Generator::new(&data, &mut lookup, &references, vec![], machines, None::<Silent>);
    for row in 0..3 {
        assert_eq!(generator.compute_next_row(row).unwrap(), vec![el(4), el(8), el(0)]);
    }
    let columns = generator.machine_witness_col_values();
    // One pass finds the values, the next one finds nothing new.
    assert_eq!(
        columns,
        vec![
            ("asked".to_string(), vec![el(6)]),
            ("shared".to_string(), vec![el(2)]),
            ("own".to_string(), vec![]),
        ]
    );
}

#[test]
fn a_constraint_on_a_witness_that_is_not_there_is_an_error() {
    let data = squares();
    let identities = doubling();
    let references: Vec<&Identity> = identities.iter().collect();
    let mut lookup = FixedLookup::new();
    let machines: Vec<Box<dyn Machine>> = vec![Box::new(Careless), Box::new(Doubler { asked: 0 })];
    let mut generator =
        Generator::new(&data, &mut lookup, &references, vec![], machines, None::<Silent>);
    let error = generator.process_plookup(&identities[1]).unwrap_err();
    assert_eq!(error.to_string(), "A machine returned a constraint on an unknown witness.");
    assert_eq!(generator.compute_next_row(0).unwrap(), vec![el(4), el(0), el(0)]);
    let failure = generator.compute_next_row(1).unwrap_err();
    assert!(failure.report.contains("A machine returned a constraint on an unknown witness."));
}

#[test]
fn a_lookup_that_nobody_answers_fails() {
    let data = squares();
    let identities = doubling();
    let references: Vec<&Identity> = identities.iter().collect();
    let mut lookup = FixedLookup::new();
    let mut generator =
        Generator::new(&data, &mut lookup, &references, vec![], vec![], None::<Silent>);
    let error = generator.process_plookup(&identities[1]).unwrap_err();
    assert_eq!(error.to_string(), "Could not find a matching machine for the lookup.");
    assert_eq!(generator.machine_witness_col_values(), vec![]);
    generator.compute_next_row(0).unwrap();
    let failure = generator.compute_next_row(1).unwrap_err();
    assert!(failure.report.contains(
        "No progress on { a, b } in { DOUBLE };:\n    Could not find a matching machine for the lookup."
    ));
    assert_eq!(
        generator.reasons(),
        vec!["No progress on { a, b } in { DOUBLE };:\n    Could not find a matching machine for the lookup."]
    );
}

#[test]
fn results_of_machines_are_checked() {
    let fine = checked_result(Ok(vec![is(0, 1), is(2, 3)]), 3).unwrap();
    assert_eq!(fine, vec![is(0, 1), is(2, 3)]);
    assert!(checked_result(Ok(vec![is(0, 1), is(3, 3)]), 3).is_err());
    let error = checked_result(Err(EvalError::generic("as it is")), 3).unwrap_err();
    assert_eq!(error.to_string(), "as it is");
}

#[test]
fn a_column_takes_the_place_of_its_namesake() {
    let mut columns = vec![];
    insert_column(&mut columns, "a".to_string(), vec![el(1)]);
    insert_column(&mut columns, "b".to_string(), vec![el(2)]);
    insert_column(&mut columns, "a".to_string(), vec![el(3)]);
    assert_eq!(
        columns,
        vec![("a".to_string(), vec![el(3)]), ("b".to_string(), vec![el(2)])]
    );
}

#[test]
fn the_columns_of_a_machine_are_merged_in_their_order() {
    let mut columns = vec![("a".to_string(), vec![el(1)]), ("b".to_string(), vec![el(2)])];
    merge_columns(
        &mut columns,
        vec![
            ("c".to_string(), vec![el(3)]),
            ("a".to_string(), vec![el(4)]),
            ("c".to_string(), vec![el(5)]),
        ],
    );
    assert_eq!(
        columns,
        vec![
            ("a".to_string(), vec![el(4)]),
            ("b".to_string(), vec![el(2)]),
            ("c".to_string(), vec![el(5)]),
        ]
    );
    merge_columns(&mut columns, vec![]);
    assert_eq!(columns.len(), 3);
}
