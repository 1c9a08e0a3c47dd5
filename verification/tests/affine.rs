use witgen::affine_expression::{shift_amount, AffineExpression};
use witgen::bit_constraints::BitConstraint;
use witgen::witness_bit_constraints::WitnessBitConstraintSet;
use witgen::eval_error::EvalError;
use witgen::expression::{
    BinaryOperator, Expression, Identity, IdentityKind, PolynomialReference, SelectedExpressions,
    UnaryOperator,
};
use witgen::field::FieldElement;
use witgen::fixed_data::{FixedData, WitnessColumn};
use witgen::util::{contains_next_witness_ref, WitnessColumnNamer};
use witgen::Constraint;

fn f(value: u64) -> FieldElement {
    FieldElement::new(value)
}

fn names(names: &[&str]) -> FixedData {
    let witness_cols = names
        .iter()
        .enumerate()
        .map(|(id, name)| WitnessColumn { id, name: name.to_string(), query: None })
        .collect();
    FixedData::new(4, vec![("N".to_string(), f(4))], vec![], witness_cols).unwrap()
}

fn symbol(id: usize) -> AffineExpression {
    AffineExpression::from_witness_poly_value(id)
}

fn constant(value: u64) -> AffineExpression {
    AffineExpression::from_field(f(value))
}

/// Solves `expression = 0` with the given masks as the bit constraints of the row.
fn solve_with_masks(
    expression: &AffineExpression,
    masks: &[Option<u64>],
) -> Result<Vec<(usize, Constraint)>, EvalError> {
    let data = names(&["w0", "w1", "w2", "w3"][..masks.len()]);
    let global = vec![];
    let row: Vec<Option<BitConstraint>> =
        masks.iter().map(|mask| mask.map(BitConstraint::from_mask)).collect();
    let set = WitnessBitConstraintSet {
        fixed_data: &data,
        global_bit_constraints: &global,
        next_bit_constraints: &row,
    };
    expression.solve_with_bit_constraints(&set)
}

fn assignments(values: &[(usize, u64)]) -> Vec<(usize, Constraint)> {
    values.iter().map(|(id, value)| (*id, Constraint::Assignment(f(*value)))).collect()
}

#[test]
fn affine_expressions_are_built_and_read() {
    let data = names(&["a", "b", "c"]);
    assert_eq!(constant(7).format(&data), "7");
    assert_eq!(constant(0).format(&data), "0");
    assert_eq!(symbol(1).format(&data), "b");
    assert_eq!(symbol(0).add(&symbol(2)).format(&data), "a + c");
    assert_eq!(symbol(1).mul(f(2)).add(&constant(3)).format(&data), "2 * b + 3");
    assert_eq!(symbol(0).neg().format(&data), "18446744069414584320 * a");
    assert_eq!(symbol(0).sub(&symbol(0)).format(&data), "0");
    assert_eq!(symbol(2).sub(&constant(1)).format(&data), "c + 18446744069414584320");
    assert_eq!(data.name(2), "c");
}

#[test]
fn constant_value_is_there_only_without_unknowns() {
    assert_eq!(constant(7).constant_value(), Some(f(7)));
    assert!(constant(7).is_constant());
    assert_eq!(symbol(0).constant_value(), None);
    assert!(!symbol(3).is_constant());
    assert_eq!(symbol(1).sub(&symbol(1)).add(&constant(2)).constant_value(), Some(f(2)));
    assert_eq!(symbol(1).mul(f(0)).constant_value(), Some(f(0)));
}

#[test]
fn solve_handles_constants_and_one_unknown() {
    assert_eq!(constant(0).solve().unwrap(), vec![]);
    let error = constant(1).solve().unwrap_err();
    assert!(matches!(error, EvalError::ConstraintUnsatisfiable(_)));
    // w - 5 = 0
    assert_eq!(symbol(0).sub(&constant(5)).solve().unwrap(), assignments(&[(0, 5)]));
    // 2 * w + 4 = 0 has the solution -2
    let solved = symbol(3).mul(f(2)).add(&constant(4)).solve().unwrap();
    assert_eq!(solved, assignments(&[(3, 18446744069414584319)]));
    // 3 * w - 1 = 0 has the solution 1 / 3
    let solved = symbol(0).mul(f(3)).sub(&constant(1)).solve().unwrap();
    match solved[0].1 {
        Constraint::Assignment(value) => assert_eq!(value.mul(f(3)), f(1)),
        _ => panic!("an assignment was expected"),
    }
    // two unknowns: nothing is concluded
    assert_eq!(symbol(0).add(&symbol(1)).solve().unwrap(), vec![]);
}

#[test]
fn shift_amount_finds_powers_of_two() {
    assert_eq!(shift_amount(1), Some(0));
    assert_eq!(shift_amount(256), Some(8));
    assert_eq!(shift_amount(1 << 63), Some(63));
    assert_eq!(shift_amount(0), None);
    assert_eq!(shift_amount(3), None);
    assert_eq!(shift_amount(18446744069414584320), None);
}

#[test]
fn unknowns_are_read_off_the_bits() {
    let masks = [Some(0xff), Some(0xff)];
    // lo + 256 * hi - 0x1234 = 0
    let sum = symbol(0).add(&symbol(1).mul(f(256)));
    let solved = solve_with_masks(&sum.sub(&constant(0x1234)), &masks).unwrap();
    assert_eq!(solved, assignments(&[(0, 0x34), (1, 0x12)]));
    // the same with the opposite sign: 0x1234 - lo - 256 * hi = 0
    let solved = solve_with_masks(&constant(0x1234).sub(&sum), &masks).unwrap();
    assert_eq!(solved, assignments(&[(0, 0x34), (1, 0x12)]));
    // a bit that no witness covers
    let error = solve_with_masks(&sum.sub(&constant(0x12345)), &masks).unwrap_err();
    assert!(matches!(error, EvalError::ConstraintUnsatisfiable(_)));
}

#[test]
fn nothing_is_read_where_the_bits_are_not_kept_apart() {
    let sum = symbol(0).add(&symbol(1).mul(f(256))).sub(&constant(0x1234));
    // a witness without a bit constraint
    let solved = solve_with_masks(&sum, &[Some(0xff), None]).unwrap();
    assert_eq!(solved, vec![]);
    // masks that overlap once shifted
    let solved = solve_with_masks(&sum, &[Some(0x1ff), Some(0xff)]).unwrap();
    assert_eq!(solved, vec![]);
    // a coefficient that is no power of two
    let other = symbol(0).add(&symbol(1).mul(f(3))).sub(&constant(7));
    let solved = solve_with_masks(&other, &[Some(1), Some(1)]).unwrap();
    assert_eq!(solved, vec![]);
    // a mask that loses bits when shifted
    let high = symbol(0).add(&symbol(1).mul(f(1 << 60))).sub(&constant(7));
    let solved = solve_with_masks(&high, &[Some(0xf), Some(0xff)]).unwrap();
    assert_eq!(solved, vec![]);
}

#[test]
fn one_unknown_is_solved_without_its_bits() {
    let solved = solve_with_masks(&symbol(0).sub(&constant(0x1234)), &[Some(0xff)]).unwrap();
    assert_eq!(solved, assignments(&[(0, 0x1234)]));
}

#[test]
fn bit_constraints_meet() {
    let a = BitConstraint::from_mask(0b1100);
    let b = BitConstraint::from_mask(0b0110);
    assert_eq!(a.conjunction(&b), BitConstraint::from_mask(0b0100));
    assert_eq!(BitConstraint::from_max_bit(7).mask(), 0xff);
    assert_eq!(BitConstraint::from_max_bit(0).mask(), 1);
    assert_eq!(BitConstraint::from_max_bit(63).mask(), u64::MAX);
    assert!(a.is_met_by(0b1000));
    assert!(!a.is_met_by(0b0001));
    assert_eq!(a.to_string(), "0xc");
}

fn reference(name: &str, next: bool) -> Expression {
    Expression::PolynomialReference(PolynomialReference { name: name.to_string(), next })
}

fn number(value: u64) -> Expression {
    Expression::Number(f(value))
}

fn binary(left: Expression, op: BinaryOperator, right: Expression) -> Expression {
    Expression::BinaryOperation(Box::new(left), op, Box::new(right))
}

#[test]
fn expressions_read_as_in_the_language() {
    assert_eq!(Expression::Constant("N".to_string()).to_string(), "N");
    assert_eq!(reference("a", false).to_string(), "a");
    assert_eq!(reference("a", true).to_string(), "a'");
    assert_eq!(Expression::LocalVariableReference(0).to_string(), "$0");
    assert_eq!(Expression::PublicReference("p".to_string()).to_string(), ":p");
    assert_eq!(number(7).to_string(), "7");
    assert_eq!(Expression::String("in".to_string()).to_string(), "\"in\"");
    let tuple = Expression::Tuple(vec![
        Expression::String("in".to_string()),
        Expression::LocalVariableReference(0),
    ]);
    assert_eq!(tuple.to_string(), "(\"in\", $0)");
    assert_eq!(Expression::Tuple(vec![]).to_string(), "()");
    let sum = binary(reference("a", false), BinaryOperator::Add, reference("b", true));
    assert_eq!(sum.to_string(), "(a + b')");
    assert_eq!(binary(number(1), BinaryOperator::Sub, number(2)).to_string(), "(1 - 2)");
    assert_eq!(binary(number(1), BinaryOperator::Mul, number(2)).to_string(), "(1 * 2)");
    assert_eq!(binary(number(1), BinaryOperator::Div, number(2)).to_string(), "(1 / 2)");
    let minus = Expression::UnaryOperation(UnaryOperator::Minus, Box::new(reference("x", false)));
    assert_eq!(minus.to_string(), "-x");
    let plus = Expression::UnaryOperation(UnaryOperator::Plus, Box::new(number(1)));
    assert_eq!(plus.to_string(), "+1");
    let call = Expression::FunctionCall("f".to_string(), vec![number(1), number(2)]);
    assert_eq!(call.to_string(), "f(1, 2)");
    let choice = Expression::MatchExpression(
        Box::new(reference("x", false)),
        vec![(Some(f(1)), number(2)), (None, number(3))],
    );
    assert_eq!(choice.to_string(), "match x { 1 => 2, _ => 3, }");
}

fn selected(selector: Option<Expression>, expressions: Vec<Expression>) -> SelectedExpressions {
    SelectedExpressions { selector, expressions }
}

#[test]
fn identities_read_as_in_the_language() {
    let polynomial = Identity {
        kind: IdentityKind::Polynomial,
        left: selected(Some(binary(reference("w", false), BinaryOperator::Sub, number(5))), vec![]),
        right: selected(None, vec![]),
    };
    assert_eq!(polynomial.to_string(), "(w - 5) = 0;");
    let lookup = |kind| Identity {
        kind,
        left: selected(
            Some(reference("s", false)),
            vec![reference("a", false), reference("b", false)],
        ),
        right: selected(None, vec![reference("A", false), reference("B", false)]),
    };
    assert_eq!(lookup(IdentityKind::Plookup).to_string(), "s { a, b } in { A, B };");
    assert_eq!(lookup(IdentityKind::Permutation).to_string(), "s { a, b } is { A, B };");
    assert_eq!(lookup(IdentityKind::Connect).to_string(), "s { a, b } connect { A, B };");
}

#[test]
fn next_references_to_witnesses_are_found() {
    let data = names(&["a", "b"]);
    assert!(contains_next_witness_ref(&reference("a", true), &data));
    assert!(!contains_next_witness_ref(&reference("a", false), &data));
    // not a witness column
    assert!(!contains_next_witness_ref(&reference("F", true), &data));
    let deep = binary(
        number(1),
        BinaryOperator::Mul,
        Expression::UnaryOperation(UnaryOperator::Minus, Box::new(reference("b", true))),
    );
    assert!(contains_next_witness_ref(&deep, &data));
    assert!(contains_next_witness_ref(&Expression::Tuple(vec![number(1), deep]), &data));
    let choice = Expression::MatchExpression(
        Box::new(number(1)),
        vec![(None, reference("a", true))],
    );
    assert!(contains_next_witness_ref(&choice, &data));
    let call = Expression::FunctionCall("f".to_string(), vec![reference("a", false)]);
    assert!(!contains_next_witness_ref(&call, &data));
}

#[test]
fn fixed_data_is_validated_and_searched() {
    let data = names(&["a", "b", "c"]);
    assert!(data.is_wf());
    assert_eq!(data.witness_id("a"), Some(0));
    assert_eq!(data.witness_id("b"), Some(1));
    assert_eq!(data.witness_id("c"), Some(2));
    assert_eq!(data.witness_id("d"), None);
    assert_eq!(data.constant("N"), Some(f(4)));
    assert_eq!(data.constant("M"), None);
    assert_eq!(data.fixed_column_id("a"), None);
    // no rows
    assert!(FixedData::new(0, vec![], vec![], vec![]).is_none());
    // a witness column that does not know its place
    let misplaced = vec![WitnessColumn { id: 1, name: "a".to_string(), query: None }];
    assert!(FixedData::new(4, vec![], vec![], misplaced).is_none());
    // a fixed column that is too short
    let short = vec![witgen::fixed_data::FixedColumn { name: "F".to_string(), values: vec![f(1)] }];
    assert!(FixedData::new(4, vec![], short, vec![]).is_none());
}

#[test]
fn a_name_stands_for_one_thing_only() {
    let witness = |id: usize, name: &str| WitnessColumn { id, name: name.to_string(), query: None };
    let fixed = |name: &str| witgen::fixed_data::FixedColumn {
        name: name.to_string(),
        values: vec![f(0), f(1)],
    };
    // two witness columns of one name
    let twice = vec![witness(0, "a"), witness(1, "b"), witness(2, "a")];
    assert!(FixedData::new(2, vec![], vec![], twice).is_none());
    // two fixed columns of one name
    assert!(FixedData::new(2, vec![], vec![fixed("F"), fixed("F")], vec![]).is_none());
    // two constants of one name
    let constants = vec![("N".to_string(), f(1)), ("N".to_string(), f(2))];
    assert!(FixedData::new(2, constants, vec![], vec![]).is_none());
    // a witness column and a fixed column may share a name: the witness column is meant
    let shared = FixedData::new(2, vec![], vec![fixed("a")], vec![witness(0, "a")]).unwrap();
    assert_eq!(shared.witness_name_list(), vec!["a"]);
    assert_eq!(shared.fixed_name_list(), vec!["a"]);
    assert_eq!(shared.constant_name_list(), Vec::<String>::new());

    let names = |list: &[&str]| list.iter().map(|n| n.to_string()).collect::<Vec<_>>();
    assert!(witgen::fixed_data::are_distinct(&names(&[])));
    assert!(witgen::fixed_data::are_distinct(&names(&["a", "b", "ab"])));
    assert!(!witgen::fixed_data::are_distinct(&names(&["a", "b", "a"])));
    assert!(!witgen::fixed_data::are_distinct(&names(&["b", "b"])));
    let constraint = BitConstraint::from_mask(1);
    assert!(witgen::witness_bit_constraints::constraint_names_distinct(&vec![
        ("a".to_string(), constraint),
        ("b".to_string(), constraint),
    ]));
    assert!(!witgen::witness_bit_constraints::constraint_names_distinct(&vec![
        ("a".to_string(), constraint),
        ("a".to_string(), constraint),
    ]));
}

#[test]
fn errors_read_as_one_line() {
    assert_eq!(EvalError::generic("reason").to_string(), "reason");
    assert_eq!(
        EvalError::PreviousValueUnknown("w".to_string()).to_string(),
        "Previous value of the following column is not (yet) known: w."
    );
    assert_eq!(
        EvalError::ConstraintUnsatisfiable("1 != 0".to_string()).to_string(),
        "Linear constraint is not satisfiable: 1 != 0"
    );
    let copy = EvalError::PreviousValueUnknown("w".to_string()).duplicate();
    assert!(matches!(copy, EvalError::PreviousValueUnknown(name) if name == "w"));
}
