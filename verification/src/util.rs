//! Helpers shared by the evaluators and the generator.

use crate::expression::Expression;
use crate::field::FieldElement;
use crate::fixed_data::{index_of_name, FixedData};
use vstd::prelude::*;

verus! {

/// Gives the witness columns their names.
pub trait WitnessColumnNamer {
    /// The number of witness columns that have a name.
    spec fn named_count(&self) -> nat;

    /// The name of the witness column `i`.
    spec fn name_of(&self, i: int) -> Seq<char>;

    /// The name of the witness column `i`.
    fn name(&self, i: usize) -> (r: String)
        requires
            i < self.named_count(),
        ensures
            r@ == self.name_of(i as int),
    ;
}

impl WitnessColumnNamer for FixedData {
    open spec fn named_count(&self) -> nat {
        self.witness_count()
    }

    open spec fn name_of(&self, i: int) -> Seq<char> {
        self.witness_cols@[i].name@
    }

    fn name(&self, i: usize) -> (r: String) {
        self.witness_cols[i].name.clone()
    }
}

/// Whether `e` refers to the next row of a column that `witness_names` lists.
pub open spec fn has_next_witness_ref(e: Expression, witness_names: Seq<Seq<char>>) -> bool
    decreases e,
{
    match e {
        Expression::PolynomialReference(reference) => reference.next && index_of_name(
            witness_names,
            reference.name@,
        ) is Some,
        Expression::Tuple(items) => any_has_next_witness_ref(items@, witness_names),
        Expression::FunctionCall(_, arguments) => any_has_next_witness_ref(
            arguments@,
            witness_names,
        ),
        Expression::BinaryOperation(left, _, right) => has_next_witness_ref(*left, witness_names)
            || has_next_witness_ref(*right, witness_names),
        Expression::UnaryOperation(_, inner) => has_next_witness_ref(*inner, witness_names),
        Expression::MatchExpression(scrutinee, arms) => has_next_witness_ref(
            *scrutinee,
            witness_names,
        ) || any_arm_has_next_witness_ref(arms@, witness_names),
        _ => false,
    }
}

/// Whether one of `items` refers to the next row of a witness column.
pub open spec fn any_has_next_witness_ref(
    items: Seq<Expression>,
    witness_names: Seq<Seq<char>>,
) -> bool
    decreases items,
{
    if items.len() == 0 {
        false
    } else {
        any_has_next_witness_ref(items.drop_last(), witness_names) || has_next_witness_ref(
            items.last(),
            witness_names,
        )
    }
}

/// Whether the expression of one of `arms` refers to the next row of a witness column.
pub open spec fn any_arm_has_next_witness_ref(
    arms: Seq<(Option<FieldElement>, Expression)>,
    witness_names: Seq<Seq<char>>,
) -> bool
    decreases arms,
{
    if arms.len() == 0 {
        false
    } else {
        any_arm_has_next_witness_ref(arms.drop_last(), witness_names) || has_next_witness_ref(
            arms.last().1,
            witness_names,
        )
    }
}

fn any_contains_next_witness_ref(items: &Vec<Expression>, fixed_data: &FixedData) -> (r: bool)
    ensures
        r == any_has_next_witness_ref(items@, fixed_data.witness_names()),
    decreases items,
{
    let mut found = false;
    let mut i: usize = 0;
    while i < items.len()
        invariant
            i <= items@.len(),
            found == any_has_next_witness_ref(items@.take(i as int), fixed_data.witness_names()),
        decreases items@.len() - i,
    {
        let ghost longer = items@.take(i + 1);
        assert(longer.drop_last() =~= items@.take(i as int));
        assert(longer.last() == items@[i as int]);
        if contains_next_witness_ref(&items[i], fixed_data) {
            found = true;
        }
        i += 1;
    }
    assert(items@.take(i as int) =~= items@);
    found
}

fn any_arm_contains_next_witness_ref(
    arms: &Vec<(Option<FieldElement>, Expression)>,
    fixed_data: &FixedData,
) -> (r: bool)
    ensures
        r == any_arm_has_next_witness_ref(arms@, fixed_data.witness_names()),
    decreases arms,
{
    let mut found = false;
    let mut i: usize = 0;
    while i < arms.len()
        invariant
            i <= arms@.len(),
            found == any_arm_has_next_witness_ref(
                arms@.take(i as int),
                fixed_data.witness_names(),
            ),
        decreases arms@.len() - i,
    {
        let ghost longer = arms@.take(i + 1);
        assert(longer.drop_last() =~= arms@.take(i as int));
        assert(longer.last() == arms@[i as int]);
        if contains_next_witness_ref(&arms[i].1, fixed_data) {
            found = true;
        }
        i += 1;
    }
    assert(arms@.take(i as int) =~= arms@);
    found
}

/// Whether `expr` refers to the next row of a witness column of `fixed_data`.
pub fn contains_next_witness_ref(expr: &Expression, fixed_data: &FixedData) -> (r: bool)
    ensures
        r == has_next_witness_ref(*expr, fixed_data.witness_names()),
    decreases expr,
{
    match expr {
        Expression::PolynomialReference(reference) => reference.next && fixed_data.witness_id(
            reference.name.as_str(),
        ).is_some(),
        Expression::Tuple(items) => any_contains_next_witness_ref(items, fixed_data),
        Expression::FunctionCall(_, arguments) => any_contains_next_witness_ref(
            arguments,
            fixed_data,
        ),
        Expression::BinaryOperation(left, _, right) => contains_next_witness_ref(left, fixed_data)
            || contains_next_witness_ref(right, fixed_data),
        Expression::UnaryOperation(_, inner) => contains_next_witness_ref(inner, fixed_data),
        Expression::MatchExpression(scrutinee, arms) => contains_next_witness_ref(
            scrutinee,
            fixed_data,
        ) || any_arm_contains_next_witness_ref(arms, fixed_data),
        _ => false,
    }
}

} // verus!
