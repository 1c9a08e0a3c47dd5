//! Row-by-row witness generation for circuits in polynomial identity form.
//!
//! Given the identities of a circuit, its fixed columns and optional answers
//! to witness queries, the [`generator::Generator`] derives the values of all
//! witness columns one row at a time.

pub mod text;
pub mod field;
pub mod eval_error;
pub mod bit_constraints;
pub mod expression;
pub mod fixed_data;
pub mod util;
pub mod affine_expression;
pub mod expression_evaluator;
pub mod symbolic_witness_evaluator;
pub mod machines;
pub mod window;
pub mod witness_bit_constraints;
pub mod rules;
pub mod query;
pub mod report;
pub mod generator;

use crate::bit_constraints::BitConstraint;
use crate::eval_error::{EvalError, EvalErrorView};
use crate::field::FieldElement;
use vstd::prelude::*;

verus! {

/// What was learnt about one witness of the next row.
#[derive(Clone, Copy, Debug, PartialEq, Eq)]
pub enum Constraint {
    /// The witness has this value.
    Assignment(FieldElement),
    /// The witness has no bit set outside the mask.
    BitConstraint(BitConstraint),
}

/// A [`Constraint`] with the field element as an integer.
pub enum ConstraintView {
    Assignment(int),
    BitConstraint(BitConstraint),
}

impl View for Constraint {
    type V = ConstraintView;

    open spec fn view(&self) -> ConstraintView {
        match *self {
            Constraint::Assignment(value) => ConstraintView::Assignment(value@),
            Constraint::BitConstraint(constraint) => ConstraintView::BitConstraint(constraint),
        }
    }
}

/// What processing an identity or a query gives: constraints on witnesses, each
/// with the witness's id, or the reason why nothing could be concluded.
pub type EvalResult = Result<Vec<(usize, Constraint)>, EvalError>;

/// The constraints with their field elements as integers.
pub open spec fn constraints_view(constraints: Seq<(usize, Constraint)>) -> Seq<
    (usize, ConstraintView),
> {
    Seq::new(constraints.len(), |i: int| (constraints[i].0, constraints[i].1@))
}

/// An [`EvalResult`] with its field elements as integers and its texts as sequences.
pub open spec fn eval_result_view(result: EvalResult) -> Result<
    Seq<(usize, ConstraintView)>,
    EvalErrorView,
> {
    match result {
        Ok(constraints) => Ok(constraints_view(constraints@)),
        Err(error) => Err(error@),
    }
}

} // verus!
