//! Resolves the constants and column references of an expression on one row:
//! fixed columns by their values, witness columns by what a
//! [`WitnessColumnEvaluator`] knows of them.

use crate::affine_expression::{AffineExpression, LinearForm};
use crate::eval_error::{EvalError, EvalErrorView};
use crate::expression_evaluator::{represents, SymbolicVariables};
use crate::fixed_data::{index_of_name, DegreeType, FixedData};
use vstd::prelude::*;

verus! {

/// Says what a reference to a witness column stands for.
pub trait WitnessColumnEvaluator {
    /// What has to hold of `self` for it to be asked.
    spec fn valid(&self) -> bool;

    /// The number of witnesses that a value can depend on.
    spec fn witness_count(&self) -> nat;

    /// What a reference to the witness column `name` stands for, on this row or the next.
    spec fn value_spec(&self, name: Seq<char>, next: bool) -> Result<LinearForm, EvalErrorView>;

    /// What a reference to the witness column `name` stands for: a value, where
    /// it is known, the witness itself as an unknown, or an error.
    fn value(&self, name: &str, next: bool) -> (r: Result<AffineExpression, EvalError>)
        requires
            self.valid(),
        ensures
            represents(r, self.value_spec(name@, next), self.witness_count()),
    ;
}

/// Resolves references on the row `row` of the fixed columns.
pub struct SymbolicWitnessEvaluator<'a, WA: WitnessColumnEvaluator> {
    pub fixed_data: &'a FixedData,
    pub row: DegreeType,
    pub witness_access: WA,
}

impl<'a, WA: WitnessColumnEvaluator> SymbolicWitnessEvaluator<'a, WA> {
    /// Constructs a new evaluator for the row `row`: a fixed column `c` is read
    /// at `row`, and `c'` at the row after it, which for the last row is the first.
    pub fn new(fixed_data: &'a FixedData, row: DegreeType, witness_access: WA) -> (r: Self)
        ensures
            r.fixed_data == fixed_data,
            r.row == row,
            r.witness_access == witness_access,
    {
        SymbolicWitnessEvaluator { fixed_data, row, witness_access }
    }

    /// The row at which a reference to a fixed column is read.
    pub open spec fn fixed_row(&self, next: bool) -> int {
        if next {
            (self.row + 1) % (self.fixed_data.degree as int)
        } else {
            self.row as int
        }
    }
}

impl<'a, WA: WitnessColumnEvaluator> SymbolicVariables for SymbolicWitnessEvaluator<'a, WA> {
    open spec fn valid(&self) -> bool {
        &&& self.fixed_data.wf()
        &&& self.row < self.fixed_data.degree
        &&& self.witness_access.valid()
        &&& self.witness_access.witness_count() == self.fixed_data.witness_count()
    }

    open spec fn witness_count(&self) -> nat {
        self.fixed_data.witness_count()
    }

    open spec fn constant_spec(&self, name: Seq<char>) -> Result<LinearForm, EvalErrorView> {
        match self.fixed_data.constant_value(name) {
            Some(value) => Ok(LinearForm::constant(self.witness_count(), value@)),
            None => Err(EvalErrorView::Generic("Unknown constant: "@ + name)),
        }
    }

    open spec fn value_spec(&self, name: Seq<char>, next: bool) -> Result<
        LinearForm,
        EvalErrorView,
    > {
        if index_of_name(self.fixed_data.witness_names(), name) is Some {
            self.witness_access.value_spec(name, next)
        } else {
            match index_of_name(self.fixed_data.fixed_names(), name) {
                Some(column) => Ok(
                    LinearForm::constant(
                        self.witness_count(),
                        self.fixed_data.fixed_cols@[column].values@[self.fixed_row(next)]@,
                    ),
                ),
                None => Err(EvalErrorView::Generic("Unknown column: "@ + name)),
            }
        }
    }

    fn constant(&self, name: &str) -> (r: Result<AffineExpression, EvalError>) {
        match self.fixed_data.constant(name) {
            Some(value) => Ok(AffineExpression::from_field(value)),
            None => {
                let mut reason = String::from_str("Unknown constant: ");
                reason.append(name);
                Err(EvalError::Generic(reason))
            },
        }
    }

    fn value(&self, name: &str, next: bool) -> (r: Result<AffineExpression, EvalError>) {
        if self.fixed_data.witness_id(name).is_some() {
            self.witness_access.value(name, next)
        } else {
            match self.fixed_data.fixed_column_id(name) {
                Some(column) => {
                    let values = &self.fixed_data.fixed_cols[column].values;
                    assert(self.fixed_data.fixed_cols@[column as int].values@.len()
                        == self.fixed_data.degree);
                    let row = if next {
                        (self.row + 1) % self.fixed_data.degree
                    } else {
                        self.row
                    };
                    let length = values.len();
                    assert(row < length);
                    let affine = AffineExpression::from_field(values[row as usize]);
                    Ok(affine)
                },
                None => {
                    let mut reason = String::from_str("Unknown column: ");
                    reason.append(name);
                    Err(EvalError::Generic(reason))
                },
            }
        }
    }
}

} // verus!
