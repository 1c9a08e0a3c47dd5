//! The window of two rows that expressions are evaluated in: the current
//! row and the next row, with what is known of each.

use crate::affine_expression::{
    lemma_assigned_absent, lemma_assigned_minus, lemma_assigned_negated, lemma_assigned_plus,
    lemma_assigned_scaled, AffineExpression, LinearForm,
};
use crate::eval_error::{EvalError, EvalErrorView};
use crate::expression::{BinaryOperator, Expression};
use crate::expression_evaluator::{evaluation, Bindings};
use crate::field::{modulus, FieldElement};
use crate::fixed_data::{index_of_name, FixedData};
use crate::rules::is_complete;
use crate::symbolic_witness_evaluator::WitnessColumnEvaluator;
use crate::util::{has_next_witness_ref, WitnessColumnNamer};
use vstd::prelude::*;

verus! {

/// Which of the two rows of the window an expression is evaluated on.
#[derive(Clone, Copy, Debug, PartialEq, Eq, Structural)]
pub enum EvaluationRow {
    /// `p` is `p[next_row - 1]`, `p'` is `p[next_row]`.
    Current,
    /// `p` is `p[next_row]`, `p'` is `p[next_row + 1]`.
    Next,
}

/// The values as integers.
pub open spec fn values_view(values: Seq<Option<FieldElement>>) -> Seq<Option<int>> {
    Seq::new(
        values.len(),
        |i: int|
            match values[i] {
                Some(value) => Some(value@),
                None => None,
            },
    )
}

/// What a reference to the witness column `name` stands for in a window of two rows.
///
/// Evaluated on the current row, a column stands for its value in `current`,
/// which has to be known, and its next-row reference for the witness of the
/// next row: its value, where `next` has one, else the unknown itself.
/// Evaluated on the next row, a column stands for the witness of the next
/// row, and a next-row reference is an error.
pub open spec fn witness_value(
    fixed_data: FixedData,
    current: Seq<Option<int>>,
    next: Seq<Option<int>>,
    evaluate_row: EvaluationRow,
    name: Seq<char>,
    next_reference: bool,
) -> Result<LinearForm, EvalErrorView> {
    let n = fixed_data.witness_count();
    match index_of_name(fixed_data.witness_names(), name) {
        None => Err(EvalErrorView::Generic("Unknown witness column: "@ + name)),
        Some(id) => if !next_reference && evaluate_row == EvaluationRow::Current {
            match current[id] {
                Some(value) => Ok(LinearForm::constant(n, value)),
                None => Err(EvalErrorView::PreviousValueUnknown(name)),
            }
        } else if next_reference && evaluate_row == EvaluationRow::Next {
            Err(
                EvalErrorView::Generic(
                    name + "' references the next-next row when evaluating on the current row."@,
                ),
            )
        } else {
            match next[id] {
                Some(value) => Ok(LinearForm::constant(n, value)),
                None => Ok(LinearForm::symbol(n, id)),
            }
        },
    }
}

/// The window of two rows that identities are evaluated in, as plain values:
/// the row before `next_row`, all of it known but on the very first row, and
/// the row `next_row`, as far as it is known.
pub struct Window {
    pub fixed_data: FixedData,
    pub current: Seq<Option<int>>,
    pub next: Seq<Option<int>>,
    pub next_row: int,
}

impl Window {
    /// The row of the fixed columns that goes with `evaluate_row`; the row
    /// before the first row is the last row.
    pub open spec fn fixed_row(self, evaluate_row: EvaluationRow) -> int {
        match evaluate_row {
            EvaluationRow::Current => (self.next_row + self.fixed_data.degree - 1) % (
            self.fixed_data.degree as int),
            EvaluationRow::Next => self.next_row,
        }
    }

    /// What the constant `name` stands for.
    pub open spec fn constant(self, name: Seq<char>) -> Result<LinearForm, EvalErrorView> {
        match self.fixed_data.constant_value(name) {
            Some(value) => Ok(LinearForm::constant(self.fixed_data.witness_count(), value@)),
            None => Err(EvalErrorView::Generic("Unknown constant: "@ + name)),
        }
    }

    /// What a reference to the column `name` stands for: a witness column
    /// as [`witness_value`] says, a fixed column its value on the row of
    /// `evaluate_row`, or on the row after it for a next-row reference.
    pub open spec fn value(
        self,
        evaluate_row: EvaluationRow,
        name: Seq<char>,
        next_reference: bool,
    ) -> Result<LinearForm, EvalErrorView> {
        if index_of_name(self.fixed_data.witness_names(), name) is Some {
            witness_value(
                self.fixed_data,
                self.current,
                self.next,
                evaluate_row,
                name,
                next_reference,
            )
        } else {
            match index_of_name(self.fixed_data.fixed_names(), name) {
                Some(column) => Ok(
                    LinearForm::constant(
                        self.fixed_data.witness_count(),
                        self.fixed_data.fixed_cols@[column].values@[if next_reference {
                            (self.fixed_row(evaluate_row) + 1) % (self.fixed_data.degree as int)
                        } else {
                            self.fixed_row(evaluate_row)
                        }]@,
                    ),
                ),
                None => Err(EvalErrorView::Generic("Unknown column: "@ + name)),
            }
        }
    }

    /// What constants and column references stand for on the row `evaluate_row`.
    pub open spec fn bindings(self, evaluate_row: EvaluationRow) -> Bindings {
        Bindings {
            constant: |name: Seq<char>| self.constant(name),
            value: |name: Seq<char>, next_reference: bool|
                self.value(evaluate_row, name, next_reference),
            witness_count: self.fixed_data.witness_count(),
        }
    }

    /// What `e` evaluates to on the row `evaluate_row` of the window.
    pub open spec fn evaluate(self, e: Expression, evaluate_row: EvaluationRow) -> Result<
        LinearForm,
        EvalErrorView,
    > {
        evaluation(self.bindings(evaluate_row), e)
    }
}

/// The two rows of the window, for the evaluation of references to witness columns.
pub struct EvaluationData<'a> {
    pub fixed_data: &'a FixedData,
    /// Values of the witness polynomials in the current / last row
    pub current_witnesses: &'a Vec<Option<FieldElement>>,
    /// Values of the witness polynomials in the next row
    pub next_witnesses: &'a Vec<Option<FieldElement>>,
    pub evaluate_row: EvaluationRow,
}

impl<'a> WitnessColumnEvaluator for EvaluationData<'a> {
    open spec fn valid(&self) -> bool {
        &&& self.current_witnesses@.len() == self.fixed_data.witness_count()
        &&& self.next_witnesses@.len() == self.fixed_data.witness_count()
    }

    open spec fn witness_count(&self) -> nat {
        self.fixed_data.witness_count()
    }

    open spec fn value_spec(&self, name: Seq<char>, next: bool) -> Result<
        LinearForm,
        EvalErrorView,
    > {
        witness_value(
            *self.fixed_data,
            values_view(self.current_witnesses@),
            values_view(self.next_witnesses@),
            self.evaluate_row,
            name,
            next,
        )
    }

    fn value(&self, name: &str, next: bool) -> (r: Result<AffineExpression, EvalError>) {
        let id = match self.fixed_data.witness_id(name) {
            Some(id) => id,
            None => {
                let mut reason = String::from_str("Unknown witness column: ");
                reason.append(name);
                return Err(EvalError::Generic(reason));
            },
        };
        let count = self.next_witnesses.len();
        assert(id < count);
        match (next, self.evaluate_row) {
            (false, EvaluationRow::Current) => {
                // All values in the "current" row should usually be known.
                // The exception is when we start the analysis on the first row.
                match &self.current_witnesses[id] {
                    Some(value) => Ok(AffineExpression::from_field(*value)),
                    None => Err(EvalError::PreviousValueUnknown(String::from_str(name))),
                }
            },
            (false, EvaluationRow::Next) | (true, EvaluationRow::Current) => {
                match &self.next_witnesses[id] {
                    // We already computed the concrete value
                    Some(value) => Ok(AffineExpression::from_field(*value)),
                    // We continue with a symbolic value
                    None => Ok(AffineExpression::from_witness_poly_value(id)),
                }
            },
            (true, EvaluationRow::Next) => {
                // "double next" or evaluation of a witness on a specific row
                let mut reason = String::from_str(name);
                reason.append("' references the next-next row when evaluating on the current row.");
                Err(EvalError::Generic(reason))
            },
        }
    }
}

impl<'a> WitnessColumnNamer for EvaluationData<'a> {
    open spec fn named_count(&self) -> nat {
        self.fixed_data.witness_count()
    }

    open spec fn name_of(&self, i: int) -> Seq<char> {
        self.fixed_data.name_of(i)
    }

    fn name(&self, i: usize) -> (r: String) {
        self.fixed_data.name(i)
    }
}

/// The row on which the polynomial identity `e = 0` is evaluated: the current
/// row, where `e` refers to the next row of a witness, else the next row.
pub open spec fn identity_row(fixed_data: FixedData, e: Expression) -> EvaluationRow {
    if has_next_witness_ref(e, fixed_data.witness_names()) {
        EvaluationRow::Current
    } else {
        EvaluationRow::Next
    }
}

/// Whether the evaluation, if it gave a form, gave a value: a form over `n`
/// witnesses in which none of them occurs.
pub open spec fn is_value(result: Result<LinearForm, EvalErrorView>, n: nat) -> bool {
    result matches Ok(form) ==> form.coefficients.len() == n && form.is_constant()
}

/// In a window whose next row is complete, an expression evaluates to a value
/// or not at all.
pub proof fn lemma_complete_window_gives_values(window: Window, row: EvaluationRow, e: Expression)
    requires
        is_complete(window.next),
        window.next.len() == window.fixed_data.witness_count(),
    ensures
        is_value(window.evaluate(e, row), window.fixed_data.witness_count()),
    decreases e,
{
    let n = window.fixed_data.witness_count();
    match e {
        Expression::PolynomialReference(reference) => {
            let found = index_of_name(window.fixed_data.witness_names(), reference.name@);
            if found is Some {
                let id = found->0;
                assert(crate::fixed_data::is_first_match(
                    window.fixed_data.witness_names(),
                    reference.name@,
                    id,
                ));
                assert(window.next[id] is Some);
            }
        },
        Expression::BinaryOperation(left, op, right) => {
            lemma_complete_window_gives_values(window, row, *left);
            lemma_complete_window_gives_values(window, row, *right);
            let a = window.evaluate(*left, row);
            let b = window.evaluate(*right, row);
            if a is Ok && b is Ok {
                let x = a->Ok_0;
                let y = b->Ok_0;
                assert(0 * x.offset == 0) by (nonlinear_arith);
                assert(0 * y.offset == 0) by (nonlinear_arith);
                assert(0 * crate::field::inverse_of(y.offset) == 0) by (nonlinear_arith);
            }
        },
        Expression::UnaryOperation(op, inner) => {
            lemma_complete_window_gives_values(window, row, *inner);
        },
        _ => {},
    }
}

/// Whether every known value is a least non-negative representative.
pub open spec fn are_canonical(values: Seq<Option<int>>) -> bool {
    forall|j: int|
        0 <= j < values.len() ==> ((#[trigger] values[j]) matches Some(value) ==> 0 <= value
            < modulus())
}

impl Window {
    /// The window once the witness `i` of the next row is known to be `value`.
    pub open spec fn with_next(self, i: int, value: int) -> Window {
        Window {
            fixed_data: self.fixed_data,
            current: self.current,
            next: self.next.update(i, Some(value)),
            next_row: self.next_row,
        }
    }
}

/// Evaluating and learning a value can be done in either order: what an
/// expression evaluates to once a witness of the next row is known is what
/// it evaluated to before, with the witness given its value.
pub proof fn lemma_evaluation_after_assignment(
    window: Window,
    row: EvaluationRow,
    e: Expression,
    i: int,
    value: int,
)
    requires
        window.current.len() == window.fixed_data.witness_count(),
        window.next.len() == window.fixed_data.witness_count(),
        0 <= i < window.next.len(),
        window.next[i] is None,
        0 <= value < modulus(),
        are_canonical(window.current),
        are_canonical(window.next),
    ensures
        window.evaluate(e, row) matches Ok(form) ==> {
            &&& form.is_canonical()
            &&& form.coefficients.len() == window.fixed_data.witness_count()
            &&& window.with_next(i, value).evaluate(e, row) == Ok::<LinearForm, EvalErrorView>(
                form.assigned(i, value),
            )
        },
    decreases e,
{
    let n = window.fixed_data.witness_count();
    let after = window.with_next(i, value);
    let zero = LinearForm::constant(n, 0);
    assert(zero.assigned(i, value) == zero) by {
        lemma_assigned_absent(zero, i, value);
    }
    match e {
        Expression::Constant(name) => {
            if let Some(constant) = window.fixed_data.constant_value(name@) {
                crate::field::lemma_view_range(constant);
                lemma_assigned_absent(LinearForm::constant(n, constant@), i, value);
            }
        },
        Expression::Number(number) => {
            crate::field::lemma_view_range(number);
            lemma_assigned_absent(LinearForm::constant(n, number@), i, value);
        },
        Expression::PolynomialReference(reference) => {
            let witness = index_of_name(window.fixed_data.witness_names(), reference.name@);
            if let Some(id) = witness {
                assert(crate::fixed_data::is_first_match(
                    window.fixed_data.witness_names(),
                    reference.name@,
                    id,
                ));
                if let Ok(form) = window.evaluate(e, row) {
                    assert(window.current[id] matches Some(known) ==> 0 <= known < modulus());
                    assert(window.next[id] matches Some(known) ==> 0 <= known < modulus());
                    if form.is_constant() {
                        lemma_assigned_absent(form, i, value);
                    } else {
                        assert(form == LinearForm::symbol(n, id));
                        if id == i {
                            assert(form.coefficients[i] * value == value) by (nonlinear_arith)
                                requires
                                    form.coefficients[i] == 1,
                            ;
                            assert(form.assigned(i, value).coefficients =~= LinearForm::constant(
                                n,
                                value,
                            ).coefficients);
                        } else {
                            lemma_assigned_absent(form, i, value);
                        }
                    }
                }
            } else {
                let fixed = index_of_name(window.fixed_data.fixed_names(), reference.name@);
                if let Ok(form) = window.evaluate(e, row) {
                    let column = fixed->0;
                    let at = if reference.next {
                        (window.fixed_row(row) + 1) % (window.fixed_data.degree as int)
                    } else {
                        window.fixed_row(row)
                    };
                    crate::field::lemma_view_range(
                        window.fixed_data.fixed_cols@[column].values@[at],
                    );
                    lemma_assigned_absent(form, i, value);
                }
            }
        },
        Expression::UnaryOperation(op, inner) => {
            lemma_evaluation_after_assignment(window, row, *inner, i, value);
            if let Ok(form) = window.evaluate(*inner, row) {
                lemma_assigned_negated(form, i, value);
            }
        },
        Expression::BinaryOperation(left, op, right) => {
            lemma_evaluation_after_assignment(window, row, *left, i, value);
            lemma_evaluation_after_assignment(window, row, *right, i, value);
            let a = window.evaluate(*left, row);
            let b = window.evaluate(*right, row);
            if window.evaluate(e, row) is Ok {
                if a is Ok && a->Ok_0.is_constant() {
                    lemma_assigned_absent(a->Ok_0, i, value);
                }
                if b is Ok && b->Ok_0.is_constant() {
                    lemma_assigned_absent(b->Ok_0, i, value);
                }
                if a is Ok && b is Ok {
                    let x = a->Ok_0;
                    let y = b->Ok_0;
                    let x2 = x.assigned(i, value);
                    let y2 = y.assigned(i, value);
                    match op {
                        BinaryOperator::Add => {
                            lemma_assigned_plus(x, y, i, value);
                        },
                        BinaryOperator::Sub => {
                            lemma_assigned_minus(x, y, i, value);
                        },
                        BinaryOperator::Mul => {
                            lemma_assigned_scaled(x, y.offset, i, value);
                            lemma_assigned_scaled(y, x.offset, i, value);
                            assert(0 * x.offset == 0) by (nonlinear_arith);
                            assert(0 * y.offset == 0) by (nonlinear_arith);
                            assert(0 * x2.offset == 0) by (nonlinear_arith);
                            assert(x2.offset * y.offset == y.offset * x2.offset)
                                by (nonlinear_arith);
                            if x2.is_constant() {
                                assert(x2.scaled(y.offset).coefficients =~= zero.coefficients);
                                if y.is_constant() {
                                    assert(y.scaled(x2.offset).coefficients =~= zero.coefficients);
                                }
                            }
                            if y2.is_constant() {
                                assert(y2.scaled(x.offset).coefficients =~= zero.coefficients);
                            }
                        },
                        BinaryOperator::Div => {
                            lemma_assigned_scaled(x, crate::field::inverse_of(y.offset), i, value);
                        },
                    }
                }
            }
        },
        _ => {},
    }
}

/// A witness that occurs in what an expression evaluates to is a witness of
/// the next row that is not known.
pub proof fn lemma_only_unknowns_occur(window: Window, row: EvaluationRow, e: Expression)
    requires
        window.next.len() == window.fixed_data.witness_count(),
    ensures
        window.evaluate(e, row) matches Ok(form) ==> {
            &&& form.coefficients.len() == window.fixed_data.witness_count()
            &&& forall|j: int|
                0 <= j < form.coefficients.len() && #[trigger] form.coefficients[j] != 0
                    ==> window.next[j] is None
        },
    decreases e,
{
    match e {
        Expression::PolynomialReference(reference) => {
            let witness = index_of_name(window.fixed_data.witness_names(), reference.name@);
            if let Some(id) = witness {
                assert(crate::fixed_data::is_first_match(
                    window.fixed_data.witness_names(),
                    reference.name@,
                    id,
                ));
            }
        },
        Expression::UnaryOperation(op, inner) => {
            lemma_only_unknowns_occur(window, row, *inner);
        },
        Expression::BinaryOperation(left, op, right) => {
            lemma_only_unknowns_occur(window, row, *left);
            lemma_only_unknowns_occur(window, row, *right);
            let a = window.evaluate(*left, row);
            let b = window.evaluate(*right, row);
            if a is Ok && b is Ok {
                let x = a->Ok_0;
                let y = b->Ok_0;
                assert(0 * x.offset == 0) by (nonlinear_arith);
                assert(0 * y.offset == 0) by (nonlinear_arith);
                assert(0 * crate::field::inverse_of(y.offset) == 0) by (nonlinear_arith);
            }
        },
        _ => {},
    }
}

/// What evaluates to a value keeps its value, whatever is learnt of the next
/// row later: an identity that holds goes on to hold.
pub proof fn lemma_values_stay(
    window: Window,
    row: EvaluationRow,
    e: Expression,
    i: int,
    value: int,
)
    requires
        window.current.len() == window.fixed_data.witness_count(),
        window.next.len() == window.fixed_data.witness_count(),
        0 <= i < window.next.len(),
        window.next[i] is None,
        0 <= value < modulus(),
        are_canonical(window.current),
        are_canonical(window.next),
        window.evaluate(e, row) matches Ok(form) && form.is_constant(),
    ensures
        window.with_next(i, value).evaluate(e, row) == window.evaluate(e, row),
{
    lemma_evaluation_after_assignment(window, row, e, i, value);
    lemma_assigned_absent(window.evaluate(e, row)->Ok_0, i, value);
}

} // verus!
