//! Folds an expression into an affine expression, given what its constants
//! and column references stand for.

use crate::affine_expression::{AffineExpression, LinearForm};
use crate::eval_error::{EvalError, EvalErrorView};
use crate::expression::{BinaryOperator, Expression, UnaryOperator};
use crate::field::{has_inverse, inverse_of};
use vstd::prelude::*;

verus! {

/// Whether `result` is the affine expression or the error that `expected` describes,
/// over `n` witnesses.
pub open spec fn represents(
    result: Result<AffineExpression, EvalError>,
    expected: Result<LinearForm, EvalErrorView>,
    n: nat,
) -> bool {
    match (result, expected) {
        (Ok(expression), Ok(form)) => expression.width() <= n && expression.form(n) == form,
        (Err(error), Err(view)) => error@ == view,
        _ => false,
    }
}

/// Says what the named constants and the column references of an expression stand for.
pub trait SymbolicVariables {
    /// What has to hold of `self` for it to be asked.
    spec fn valid(&self) -> bool;

    /// The number of witnesses that a value can depend on.
    spec fn witness_count(&self) -> nat;

    /// What the constant `name` stands for.
    spec fn constant_spec(&self, name: Seq<char>) -> Result<LinearForm, EvalErrorView>;

    /// What a reference to the column `name` stands for, on this row or the next.
    spec fn value_spec(&self, name: Seq<char>, next: bool) -> Result<LinearForm, EvalErrorView>;

    /// What the constant `name` stands for.
    fn constant(&self, name: &str) -> (r: Result<AffineExpression, EvalError>)
        requires
            self.valid(),
        ensures
            represents(r, self.constant_spec(name@), self.witness_count()),
    ;

    /// What a reference to the column `name` stands for, on this row or the next.
    fn value(&self, name: &str, next: bool) -> (r: Result<AffineExpression, EvalError>)
        requires
            self.valid(),
        ensures
            represents(r, self.value_spec(name@, next), self.witness_count()),
    ;
}

/// What a binary operation gives, from what its two sides gave.
///
/// A product with a side that is the constant zero is zero, even where the
/// other side could not be evaluated. Otherwise the error of the left side
/// comes before that of the right side. A product needs one constant side,
/// a quotient a constant divisor that has an inverse.
pub open spec fn binary_evaluation(
    op: BinaryOperator,
    left: Result<LinearForm, EvalErrorView>,
    right: Result<LinearForm, EvalErrorView>,
    n: nat,
) -> Result<LinearForm, EvalErrorView> {
    if op == BinaryOperator::Mul && left is Ok && left->Ok_0.constant_value() == Some(0int) {
        Ok(LinearForm::constant(n, 0))
    } else if op == BinaryOperator::Mul && right is Ok && right->Ok_0.constant_value() == Some(
        0int,
    ) {
        Ok(LinearForm::constant(n, 0))
    } else {
        match (left, right) {
            (Err(error), _) => Err(error),
            (Ok(_), Err(error)) => Err(error),
            (Ok(a), Ok(b)) => match op {
                BinaryOperator::Add => Ok(a.plus(b)),
                BinaryOperator::Sub => Ok(a.minus(b)),
                BinaryOperator::Mul => if a.is_constant() {
                    Ok(b.scaled(a.offset))
                } else if b.is_constant() {
                    Ok(a.scaled(b.offset))
                } else {
                    Err(EvalErrorView::Generic("Multiplication of two non-constants."@))
                },
                BinaryOperator::Div => if !b.is_constant() {
                    Err(EvalErrorView::Generic("Division by a non-constant."@))
                } else if has_inverse(b.offset) {
                    Ok(a.scaled(inverse_of(b.offset)))
                } else {
                    Err(EvalErrorView::Generic("Division by a number without inverse."@))
                },
            },
        }
    }
}

/// What the constants and the column references of an expression stand for,
/// over `witness_count` witnesses.
pub struct Bindings {
    pub constant: spec_fn(Seq<char>) -> Result<LinearForm, EvalErrorView>,
    pub value: spec_fn(Seq<char>, bool) -> Result<LinearForm, EvalErrorView>,
    pub witness_count: nat,
}

/// What `variables` says that constants and column references stand for.
pub open spec fn bindings_of<SV: SymbolicVariables>(variables: &SV) -> Bindings {
    Bindings {
        constant: |name: Seq<char>| variables.constant_spec(name),
        value: |name: Seq<char>, next: bool| variables.value_spec(name, next),
        witness_count: variables.witness_count(),
    }
}

/// What `e` evaluates to, with its constants and references resolved by `bindings`.
pub open spec fn evaluation(bindings: Bindings, e: Expression) -> Result<
    LinearForm,
    EvalErrorView,
>
    decreases e,
{
    match e {
        Expression::Constant(name) => (bindings.constant)(name@),
        Expression::PolynomialReference(reference) => (bindings.value)(
            reference.name@,
            reference.next,
        ),
        Expression::Number(value) => Ok(LinearForm::constant(bindings.witness_count, value@)),
        Expression::BinaryOperation(left, op, right) => binary_evaluation(
            op,
            evaluation(bindings, *left),
            evaluation(bindings, *right),
            bindings.witness_count,
        ),
        Expression::UnaryOperation(op, inner) => match evaluation(bindings, *inner) {
            Ok(form) => Ok(
                match op {
                    UnaryOperator::Plus => form,
                    UnaryOperator::Minus => form.negated(),
                },
            ),
            Err(error) => Err(error),
        },
        Expression::Tuple(_) => Err(EvalErrorView::Generic("Tuple not implemented."@)),
        Expression::String(_) => Err(EvalErrorView::Generic("String not implemented."@)),
        Expression::LocalVariableReference(_) => Err(
            EvalErrorView::Generic("Local variable references not implemented."@),
        ),
        Expression::PublicReference(_) => Err(
            EvalErrorView::Generic("Public references not implemented."@),
        ),
        Expression::FunctionCall(_, _) => Err(
            EvalErrorView::Generic("Function calls not implemented."@),
        ),
        Expression::MatchExpression(_, _) => Err(
            EvalErrorView::Generic("Match expressions not implemented."@),
        ),
    }
}

/// Evaluates expressions over the variables it holds.
pub struct ExpressionEvaluator<SV: SymbolicVariables> {
    pub variables: SV,
}

impl<SV: SymbolicVariables> ExpressionEvaluator<SV> {
    pub fn new(variables: SV) -> (r: Self)
        ensures
            r.variables == variables,
    {
        ExpressionEvaluator { variables }
    }

    /// Tries to evaluate `expr` to an expression that is affine in the unknown witnesses.
    pub fn evaluate(&self, expr: &Expression) -> (r: Result<AffineExpression, EvalError>)
        requires
            self.variables.valid(),
        ensures
            represents(
                r,
                evaluation(bindings_of(&self.variables), *expr),
                self.variables.witness_count(),
            ),
        decreases expr,
    {
        match expr {
            Expression::Constant(name) => self.variables.constant(name.as_str()),
            Expression::PolynomialReference(reference) => self.variables.value(
                reference.name.as_str(),
                reference.next,
            ),
            Expression::Number(value) => Ok(AffineExpression::from_field(*value)),
            Expression::BinaryOperation(left, op, right) => {
                let left_result = self.evaluate(left);
                let right_result = self.evaluate(right);
                self.evaluate_binary_operation(
                    *op,
                    left_result,
                    right_result,
                    Ghost(evaluation(bindings_of(&self.variables), **left)),
                    Ghost(evaluation(bindings_of(&self.variables), **right)),
                )
            },
            Expression::UnaryOperation(op, inner) => {
                match self.evaluate(inner) {
                    Ok(value) => match op {
                        UnaryOperator::Plus => Ok(value),
                        UnaryOperator::Minus => Ok(value.neg()),
                    },
                    Err(error) => Err(error),
                }
            },
            Expression::Tuple(_) => Err(EvalError::generic("Tuple not implemented.")),
            Expression::String(_) => Err(EvalError::generic("String not implemented.")),
            Expression::LocalVariableReference(_) => Err(
                EvalError::generic("Local variable references not implemented."),
            ),
            Expression::PublicReference(_) => Err(
                EvalError::generic("Public references not implemented."),
            ),
            Expression::FunctionCall(_, _) => Err(
                EvalError::generic("Function calls not implemented."),
            ),
            Expression::MatchExpression(_, _) => Err(
                EvalError::generic("Match expressions not implemented."),
            ),
        }
    }

    fn is_zero_constant(
        result: &Result<AffineExpression, EvalError>,
        Ghost(expected): Ghost<Result<LinearForm, EvalErrorView>>,
        Ghost(n): Ghost<nat>,
    ) -> (r: bool)
        requires
            represents(*result, expected, n),
        ensures
            r == (expected is Ok && expected->Ok_0.constant_value() == Some(0int)),
    {
        match result {
            Ok(value) => match value.constant_value() {
                Some(constant) => constant.is_zero(),
                None => false,
            },
            Err(_) => false,
        }
    }

    fn evaluate_binary_operation(
        &self,
        op: BinaryOperator,
        left: Result<AffineExpression, EvalError>,
        right: Result<AffineExpression, EvalError>,
        Ghost(left_form): Ghost<Result<LinearForm, EvalErrorView>>,
        Ghost(right_form): Ghost<Result<LinearForm, EvalErrorView>>,
    ) -> (r: Result<AffineExpression, EvalError>)
        requires
            represents(left, left_form, self.variables.witness_count()),
            represents(right, right_form, self.variables.witness_count()),
        ensures
            represents(
                r,
                binary_evaluation(op, left_form, right_form, self.variables.witness_count()),
                self.variables.witness_count(),
            ),
    {
        let ghost n = self.variables.witness_count();
        if matches!(op, BinaryOperator::Mul) && (Self::is_zero_constant(
            &left,
            Ghost(left_form),
            Ghost(n),
        ) || Self::is_zero_constant(&right, Ghost(right_form), Ghost(n))) {
            return Ok(AffineExpression::from_field(crate::field::FieldElement::zero()));
        }
        match (left, right) {
            (Err(error), _) => Err(error),
            (Ok(_), Err(error)) => Err(error),
            (Ok(a), Ok(b)) => match op {
                BinaryOperator::Add => Ok(a.add(&b)),
                BinaryOperator::Sub => Ok(a.sub(&b)),
                BinaryOperator::Mul => {
                    if let Some(factor) = a.constant_value() {
                        Ok(b.mul(factor))
                    } else if let Some(factor) = b.constant_value() {
                        Ok(a.mul(factor))
                    } else {
                        Err(EvalError::generic("Multiplication of two non-constants."))
                    }
                },
                BinaryOperator::Div => {
                    match b.constant_value() {
                        None => Err(EvalError::generic("Division by a non-constant.")),
                        Some(divisor) => match divisor.inverse() {
                            Some(inverse) => Ok(a.mul(inverse)),
                            None => Err(
                                EvalError::generic("Division by a number without inverse."),
                            ),
                        },
                    }
                },
            },
        }
    }
}

} // verus!
