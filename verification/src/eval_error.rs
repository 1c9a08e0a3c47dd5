//! The ways in which evaluating or solving an identity can fail.

use vstd::prelude::*;

verus! {

/// Why an expression could not be evaluated or an identity not be solved.
#[derive(Debug)]
pub enum EvalError {
    /// A value of the previous row was read before it was set; holds the column's name.
    PreviousValueUnknown(String),
    /// The identity cannot hold, whatever the unknowns are; holds the details.
    ConstraintUnsatisfiable(String),
    /// Anything else, in words.
    Generic(String),
}

/// An [`EvalError`] with its texts as sequences of characters.
pub enum EvalErrorView {
    PreviousValueUnknown(Seq<char>),
    ConstraintUnsatisfiable(Seq<char>),
    Generic(Seq<char>),
}

impl View for EvalError {
    type V = EvalErrorView;

    open spec fn view(&self) -> EvalErrorView {
        match *self {
            EvalError::PreviousValueUnknown(name) => EvalErrorView::PreviousValueUnknown(name@),
            EvalError::ConstraintUnsatisfiable(detail) => EvalErrorView::ConstraintUnsatisfiable(
                detail@,
            ),
            EvalError::Generic(reason) => EvalErrorView::Generic(reason@),
        }
    }
}

impl EvalErrorView {
    /// The error as one line of text.
    pub open spec fn text(self) -> Seq<char> {
        match self {
            EvalErrorView::PreviousValueUnknown(name) =>
                "Previous value of the following column is not (yet) known: "@ + name + "."@,
            EvalErrorView::ConstraintUnsatisfiable(detail) =>
                "Linear constraint is not satisfiable: "@ + detail,
            EvalErrorView::Generic(reason) => reason,
        }
    }
}

impl EvalError {
    /// A generic error with the given reason.
    pub fn generic(reason: &str) -> (r: EvalError)
        ensures
            r@ == EvalErrorView::Generic(reason@),
    {
        EvalError::Generic(String::from_str(reason))
    }

    /// A copy of the error.
    pub fn duplicate(&self) -> (r: EvalError)
        ensures
            r@ == self@,
    {
        match self {
            EvalError::PreviousValueUnknown(name) => EvalError::PreviousValueUnknown(name.clone()),
            EvalError::ConstraintUnsatisfiable(detail) => EvalError::ConstraintUnsatisfiable(
                detail.clone(),
            ),
            EvalError::Generic(reason) => EvalError::Generic(reason.clone()),
        }
    }

    /// The error as one line of text.
    pub fn to_string(&self) -> (r: String)
        ensures
            r@ == self@.text(),
    {
        match self {
            EvalError::PreviousValueUnknown(name) => {
                let mut out = String::from_str(
                    "Previous value of the following column is not (yet) known: ",
                );
                out.append(name.as_str());
                out.append(".");
                out
            },
            EvalError::ConstraintUnsatisfiable(detail) => {
                let mut out = String::from_str("Linear constraint is not satisfiable: ");
                out.append(detail.as_str());
                out
            },
            EvalError::Generic(reason) => reason.clone(),
        }
    }
}

} // verus!
