//! Witness queries: how a query reads as text, and what an answer teaches.

use crate::eval_error::EvalErrorView;
use crate::expression::{expression_text, Expression};
use crate::field::FieldElement;
use crate::text::{decimal, decimal_text, join_text, quote_text};
use crate::window::{EvaluationRow, Window};
use crate::{constraints_view, Constraint, ConstraintView};
use vstd::prelude::*;

verus! {

/// Whether the arm's pattern admits `value`: it is the wildcard or `value` itself.
pub open spec fn arm_admits(arm: (Option<FieldElement>, Expression), value: int) -> bool {
    match arm.0 {
        Some(pattern) => pattern@ == value,
        None => true,
    }
}

/// Whether `k` is the first arm that admits `value`.
pub open spec fn is_first_arm(
    arms: Seq<(Option<FieldElement>, Expression)>,
    value: int,
    k: int,
) -> bool {
    &&& 0 <= k < arms.len()
    &&& arm_admits(arms[k], value)
    &&& forall|j: int| 0 <= j < k ==> !arm_admits(#[trigger] arms[j], value)
}

/// The first arm that admits `value`, if there is one.
pub open spec fn first_arm(arms: Seq<(Option<FieldElement>, Expression)>, value: int) -> Option<
    int,
> {
    if exists|k: int| is_first_arm(arms, value, k) {
        Some(choose|k: int| is_first_arm(arms, value, k))
    } else {
        None
    }
}

/// The text of a query: what is handed to the query callback.
///
/// An expression that evaluates to a constant on the next row reads as that
/// constant in decimal notation. Else a tuple reads as its items, separated by
/// a comma and a space; the local variable `$0` as the number of the next row;
/// a string literal as itself in double quotes, with `\` and `"` escaped; a
/// match expression as the first arm that admits the value of the scrutinee.
/// Anything else is an error.
pub open spec fn query_text(window: Window, query: Expression) -> Result<Seq<char>, Seq<char>>
    decreases query, 0nat,
{
    let evaluated = window.evaluate(query, EvaluationRow::Next);
    if evaluated is Ok && evaluated->Ok_0.is_constant() {
        Ok(decimal_text(evaluated->Ok_0.offset as nat))
    } else {
        match query {
            Expression::Tuple(items) => match query_texts(window, items@) {
                Ok(texts) => Ok(join_text(texts, ", "@)),
                Err(error) => Err(error),
            },
            Expression::LocalVariableReference(index) => if index == 0 {
                Ok(decimal_text(window.next_row as nat))
            } else {
                Err("Cannot handle / evaluate "@ + expression_text(query))
            },
            Expression::String(value) => Ok(quote_text(value@)),
            Expression::MatchExpression(scrutinee, arms) => match match_text(
                window,
                *scrutinee,
                arms@,
            ) {
                Ok(text) => Ok(text),
                Err(error) => Err(
                    "Cannot handle / evaluate "@ + expression_text(query) + ": "@ + error.text(),
                ),
            },
            _ => Err("Cannot handle / evaluate "@ + expression_text(query)),
        }
    }
}

/// The texts of the queries, in order, or the first error among them.
pub open spec fn query_texts(window: Window, items: Seq<Expression>) -> Result<
    Seq<Seq<char>>,
    Seq<char>,
>
    decreases items, 0nat,
{
    if items.len() == 0 {
        Ok(Seq::empty())
    } else {
        match query_texts(window, items.drop_last()) {
            Err(error) => Err(error),
            Ok(texts) => match query_text(window, items.last()) {
                Ok(text) => Ok(texts.push(text)),
                Err(error) => Err(error),
            },
        }
    }
}

/// The text of a match expression in a query: that of the first arm that admits
/// the value of the scrutinee, which has to be a constant on the next row.
pub open spec fn match_text(
    window: Window,
    scrutinee: Expression,
    arms: Seq<(Option<FieldElement>, Expression)>,
) -> Result<Seq<char>, EvalErrorView>
    decreases arms, 1nat,
{
    match window.evaluate(scrutinee, EvaluationRow::Next) {
        Err(error) => Err(error),
        Ok(form) => if !form.is_constant() {
            Err(EvalErrorView::Generic("Match scrutinee not constant"@))
        } else {
            match first_arm(arms, form.offset) {
                None => Err(
                    EvalErrorView::Generic(
                        "Match arm not found for value "@ + decimal_text(form.offset as nat),
                    ),
                ),
                Some(k) => if 0 <= k < arms.len() {
                    match query_text(window, arms[k].1) {
                        Ok(text) => Ok(text),
                        Err(error) => Err(EvalErrorView::Generic(error)),
                    }
                } else {
                    Err(EvalErrorView::Generic(Seq::empty()))
                },
            }
        },
    }
}

/// The view of a text or an error in words.
pub open spec fn text_result_view(result: Result<String, String>) -> Result<Seq<char>, Seq<char>> {
    match result {
        Ok(text) => Ok(text@),
        Err(error) => Err(error@),
    }
}

/// What an answer to the query of the witness `id` teaches: its value, if
/// there is an answer, else nothing.
pub fn query_answer(id: usize, answer: Option<FieldElement>) -> (r: Vec<(usize, Constraint)>)
    ensures
        constraints_view(r@) == (match answer {
            Some(value) => seq![(id, ConstraintView::Assignment(value@))],
            None => Seq::empty(),
        }),
{
    let mut constraints: Vec<(usize, Constraint)> = Vec::new();
    match answer {
        Some(value) => {
            constraints.push((id, Constraint::Assignment(value)));
            assert(constraints_view(constraints@) =~= seq![
                (id, ConstraintView::Assignment(value@)),
            ]);
        },
        None => {
            assert(constraints_view(constraints@) =~= Seq::empty());
        },
    }
    constraints
}

} // verus!
