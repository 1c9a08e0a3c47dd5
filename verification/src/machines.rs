//! Sub-solvers for lookups: the interface of a machine, and the lookup in
//! fixed columns that is asked before any machine.

use crate::affine_expression::{AffineExpression, LinearForm};
use crate::eval_error::{EvalError, EvalErrorView};
use crate::expression::{Expression, IdentityKind, SelectedExpressions};
use crate::field::FieldElement;
use crate::fixed_data::{index_of_name, FixedData};
use crate::{constraints_view, Constraint, ConstraintView, EvalResult};
use vstd::prelude::*;

verus! {

/// What a lookup gives, with field elements as integers and texts as sequences:
/// nothing where the lookup is not the solver's to answer.
pub type LookupOutcome = Option<Result<Seq<(usize, ConstraintView)>, EvalErrorView>>;

/// The view of what a machine or the fixed lookup returned.
pub open spec fn lookup_view(result: Option<EvalResult>) -> LookupOutcome {
    match result {
        Some(Ok(constraints)) => Some(Ok(constraints_view(constraints@))),
        Some(Err(error)) => Some(Err(error@)),
        None => None,
    }
}

/// What the evaluated left side of a lookup holds, over `n` witnesses.
pub open spec fn forms_of(left: Seq<Result<AffineExpression, EvalError>>, n: nat) -> Seq<
    Result<LinearForm, EvalErrorView>,
> {
    Seq::new(
        left.len(),
        |i: int|
            match left[i] {
                Ok(expression) => Ok(expression.form(n)),
                Err(error) => Err(error@),
            },
    )
}

/// Whether every expression of the evaluated left side fits `n` witnesses.
pub open spec fn fits(left: Seq<Result<AffineExpression, EvalError>>, n: nat) -> bool {
    forall|i: int|
        0 <= i < left.len() ==> ((#[trigger] left[i]) matches Ok(expression)
            ==> expression.width() <= n)
}

/// A sub-solver that answers the lookups into the columns it owns, and that
/// may keep witness columns of its own.
pub trait Machine {
    /// Answers a lookup whose left side has been evaluated on the next row.
    ///
    /// Returns `None` where the right side does not belong to this machine,
    /// else what it learnt about the witnesses of the left side, which may be nothing.
    fn process_plookup(
        &mut self,
        fixed_data: &FixedData,
        fixed_lookup: &mut FixedLookup,
        kind: IdentityKind,
        left: &[Result<AffineExpression, EvalError>],
        right: &SelectedExpressions,
    ) -> (r: Option<EvalResult>)
        requires
            fixed_data.wf(),
            fits(left@, fixed_data.witness_count()),
    ;

    /// The witness columns that the machine owns, each with its name, once all rows are done.
    fn witness_col_values(&mut self, fixed_data: &FixedData) -> (r: Vec<
        (String, Vec<FieldElement>),
    >)
        requires
            fixed_data.wf(),
    ;
}

/// Answers lookups whose right side is a list of fixed columns without a
/// selector, by looking through the rows of those columns.
pub struct FixedLookup {}

/// The fixed column that `e` names on the row under evaluation, if it names one.
pub open spec fn fixed_column_of(fixed_data: FixedData, e: Expression) -> Option<int> {
    match e {
        Expression::PolynomialReference(reference) => if reference.next {
            None
        } else {
            index_of_name(fixed_data.fixed_names(), reference.name@)
        },
        _ => None,
    }
}

/// The fixed columns that the expressions name, if each of them names one.
pub open spec fn fixed_columns_of(fixed_data: FixedData, expressions: Seq<Expression>) -> Option<
    Seq<int>,
> {
    if forall|i: int|
        0 <= i < expressions.len() ==> fixed_column_of(fixed_data, #[trigger] expressions[i])
            is Some {
        Some(
            Seq::new(
                expressions.len(),
                |i: int| fixed_column_of(fixed_data, expressions[i])->0,
            ),
        )
    } else {
        None
    }
}

/// The first error among the evaluated expressions, if there is one.
pub open spec fn first_error(left: Seq<Result<LinearForm, EvalErrorView>>) -> Option<
    EvalErrorView,
>
    decreases left.len(),
{
    if left.len() == 0 {
        None
    } else {
        match first_error(left.drop_last()) {
            Some(error) => Some(error),
            None => match left.last() {
                Err(error) => Some(error),
                Ok(_) => None,
            },
        }
    }
}

/// Whether the row `row` of the columns agrees with every known value of the left side.
pub open spec fn row_matches(
    fixed_data: FixedData,
    columns: Seq<int>,
    left: Seq<Result<LinearForm, EvalErrorView>>,
    row: int,
) -> bool {
    forall|i: int|
        0 <= i < left.len() && (#[trigger] left[i]) is Ok && left[i]->Ok_0.is_constant()
            ==> fixed_data.fixed_cols@[columns[i]].values@[row]@ == left[i]->Ok_0.offset
}

/// Whether `row` is the only row that agrees with the known values of the left side.
pub open spec fn is_only_match(
    fixed_data: FixedData,
    columns: Seq<int>,
    left: Seq<Result<LinearForm, EvalErrorView>>,
    row: int,
) -> bool {
    &&& 0 <= row < fixed_data.degree
    &&& row_matches(fixed_data, columns, left, row)
    &&& forall|other: int|
        0 <= other < fixed_data.degree && other != row ==> !row_matches(
            fixed_data,
            columns,
            left,
            other,
        )
}

/// What the row `row` says about the unknowns of the left side: each expression
/// that is not a constant is solved for being equal to its column's value on
/// that row. The first failure ends it.
pub open spec fn row_conclusions(
    fixed_data: FixedData,
    columns: Seq<int>,
    left: Seq<Result<LinearForm, EvalErrorView>>,
    row: int,
    n: nat,
) -> Result<Seq<(usize, ConstraintView)>, EvalErrorView>
    decreases left.len(),
{
    if left.len() == 0 {
        Ok(Seq::empty())
    } else {
        match row_conclusions(fixed_data, columns.drop_last(), left.drop_last(), row, n) {
            Err(error) => Err(error),
            Ok(before) => match left.last() {
                Err(error) => Err(error),
                Ok(form) => if form.is_constant() {
                    Ok(before)
                } else {
                    match form.minus(
                        LinearForm::constant(
                            n,
                            fixed_data.fixed_cols@[columns.last()].values@[row]@,
                        ),
                    ).direct_solution() {
                        Ok(constraints) => Ok(before + constraints),
                        Err(error) => Err(error),
                    }
                },
            },
        }
    }
}

/// What the lookup in fixed columns gives.
///
/// It answers plookups whose right side has no selector and lists as many
/// fixed columns, on the row under evaluation, as the left side has
/// expressions. An error of the left side is handed on. Else the rows of
/// those columns are compared with the known values of the left side: with no
/// row that agrees, the lookup cannot hold; with exactly one, the unknowns are
/// solved for that row; with several, nothing is concluded.
pub open spec fn fixed_lookup_outcome(
    fixed_data: FixedData,
    kind: IdentityKind,
    left: Seq<Result<LinearForm, EvalErrorView>>,
    right: SelectedExpressions,
    n: nat,
) -> LookupOutcome {
    if kind != IdentityKind::Plookup || right.selector is Some || right.expressions@.len()
        != left.len() {
        None
    } else {
        match fixed_columns_of(fixed_data, right.expressions@) {
            None => None,
            Some(columns) => match first_error(left) {
                Some(error) => Some(Err(error)),
                None => if exists|row: int| is_only_match(fixed_data, columns, left, row) {
                    let row = choose|row: int| is_only_match(fixed_data, columns, left, row);
                    Some(row_conclusions(fixed_data, columns, left, row, n))
                } else if exists|row: int|
                    0 <= row < fixed_data.degree && row_matches(fixed_data, columns, left, row) {
                    Some(Ok(Seq::empty()))
                } else {
                    Some(Err(EvalErrorView::ConstraintUnsatisfiable("Plookup is not satisfied"@)))
                },
            },
        }
    }
}

impl FixedLookup {
    /// A lookup in fixed columns.
    pub fn new() -> (r: FixedLookup)
        ensures
            r == (FixedLookup {  }),
    {
        FixedLookup {  }
    }

    /// The fixed columns that the right side of a lookup names, if it names nothing else.
    fn resolve_columns(fixed_data: &FixedData, expressions: &Vec<Expression>) -> (r: Option<
        Vec<usize>,
    >)
        ensures
            (match r {
                Some(columns) => Some(Seq::new(columns@.len(), |i: int| columns@[i] as int)),
                None => None,
            }) == fixed_columns_of(*fixed_data, expressions@),
            r matches Some(columns) ==> forall|i: int|
                0 <= i < columns@.len() ==> (#[trigger] columns@[i]) < fixed_data.fixed_cols@.len(),
    {
        let mut columns: Vec<usize> = Vec::new();
        let mut i: usize = 0;
        while i < expressions.len()
            invariant
                i <= expressions@.len(),
                columns@.len() == i,
                forall|j: int|
                    0 <= j < i ==> fixed_column_of(*fixed_data, #[trigger] expressions@[j])
                        == Some(columns@[j] as int),
                forall|j: int|
                    0 <= j < i ==> (#[trigger] columns@[j]) < fixed_data.fixed_cols@.len(),
            decreases expressions@.len() - i,
        {
            let column = match &expressions[i] {
                Expression::PolynomialReference(reference) => if reference.next {
                    None
                } else {
                    fixed_data.fixed_column_id(reference.name.as_str())
                },
                _ => None,
            };
            match column {
                Some(c) => {
                    columns.push(c);
                },
                None => {
                    assert(fixed_column_of(*fixed_data, expressions@[i as int]) is None);
                    return None;
                },
            }
            i += 1;
        }
        proof {
            let found = Seq::new(columns@.len(), |i: int| columns@[i] as int);
            let expected = fixed_columns_of(*fixed_data, expressions@);
            assert(expected is Some);
            assert(found =~= expected->0);
        }
        Some(columns)
    }

    /// The known values of the left side, or its first error.
    fn known_values(
        left: &[Result<AffineExpression, EvalError>],
        Ghost(n): Ghost<nat>,
    ) -> (r: Result<Vec<Option<FieldElement>>, EvalError>)
        requires
            fits(left@, n),
        ensures
            match r {
                Ok(known) => {
                    &&& first_error(forms_of(left@, n)) is None
                    &&& known@.len() == left@.len()
                    &&& forall|i: int|
                        0 <= i < left@.len() ==> (#[trigger] left@[i]) is Ok && (match known@[i] {
                            Some(value) => Some(value@),
                            None => None,
                        }) == left@[i]->Ok_0.form(n).constant_value()
                },
                Err(error) => first_error(forms_of(left@, n)) == Some(error@),
            },
    {
        let ghost forms = forms_of(left@, n);
        let mut known: Vec<Option<FieldElement>> = Vec::new();
        let mut i: usize = 0;
        while i < left.len()
            invariant
                i <= left@.len(),
                fits(left@, n),
                forms == forms_of(left@, n),
                known@.len() == i,
                first_error(forms.take(i as int)) is None,
                forall|j: int|
                    0 <= j < i ==> (#[trigger] left@[j]) is Ok && (match known@[j] {
                        Some(value) => Some(value@),
                        None => None,
                    }) == left@[j]->Ok_0.form(n).constant_value(),
            decreases left@.len() - i,
        {
            proof {
                let longer = forms.take(i + 1);
                assert(longer.drop_last() =~= forms.take(i as int));
                assert(longer.last() == forms[i as int]);
            }
            match &left[i] {
                Ok(expression) => {
                    known.push(expression.constant_value());
                },
                Err(error) => {
                    proof {
                        Self::lemma_first_error_of_prefix(forms, i + 1);
                    }
                    return Err(error.duplicate());
                },
            }
            i += 1;
        }
        assert(forms.take(i as int) =~= forms);
        Ok(known)
    }

    /// An error within a prefix is the first error of the whole.
    proof fn lemma_first_error_of_prefix(left: Seq<Result<LinearForm, EvalErrorView>>, k: int)
        requires
            0 <= k <= left.len(),
            first_error(left.take(k)) is Some,
        ensures
            first_error(left) == first_error(left.take(k)),
        decreases left.len(),
    {
        if k == left.len() {
            assert(left.take(k) =~= left);
        } else {
            assert(left.drop_last().take(k) =~= left.take(k));
            Self::lemma_first_error_of_prefix(left.drop_last(), k);
        }
    }

    /// Whether the row `row` holds every known value in its column.
    pub open spec fn agrees(
        fixed_data: FixedData,
        columns: Seq<usize>,
        known: Seq<Option<FieldElement>>,
        row: int,
    ) -> bool {
        forall|i: int|
            0 <= i < known.len() ==> ((#[trigger] known[i]) matches Some(value)
                ==> fixed_data.fixed_cols@[columns[i] as int].values@[row]@ == value@)
    }

    /// Whether the row `row` holds every known value in its column.
    fn row_agrees(
        fixed_data: &FixedData,
        columns: &Vec<usize>,
        known: &Vec<Option<FieldElement>>,
        row: u64,
    ) -> (r: bool)
        requires
            fixed_data.wf(),
            row < fixed_data.degree,
            columns@.len() == known@.len(),
            forall|i: int|
                0 <= i < columns@.len() ==> (#[trigger] columns@[i]) < fixed_data.fixed_cols@.len(),
        ensures
            r == Self::agrees(*fixed_data, columns@, known@, row as int),
    {
        let mut i: usize = 0;
        while i < known.len()
            invariant
                i <= known@.len(),
                fixed_data.wf(),
                row < fixed_data.degree,
                columns@.len() == known@.len(),
                forall|i: int|
                    0 <= i < columns@.len() ==> (#[trigger] columns@[i])
                        < fixed_data.fixed_cols@.len(),
                forall|j: int|
                    0 <= j < i ==> ((#[trigger] known@[j]) matches Some(value)
                        ==> fixed_data.fixed_cols@[columns@[j] as int].values@[row as int]@
                        == value@),
            decreases known@.len() - i,
        {
            match &known[i] {
                Some(value) => {
                    let c = columns[i];
                    let values = &fixed_data.fixed_cols[c].values;
                    assert(fixed_data.fixed_cols@[c as int].values@.len() == fixed_data.degree);
                    let length = values.len();
                    assert(row < length);
                    if !values[row as usize].equals(value) {
                        return false;
                    }
                },
                None => {},
            }
            i += 1;
        }
        true
    }

    /// The first row that agrees with the known values, and whether another one does.
    fn find_rows(
        fixed_data: &FixedData,
        columns: &Vec<usize>,
        known: &Vec<Option<FieldElement>>,
    ) -> (r: (Option<u64>, bool))
        requires
            fixed_data.wf(),
            columns@.len() == known@.len(),
            forall|i: int|
                0 <= i < columns@.len() ==> (#[trigger] columns@[i]) < fixed_data.fixed_cols@.len(),
        ensures
            r.0 is None ==> !r.1 && forall|row: int|
                0 <= row < fixed_data.degree ==> !Self::agrees(
                    *fixed_data,
                    columns@,
                    known@,
                    row,
                ),
            r.0 matches Some(m) ==> m < fixed_data.degree && Self::agrees(
                *fixed_data,
                columns@,
                known@,
                m as int,
            ),
            r.0 is Some && !r.1 ==> forall|row: int|
                0 <= row < fixed_data.degree && row != r.0->0 ==> !Self::agrees(
                    *fixed_data,
                    columns@,
                    known@,
                    row,
                ),
            r.1 ==> r.0 is Some && exists|row: int|
                0 <= row < fixed_data.degree && row != r.0->0 && Self::agrees(
                    *fixed_data,
                    columns@,
                    known@,
                    row,
                ),
    {
        let mut found: Option<u64> = None;
        let mut row: u64 = 0;
        while row < fixed_data.degree
            invariant
                fixed_data.wf(),
                row <= fixed_data.degree,
                columns@.len() == known@.len(),
                forall|i: int|
                    0 <= i < columns@.len() ==> (#[trigger] columns@[i])
                        < fixed_data.fixed_cols@.len(),
                found matches Some(m) ==> m < row && Self::agrees(
                    *fixed_data,
                    columns@,
                    known@,
                    m as int,
                ),
                forall|r: int|
                    0 <= r < row && (found matches Some(m) ==> r != m) ==> !Self::agrees(
                        *fixed_data,
                        columns@,
                        known@,
                        r,
                    ),
            decreases fixed_data.degree - row,
        {
            if Self::row_agrees(fixed_data, columns, known, row) {
                if found.is_some() {
                    return (found, true);
                }
                found = Some(row);
            }
            row += 1;
        }
        (found, false)
    }

    /// Solves the unknowns of the left side for the row `row`.
    fn conclude(
        fixed_data: &FixedData,
        columns: &Vec<usize>,
        left: &[Result<AffineExpression, EvalError>],
        row: u64,
    ) -> (r: EvalResult)
        requires
            fixed_data.wf(),
            row < fixed_data.degree,
            fits(left@, fixed_data.witness_count()),
            columns@.len() == left@.len(),
            forall|i: int|
                0 <= i < columns@.len() ==> (#[trigger] columns@[i]) < fixed_data.fixed_cols@.len(),
        ensures
            crate::eval_result_view(r) == row_conclusions(
                *fixed_data,
                Seq::new(columns@.len(), |i: int| columns@[i] as int),
                forms_of(left@, fixed_data.witness_count()),
                row as int,
                fixed_data.witness_count(),
            ),
            r matches Ok(constraints) ==> forall|k: int|
                0 <= k < constraints@.len() ==> (#[trigger] constraints@[k]).0
                    < fixed_data.witness_count(),
    {
        let ghost n = fixed_data.witness_count();
        let ghost forms = forms_of(left@, n);
        let ghost cols = Seq::new(columns@.len(), |i: int| columns@[i] as int);
        let mut result: Vec<(usize, Constraint)> = Vec::new();
        let mut i: usize = 0;
        assert(constraints_view(result@) =~= Seq::empty());
        while i < left.len()
            invariant
                i <= left@.len(),
                fixed_data.wf(),
                row < fixed_data.degree,
                n == fixed_data.witness_count(),
                fits(left@, n),
                forms == forms_of(left@, n),
                cols == Seq::new(columns@.len(), |i: int| columns@[i] as int),
                columns@.len() == left@.len(),
                forall|i: int|
                    0 <= i < columns@.len() ==> (#[trigger] columns@[i])
                        < fixed_data.fixed_cols@.len(),
                row_conclusions(*fixed_data, cols.take(i as int), forms.take(i as int), row as int, n)
                    == Ok::<Seq<(usize, ConstraintView)>, EvalErrorView>(
                    constraints_view(result@),
                ),
                forall|k: int| 0 <= k < result@.len() ==> (#[trigger] result@[k]).0 < n,
            decreases left@.len() - i,
        {
            proof {
                assert(cols.take(i + 1).drop_last() =~= cols.take(i as int));
                assert(forms.take(i + 1).drop_last() =~= forms.take(i as int));
                assert(forms.take(i + 1).last() == forms[i as int]);
                assert(cols.take(i + 1).last() == columns@[i as int] as int);
            }
            match &left[i] {
                Err(error) => {
                    proof {
                        Self::lemma_conclusions_of_prefix(*fixed_data, cols, forms, row as int, n, i + 1);
                    }
                    return Err(error.duplicate());
                },
                Ok(expression) => {
                    if !expression.is_constant() {
                        let c = columns[i];
                        let values = &fixed_data.fixed_cols[c].values;
                        assert(fixed_data.fixed_cols@[c as int].values@.len() == fixed_data.degree);
                        let length = values.len();
                        assert(row < length);
                        let constant = AffineExpression::from_field(values[row as usize]);
                        let difference = expression.sub(&constant);
                        let solved = difference.solve();
                        proof {
                            assert(left@[i as int] is Ok);
                            assert(expression.width() <= n);
                            assert(forms[i as int] == Ok::<LinearForm, EvalErrorView>(
                                expression.form(n),
                            ));
                            assert(!expression.form(n).is_constant());
                            assert(constant.form(n) == LinearForm::constant(
                                n,
                                values@[row as int]@,
                            ));
                            assert(difference.form(n) == expression.form(n).minus(constant.form(n)));
                            assert(crate::eval_result_view(solved) == difference.form(
                                n,
                            ).direct_solution());
                        }
                        match solved {
                            Ok(mut constraints) => {
                                let ghost before = result@;
                                let ghost added = constraints@;
                                result.append(&mut constraints);
                                proof {
                                    assert(constraints_view(result@) =~= constraints_view(before)
                                        + constraints_view(added));
                                }
                            },
                            Err(error) => {
                                proof {
                                    Self::lemma_conclusions_of_prefix(
                                        *fixed_data,
                                        cols,
                                        forms,
                                        row as int,
                                        n,
                                        i + 1,
                                    );
                                }
                                return Err(error);
                            },
                        }
                    }
                },
            }
            i += 1;
        }
        proof {
            assert(cols.take(i as int) =~= cols);
            assert(forms.take(i as int) =~= forms);
        }
        Ok(result)
    }

    /// A failure within a prefix of the left side is the failure of the whole.
    proof fn lemma_conclusions_of_prefix(
        fixed_data: FixedData,
        columns: Seq<int>,
        left: Seq<Result<LinearForm, EvalErrorView>>,
        row: int,
        n: nat,
        k: int,
    )
        requires
            0 <= k <= left.len(),
            columns.len() == left.len(),
            row_conclusions(fixed_data, columns.take(k), left.take(k), row, n) is Err,
        ensures
            row_conclusions(fixed_data, columns, left, row, n) == row_conclusions(
                fixed_data,
                columns.take(k),
                left.take(k),
                row,
                n,
            ),
        decreases left.len(),
    {
        if k == left.len() {
            assert(left.take(k) =~= left);
            assert(columns.take(k) =~= columns);
        } else {
            assert(left.drop_last().take(k) =~= left.take(k));
            assert(columns.drop_last().take(k) =~= columns.take(k));
            Self::lemma_conclusions_of_prefix(
                fixed_data,
                columns.drop_last(),
                left.drop_last(),
                row,
                n,
                k,
            );
        }
    }

    /// Answers a lookup into fixed columns; see [`fixed_lookup_outcome`].
    pub fn process_plookup(
        &mut self,
        fixed_data: &FixedData,
        kind: IdentityKind,
        left: &[Result<AffineExpression, EvalError>],
        right: &SelectedExpressions,
    ) -> (r: Option<EvalResult>)
        requires
            fixed_data.wf(),
            fits(left@, fixed_data.witness_count()),
        ensures
            lookup_view(r) == fixed_lookup_outcome(
                *fixed_data,
                kind,
                forms_of(left@, fixed_data.witness_count()),
                *right,
                fixed_data.witness_count(),
            ),
            r matches Some(Ok(constraints)) ==> forall|k: int|
                0 <= k < constraints@.len() ==> (#[trigger] constraints@[k]).0
                    < fixed_data.witness_count(),
    {
        let ghost n = fixed_data.witness_count();
        let ghost forms = forms_of(left@, n);
        if !matches!(kind, IdentityKind::Plookup) || right.selector.is_some()
            || right.expressions.len() != left.len() {
            return None;
        }
        let columns = match Self::resolve_columns(fixed_data, &right.expressions) {
            Some(columns) => columns,
            None => {
                return None;
            },
        };
        let ghost cols = Seq::new(columns@.len(), |i: int| columns@[i] as int);
        let known = match Self::known_values(left, Ghost(n)) {
            Ok(known) => known,
            Err(error) => {
                return Some(Err(error));
            },
        };
        assert forall|row: int| 0 <= row < fixed_data.degree implies (row_matches(
            *fixed_data,
            cols,
            forms,
            row,
        ) <==> Self::agrees(*fixed_data, columns@, known@, row)) by {
            if row_matches(*fixed_data, cols, forms, row) {
                assert forall|i: int| 0 <= i < known@.len() implies ((#[trigger] known@[i]) matches Some(
                    value,
                ) ==> fixed_data.fixed_cols@[columns@[i] as int].values@[row]@ == value@) by {
                    assert(left@[i] is Ok);
                    assert(forms[i] is Ok);
                }
            }
            if Self::agrees(*fixed_data, columns@, known@, row) {
                assert forall|i: int|
                    0 <= i < forms.len() && (#[trigger] forms[i]) is Ok
                        && forms[i]->Ok_0.is_constant() implies fixed_data.fixed_cols@[cols[i]].values@[row]@
                    == forms[i]->Ok_0.offset by {
                    assert(left@[i] is Ok);
                    assert(known@[i] is Some);
                }
            }
        }
        let (found, several) = Self::find_rows(fixed_data, &columns, &known);
        match found {
            None => {
                let mut detail = String::new();
                detail.append("Plookup is not satisfied");
                assert(detail@ =~= "Plookup is not satisfied"@);
                Some(Err(EvalError::ConstraintUnsatisfiable(detail)))
            },
            Some(m) => {
                if several {
                    proof {
                        let other = choose|row: int|
                            0 <= row < fixed_data.degree && row != m && Self::agrees(
                                *fixed_data,
                                columns@,
                                known@,
                                row,
                            );
                        assert(row_matches(*fixed_data, cols, forms, other));
                        assert(row_matches(*fixed_data, cols, forms, m as int));
                        assert forall|row: int| !is_only_match(*fixed_data, cols, forms, row) by {
                            if row == m {
                                assert(other != row);
                            }
                        }
                    }
                    let constraints: Vec<(usize, Constraint)> = Vec::new();
                    assert(constraints_view(constraints@) =~= Seq::empty());
                    Some(Ok(constraints))
                } else {
                    proof {
                        assert(is_only_match(*fixed_data, cols, forms, m as int));
                        let chosen = choose|row: int| is_only_match(*fixed_data, cols, forms, row);
                        assert(is_only_match(*fixed_data, cols, forms, chosen));
                        assert(chosen == m);
                    }
                    Some(Self::conclude(fixed_data, &columns, left, m))
                }
            },
        }
    }
}

} // verus!
