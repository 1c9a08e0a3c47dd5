//! The generator: finds the witness values of one row after the other.
//!
//! For each row it goes through the identities again and again, each time
//! learning values of the row from the identities that have one unknown left,
//! from lookups and from answers to witness queries, until a pass teaches
//! nothing new or the row is complete.

use crate::affine_expression::{known_constraints_of, names_of, AffineExpression, LinearForm};
use crate::bit_constraints::{BitConstraint, BitConstraintSet};
use crate::eval_error::{EvalError, EvalErrorView};
use crate::expression::{Expression, Identity, IdentityKind};
use crate::expression_evaluator::{bindings_of, represents, ExpressionEvaluator, SymbolicVariables};
use crate::field::FieldElement;
use crate::fixed_data::{distinct_names, index_of_name, DegreeType, FixedData, WitnessColumn};
use crate::machines::{fits, forms_of, FixedLookup, LookupOutcome, Machine};
use crate::query::{
    arm_admits, first_arm, is_first_arm, match_text, query_answer, query_text, query_texts,
    text_result_view,
};
use crate::report::{
    class_lines, failure_report_text, global_constraint_lines, row_constraint_lines, sort_by_name,
    unknown_names, value_line, value_lines, RowFailure,
};
use crate::rules::{
    identity_outcome, in_range, is_complete, left_forms, lemma_complete_row_meets_identity,
    lemma_lookups_from_k_have_no_part, lemma_merged_bit_constraints, lemma_merged_values,
    lemma_admitted_up_to_c, lemma_nothing_asked_is_admitted, lemma_queries_from_c_have_no_part,
    lookup_outcome, makes_progress,
    merged_bit_constraints,
    merged_values, no_machine_error, polynomial_outcome, selector_outcome, unknown_count,
    answers_hold, answers_of, lemma_answers_of_hold, lemma_row_with_nobody_to_ask,
    wrapped_outcome, Answers, PassAnswers,
    PassState, Setting,
};
use crate::symbolic_witness_evaluator::{SymbolicWitnessEvaluator, WitnessColumnEvaluator};
use crate::text::{decimal, indent, join, quote, views_of};
use crate::util::{contains_next_witness_ref, WitnessColumnNamer};
use crate::window::{are_canonical, identity_row, values_view, EvaluationData, EvaluationRow, Window};
use crate::witness_bit_constraints::{
    combined_constraints, constraint_names, WitnessBitConstraintSet,
};
use crate::{constraints_view, eval_result_view, Constraint, ConstraintView, EvalResult};
use vstd::prelude::*;

verus! {

/// The result of a machine as it is, unless it constrains a witness that the
/// circuit does not have: that is an error.
pub fn checked_result(result: EvalResult, witness_count: usize) -> (r: EvalResult)
    ensures
        eval_result_view(r) == (match eval_result_view(result) {
            Ok(constraints) => if in_range(constraints, witness_count as nat) {
                Ok(constraints)
            } else {
                Err(
                    EvalErrorView::Generic(
                        "A machine returned a constraint on an unknown witness."@,
                    ),
                )
            },
            Err(error) => Err(error),
        }),
        r matches Ok(constraints) ==> in_range(
            constraints_view(constraints@),
            witness_count as nat,
        ),
{
    match result {
        Ok(constraints) => {
            let mut i: usize = 0;
            while i < constraints.len()
                invariant
                    i <= constraints@.len(),
                    result == Ok::<Vec<(usize, Constraint)>, EvalError>(constraints),
                    forall|k: int|
                        0 <= k < i ==> (#[trigger] constraints_view(constraints@)[k]).0
                            < witness_count,
                decreases constraints@.len() - i,
            {
                if constraints[i].0 >= witness_count {
                    assert(constraints_view(constraints@)[i as int].0 >= witness_count);
                    assert(!in_range(constraints_view(constraints@), witness_count as nat));
                    return Err(
                        EvalError::generic("A machine returned a constraint on an unknown witness."),
                    );
                }
                i += 1;
            }
            Ok(constraints)
        },
        Err(error) => Err(error),
    }
}

/// The values of a row with every unknown taken for zero.
pub open spec fn with_defaults(values: Seq<Option<int>>) -> Seq<int> {
    Seq::new(
        values.len(),
        |i: int|
            match values[i] {
                Some(value) => value,
                None => 0,
            },
    )
}

/// The values as integers.
pub open spec fn field_views(values: Seq<FieldElement>) -> Seq<int> {
    Seq::new(values.len(), |i: int| values[i]@)
}

/// The row in which every value is known.
pub open spec fn all_known(values: Seq<int>) -> Seq<Option<int>> {
    Seq::new(values.len(), |i: int| Some(values[i]))
}

/// The names of the columns, in order.
pub open spec fn column_names(columns: Seq<(String, Vec<FieldElement>)>) -> Seq<Seq<char>> {
    Seq::new(columns.len(), |i: int| columns[i].0@)
}

/// Puts a column among `columns`: in the place of the column of that name,
/// where there is one, else at the end.
pub fn insert_column(
    columns: &mut Vec<(String, Vec<FieldElement>)>,
    name: String,
    values: Vec<FieldElement>,
)
    ensures
        match index_of_name(column_names(old(columns)@), name@) {
            Some(k) => final(columns)@ == old(columns)@.update(k, (name, values)),
            None => final(columns)@ == old(columns)@.push((name, values)),
        },
        distinct_names(column_names(old(columns)@)) ==> distinct_names(
            column_names(final(columns)@),
        ),
{
    let ghost names = column_names(columns@);
    let mut i: usize = 0;
    while i < columns.len()
        invariant
            i <= columns@.len(),
            columns@ == old(columns)@,
            names == column_names(columns@),
            forall|j: int| 0 <= j < i ==> names[j] != name@,
        decreases columns@.len() - i,
    {
        if columns[i].0 == name {
            proof {
                assert(names[i as int] == name@);
                crate::fixed_data::lemma_first_match_is_index(names, name@, i as int);
            }
            columns.set(i, (name, values));
            proof {
                let after = column_names(columns@);
                assert(after =~= names);
            }
            return ;
        }
        i += 1;
    }
    proof {
        crate::fixed_data::lemma_no_match_is_none(names, name@);
    }
    columns.push((name, values));
    proof {
        let after = column_names(columns@);
        assert(after =~= names.push(name@));
        if distinct_names(names) {
            assert forall|a: int, b: int| 0 <= a < b < after.len() implies after[a] != after[b] by {
                if b < names.len() {
                    assert(names[a] != names[b]);
                } else {
                    assert(names[a] != name@);
                }
            }
        }
    }
}

/// The columns after each of `added` has been put among them, one after the
/// other from the first: a column takes the place of the column of its name,
/// where there is one, and else comes at the end.
pub open spec fn merged_columns(
    columns: Seq<(String, Vec<FieldElement>)>,
    added: Seq<(String, Vec<FieldElement>)>,
) -> Seq<(String, Vec<FieldElement>)>
    decreases added.len(),
{
    if added.len() == 0 {
        columns
    } else {
        let before = merged_columns(columns, added.drop_last());
        match index_of_name(column_names(before), added.last().0@) {
            Some(k) => before.update(k, added.last()),
            None => before.push(added.last()),
        }
    }
}

/// Puts the columns that a machine has returned among `columns`; see
/// [`merged_columns`].
pub fn merge_columns(
    columns: &mut Vec<(String, Vec<FieldElement>)>,
    added: Vec<(String, Vec<FieldElement>)>,
)
    ensures
        final(columns)@ == merged_columns(old(columns)@, added@),
        distinct_names(column_names(old(columns)@)) ==> distinct_names(
            column_names(final(columns)@),
        ),
        added@.len() == 0 ==> final(columns)@ == old(columns)@,
{
    let ghost all = added@;
    let ghost mut done: int = 0;
    let mut rest = added;
    while rest.len() > 0
        invariant
            0 <= done <= all.len(),
            rest@ == all.skip(done),
            columns@ == merged_columns(old(columns)@, all.take(done)),
            distinct_names(column_names(old(columns)@)) ==> distinct_names(
                column_names(columns@),
            ),
        decreases rest@.len(),
    {
        proof {
            assert(all.take(done + 1).drop_last() =~= all.take(done));
            assert(all.take(done + 1).last() == all[done]);
            assert(rest@[0] == all[done]);
        }
        let (name, values) = rest.remove(0);
        proof {
            assert(rest@ =~= all.skip(done + 1));
            assert((name, values) == all[done]);
        }
        insert_column(columns, name, values);
        proof {
            done = done + 1;
        }
    }
    assert(all.take(done) =~= all);
}

fn unknown_values(n: usize) -> (r: Vec<Option<FieldElement>>)
    ensures
        r@.len() == n,
        forall|i: int| 0 <= i < n ==> r@[i] is None,
{
    let mut values: Vec<Option<FieldElement>> = Vec::new();
    let mut i: usize = 0;
    while i < n
        invariant
            i <= n,
            values@.len() == i,
            forall|j: int| 0 <= j < i ==> values@[j] is None,
        decreases n - i,
    {
        values.push(None);
        i += 1;
    }
    values
}

fn unknown_constraints(n: usize) -> (r: Vec<Option<BitConstraint>>)
    ensures
        r@.len() == n,
        forall|i: int| 0 <= i < n ==> r@[i] is None,
{
    let mut constraints: Vec<Option<BitConstraint>> = Vec::new();
    let mut i: usize = 0;
    while i < n
        invariant
            i <= n,
            constraints@.len() == i,
            forall|j: int| 0 <= j < i ==> constraints@[j] is None,
        decreases n - i,
    {
        constraints.push(None);
        i += 1;
    }
    constraints
}

/// The row of `n` witnesses of which nothing is known.
pub open spec fn all_unknown<T>(n: nat) -> Seq<Option<T>> {
    Seq::new(n, |i: int| None::<T>)
}

/// Finds the witness values of a circuit row by row, from the row before.
pub struct Generator<'a, QueryCallback: FnMut(&str) -> Option<FieldElement>> {
    fixed_data: &'a FixedData,
    fixed_lookup: &'a mut FixedLookup,
    identities: &'a [&'a Identity],
    machines: Vec<Box<dyn Machine>>,
    query_callback: Option<QueryCallback>,
    global_bit_constraints: Vec<(String, BitConstraint)>,
    /// Values of the witness polynomials
    current: Vec<Option<FieldElement>>,
    /// Values of the witness polynomials in the next row
    next: Vec<Option<FieldElement>>,
    /// Bit constraints on the witness polynomials in the next row.
    next_bit_constraints: Vec<Option<BitConstraint>>,
    next_row: DegreeType,
    failure_reasons: Vec<String>,
    progress: bool,
    last_report: DegreeType,
}

impl<'a, QueryCallback: FnMut(&str) -> Option<FieldElement>> Generator<'a, QueryCallback> {
    /// The circuit that the generator works on.
    pub closed spec fn fixed_data(&self) -> FixedData {
        *self.fixed_data
    }

    /// The identities that every row has to meet, in the order in which they are processed.
    pub closed spec fn identities(&self) -> Seq<&'a Identity> {
        self.identities@
    }

    /// The values of the row before `next_row`, as far as they are known.
    pub closed spec fn current(&self) -> Seq<Option<int>> {
        values_view(self.current@)
    }

    /// The values of the row `next_row`, as far as they are known.
    pub closed spec fn next(&self) -> Seq<Option<int>> {
        values_view(self.next@)
    }

    /// The bit constraints found for the row `next_row`.
    pub closed spec fn next_bit_constraints(&self) -> Seq<Option<BitConstraint>> {
        self.next_bit_constraints@
    }

    /// The bit constraints that hold on every row, each with its column's name.
    pub closed spec fn global_bit_constraints(&self) -> Seq<(String, BitConstraint)> {
        self.global_bit_constraints@
    }

    /// The number of the row that is computed or proposed.
    pub closed spec fn next_row(&self) -> DegreeType {
        self.next_row
    }

    /// Why identities could not be solved in the pass under way.
    pub closed spec fn failure_reasons(&self) -> Seq<Seq<char>> {
        views_of(self.failure_reasons@)
    }

    /// Whether the pass under way has found a value.
    pub closed spec fn progress(&self) -> bool {
        self.progress
    }

    /// The row of the latest progress report.
    pub closed spec fn last_report(&self) -> DegreeType {
        self.last_report
    }

    /// The machines that the generator can ask, in the order in which they
    /// were registered, which is the order in which they are asked.
    pub closed spec fn machine_list(&self) -> Seq<Box<dyn Machine>> {
        self.machines@
    }

    /// The callback that is asked for the values of witnesses, if there is one.
    pub closed spec fn callback(&self) -> Option<QueryCallback> {
        self.query_callback
    }

    /// The number of machines that the generator can ask.
    pub open spec fn machine_count(&self) -> nat {
        self.machine_list().len()
    }

    /// Whether `answer` is what the callback may give when it is asked
    /// `query`; without a callback there is no answer.
    pub open spec fn may_answer(&self, query: Seq<char>, answer: Option<FieldElement>) -> bool {
        Self::may_give(self.callback(), query, answer)
    }

    /// Whether `answer` is what `callback` may give when it is asked `query`;
    /// without a callback there is no answer.
    pub open spec fn may_give(
        callback: Option<QueryCallback>,
        query: Seq<char>,
        answer: Option<FieldElement>,
    ) -> bool {
        match callback {
            Some(callback) => exists|text: &str|
                text@ == query && #[trigger] call_ensures(callback, (text,), answer),
            None => answer is None,
        }
    }

    /// Whether the value `answer`, or none, is what `callback` may give when
    /// it is asked `query`.
    pub open spec fn admitted_by(callback: Option<QueryCallback>) -> spec_fn(
        Seq<char>,
        Option<int>,
    ) -> bool {
        |query: Seq<char>, answer: Option<int>|
            exists|given: Option<FieldElement>| #[trigger]
                Self::may_give(callback, query, given) && answer == (match given {
                    Some(value) => Some(value@),
                    None => None,
                })
    }

    /// Whether the value `answer`, or none, is what the callback may give
    /// when it is asked `query`.
    pub open spec fn admits(&self) -> spec_fn(Seq<char>, Option<int>) -> bool {
        Self::admitted_by(self.callback())
    }

    /// What is learnt of the witness `id` where the query `query` is asked of
    /// the callback and `answer` comes back.
    pub open spec fn answered(
        &self,
        id: usize,
        query: Seq<char>,
        answer: Option<FieldElement>,
        learnt: Seq<(usize, ConstraintView)>,
    ) -> bool {
        &&& self.may_answer(query, answer)
        &&& learnt == (match answer {
            Some(value) => seq![(id, ConstraintView::Assignment(value@))],
            None => Seq::empty(),
        })
    }

    /// Whether the generator has a callback to ask for the values of witnesses.
    pub open spec fn has_query_callback(&self) -> bool {
        self.callback() is Some
    }

    /// The three rows of state have one entry for each witness column, the row
    /// number is one of the circuit's rows, no column has two of the bit
    /// constraints that hold on every row, and the callback can be asked anything.
    pub closed spec fn wf(&self) -> bool {
        &&& self.fixed_data.wf()
        &&& self.current@.len() == self.fixed_data.witness_count()
        &&& self.next@.len() == self.fixed_data.witness_count()
        &&& self.next_bit_constraints@.len() == self.fixed_data.witness_count()
        &&& self.next_row < self.fixed_data.degree
        &&& distinct_names(constraint_names(self.global_bit_constraints@))
        &&& (self.query_callback matches Some(callback) ==> forall|query: &str|
            call_requires(callback, (query,)))
    }

    /// What a generator in good order has: one entry for each witness
    /// column in each of its rows of state, a row number within the circuit,
    /// and values that are least non-negative representatives.
    pub proof fn lemma_wf(&self)
        requires
            self.wf(),
        ensures
            self.fixed_data().wf(),
            self.current().len() == self.fixed_data().witness_count(),
            self.next().len() == self.fixed_data().witness_count(),
            self.next_bit_constraints().len() == self.fixed_data().witness_count(),
            self.next_row() < self.fixed_data().degree,
            distinct_names(constraint_names(self.global_bit_constraints())),
            are_canonical(self.current()),
            are_canonical(self.next()),
    {
        assert forall|j: int| 0 <= j < self.current().len() implies ((
        #[trigger] self.current()[j]) matches Some(value) ==> 0 <= value
            < crate::field::modulus()) by {
            if let Some(value) = self.current@[j] {
                crate::field::lemma_view_range(value);
            }
        }
        assert forall|j: int| 0 <= j < self.next().len() implies ((
        #[trigger] self.next()[j]) matches Some(value) ==> 0 <= value < crate::field::modulus()) by {
            if let Some(value) = self.next@[j] {
                crate::field::lemma_view_range(value);
            }
        }
    }

    /// In a generator in good order a polynomial identity that is solved for
    /// its one unknown holds once the unknown has the value that
    /// [`Generator::process_polynomial_identity`] gives for it: the identity
    /// evaluates to zero in the window with that value.
    pub proof fn lemma_solved_value_holds(&self, e: Expression)
        requires
            self.wf(),
            self.window().evaluate(e, identity_row(self.fixed_data(), e)) matches Ok(form)
                && form.has_sole_unknown() && crate::field::has_inverse(
                form.coefficients[form.sole_unknown()],
            ),
        ensures
            ({
                let row = identity_row(self.fixed_data(), e);
                let form = self.window().evaluate(e, row)->Ok_0;
                let i = form.sole_unknown();
                let value = crate::field::quotient_of(-form.offset, form.coefficients[i]);
                &&& polynomial_outcome(self.window(), self.known_bit_constraints(), e) == Ok::<
                    Seq<(usize, ConstraintView)>,
                    EvalErrorView,
                >(seq![(i as usize, ConstraintView::Assignment(value))])
                &&& self.next()[i] is None
                &&& self.window().with_next(i, value).evaluate(e, row) matches Ok(after)
                    && after.is_constant() && after.offset == 0
            }),
    {
        self.lemma_wf();
        crate::rules::lemma_solved_identity_holds(self.window(), self.known_bit_constraints(), e);
    }

    /// The window that identities are evaluated in.
    pub open spec fn window(&self) -> Window {
        Window {
            fixed_data: self.fixed_data(),
            current: self.current(),
            next: self.next(),
            next_row: self.next_row() as int,
        }
    }

    /// What the generator is given and what it knows of the current row, with
    /// `next_row` as the row to come.
    pub open spec fn setting(&self, next_row: DegreeType) -> Setting {
        Setting {
            fixed_data: self.fixed_data(),
            identities: Seq::new(self.identities().len(), |i: int| *self.identities()[i]),
            global_bit_constraints: self.global_bit_constraints(),
            current: self.current(),
            next_row: next_row as int,
        }
    }

    /// Whether the generator has neither a machine nor a query callback to
    /// ask: what it does is then a matter of its own rules alone.
    pub open spec fn self_contained(&self) -> bool {
        self.machine_count() == 0 && !self.has_query_callback()
    }

    /// How far the pass under way has come, given whether an identity has failed in it.
    pub open spec fn pass_state(&self, identity_failed: bool) -> PassState {
        PassState {
            next: self.next(),
            bit_constraints: self.next_bit_constraints(),
            progress: self.progress(),
            identity_failed,
            reasons: self.failure_reasons(),
        }
    }

    /// What is known about the bits of the witnesses of the next row.
    pub open spec fn known_bit_constraints(&self) -> Seq<Option<BitConstraint>> {
        combined_constraints(
            self.fixed_data(),
            self.global_bit_constraints(),
            self.next_bit_constraints(),
        )
    }

    /// A generator in front of the first row: nothing is known of any row.
    ///
    /// The machines are kept in the order given, which is the order in which
    /// they are asked, and the callback as given. No column may have two of
    /// the global bit constraints.
    pub fn new(
        fixed_data: &'a FixedData,
        fixed_lookup: &'a mut FixedLookup,
        identities: &'a [&'a Identity],
        global_bit_constraints: Vec<(String, BitConstraint)>,
        machines: Vec<Box<dyn Machine>>,
        query_callback: Option<QueryCallback>,
    ) -> (r: Self)
        requires
            fixed_data.wf(),
            distinct_names(constraint_names(global_bit_constraints@)),
            query_callback matches Some(callback) ==> forall|query: &str|
                call_requires(callback, (query,)),
        ensures
            r.wf(),
            r.fixed_data() == *fixed_data,
            r.identities() == identities@,
            r.global_bit_constraints() == global_bit_constraints@,
            r.machine_list() == machines@,
            r.callback() == query_callback,
            r.machine_count() == machines@.len(),
            r.has_query_callback() == query_callback is Some,
            r.current() == all_unknown::<int>(fixed_data.witness_count()),
            r.next() == all_unknown::<int>(fixed_data.witness_count()),
            r.next_bit_constraints() == all_unknown::<BitConstraint>(fixed_data.witness_count()),
            r.next_row() == 0,
            r.failure_reasons() == Seq::<Seq<char>>::empty(),
            r.progress(),
            r.last_report() == 0,
    {
        let witness_cols_len = fixed_data.witness_cols.len();
        let r = Generator {
            fixed_data,
            fixed_lookup,
            identities,
            machines,
            query_callback,
            global_bit_constraints,
            current: unknown_values(witness_cols_len),
            next: unknown_values(witness_cols_len),
            next_bit_constraints: unknown_constraints(witness_cols_len),
            next_row: 0,
            failure_reasons: Vec::new(),
            progress: true,
            last_report: 0,
        };
        proof {
            assert(r.current() =~= all_unknown::<int>(fixed_data.witness_count()));
            assert(r.next() =~= all_unknown::<int>(fixed_data.witness_count()));
            assert(r.next_bit_constraints() =~= all_unknown::<BitConstraint>(
                fixed_data.witness_count(),
            ));
            assert(r.failure_reasons() =~= Seq::<Seq<char>>::empty());
        }
        r
    }

    fn has_known_next_value(&self, id: usize) -> (r: bool)
        requires
            self.wf(),
            id < self.fixed_data().witness_count(),
        ensures
            r == self.next()[id as int] is Some,
    {
        self.next[id].is_some()
    }

    /// Tries to evaluate the expression to an expression affine in the witness polynomials,
    /// taking current values of polynomials into account; see [`Window::evaluate`].
    pub fn evaluate(&self, expr: &Expression, evaluate_row: EvaluationRow) -> (r: Result<
        AffineExpression,
        EvalError,
    >)
        requires
            self.wf(),
        ensures
            represents(
                r,
                self.window().evaluate(*expr, evaluate_row),
                self.fixed_data().witness_count(),
            ),
    {
        let degree = self.fixed_data.degree;
        let fixed_row = match evaluate_row {
            EvaluationRow::Current => if self.next_row == 0 {
                degree - 1
            } else {
                self.next_row - 1
            },
            EvaluationRow::Next => self.next_row,
        };
        let evaluator = ExpressionEvaluator::new(
            SymbolicWitnessEvaluator::new(
                self.fixed_data,
                fixed_row,
                EvaluationData {
                    fixed_data: self.fixed_data,
                    current_witnesses: &self.current,
                    next_witnesses: &self.next,
                    evaluate_row,
                },
            ),
        );
        proof {
            assert(fixed_row as int == self.window().fixed_row(evaluate_row)) by {
                let d = degree as int;
                let r = self.next_row as int;
                if r == 0 {
                    assert((r + d - 1) % d == d - 1) by {
                        vstd::arithmetic::div_mod::lemma_small_mod((d - 1) as nat, d as nat);
                    }
                } else {
                    assert((r + d - 1) % d == r - 1) by {
                        vstd::arithmetic::div_mod::lemma_mod_multiples_vanish(1, r - 1, d);
                        vstd::arithmetic::div_mod::lemma_small_mod((r - 1) as nat, d as nat);
                    }
                }
            }
            assert(bindings_of(&evaluator.variables).constant =~= self.window().bindings(
                evaluate_row,
            ).constant);
            assert(bindings_of(&evaluator.variables).value =~= self.window().bindings(
                evaluate_row,
            ).value);
            assert(bindings_of(&evaluator.variables) == self.window().bindings(evaluate_row));
        }
        evaluator.evaluate(expr)
    }

    /// Whether two generators differ in nothing but what they know of the rows.
    pub open spec fn same_setting(&self, other: &Self) -> bool {
        &&& self.fixed_data() == other.fixed_data()
        &&& self.identities() == other.identities()
        &&& self.global_bit_constraints() == other.global_bit_constraints()
        &&& self.machine_count() == other.machine_count()
        &&& self.has_query_callback() == other.has_query_callback()
        &&& self.callback() == other.callback()
    }

    /// Merges what an identity or a query gave into the next row.
    ///
    /// An assignment fills the witness's value, unless the row has one for it
    /// already, and counts as progress where it does. A bit constraint takes the
    /// place of what was known of the witness for this row. An error is added
    /// to the reasons of failure.
    pub fn handle_eval_result(&mut self, result: EvalResult)
        requires
            old(self).wf(),
            result matches Ok(constraints) ==> in_range(
                constraints_view(constraints@),
                old(self).fixed_data().witness_count(),
            ),
        ensures
            final(self).wf(),
            final(self).same_setting(old(self)),
            final(self).current() == old(self).current(),
            final(self).next_row() == old(self).next_row(),
            final(self).last_report() == old(self).last_report(),
            match eval_result_view(result) {
                Ok(constraints) => {
                    &&& final(self).next() == merged_values(old(self).next(), constraints)
                    &&& final(self).next_bit_constraints() == merged_bit_constraints(
                        old(self).next_bit_constraints(),
                        constraints,
                    )
                    &&& final(self).progress() == (old(self).progress() || makes_progress(
                        old(self).next(),
                        constraints,
                    ))
                    &&& final(self).failure_reasons() == old(self).failure_reasons()
                },
                Err(error) => {
                    &&& final(self).next() == old(self).next()
                    &&& final(self).next_bit_constraints() == old(self).next_bit_constraints()
                    &&& final(self).progress() == old(self).progress()
                    &&& final(self).failure_reasons() == old(self).failure_reasons().push(
                        error.text(),
                    )
                },
            },
    {
        match result {
            Ok(constraints) => {
                let ghost all = constraints_view(constraints@);
                let mut i: usize = 0;
                while i < constraints.len()
                    invariant
                        i <= constraints@.len(),
                        all == constraints_view(constraints@),
                        in_range(all, self.fixed_data().witness_count()),
                        self.wf(),
                        self.same_setting(old(self)),
                        self.current() == old(self).current(),
                        self.next_row() == old(self).next_row(),
                        self.last_report() == old(self).last_report(),
                        self.failure_reasons() == old(self).failure_reasons(),
                        self.next() == merged_values(old(self).next(), all.take(i as int)),
                        self.next_bit_constraints() == merged_bit_constraints(
                            old(self).next_bit_constraints(),
                            all.take(i as int),
                        ),
                        self.progress() == (old(self).progress() || makes_progress(
                            old(self).next(),
                            all.take(i as int),
                        )),
                    decreases constraints@.len() - i,
                {
                    proof {
                        assert(all.take(i + 1).drop_last() =~= all.take(i as int));
                        assert(all.take(i + 1).last() == all[i as int]);
                        assert(all[i as int].0 < self.fixed_data().witness_count());
                    }
                    let (id, constraint) = constraints[i];
                    match constraint {
                        Constraint::Assignment(value) => {
                            if self.next[id].is_none() {
                                let ghost before = self.next();
                                self.next.set(id, Some(value));
                                self.progress = true;
                                assert(self.next() =~= before.update(id as int, Some(value@)));
                            }
                        },
                        Constraint::BitConstraint(cons) => {
                            self.next_bit_constraints.set(id, Some(cons));
                        },
                    }
                    i += 1;
                }
                assert(all.take(i as int) =~= all);
            },
            Err(reason) => {
                let ghost before = self.failure_reasons();
                self.failure_reasons.push(reason.to_string());
                assert(self.failure_reasons() =~= before.push(reason@.text()));
            },
        }
    }

    /// Processes a polynomial identity `identity = 0`; see [`polynomial_outcome`].
    pub fn process_polynomial_identity(&self, identity: &Expression) -> (r: EvalResult)
        requires
            self.wf(),
        ensures
            eval_result_view(r) == polynomial_outcome(
                self.window(),
                self.known_bit_constraints(),
                *identity,
            ),
            r matches Ok(constraints) ==> in_range(
                constraints_view(constraints@),
                self.fixed_data().witness_count(),
            ),
    {
        // If there is no "next" reference in the expression,
        // we just evaluate it directly on the "next" row.
        let row = if contains_next_witness_ref(identity, self.fixed_data) {
            EvaluationRow::Current
        } else {
            EvaluationRow::Next
        };
        let ghost n = self.fixed_data().witness_count();
        let evaluated = match self.evaluate(identity, row) {
            Ok(evaluated) => evaluated,
            Err(error) => {
                return Err(error);
            },
        };
        let ghost form = evaluated.form(n);
        let is_zero = match evaluated.constant_value() {
            Some(value) => value.is_zero(),
            None => false,
        };
        assert(is_zero == (form.constant_value() == Some(0int)));
        if is_zero {
            let constraints: Vec<(usize, Constraint)> = Vec::new();
            assert(constraints_view(constraints@) =~= Seq::empty());
            Ok(constraints)
        } else {
            let set = self.bit_constraint_set();
            match evaluated.solve_with_bit_constraints(&set) {
                Ok(constraints) => {
                    assert(eval_result_view(Ok(constraints)) == form.solution(
                        self.known_bit_constraints(),
                    ));
                    Ok(constraints)
                },
                Err(error) => {
                    assert(Err::<Seq<(usize, ConstraintView)>, EvalErrorView>(error@)
                        == form.solution(self.known_bit_constraints()));
                    let formatted = evaluated.format(self.fixed_data);
                    assert(names_of(self.fixed_data) =~= self.fixed_data.witness_names());
                    if let EvalError::ConstraintUnsatisfiable(_) = error {
                        let mut detail = String::from_str("Constraint is invalid (");
                        detail.append(formatted.as_str());
                        detail.append(" != 0).");
                        Err(EvalError::ConstraintUnsatisfiable(detail))
                    } else {
                        let mut reason = String::from_str("Could not solve expression ");
                        reason.append(formatted.as_str());
                        reason.append(" = 0.");
                        Err(EvalError::Generic(reason))
                    }
                },
            }
        }
    }

    /// The text of the query `query` on the next row; see [`query_text`].
    pub fn interpolate_query(&self, query: &Expression) -> (r: Result<String, String>)
        requires
            self.wf(),
        ensures
            text_result_view(r) == query_text(self.window(), *query),
        decreases query, 0nat,
    {
        let ghost n = self.fixed_data().witness_count();
        match self.evaluate(query, EvaluationRow::Next) {
            Ok(v) => {
                match v.constant_value() {
                    Some(value) => {
                        assert(v.form(n).is_constant());
                        return Ok(value.to_string());
                    },
                    None => {
                        assert(!v.form(n).is_constant());
                    },
                }
            },
            Err(_) => {},
        }
        match query {
            Expression::Tuple(items) => {
                match self.interpolate_queries(items) {
                    Ok(parts) => Ok(join(&parts, ", ")),
                    Err(error) => Err(error),
                }
            },
            Expression::LocalVariableReference(i) => {
                if *i == 0 {
                    Ok(decimal(self.next_row))
                } else {
                    let mut reason = String::from_str("Cannot handle / evaluate ");
                    reason.append(query.to_string().as_str());
                    Err(reason)
                }
            },
            Expression::String(s) => Ok(quote(s.as_str())),
            Expression::MatchExpression(scrutinee, arms) => {
                match self.interpolate_match_expression_for_query(scrutinee, arms) {
                    Ok(text) => Ok(text),
                    Err(error) => {
                        let mut reason = String::from_str("Cannot handle / evaluate ");
                        reason.append(query.to_string().as_str());
                        reason.append(": ");
                        reason.append(error.to_string().as_str());
                        Err(reason)
                    },
                }
            },
            _ => {
                let mut reason = String::from_str("Cannot handle / evaluate ");
                reason.append(query.to_string().as_str());
                Err(reason)
            },
        }
    }

    fn interpolate_queries(&self, items: &Vec<Expression>) -> (r: Result<Vec<String>, String>)
        requires
            self.wf(),
        ensures
            (match r {
                Ok(parts) => Ok(views_of(parts@)),
                Err(error) => Err(error@),
            }) == query_texts(self.window(), items@),
        decreases items, 0nat,
    {
        let mut parts: Vec<String> = Vec::new();
        let mut i: usize = 0;
        assert(views_of(parts@) =~= Seq::<Seq<char>>::empty());
        while i < items.len()
            invariant
                i <= items@.len(),
                self.wf(),
                query_texts(self.window(), items@.take(i as int)) == Ok::<
                    Seq<Seq<char>>,
                    Seq<char>,
                >(views_of(parts@)),
            decreases items@.len() - i,
        {
            proof {
                assert(items@.take(i + 1).drop_last() =~= items@.take(i as int));
                assert(items@.take(i + 1).last() == items@[i as int]);
            }
            match self.interpolate_query(&items[i]) {
                Ok(part) => {
                    let ghost before = views_of(parts@);
                    parts.push(part);
                    assert(views_of(parts@) =~= before.push(part@));
                },
                Err(error) => {
                    proof {
                        Self::lemma_query_texts_of_prefix(self.window(), items@, i + 1);
                    }
                    return Err(error);
                },
            }
            i += 1;
        }
        assert(items@.take(i as int) =~= items@);
        Ok(parts)
    }

    /// An error within a prefix of the queries is the error of them all.
    proof fn lemma_query_texts_of_prefix(window: Window, items: Seq<Expression>, k: int)
        requires
            0 <= k <= items.len(),
            query_texts(window, items.take(k)) is Err,
        ensures
            query_texts(window, items) == query_texts(window, items.take(k)),
        decreases items.len(),
    {
        if k == items.len() {
            assert(items.take(k) =~= items);
        } else {
            assert(items.drop_last().take(k) =~= items.take(k));
            Self::lemma_query_texts_of_prefix(window, items.drop_last(), k);
        }
    }

    fn interpolate_match_expression_for_query(
        &self,
        scrutinee: &Expression,
        arms: &Vec<(Option<FieldElement>, Expression)>,
    ) -> (r: Result<String, EvalError>)
        requires
            self.wf(),
        ensures
            (match r {
                Ok(text) => Ok(text@),
                Err(error) => Err(error@),
            }) == match_text(self.window(), *scrutinee, arms@),
        decreases arms, 1nat,
    {
        let ghost n = self.fixed_data().witness_count();
        let evaluated = match self.evaluate(scrutinee, EvaluationRow::Next) {
            Ok(evaluated) => evaluated,
            Err(error) => {
                return Err(error);
            },
        };
        let v = match evaluated.constant_value() {
            Some(v) => v,
            None => {
                assert(!evaluated.form(n).is_constant());
                return Err(EvalError::generic("Match scrutinee not constant"));
            },
        };
        assert(evaluated.form(n).is_constant());
        let ghost form = evaluated.form(n);
        let mut k: usize = 0;
        while k < arms.len()
            invariant
                k <= arms@.len(),
                self.wf(),
                self.window().evaluate(*scrutinee, EvaluationRow::Next) == Ok::<
                    LinearForm,
                    EvalErrorView,
                >(form),
                form.is_constant(),
                form.offset == v@,
                forall|j: int| 0 <= j < k ==> !arm_admits(#[trigger] arms@[j], v@),
            decreases arms@.len() - k,
        {
            let admits = match &arms[k].0 {
                Some(pattern) => pattern.equals(&v),
                None => true,
            };
            if admits {
                proof {
                    assert(is_first_arm(arms@, v@, k as int));
                    let chosen = choose|c: int| is_first_arm(arms@, v@, c);
                    assert(is_first_arm(arms@, v@, chosen));
                    if chosen < k {
                        assert(!arm_admits(arms@[chosen], v@));
                    } else if k < chosen {
                        assert(!arm_admits(arms@[k as int], v@));
                    }
                    assert(first_arm(arms@, v@) == Some(k as int));
                }
                return match self.interpolate_query(&arms[k].1) {
                    Ok(text) => Ok(text),
                    Err(error) => Err(EvalError::Generic(error)),
                };
            }
            k += 1;
        }
        proof {
            assert forall|c: int| !is_first_arm(arms@, v@, c) by {
                if 0 <= c < arms@.len() {
                    assert(!arm_admits(arms@[c], v@));
                }
            }
            assert(first_arm(arms@, v@) is None);
        }
        let mut reason = String::from_str("Match arm not found for value ");
        reason.append(v.to_string().as_str());
        Err(EvalError::Generic(reason))
    }

    /// The lines that report the values of the next row; see [`value_lines`].
    pub fn format_next_values(&self) -> (r: Vec<String>)
        requires
            self.wf(),
        ensures
            views_of(r@) == value_lines(self.fixed_data().witness_names(), self.next()),
    {
        Self::format_values(self.fixed_data, &self.next)
    }

    /// The lines that report the values of the current row, which is the
    /// row that was completed last; see [`value_lines`].
    pub fn format_current_values(&self) -> (r: Vec<String>)
        requires
            self.wf(),
        ensures
            views_of(r@) == value_lines(self.fixed_data().witness_names(), self.current()),
    {
        Self::format_values(self.fixed_data, &self.current)
    }

    /// The lines that report the values of a row; see [`value_lines`].
    fn format_values(fixed_data: &FixedData, given: &Vec<Option<FieldElement>>) -> (r: Vec<String>)
        requires
            given@.len() == fixed_data.witness_count(),
        ensures
            views_of(r@) == value_lines(fixed_data.witness_names(), values_view(given@)),
    {
        let ghost names = fixed_data.witness_names();
        let ghost values = values_view(given@);
        let mut lines: Vec<String> = Vec::new();
        let mut class: u8 = 0;
        assert(views_of(lines@) =~= Seq::<Seq<char>>::empty());
        while class < 3
            invariant
                class <= 3,
                given@.len() == fixed_data.witness_count(),
                names == fixed_data.witness_names(),
                values == values_view(given@),
                views_of(lines@) == (if class == 0 {
                    Seq::<Seq<char>>::empty()
                } else if class == 1 {
                    class_lines(names, values, 0)
                } else if class == 2 {
                    class_lines(names, values, 0) + class_lines(names, values, 1)
                } else {
                    value_lines(names, values)
                }),
            decreases 3 - class,
        {
            let ghost done = views_of(lines@);
            let mut i: usize = 0;
            assert(done + class_lines(names, values.take(0), class as int) =~= done);
            while i < given.len()
                invariant
                    i <= given@.len(),
                    class < 3,
                    given@.len() == fixed_data.witness_count(),
                    names == fixed_data.witness_names(),
                    values == values_view(given@),
                    views_of(lines@) == done + class_lines(
                        names,
                        values.take(i as int),
                        class as int,
                    ),
                decreases given@.len() - i,
            {
                proof {
                    assert(values.take(i + 1).drop_last() =~= values.take(i as int));
                    assert(values.take(i + 1).last() == values[i as int]);
                }
                let found: u8 = match &given[i] {
                    Some(value) => if value.is_zero() {
                        1
                    } else {
                        0
                    },
                    None => 2,
                };
                if found == class {
                    let mut line = fixed_data.name(i);
                    line.append(" = ");
                    match &given[i] {
                        Some(value) => {
                            line.append(value.to_string().as_str());
                        },
                        None => {
                            line.append("<unknown>");
                        },
                    }
                    let ghost before = views_of(lines@);
                    lines.push(line);
                    proof {
                        match given@[i as int] {
                            Some(value) => {
                                crate::field::lemma_view_range(value);
                            },
                            None => {},
                        }
                        assert(line@ =~= value_line(names[i as int], values[i as int]));
                        assert(views_of(lines@) =~= before.push(line@));
                        assert(views_of(lines@) =~= done + class_lines(
                            names,
                            values.take(i + 1),
                            class as int,
                        ));
                    }
                }
                i += 1;
            }
            assert(values.take(i as int) =~= values);
            class += 1;
        }
        lines
    }

    /// Whether nothing differs between the two but the inner state of the
    /// machines, of the fixed lookup and of the query callback.
    pub open spec fn same_rows(&self, other: &Self) -> bool {
        &&& self.same_setting(other)
        &&& self.current() == other.current()
        &&& self.next() == other.next()
        &&& self.next_bit_constraints() == other.next_bit_constraints()
        &&& self.next_row() == other.next_row()
        &&& self.failure_reasons() == other.failure_reasons()
        &&& self.progress() == other.progress()
        &&& self.last_report() == other.last_report()
    }

    /// The left side of a lookup as it is handed to the fixed lookup and to
    /// the machines: each expression evaluated on the next row, in order; a
    /// witness that is not known stands in it as an unknown, and an
    /// expression that cannot be evaluated as its error.
    pub fn evaluate_left(&self, expressions: &Vec<Expression>) -> (left: Vec<
        Result<AffineExpression, EvalError>,
    >)
        requires
            self.wf(),
        ensures
            left@.len() == expressions@.len(),
            fits(left@, self.fixed_data().witness_count()),
            forms_of(left@, self.fixed_data().witness_count()) == left_forms(
                self.window(),
                expressions@,
            ),
    {
        let ghost n = self.fixed_data().witness_count();
        let ghost window = self.window();
        let mut left: Vec<Result<AffineExpression, EvalError>> = Vec::new();
        let mut i: usize = 0;
        while i < expressions.len()
            invariant
                i <= expressions@.len(),
                self.wf(),
                window == self.window(),
                n == self.fixed_data().witness_count(),
                left@.len() == i,
                fits(left@, n),
                forall|j: int|
                    0 <= j < i ==> represents(
                        #[trigger] left@[j],
                        window.evaluate(expressions@[j], EvaluationRow::Next),
                        n,
                    ),
            decreases expressions@.len() - i,
        {
            let evaluated = self.evaluate(&expressions[i], EvaluationRow::Next);
            left.push(evaluated);
            i += 1;
        }
        assert(forms_of(left@, n) =~= left_forms(window, expressions@));
        left
    }

    /// Processes a lookup or a permutation.
    ///
    /// What comes out is what [`lookup_outcome`] says, where that says
    /// anything. Else the machines are asked in the order in which they were
    /// registered, and the first that answers decides; without a machine that
    /// answers, the lookup fails with [`no_machine_error`].
    pub fn process_plookup(&mut self, identity: &Identity) -> (r: EvalResult)
        requires
            old(self).wf(),
        ensures
            final(self).wf(),
            final(self).same_rows(old(self)),
            r matches Ok(constraints) ==> in_range(
                constraints_view(constraints@),
                old(self).fixed_data().witness_count(),
            ),
            match lookup_outcome(old(self).window(), *identity) {
                Some(outcome) => eval_result_view(r) == outcome,
                None => old(self).machine_count() == 0 ==> eval_result_view(r) == Err::<
                    Seq<(usize, ConstraintView)>,
                    EvalErrorView,
                >(no_machine_error()),
            },
    {
        let ghost n = self.fixed_data().witness_count();
        let ghost window = self.window();
        if let Some(left_selector) = &identity.left.selector {
            let value = match self.evaluate(left_selector, EvaluationRow::Next) {
                Ok(value) => value,
                Err(error) => {
                    return Err(error);
                },
            };
            let ghost form = value.form(n);
            match value.constant_value() {
                Some(v) => {
                    if v.is_zero() {
                        let constraints: Vec<(usize, Constraint)> = Vec::new();
                        assert(constraints_view(constraints@) =~= Seq::empty());
                        return Ok(constraints);
                    } else if v.is_one() {
                    } else {
                        let mut reason = String::from_str(
                            "Value of the selector on the left hand side unknown or not boolean: ",
                        );
                        reason.append(value.format(self.fixed_data).as_str());
                        assert(names_of(self.fixed_data) =~= self.fixed_data.witness_names());
                        return Err(EvalError::Generic(reason));
                    }
                },
                None => {
                    let mut reason = String::from_str(
                        "Value of the selector on the left hand side unknown or not boolean: ",
                    );
                    reason.append(value.format(self.fixed_data).as_str());
                    assert(names_of(self.fixed_data) =~= self.fixed_data.witness_names());
                    return Err(EvalError::Generic(reason));
                },
            }
        }
        assert(selector_outcome(window, identity.left.selector) == Ok::<bool, EvalErrorView>(true));

        let left = self.evaluate_left(&identity.left.expressions);

        // Now query the machines.
        // Note that we should always query all machines that match, because they might
        // update their internal data, even if all values are already known.

        // query the fixed lookup "machine"
        if let Some(result) = self.fixed_lookup.process_plookup(
            self.fixed_data,
            identity.kind,
            left.as_slice(),
            &identity.right,
        ) {
            return result;
        }
        assert(lookup_outcome(window, *identity) is None);
        let count = self.next.len();
        let mut m: usize = 0;
        while m < self.machines.len()
            invariant
                self.wf(),
                self.same_rows(old(self)),
                window == old(self).window(),
                lookup_outcome(window, *identity) is None,
                n == self.fixed_data().witness_count(),
                count == n,
                fits(left@, n),
            decreases self.machines@.len() - m,
        {
            if let Some(result) = self.machines[m].process_plookup(
                self.fixed_data,
                self.fixed_lookup,
                identity.kind,
                left.as_slice(),
                &identity.right,
            ) {
                return checked_result(result, count);
            }
            m += 1;
        }
        Err(EvalError::generic("Could not find a matching machine for the lookup."))
    }

    /// Processes one identity of whatever kind; see [`identity_outcome`].
    pub fn process_identity(&mut self, identity: &Identity) -> (r: EvalResult)
        requires
            old(self).wf(),
        ensures
            final(self).wf(),
            final(self).same_rows(old(self)),
            r matches Ok(constraints) ==> in_range(
                constraints_view(constraints@),
                old(self).fixed_data().witness_count(),
            ),
            identity_outcome(
                old(self).window(),
                old(self).known_bit_constraints(),
                *identity,
                old(self).machine_count(),
            ) matches Some(outcome) ==> eval_result_view(r) == outcome,
    {
        match identity.kind {
            IdentityKind::Polynomial => match &identity.left.selector {
                Some(expression) => self.process_polynomial_identity(expression),
                None => Err(EvalError::generic("Polynomial identity without an expression.")),
            },
            IdentityKind::Plookup | IdentityKind::Permutation => self.process_plookup(identity),
            IdentityKind::Connect => Err(EvalError::generic("Unsupported lookup type")),
        }
    }

    /// The error wrapped in the text of the identity that it came from.
    fn wrap_error(identity: &Identity, result: EvalResult) -> (r: EvalResult)
        ensures
            eval_result_view(r) == wrapped_outcome(*identity, eval_result_view(result)),
            r is Ok <==> result is Ok,
            r matches Ok(constraints) ==> result matches Ok(given) && constraints == given,
    {
        match result {
            Ok(constraints) => Ok(constraints),
            Err(error) => {
                let mut reason = String::from_str("No progress on ");
                reason.append(identity.to_string().as_str());
                reason.append(":\n");
                reason.append(indent(error.to_string().as_str(), "    ").as_str());
                Err(EvalError::Generic(reason))
            },
        }
    }

    /// Asks the query callback for the value of the witness `column`.
    ///
    /// A query whose text cannot be made is an error. Else the callback is
    /// handed the text, and its answer, if it gives one, is the value of the
    /// witness: see [`query_answer`]. Without a callback nothing is learnt.
    pub fn process_witness_query(&mut self, column: &WitnessColumn) -> (r: EvalResult)
        requires
            old(self).wf(),
            column.id < old(self).fixed_data().witness_count(),
        ensures
            final(self).wf(),
            final(self).same_rows(old(self)),
            r matches Ok(constraints) ==> in_range(
                constraints_view(constraints@),
                old(self).fixed_data().witness_count(),
            ),
            match column.query {
                None => eval_result_view(r) == Err::<Seq<(usize, ConstraintView)>, EvalErrorView>(
                    EvalErrorView::Generic("The column has no query."@),
                ),
                Some(query) => match query_text(old(self).window(), query) {
                    Err(error) => eval_result_view(r) == Err::<
                        Seq<(usize, ConstraintView)>,
                        EvalErrorView,
                    >(EvalErrorView::Generic(error)),
                    Ok(text) => eval_result_view(r) matches Ok(constraints) && (constraints.len()
                        == 0 || (old(self).has_query_callback() && constraints.len() == 1
                        && constraints[0].0 == column.id && constraints[0].1 is Assignment))
                        && exists|answer: Option<FieldElement>| #[trigger]
                        old(self).answered(column.id, text, answer, constraints),
                },
            },
    {
        let ghost before = *self;
        let query = match &column.query {
            Some(query) => match self.interpolate_query(query) {
                Ok(query) => query,
                Err(error) => {
                    return Err(EvalError::Generic(error));
                },
            },
            None => {
                return Err(EvalError::generic("The column has no query."));
            },
        };
        let text: &str = query.as_str();
        let answer = match &mut self.query_callback {
            Some(callback) => callback(text),
            None => None,
        };
        let learnt = query_answer(column.id, answer);
        let r = Ok(learnt);
        proof {
            let asked = query_text(old(self).window(), column.query->0)->Ok_0;
            let constraints = eval_result_view(r)->Ok_0;
            if before.callback() is Some {
                assert(call_ensures(before.callback()->0, (text,), answer));
            }
            assert(old(self).answered(column.id, asked, answer, constraints));
        }
        r
    }

    /// Takes down the number of the row that is computed next, and the row of
    /// the latest progress report, which is due every thousand rows.
    fn set_next_row_and_log(&mut self, next_row: DegreeType)
        requires
            old(self).wf(),
            next_row < old(self).fixed_data().degree,
        ensures
            final(self).wf(),
            final(self).same_setting(old(self)),
            final(self).current() == old(self).current(),
            final(self).next() == old(self).next(),
            final(self).next_bit_constraints() == old(self).next_bit_constraints(),
            final(self).failure_reasons() == old(self).failure_reasons(),
            final(self).progress() == old(self).progress(),
            final(self).next_row() == next_row,
            final(self).last_report() == (if next_row >= old(self).last_report() + 1000 {
                next_row
            } else {
                old(self).last_report()
            }),
    {
        if next_row >= 1000 && next_row - 1000 >= self.last_report {
            self.last_report = next_row;
        }
        self.next_row = next_row;
    }

    /// Whether every value of the next row is known.
    fn next_is_complete(&self) -> (r: bool)
        requires
            self.wf(),
        ensures
            r == (forall|i: int| 0 <= i < self.next().len() ==> self.next()[i] is Some),
    {
        let mut i: usize = 0;
        while i < self.next.len()
            invariant
                i <= self.next@.len(),
                forall|j: int| 0 <= j < i ==> self.next()[j] is Some,
            decreases self.next@.len() - i,
        {
            if self.next[i].is_none() {
                assert(self.next()[i as int] is None);
                return false;
            }
            i += 1;
        }
        true
    }

    /// Goes once through the identities and then, where there is a query
    /// callback, through the queries of the witnesses that are not known yet.
    /// Returns whether an identity failed.
    fn run_pass(&mut self) -> (r: (bool, Ghost<PassAnswers>))
        requires
            old(self).wf(),
        ensures
            final(self).wf(),
            final(self).same_setting(old(self)),
            final(self).current() == old(self).current(),
            final(self).next_row() == old(self).next_row(),
            final(self).last_report() == old(self).last_report(),
            final(self).next().len() == old(self).next().len(),
            forall|i: int|
                0 <= i < old(self).next().len() && old(self).next()[i] is Some ==> final(self).next()[i]
                    == old(self).next()[i],
            final(self).progress() ==> unknown_count(final(self).next()) < unknown_count(
                old(self).next(),
            ),
            !final(self).progress() ==> final(self).next() == old(self).next(),
            final(self).pass_state(r.0) == old(self).setting(old(self).next_row()).pass_with(
                old(self).next(),
                old(self).next_bit_constraints(),
                old(self).machine_count(),
                old(self).has_query_callback(),
                r.1@,
            ),
            old(self).setting(old(self).next_row()).pass_admitted(
                old(self).next(),
                old(self).next_bit_constraints(),
                old(self).machine_count(),
                old(self).has_query_callback(),
                r.1@,
                old(self).admits(),
            ),
    {
        let ghost admits = self.admits();
        let mut identity_failed = false;
        self.progress = false;
        self.failure_reasons.clear();
        let ghost entry = self.next();
        let ghost setting = self.setting(self.next_row());
        let ghost entry_constraints = self.next_bit_constraints();
        let ghost machine_count = self.machine_count();
        let ghost mut lookups: spec_fn(int) -> Result<Seq<(usize, ConstraintView)>, EvalErrorView> =
            |j: int| Err::<Seq<(usize, ConstraintView)>, EvalErrorView>(no_machine_error());
        assert(self.failure_reasons() =~= Seq::<Seq<char>>::empty());
        let identities: &'a [&'a Identity] = self.identities;
        let fixed_data: &'a FixedData = self.fixed_data;
        let mut k: usize = 0;
        while k < identities.len()
            invariant
                k <= identities@.len(),
                self.wf(),
                self.same_setting(old(self)),
                self.current() == old(self).current(),
                self.next_row() == old(self).next_row(),
                self.last_report() == old(self).last_report(),
                entry == old(self).next(),
                self.next().len() == entry.len(),
                entry.len() == self.fixed_data().witness_count(),
                forall|i: int| 0 <= i < entry.len() && entry[i] is Some ==> self.next()[i] == entry[i],
                self.progress() ==> unknown_count(self.next()) < unknown_count(entry),
                !self.progress() ==> self.next() == entry,
                identities@ == self.identities(),
                setting == old(self).setting(old(self).next_row()),
                entry_constraints == old(self).next_bit_constraints(),
                machine_count == old(self).machine_count(),
                self.pass_state(identity_failed) == setting.after_identities_with(
                    entry,
                    entry_constraints,
                    machine_count,
                    lookups,
                    k as nat,
                ),
            decreases identities@.len() - k,
        {
            let identity: &'a Identity = identities[k];
            assert(setting.identities[k as int] == *identity);
            assert(setting.window(self.next()) == self.window());
            let ghost before = self.pass_state(identity_failed);
            let result = self.process_identity(identity);
            let ghost answer = eval_result_view(result);
            let ghost earlier = lookups;
            proof {
                lookups =
                |j: int|
                    if j == k as int {
                        answer
                    } else {
                        earlier(j)
                    };
                lemma_lookups_from_k_have_no_part(
                    setting,
                    entry,
                    entry_constraints,
                    machine_count,
                    earlier,
                    lookups,
                    k as nat,
                );
            }
            let result = Self::wrap_error(identity, result);
            if result.is_err() {
                identity_failed = true;
            }
            proof {
                if result is Ok {
                    let constraints = constraints_view(result->Ok_0@);
                    lemma_merged_values(self.next(), constraints);
                    lemma_merged_bit_constraints(self.next_bit_constraints(), constraints);
                }
            }
            self.handle_eval_result(result);
            assert(self.pass_state(identity_failed) == setting.after_outcome(
                before,
                *identity,
                answer,
            ));
            k += 1;
        }
        let ghost asked = self.pass_state(identity_failed);
        let ghost mut queries: spec_fn(int) -> Option<int> = |j: int| None::<int>;
        if self.query_callback.is_some() {
            let mut c: usize = 0;
            while c < fixed_data.witness_cols.len()
                invariant
                    c <= fixed_data.witness_cols@.len(),
                    *fixed_data == self.fixed_data(),
                    self.wf(),
                    self.same_setting(old(self)),
                    self.has_query_callback(),
                    self.current() == old(self).current(),
                    self.next_row() == old(self).next_row(),
                    self.last_report() == old(self).last_report(),
                    entry == old(self).next(),
                    self.next().len() == entry.len(),
                    entry.len() == self.fixed_data().witness_count(),
                    forall|i: int|
                        0 <= i < entry.len() && entry[i] is Some ==> self.next()[i] == entry[i],
                    self.progress() ==> unknown_count(self.next()) < unknown_count(entry),
                    !self.progress() ==> self.next() == entry,
                    setting == old(self).setting(old(self).next_row()),
                    admits == old(self).admits(),
                    self.pass_state(identity_failed) == setting.after_queries(
                        asked,
                        queries,
                        c as nat,
                    ),
                    setting.queries_admitted(asked, queries, admits, c as nat),
                decreases fixed_data.witness_cols@.len() - c,
            {
                let column: &'a WitnessColumn = &fixed_data.witness_cols[c];
                assert(column.id == c);
                assert(setting.window(self.next()) == self.window());
                if !self.has_known_next_value(column.id) && column.query.is_some() {
                    let ghost before = self.pass_state(identity_failed);
                    let ghost asking = *self;
                    let result = self.process_witness_query(column);
                    let ghost answer: Option<int> = match eval_result_view(result) {
                        Ok(constraints) => if constraints.len() == 1 {
                            match constraints[0].1 {
                                ConstraintView::Assignment(value) => Some(value),
                                ConstraintView::BitConstraint(_) => None,
                            }
                        } else {
                            None
                        },
                        Err(_) => None,
                    };
                    let ghost earlier = queries;
                    proof {
                        queries =
                        |j: int|
                            if j == c as int {
                                answer
                            } else {
                                earlier(j)
                            };
                        lemma_queries_from_c_have_no_part(setting, asked, earlier, queries, c as nat);
                        lemma_admitted_up_to_c(setting, asked, earlier, queries, admits, c as nat);
                        let made = query_text(setting.window(before.next), column.query->0);
                        if made is Ok {
                            let text = made->Ok_0;
                            let learnt = eval_result_view(result)->Ok_0;
                            let given = choose|given: Option<FieldElement>|
                                asking.answered(column.id, text, given, learnt);
                            assert(asking.answered(column.id, text, given, learnt));
                            assert(Self::may_give(old(self).callback(), text, given));
                            assert(admits(text, answer));
                        }
                        if result is Ok {
                            let constraints = constraints_view(result->Ok_0@);
                            lemma_merged_values(self.next(), constraints);
                            lemma_merged_bit_constraints(self.next_bit_constraints(), constraints);
                            reveal_with_fuel(merged_values, 2);
                            reveal_with_fuel(merged_bit_constraints, 2);
                            reveal_with_fuel(makes_progress, 2);
                            if constraints.len() == 1 {
                                assert(constraints.drop_last().len() == 0);
                                assert(constraints.last() == constraints[0]);
                            }
                        }
                    }
                    self.handle_eval_result(result);
                    assert(self.pass_state(identity_failed) == setting.after_queries(
                        asked,
                        queries,
                        (c + 1) as nat,
                    ));
                    assert(setting.queries_admitted(asked, queries, admits, (c + 1) as nat));
                }
                c += 1;
            }
        }
        (identity_failed, Ghost(PassAnswers { lookups, queries }))
    }

    /// The report on the next row, for when it could not be completed; see
    /// [`failure_report_text`].
    pub fn failure_report(&self) -> (r: String)
        requires
            self.wf(),
        ensures
            r@ == failure_report_text(
                self.next_row(),
                self.fixed_data().witness_names(),
                self.next(),
                self.failure_reasons(),
                self.global_bit_constraints(),
                self.next_bit_constraints(),
            ),
    {
        let ghost names = self.fixed_data().witness_names();
        let ghost values = self.next();
        let mut unknown: Vec<String> = Vec::new();
        let mut i: usize = 0;
        assert(views_of(unknown@) =~= Seq::<Seq<char>>::empty());
        while i < self.next.len()
            invariant
                i <= self.next@.len(),
                self.wf(),
                names == self.fixed_data().witness_names(),
                values == self.next(),
                views_of(unknown@) == unknown_names(names, values.take(i as int)),
            decreases self.next@.len() - i,
        {
            proof {
                assert(values.take(i + 1).drop_last() =~= values.take(i as int));
                assert(values.take(i + 1).last() == values[i as int]);
            }
            if self.next[i].is_none() {
                let ghost before = views_of(unknown@);
                let name = self.fixed_data.name(i);
                unknown.push(name);
                assert(views_of(unknown@) =~= before.push(names[i as int]));
            }
            i += 1;
        }
        assert(values.take(i as int) =~= values);

        let mut out = String::from_str("\nError: Row ");
        out.append(decimal(self.next_row).as_str());
        out.append(": Identity check failed or unable to derive values for witness polynomials: ");
        out.append(join(&unknown, ", ").as_str());
        out.append("\n\nReasons:\n");
        out.append(join(&self.failure_reasons, "\n\n").as_str());
        out.append("\n\nKnown bit constraints:\nGlobal:\n");

        let listed = sort_by_name(&self.global_bit_constraints);
        let mut global = String::new();
        let mut g: usize = 0;
        while g < listed.len()
            invariant
                g <= listed@.len(),
                global@ == global_constraint_lines(listed@.take(g as int)),
            decreases listed@.len() - g,
        {
            proof {
                let all = listed@;
                assert(all.take(g + 1).drop_last() =~= all.take(g as int));
                assert(all.take(g + 1).last() == all[g as int]);
            }
            global.append("  ");
            global.append(listed[g].0.as_str());
            global.append(": ");
            global.append(listed[g].1.to_string().as_str());
            global.append("\n");
            g += 1;
        }
        assert(listed@.take(g as int) =~= listed@);
        out.append(global.as_str());
        out.append("For this row:\n");

        let mut row = String::new();
        let mut id: usize = 0;
        let ghost constraints = self.next_bit_constraints@;
        while id < self.next_bit_constraints.len()
            invariant
                id <= self.next_bit_constraints@.len(),
                self.wf(),
                names == self.fixed_data().witness_names(),
                constraints == self.next_bit_constraints@,
                row@ == row_constraint_lines(names, constraints.take(id as int)),
            decreases self.next_bit_constraints@.len() - id,
        {
            proof {
                assert(constraints.take(id + 1).drop_last() =~= constraints.take(id as int));
                assert(constraints.take(id + 1).last() == constraints[id as int]);
            }
            if let Some(cons) = &self.next_bit_constraints[id] {
                row.append("  ");
                row.append(self.fixed_data.name(id).as_str());
                row.append(": ");
                row.append(cons.to_string().as_str());
                row.append("\n");
            }
            id += 1;
        }
        assert(constraints.take(id as int) =~= constraints);
        out.append(row.as_str());
        out.append("\nCurrent values (known nonzero first, then zero, then unknown):\n");
        out.append(indent(join(&self.format_next_values(), "\n").as_str(), "    ").as_str());
        out.append("\nWitness generation failed.");
        out
    }

    /// Makes the next row the current row, and returns it with its unknowns
    /// taken for zero. Of the row after it nothing is known.
    fn commit_next_row(&mut self) -> (r: Vec<FieldElement>)
        requires
            old(self).wf(),
        ensures
            final(self).wf(),
            final(self).same_setting(old(self)),
            final(self).next_row() == old(self).next_row(),
            final(self).last_report() == old(self).last_report(),
            final(self).failure_reasons() == old(self).failure_reasons(),
            final(self).progress() == old(self).progress(),
            final(self).current() == old(self).next(),
            final(self).next() == all_unknown::<int>(old(self).fixed_data().witness_count()),
            final(self).next_bit_constraints() == all_unknown::<BitConstraint>(
                old(self).fixed_data().witness_count(),
            ),
            field_views(r@) == with_defaults(old(self).next()),
    {
        let n = self.current.len();
        std::mem::swap(&mut self.next, &mut self.current);
        self.next = unknown_values(n);
        self.next_bit_constraints = unknown_constraints(n);
        assert(self.next() =~= all_unknown::<int>(n as nat));
        assert(self.next_bit_constraints() =~= all_unknown::<BitConstraint>(n as nat));
        let mut row: Vec<FieldElement> = Vec::new();
        let mut i: usize = 0;
        while i < self.current.len()
            invariant
                i <= self.current@.len(),
                row@.len() == i,
                forall|j: int|
                    0 <= j < i ==> (#[trigger] row@[j])@ == with_defaults(self.current())[j],
            decreases self.current@.len() - i,
        {
            let value = match &self.current[i] {
                Some(value) => *value,
                None => FieldElement::zero(),
            };
            row.push(value);
            i += 1;
        }
        assert(field_views(row@) =~= with_defaults(self.current()));
        row
    }

    /// What [`Generator::compute_next_row`] makes of the generator `before`, as
    /// the generator `after` and the result `result`.
    ///
    /// The row number is taken down. Where the row is completed, it is the
    /// current row of `after`, whose next row is unknown again, and it comes
    /// back with its unknowns taken for zero; what `before` knew of the row is
    /// part of it. Where it is not, which is never so for the first row, the
    /// current row stays and the failure holds the report on what was found.
    ///
    /// The row is the row that the rules give for what the machines and the
    /// query callback gave in the passes; see [`Generator::row_is`]. Of a
    /// generator that has neither to ask, the row is thus a matter of the
    /// rules alone; see [`Generator::lemma_same_inputs_same_row`].
    pub open spec fn row_computed(
        before: &Self,
        next_row: DegreeType,
        after: &Self,
        result: Result<Vec<FieldElement>, RowFailure>,
    ) -> bool {
        let n = before.fixed_data().witness_count();
        &&& after.wf()
        &&& after.same_setting(before)
        &&& after.next_row() == next_row
        &&& after.last_report() == (if next_row >= before.last_report() + 1000 {
            next_row
        } else {
            before.last_report()
        })
        &&& match result {
            Ok(row) => {
                &&& row@.len() == n
                &&& field_views(row@) == with_defaults(after.current())
                &&& after.next() == all_unknown::<int>(n)
                &&& after.next_bit_constraints() == all_unknown::<BitConstraint>(n)
                &&& forall|i: int|
                    0 <= i < before.next().len() && before.next()[i] is Some ==> after.current()[i]
                        == before.next()[i]
            },
            Err(failure) => {
                &&& next_row != 0
                &&& failure.row == next_row
                &&& after.current() == before.current()
                &&& after.next().len() == n
                &&& forall|i: int|
                    0 <= i < before.next().len() && before.next()[i] is Some ==> after.next()[i]
                        == before.next()[i]
                &&& failure.report@ == failure_report_text(
                    next_row,
                    after.fixed_data().witness_names(),
                    after.next(),
                    after.failure_reasons(),
                    after.global_bit_constraints(),
                    after.next_bit_constraints(),
                )
            },
        }
        &&& exists|answers: Answers| Self::row_is(before, next_row, after, result, answers)
    }

    /// Whether the row that [`Generator::compute_next_row`] made of `before`
    /// is the row that the rules give where the machines and the query
    /// callback gave `answers`: the row fails if and only if an identity
    /// failed in the last pass and the row is not the first one, and what was
    /// found of the row is what the last pass found; see [`Setting::row_with`].
    /// Every answer to a query among `answers` is one that the callback may
    /// give for the text of the query; see [`Generator::may_answer`].
    pub open spec fn row_is(
        before: &Self,
        next_row: DegreeType,
        after: &Self,
        result: Result<Vec<FieldElement>, RowFailure>,
        answers: Answers,
    ) -> bool {
        let last = before.setting(next_row).row_with(
            before.next(),
            before.next_bit_constraints(),
            before.machine_count(),
            before.has_query_callback(),
            answers,
        );
        &&& result is Err <==> last.identity_failed && next_row != 0
        &&& result is Ok ==> after.current() == last.next
        &&& result is Err ==> after.pass_state(true) == last
        &&& before.setting(next_row).row_admitted(
            before.next(),
            before.next_bit_constraints(),
            before.machine_count(),
            before.has_query_callback(),
            answers,
            before.admits(),
            0,
        )
    }

    /// Computes the row `next_row` from the row before it.
    ///
    /// Goes through the identities and the queries until a pass finds no
    /// value or every value of the row is known. Where an identity failed in
    /// the last pass, and the row is not the first one, the row is not
    /// completed and the report says why. Else the row becomes the current
    /// row, and comes back with its unknowns taken for zero; on the first row
    /// that is the way to go on, and the identities are checked against those
    /// values once the last row is known.
    pub fn compute_next_row(&mut self, next_row: DegreeType) -> (r: Result<
        Vec<FieldElement>,
        RowFailure,
    >)
        requires
            old(self).wf(),
            next_row < old(self).fixed_data().degree,
        ensures
            Self::row_computed(old(self), next_row, final(self), r),
            exists|answers: Answers| Self::row_is(old(self), next_row, final(self), r, answers),
    {
        self.set_next_row_and_log(next_row);
        let ghost setting = self.setting(next_row);
        let ghost first = self.next();
        let ghost first_constraints = self.next_bit_constraints();
        let ghost machine_count = self.machine_count();
        let ghost has_callback = self.has_query_callback();
        let ghost admits = self.admits();
        let ghost mut passes: Seq<PassAnswers> = Seq::empty();

        let mut identity_failed = false;
        loop
            invariant_except_break
                forall|answers: Answers| #[trigger]
                    answers_hold(answers, passes) ==> setting.row_with(
                        first,
                        first_constraints,
                        machine_count,
                        has_callback,
                        answers,
                    ) == setting.row_from(
                        self.next(),
                        self.next_bit_constraints(),
                        machine_count,
                        has_callback,
                        answers,
                        passes.len(),
                    ),
                forall|answers: Answers| #[trigger]
                    answers_hold(answers, passes) ==> setting.row_admitted(
                        first,
                        first_constraints,
                        machine_count,
                        has_callback,
                        answers,
                        admits,
                        0,
                    ) == setting.row_admitted(
                        self.next(),
                        self.next_bit_constraints(),
                        machine_count,
                        has_callback,
                        answers,
                        admits,
                        passes.len(),
                    ),
            invariant
                self.wf(),
                self.same_setting(old(self)),
                self.current() == old(self).current(),
                self.next_row() == next_row,
                self.last_report() == (if next_row >= old(self).last_report() + 1000 {
                    next_row
                } else {
                    old(self).last_report()
                }),
                setting == self.setting(next_row),
                machine_count == self.machine_count(),
                has_callback == self.has_query_callback(),
                admits == self.admits(),
                admits == old(self).admits(),
                self.next().len() == old(self).next().len(),
                forall|i: int|
                    0 <= i < old(self).next().len() && old(self).next()[i] is Some
                        ==> self.next()[i] == old(self).next()[i],
            ensures
                forall|answers: Answers| #[trigger]
                    answers_hold(answers, passes) ==> setting.row_with(
                        first,
                        first_constraints,
                        machine_count,
                        has_callback,
                        answers,
                    ) == self.pass_state(identity_failed),
                forall|answers: Answers| #[trigger]
                    answers_hold(answers, passes) ==> setting.row_admitted(
                        first,
                        first_constraints,
                        machine_count,
                        has_callback,
                        answers,
                        admits,
                        0,
                    ),
            decreases unknown_count(self.next()),
        {
            let ghost earlier = passes;
            let (failed, Ghost(given)) = self.run_pass();
            identity_failed = failed;
            proof {
                passes = earlier.push(given);
                assert forall|answers: Answers| #[trigger]
                    answers_hold(answers, passes) implies answers_hold(answers, earlier)
                    && answers.of_pass(earlier.len()) == given by {
                    assert forall|q: int| 0 <= q < earlier.len() implies answers.of_pass(q as nat)
                        == #[trigger] earlier[q] by {
                        assert(passes[q] == earlier[q]);
                    }
                    assert(passes[earlier.len() as int] == given);
                }
            }
            if !self.progress {
                break;
            }
            if self.next_is_complete() {
                assert(is_complete(self.next()));
                break;
            }
            assert(!is_complete(self.next()));
        }
        proof {
            lemma_answers_of_hold(passes);
        }
        let ghost found = self.pass_state(identity_failed);
        let ghost answers = answers_of(passes);
        assert(setting.row_with(first, first_constraints, machine_count, has_callback, answers)
            == found);
        // Identity check failure on the first row is not fatal. We will proceed with
        // "unknown", report zero and re-check the wrap-around against the zero values at the end.
        if identity_failed && next_row != 0 {
            let report = self.failure_report();
            let r = Err(RowFailure { row: next_row, report });
            assert(Self::row_is(old(self), next_row, self, r, answers));
            r
        } else {
            let row = self.commit_next_row();
            assert(row@.len() == field_views(row@).len());
            let r = Ok(row);
            assert(Self::row_is(old(self), next_row, self, r, answers));
            r
        }
    }

    /// Two generators that are given the same circuit, know the same of its
    /// rows and are given the same by their machines and callbacks compute the
    /// same for the same row: both complete it or both fail, they return the
    /// same row or the same report, and they know the same of the rows afterwards.
    pub proof fn lemma_same_answers_same_row(
        first: &Self,
        second: &Self,
        next_row: DegreeType,
        first_after: &Self,
        second_after: &Self,
        first_result: Result<Vec<FieldElement>, RowFailure>,
        second_result: Result<Vec<FieldElement>, RowFailure>,
        answers: Answers,
    )
        requires
            first.setting(next_row) == second.setting(next_row),
            first.machine_count() == second.machine_count(),
            first.has_query_callback() == second.has_query_callback(),
            first.next() == second.next(),
            first.next_bit_constraints() == second.next_bit_constraints(),
            Self::row_computed(first, next_row, first_after, first_result),
            Self::row_computed(second, next_row, second_after, second_result),
            Self::row_is(first, next_row, first_after, first_result, answers),
            Self::row_is(second, next_row, second_after, second_result, answers),
        ensures
            first_result is Ok <==> second_result is Ok,
            first_after.current() == second_after.current(),
            first_after.next() == second_after.next(),
            first_after.next_bit_constraints() == second_after.next_bit_constraints(),
            first_after.setting(next_row) == second_after.setting(next_row),
            match (first_result, second_result) {
                (Ok(one), Ok(other)) => field_views(one@) == field_views(other@),
                (Err(one), Err(other)) => one.row == other.row && one.report@ == other.report@,
                _ => false,
            },
    {
        assert(first_after.setting(next_row).identities =~= second_after.setting(
            next_row,
        ).identities);
    }

    /// Two generators that have neither a machine nor a query callback to ask,
    /// and that are given the same circuit and know the same of its rows,
    /// compute the same for the same row: the row is [`Setting::row`].
    pub proof fn lemma_same_inputs_same_row(
        first: &Self,
        second: &Self,
        next_row: DegreeType,
        first_after: &Self,
        second_after: &Self,
        first_result: Result<Vec<FieldElement>, RowFailure>,
        second_result: Result<Vec<FieldElement>, RowFailure>,
    )
        requires
            first.self_contained(),
            second.self_contained(),
            first.setting(next_row) == second.setting(next_row),
            first.next() == second.next(),
            first.next_bit_constraints() == second.next_bit_constraints(),
            Self::row_computed(first, next_row, first_after, first_result),
            Self::row_computed(second, next_row, second_after, second_result),
        ensures
            first_result is Ok <==> second_result is Ok,
            first_after.current() == second_after.current(),
            first_after.next() == second_after.next(),
            first_after.next_bit_constraints() == second_after.next_bit_constraints(),
            first_after.setting(next_row) == second_after.setting(next_row),
            match (first_result, second_result) {
                (Ok(one), Ok(other)) => field_views(one@) == field_views(other@),
                (Err(one), Err(other)) => one.row == other.row && one.report@ == other.report@,
                _ => false,
            },
            ({
                let last = first.setting(next_row).row(
                    first.next(),
                    first.next_bit_constraints(),
                );
                &&& first_result is Err <==> last.identity_failed && next_row != 0
                &&& first_result is Ok ==> first_after.current() == last.next
                &&& first_result is Err ==> first_after.pass_state(true) == last
            }),
    {
        let one = choose|answers: Answers|
            Self::row_is(first, next_row, first_after, first_result, answers);
        let other = choose|answers: Answers|
            Self::row_is(second, next_row, second_after, second_result, answers);
        lemma_row_with_nobody_to_ask(
            first.setting(next_row),
            first.next(),
            first.next_bit_constraints(),
            one,
            0,
        );
        lemma_row_with_nobody_to_ask(
            first.setting(next_row),
            first.next(),
            first.next_bit_constraints(),
            other,
            0,
        );
        lemma_nothing_asked_is_admitted(
            second.setting(next_row),
            second.next(),
            second.next_bit_constraints(),
            0,
            one,
            second.admits(),
            0,
        );
        Self::lemma_same_answers_same_row(
            first,
            second,
            next_row,
            first_after,
            second_after,
            first_result,
            second_result,
            one,
        );
    }

    /// Verifies the proposed values for the next row.
    ///
    /// Every identity is processed once with the proposed values as the next
    /// row. Where none fails, the proposed row becomes the current row. Where
    /// one fails, the proposed values are dropped and the current row stays.
    pub fn propose_next_row(&mut self, next_row: DegreeType, values: &[FieldElement]) -> (r: bool)
        requires
            old(self).wf(),
            next_row < old(self).fixed_data().degree,
            values@.len() == old(self).fixed_data().witness_count(),
        ensures
            final(self).wf(),
            final(self).same_setting(old(self)),
            final(self).next_row() == next_row,
            final(self).last_report() == (if next_row >= old(self).last_report() + 1000 {
                next_row
            } else {
                old(self).last_report()
            }),
            final(self).next() == all_unknown::<int>(old(self).fixed_data().witness_count()),
            final(self).next_bit_constraints() == all_unknown::<BitConstraint>(
                old(self).fixed_data().witness_count(),
            ),
            final(self).failure_reasons() == old(self).failure_reasons(),
            final(self).progress() == old(self).progress(),
            r ==> final(self).current() == all_known(field_views(values@)),
            !r ==> final(self).current() == old(self).current(),
            r ==> forall|k: int|
                0 <= k < old(self).identities().len() ==> (#[trigger] old(self).proposal_outcome(
                    next_row,
                    values@,
                    k,
                ) matches Some(outcome) ==> outcome is Ok),
            (forall|k: int|
                0 <= k < old(self).identities().len() ==> (#[trigger] old(self).proposal_outcome(
                    next_row,
                    values@,
                    k,
                ) matches Some(outcome) && outcome is Ok)) ==> r,
    {
        self.set_next_row_and_log(next_row);
        let n = self.current.len();
        let mut proposed: Vec<Option<FieldElement>> = Vec::new();
        let mut i: usize = 0;
        while i < values.len()
            invariant
                i <= values@.len(),
                proposed@.len() == i,
                forall|j: int| 0 <= j < i ==> proposed@[j] == Some(values@[j]),
            decreases values@.len() - i,
        {
            proposed.push(Some(values[i]));
            i += 1;
        }
        self.next = proposed;
        assert(self.next() =~= all_known(field_views(values@)));
        let ghost checked = *self;
        assert(forall|k: int|
            0 <= k < old(self).identities().len() ==> old(self).proposal_outcome(
                next_row,
                values@,
                k,
            ) == identity_outcome(
                checked.window(),
                checked.known_bit_constraints(),
                *checked.identities()[k],
                checked.machine_count(),
            ));

        let identities: &'a [&'a Identity] = self.identities;
        let mut k: usize = 0;
        while k < identities.len()
            invariant
                k <= identities@.len(),
                identities@ == old(self).identities(),
                self.wf(),
                self.same_rows(&checked),
                checked.same_setting(old(self)),
                checked.current() == old(self).current(),
                checked.failure_reasons() == old(self).failure_reasons(),
                checked.progress() == old(self).progress(),
                checked.next_row() == next_row,
                checked.last_report() == (if next_row >= old(self).last_report() + 1000 {
                    next_row
                } else {
                    old(self).last_report()
                }),
                forall|j: int|
                    0 <= j < old(self).identities().len() ==> #[trigger] old(self).proposal_outcome(
                        next_row,
                        values@,
                        j,
                    ) == identity_outcome(
                        checked.window(),
                        checked.known_bit_constraints(),
                        *checked.identities()[j],
                        checked.machine_count(),
                    ),
                n == self.fixed_data().witness_count(),
                forall|j: int|
                    0 <= j < k ==> (#[trigger] identity_outcome(
                        checked.window(),
                        checked.known_bit_constraints(),
                        *identities@[j],
                        checked.machine_count(),
                    ) matches Some(outcome) ==> outcome is Ok),
            decreases identities@.len() - k,
        {
            let result = self.process_identity(identities[k]);
            if result.is_err() {
                proof {
                    let outcome = old(self).proposal_outcome(next_row, values@, k as int);
                    assert(!(outcome matches Some(o) && o is Ok));
                }
                self.next = unknown_values(n);
                self.next_bit_constraints = unknown_constraints(n);
                assert(self.next() =~= all_unknown::<int>(n as nat));
                assert(self.next_bit_constraints() =~= all_unknown::<BitConstraint>(n as nat));
                return false;
            }
            k += 1;
        }
        let _ = self.commit_next_row();
        true
    }

    /// Where a proposed row passes a polynomial identity, the identity holds on
    /// the row: it evaluates to zero in the window of the current row and the
    /// proposed one.
    pub proof fn lemma_accepted_proposal_holds(
        before: &Self,
        next_row: DegreeType,
        values: Seq<FieldElement>,
        k: int,
        e: Expression,
    )
        requires
            values.len() == before.fixed_data().witness_count(),
            0 <= k < before.identities().len(),
            before.identities()[k].kind == IdentityKind::Polynomial,
            before.identities()[k].left.selector == Some(e),
            before.proposal_outcome(next_row, values, k) matches Some(outcome) && outcome is Ok,
        ensures
            ({
                let window = Window {
                    fixed_data: before.fixed_data(),
                    current: before.current(),
                    next: all_known(field_views(values)),
                    next_row: next_row as int,
                };
                window.evaluate(e, identity_row(before.fixed_data(), e)) matches Ok(form)
                    && form.is_constant() && form.offset == 0
            }),
    {
        let window = Window {
            fixed_data: before.fixed_data(),
            current: before.current(),
            next: all_known(field_views(values)),
            next_row: next_row as int,
        };
        lemma_complete_row_meets_identity(window, before.known_bit_constraints(), e);
    }

    /// What the identity `k` teaches, as far as no machine has the say, when
    /// `values` are proposed for the row `next_row`.
    pub open spec fn proposal_outcome(
        &self,
        next_row: DegreeType,
        values: Seq<FieldElement>,
        k: int,
    ) -> LookupOutcome {
        identity_outcome(
            Window {
                fixed_data: self.fixed_data(),
                current: self.current(),
                next: all_known(field_views(values)),
                next_row: next_row as int,
            },
            self.known_bit_constraints(),
            *self.identities()[k],
            self.machine_count(),
        )
    }

    /// The witness columns that the machines own, each with its name. Where
    /// two machines have a column of one name, that of the machine registered
    /// later stands, in the place of the first.
    pub fn machine_witness_col_values(&mut self) -> (r: Vec<(String, Vec<FieldElement>)>)
        requires
            old(self).wf(),
        ensures
            final(self).wf(),
            final(self).same_rows(old(self)),
            distinct_names(column_names(r@)),
            old(self).machine_count() == 0 ==> r@.len() == 0,
    {
        let mut result: Vec<(String, Vec<FieldElement>)> = Vec::new();
        let mut m: usize = 0;
        while m < self.machines.len()
            invariant
                m <= self.machines@.len(),
                self.wf(),
                self.same_rows(old(self)),
                distinct_names(column_names(result@)),
                m == 0 ==> result@.len() == 0,
            decreases self.machines@.len() - m,
        {
            let columns = self.machines[m].witness_col_values(self.fixed_data);
            merge_columns(&mut result, columns);
            m += 1;
        }
        result
    }

    /// The number of the row that was computed or proposed last.
    pub fn row(&self) -> (r: DegreeType)
        ensures
            r == self.next_row(),
    {
        self.next_row
    }

    /// The row of the latest progress report: reports are due a thousand rows apart.
    pub fn reported_row(&self) -> (r: DegreeType)
        ensures
            r == self.last_report(),
    {
        self.last_report
    }

    /// The values of the current row, as far as they are known.
    pub fn current_values(&self) -> (r: Vec<Option<FieldElement>>)
        ensures
            values_view(r@) == self.current(),
    {
        let mut values: Vec<Option<FieldElement>> = Vec::new();
        let mut i: usize = 0;
        while i < self.current.len()
            invariant
                i <= self.current@.len(),
                values@ == self.current@.take(i as int),
            decreases self.current@.len() - i,
        {
            values.push(self.current[i]);
            assert(values@ =~= self.current@.take(i + 1));
            i += 1;
        }
        assert(self.current@.take(i as int) =~= self.current@);
        values
    }

    /// The reasons why identities failed in the last pass, one for each failure.
    pub fn reasons(&self) -> (r: Vec<String>)
        ensures
            views_of(r@) == self.failure_reasons(),
    {
        let mut reasons: Vec<String> = Vec::new();
        let mut i: usize = 0;
        assert(views_of(reasons@) =~= views_of(self.failure_reasons@.take(0)));
        while i < self.failure_reasons.len()
            invariant
                i <= self.failure_reasons@.len(),
                views_of(reasons@) == views_of(self.failure_reasons@.take(i as int)),
            decreases self.failure_reasons@.len() - i,
        {
            let ghost before = views_of(reasons@);
            reasons.push(String::from_str(self.failure_reasons[i].as_str()));
            assert(views_of(reasons@) =~= before.push(self.failure_reasons@[i as int]@));
            assert(views_of(reasons@) =~= views_of(self.failure_reasons@.take(i + 1)));
            i += 1;
        }
        assert(self.failure_reasons@.take(i as int) =~= self.failure_reasons@);
        reasons
    }

    fn bit_constraint_set(&self) -> (r: WitnessBitConstraintSet<'_>)
        requires
            self.wf(),
        ensures
            r.witness_count() == self.fixed_data().witness_count(),
            known_constraints_of(&r, self.fixed_data().witness_count())
                == self.known_bit_constraints(),
    {
        let r = WitnessBitConstraintSet {
            fixed_data: self.fixed_data,
            global_bit_constraints: &self.global_bit_constraints,
            next_bit_constraints: &self.next_bit_constraints,
        };
        assert(known_constraints_of(&r, self.fixed_data().witness_count())
            =~= self.known_bit_constraints());
        r
    }
}

} // verus!
