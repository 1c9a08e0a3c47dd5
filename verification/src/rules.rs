//! What the identities teach about the next row, and how a row comes about:
//! the rules of the generator, stated over plain values.

use crate::affine_expression::LinearForm;
use crate::bit_constraints::BitConstraint;
use crate::eval_error::EvalErrorView;
use crate::expression::{identity_text, Expression, Identity, IdentityKind};
use crate::field::{has_inverse, quotient_of};
use crate::fixed_data::FixedData;
use crate::machines::{fixed_lookup_outcome, LookupOutcome};
use crate::query::query_text;
use crate::text::indent_text;
use crate::window::{
    are_canonical, identity_row, lemma_complete_window_gives_values,
    lemma_evaluation_after_assignment, lemma_only_unknowns_occur, EvaluationRow, Window,
};
use crate::witness_bit_constraints::combined_constraints;
use crate::{Constraint, ConstraintView};
use vstd::prelude::*;

verus! {

/// The values after the assignments among `constraints` have been merged in,
/// one after the other: an assignment fills a value that is not yet known,
/// and changes nothing of a value that is.
pub open spec fn merged_values(
    values: Seq<Option<int>>,
    constraints: Seq<(usize, ConstraintView)>,
) -> Seq<Option<int>>
    decreases constraints.len(),
{
    if constraints.len() == 0 {
        values
    } else {
        let before = merged_values(values, constraints.drop_last());
        let id = constraints.last().0 as int;
        match constraints.last().1 {
            ConstraintView::Assignment(value) => if before[id] is None {
                before.update(id, Some(value))
            } else {
                before
            },
            ConstraintView::BitConstraint(_) => before,
        }
    }
}

/// The bit constraints of the row after those among `constraints` have been
/// merged in, one after the other: a bit constraint takes the place of what was
/// known of its witness for this row.
pub open spec fn merged_bit_constraints(
    known: Seq<Option<BitConstraint>>,
    constraints: Seq<(usize, ConstraintView)>,
) -> Seq<Option<BitConstraint>>
    decreases constraints.len(),
{
    if constraints.len() == 0 {
        known
    } else {
        let before = merged_bit_constraints(known, constraints.drop_last());
        let id = constraints.last().0 as int;
        match constraints.last().1 {
            ConstraintView::Assignment(_) => before,
            ConstraintView::BitConstraint(constraint) => before.update(id, Some(constraint)),
        }
    }
}

/// Whether merging `constraints` into `values` fills a value that was not known.
pub open spec fn makes_progress(
    values: Seq<Option<int>>,
    constraints: Seq<(usize, ConstraintView)>,
) -> bool
    decreases constraints.len(),
{
    if constraints.len() == 0 {
        false
    } else {
        makes_progress(values, constraints.drop_last()) || (constraints.last().1 is Assignment
            && merged_values(values, constraints.drop_last())[constraints.last().0 as int]
            is None)
    }
}

/// Whether every constraint is on one of the first `n` witnesses.
pub open spec fn in_range(constraints: Seq<(usize, ConstraintView)>, n: nat) -> bool {
    forall|k: int| 0 <= k < constraints.len() ==> (#[trigger] constraints[k]).0 < n
}

/// The number of values that are not known.
pub open spec fn unknown_count(values: Seq<Option<int>>) -> nat
    decreases values.len(),
{
    if values.len() == 0 {
        0
    } else {
        unknown_count(values.drop_last()) + (if values.last() is None {
            1nat
        } else {
            0nat
        })
    }
}

/// Whether every value is known.
pub open spec fn is_complete(values: Seq<Option<int>>) -> bool {
    forall|i: int| 0 <= i < values.len() ==> values[i] is Some
}

/// What a polynomial identity `e = 0` teaches about the next row.
///
/// An identity that refers to the next row of a witness is evaluated on the
/// current row, any other on the next row. An identity that evaluates to zero
/// holds. Any other is solved; where that fails, the error says so with the
/// evaluated identity in it.
pub open spec fn polynomial_outcome(
    window: Window,
    known: Seq<Option<BitConstraint>>,
    e: Expression,
) -> Result<Seq<(usize, ConstraintView)>, EvalErrorView> {
    let names = window.fixed_data.witness_names();
    match window.evaluate(e, identity_row(window.fixed_data, e)) {
        Err(error) => Err(error),
        Ok(form) => if form.constant_value() == Some(0int) {
            Ok(Seq::empty())
        } else {
            match form.solution(known) {
                Ok(constraints) => Ok(constraints),
                Err(EvalErrorView::ConstraintUnsatisfiable(_)) => Err(
                    EvalErrorView::ConstraintUnsatisfiable(
                        "Constraint is invalid ("@ + form.text(names) + " != 0)."@,
                    ),
                ),
                Err(_) => Err(
                    EvalErrorView::Generic(
                        "Could not solve expression "@ + form.text(names) + " = 0."@,
                    ),
                ),
            }
        },
    }
}

/// What the selector of the left side of a lookup says on the next row:
/// whether the lookup is switched on. A selector that is not known to be zero
/// or one is an error.
pub open spec fn selector_outcome(window: Window, selector: Option<Expression>) -> Result<
    bool,
    EvalErrorView,
> {
    match selector {
        None => Ok(true),
        Some(expression) => match window.evaluate(expression, EvaluationRow::Next) {
            Err(error) => Err(error),
            Ok(form) => if form.constant_value() == Some(0int) {
                Ok(false)
            } else if form.constant_value() == Some(1int) {
                Ok(true)
            } else {
                Err(
                    EvalErrorView::Generic(
                        "Value of the selector on the left hand side unknown or not boolean: "@
                            + form.text(window.fixed_data.witness_names()),
                    ),
                )
            },
        },
    }
}

/// The expressions of the left side of a lookup, each evaluated on the next row.
pub open spec fn left_forms(window: Window, expressions: Seq<Expression>) -> Seq<
    Result<LinearForm, EvalErrorView>,
> {
    Seq::new(expressions.len(), |i: int| window.evaluate(expressions[i], EvaluationRow::Next))
}

/// What a lookup gives before any machine is asked, or `None` where the
/// machines are to be asked: a lookup that is switched off teaches nothing,
/// and the lookup in fixed columns is asked first.
pub open spec fn lookup_outcome(window: Window, identity: Identity) -> LookupOutcome {
    match selector_outcome(window, identity.left.selector) {
        Err(error) => Some(Err(error)),
        Ok(false) => Some(Ok(Seq::empty())),
        Ok(true) => fixed_lookup_outcome(
            window.fixed_data,
            identity.kind,
            left_forms(window, identity.left.expressions@),
            identity.right,
            window.fixed_data.witness_count(),
        ),
    }
}

/// The error of a lookup that neither the fixed lookup nor a machine answers.
pub open spec fn no_machine_error() -> EvalErrorView {
    EvalErrorView::Generic("Could not find a matching machine for the lookup."@)
}

/// What an identity teaches about the next row, as far as that does not
/// depend on a machine; `None` where a machine has the say.
pub open spec fn identity_outcome(
    window: Window,
    known: Seq<Option<BitConstraint>>,
    identity: Identity,
    machine_count: nat,
) -> LookupOutcome {
    match identity.kind {
        IdentityKind::Polynomial => match identity.left.selector {
            Some(expression) => Some(polynomial_outcome(window, known, expression)),
            None => Some(
                Err(EvalErrorView::Generic("Polynomial identity without an expression."@)),
            ),
        },
        IdentityKind::Plookup | IdentityKind::Permutation => match lookup_outcome(
            window,
            identity,
        ) {
            Some(outcome) => Some(outcome),
            None => if machine_count == 0 {
                Some(Err(no_machine_error()))
            } else {
                None
            },
        },
        IdentityKind::Connect => Some(Err(EvalErrorView::Generic("Unsupported lookup type"@))),
    }
}

/// The error of an identity that made no progress: the identity, and below it
/// the reason, indented.
pub open spec fn no_progress_text(identity: Identity, error: EvalErrorView) -> Seq<char> {
    "No progress on "@ + identity_text(identity) + ":\n"@ + indent_text(error.text(), "    "@)
}

/// The outcome with its error, if it is one, wrapped in the identity's text.
pub open spec fn wrapped_outcome(
    identity: Identity,
    outcome: Result<Seq<(usize, ConstraintView)>, EvalErrorView>,
) -> Result<Seq<(usize, ConstraintView)>, EvalErrorView> {
    match outcome {
        Ok(constraints) => Ok(constraints),
        Err(error) => Err(EvalErrorView::Generic(no_progress_text(identity, error))),
    }
}

/// What a generator is given, and what it knows of the row before the next one.
pub struct Setting {
    pub fixed_data: FixedData,
    pub identities: Seq<Identity>,
    pub global_bit_constraints: Seq<(String, BitConstraint)>,
    pub current: Seq<Option<int>>,
    pub next_row: int,
}

/// How far a pass through the identities has come.
pub struct PassState {
    /// The values of the next row, as far as they are known.
    pub next: Seq<Option<int>>,
    /// The bit constraints found for the next row.
    pub bit_constraints: Seq<Option<BitConstraint>>,
    /// Whether the pass has found a value.
    pub progress: bool,
    /// Whether an identity has failed in the pass.
    pub identity_failed: bool,
    /// Why the identities that failed in the pass did so.
    pub reasons: Seq<Seq<char>>,
}

impl Setting {
    /// The window with `next` as the next row.
    pub open spec fn window(self, next: Seq<Option<int>>) -> Window {
        Window { fixed_data: self.fixed_data, current: self.current, next, next_row: self.next_row }
    }

    /// The pass after one more identity, where no machine is there to be asked:
    /// what the identity teaches is merged into the row, and its failure is
    /// taken down with the identity's text around the reason.
    pub open spec fn after_identity(self, before: PassState, identity: Identity) -> PassState {
        match identity_outcome(
            self.window(before.next),
            combined_constraints(
                self.fixed_data,
                self.global_bit_constraints,
                before.bit_constraints,
            ),
            identity,
            0,
        ) {
            Some(Ok(constraints)) => PassState {
                next: merged_values(before.next, constraints),
                bit_constraints: merged_bit_constraints(before.bit_constraints, constraints),
                progress: before.progress || makes_progress(before.next, constraints),
                identity_failed: before.identity_failed,
                reasons: before.reasons,
            },
            Some(Err(error)) => PassState {
                next: before.next,
                bit_constraints: before.bit_constraints,
                progress: before.progress,
                identity_failed: true,
                reasons: before.reasons.push(no_progress_text(identity, error)),
            },
            None => before,
        }
    }

    /// The pass after the first `k` identities, begun with the row `next` and
    /// the bit constraints `bit_constraints`.
    pub open spec fn after_identities(
        self,
        next: Seq<Option<int>>,
        bit_constraints: Seq<Option<BitConstraint>>,
        k: nat,
    ) -> PassState
        decreases k,
    {
        if k == 0 {
            PassState {
                next,
                bit_constraints,
                progress: false,
                identity_failed: false,
                reasons: Seq::empty(),
            }
        } else {
            self.after_identity(
                self.after_identities(next, bit_constraints, (k - 1) as nat),
                self.identities[k - 1],
            )
        }
    }

    /// One pass through all identities.
    pub open spec fn pass(
        self,
        next: Seq<Option<int>>,
        bit_constraints: Seq<Option<BitConstraint>>,
    ) -> PassState {
        self.after_identities(next, bit_constraints, self.identities.len())
    }

    /// The last of the passes that are made for a row: passes are made until
    /// one finds no value or the row is complete. A pass that finds a value
    /// leaves fewer values unknown, so that the passes come to an end.
    pub open spec fn row(
        self,
        next: Seq<Option<int>>,
        bit_constraints: Seq<Option<BitConstraint>>,
    ) -> PassState
        decreases unknown_count(next),
    {
        let pass = self.pass(next, bit_constraints);
        if pass.progress && !is_complete(pass.next) && unknown_count(pass.next) < unknown_count(
            next,
        ) {
            self.row(pass.next, pass.bit_constraints)
        } else {
            pass
        }
    }
}

/// What the outside gave in one pass: the machines for the lookups, and the
/// query callback for the witnesses.
pub struct PassAnswers {
    /// For the identity `k`, what the machines gave for it: with a constraint
    /// on a witness that the circuit does not have turned into an error, and
    /// the error that no machine answered where none did.
    pub lookups: spec_fn(int) -> Result<Seq<(usize, ConstraintView)>, EvalErrorView>,
    /// For the witness `c`, the value that the callback answered, if it answered one.
    pub queries: spec_fn(int) -> Option<int>,
}

/// What the outside gave in the passes of a row, pass by pass from pass `0`.
pub struct Answers {
    /// For the pass and the identity, as [`PassAnswers::lookups`].
    pub lookups: spec_fn(nat, int) -> Result<Seq<(usize, ConstraintView)>, EvalErrorView>,
    /// For the pass and the witness, as [`PassAnswers::queries`].
    pub queries: spec_fn(nat, int) -> Option<int>,
}

impl Answers {
    /// What the outside gave in the pass `pass`.
    pub open spec fn of_pass(self, pass: nat) -> PassAnswers {
        PassAnswers {
            lookups: |k: int| (self.lookups)(pass, k),
            queries: |c: int| (self.queries)(pass, c),
        }
    }
}

impl Setting {
    /// The pass after an identity has given `outcome`: what it teaches is
    /// merged into the row, and its failure is taken down with the
    /// identity's text around the reason.
    pub open spec fn after_outcome(
        self,
        before: PassState,
        identity: Identity,
        outcome: Result<Seq<(usize, ConstraintView)>, EvalErrorView>,
    ) -> PassState {
        match outcome {
            Ok(constraints) => PassState {
                next: merged_values(before.next, constraints),
                bit_constraints: merged_bit_constraints(before.bit_constraints, constraints),
                progress: before.progress || makes_progress(before.next, constraints),
                identity_failed: before.identity_failed,
                reasons: before.reasons,
            },
            Err(error) => PassState {
                next: before.next,
                bit_constraints: before.bit_constraints,
                progress: before.progress,
                identity_failed: true,
                reasons: before.reasons.push(no_progress_text(identity, error)),
            },
        }
    }

    /// The pass after the first `k` identities, begun with the row `next` and
    /// the bit constraints `bit_constraints`, where the machines gave `lookups`.
    ///
    /// An identity gives what [`identity_outcome`] says, where that says
    /// anything, and else what the machines gave for it.
    pub open spec fn after_identities_with(
        self,
        next: Seq<Option<int>>,
        bit_constraints: Seq<Option<BitConstraint>>,
        machine_count: nat,
        lookups: spec_fn(int) -> Result<Seq<(usize, ConstraintView)>, EvalErrorView>,
        k: nat,
    ) -> PassState
        decreases k,
    {
        if k == 0 {
            PassState {
                next,
                bit_constraints,
                progress: false,
                identity_failed: false,
                reasons: Seq::empty(),
            }
        } else {
            let before = self.after_identities_with(
                next,
                bit_constraints,
                machine_count,
                lookups,
                (k - 1) as nat,
            );
            let identity = self.identities[k - 1];
            self.after_outcome(
                before,
                identity,
                match identity_outcome(
                    self.window(before.next),
                    combined_constraints(
                        self.fixed_data,
                        self.global_bit_constraints,
                        before.bit_constraints,
                    ),
                    identity,
                    machine_count,
                ) {
                    Some(outcome) => outcome,
                    None => lookups(k - 1),
                },
            )
        }
    }

    /// The pass after the queries of the first `c` witnesses, where the
    /// callback answered `queries`.
    ///
    /// A witness is asked for where it has a query and no value yet. A query
    /// whose text cannot be made is taken down as a reason, and is no failure
    /// of an identity. An answer is the value of the witness and is progress;
    /// no answer changes nothing.
    pub open spec fn after_queries(
        self,
        start: PassState,
        queries: spec_fn(int) -> Option<int>,
        c: nat,
    ) -> PassState
        decreases c,
    {
        if c == 0 {
            start
        } else {
            let before = self.after_queries(start, queries, (c - 1) as nat);
            let column = self.fixed_data.witness_cols@[c - 1];
            if before.next[c - 1] is None && column.query is Some {
                match query_text(self.window(before.next), column.query->0) {
                    Err(error) => PassState {
                        next: before.next,
                        bit_constraints: before.bit_constraints,
                        progress: before.progress,
                        identity_failed: before.identity_failed,
                        reasons: before.reasons.push(error),
                    },
                    Ok(_) => match queries(c - 1) {
                        Some(value) => PassState {
                            next: before.next.update(c - 1, Some(value)),
                            bit_constraints: before.bit_constraints,
                            progress: true,
                            identity_failed: before.identity_failed,
                            reasons: before.reasons,
                        },
                        None => before,
                    },
                }
            } else {
                before
            }
        }
    }

    /// One pass: through all identities and then, where there is a query
    /// callback, through the queries of all witnesses in the order of their ids.
    pub open spec fn pass_with(
        self,
        next: Seq<Option<int>>,
        bit_constraints: Seq<Option<BitConstraint>>,
        machine_count: nat,
        has_callback: bool,
        answers: PassAnswers,
    ) -> PassState {
        let identities = self.after_identities_with(
            next,
            bit_constraints,
            machine_count,
            answers.lookups,
            self.identities.len(),
        );
        if has_callback {
            self.after_queries(identities, answers.queries, self.fixed_data.witness_count())
        } else {
            identities
        }
    }

    /// The last of the passes that are made for a row from the pass `pass`
    /// on: passes are made until one finds no value or the row is complete.
    pub open spec fn row_from(
        self,
        next: Seq<Option<int>>,
        bit_constraints: Seq<Option<BitConstraint>>,
        machine_count: nat,
        has_callback: bool,
        answers: Answers,
        pass: nat,
    ) -> PassState
        decreases unknown_count(next),
    {
        let found = self.pass_with(
            next,
            bit_constraints,
            machine_count,
            has_callback,
            answers.of_pass(pass),
        );
        if found.progress && !is_complete(found.next) && unknown_count(found.next) < unknown_count(
            next,
        ) {
            self.row_from(
                found.next,
                found.bit_constraints,
                machine_count,
                has_callback,
                answers,
                pass + 1,
            )
        } else {
            found
        }
    }

    /// The last of the passes that are made for a row, given what the
    /// machines and the query callback gave in each pass.
    pub open spec fn row_with(
        self,
        next: Seq<Option<int>>,
        bit_constraints: Seq<Option<BitConstraint>>,
        machine_count: nat,
        has_callback: bool,
        answers: Answers,
    ) -> PassState {
        self.row_from(next, bit_constraints, machine_count, has_callback, answers, 0)
    }
}

impl Setting {
    /// Whether, in the queries of the first `c` witnesses, every answer to a
    /// query that is asked is one that `admits` admits for the text of the query.
    pub open spec fn queries_admitted(
        self,
        start: PassState,
        queries: spec_fn(int) -> Option<int>,
        admits: spec_fn(Seq<char>, Option<int>) -> bool,
        c: nat,
    ) -> bool
        decreases c,
    {
        if c == 0 {
            true
        } else {
            let before = self.after_queries(start, queries, (c - 1) as nat);
            let column = self.fixed_data.witness_cols@[c - 1];
            &&& self.queries_admitted(start, queries, admits, (c - 1) as nat)
            &&& (before.next[c - 1] is None && column.query is Some ==> (query_text(
                self.window(before.next),
                column.query->0,
            ) matches Ok(text) ==> admits(text, queries(c - 1))))
        }
    }

    /// Whether every answer to a query that is asked in the pass is one that
    /// `admits` admits for the text of the query.
    pub open spec fn pass_admitted(
        self,
        next: Seq<Option<int>>,
        bit_constraints: Seq<Option<BitConstraint>>,
        machine_count: nat,
        has_callback: bool,
        answers: PassAnswers,
        admits: spec_fn(Seq<char>, Option<int>) -> bool,
    ) -> bool {
        has_callback ==> self.queries_admitted(
            self.after_identities_with(
                next,
                bit_constraints,
                machine_count,
                answers.lookups,
                self.identities.len(),
            ),
            answers.queries,
            admits,
            self.fixed_data.witness_count(),
        )
    }

    /// Whether every answer to a query that is asked in the passes of a row,
    /// from the pass `pass` on, is one that `admits` admits for the text of
    /// the query.
    pub open spec fn row_admitted(
        self,
        next: Seq<Option<int>>,
        bit_constraints: Seq<Option<BitConstraint>>,
        machine_count: nat,
        has_callback: bool,
        answers: Answers,
        admits: spec_fn(Seq<char>, Option<int>) -> bool,
        pass: nat,
    ) -> bool
        decreases unknown_count(next),
    {
        let found = self.pass_with(
            next,
            bit_constraints,
            machine_count,
            has_callback,
            answers.of_pass(pass),
        );
        &&& self.pass_admitted(
            next,
            bit_constraints,
            machine_count,
            has_callback,
            answers.of_pass(pass),
            admits,
        )
        &&& (found.progress && !is_complete(found.next) && unknown_count(found.next)
            < unknown_count(next) ==> self.row_admitted(
            found.next,
            found.bit_constraints,
            machine_count,
            has_callback,
            answers,
            admits,
            pass + 1,
        ))
    }
}

/// Without a query callback no query is asked, and so every answer is admitted.
pub proof fn lemma_nothing_asked_is_admitted(
    setting: Setting,
    next: Seq<Option<int>>,
    bit_constraints: Seq<Option<BitConstraint>>,
    machine_count: nat,
    answers: Answers,
    admits: spec_fn(Seq<char>, Option<int>) -> bool,
    pass: nat,
)
    ensures
        setting.row_admitted(next, bit_constraints, machine_count, false, answers, admits, pass),
    decreases unknown_count(next),
{
    let found = setting.pass_with(
        next,
        bit_constraints,
        machine_count,
        false,
        answers.of_pass(pass),
    );
    if found.progress && !is_complete(found.next) && unknown_count(found.next) < unknown_count(
        next,
    ) {
        lemma_nothing_asked_is_admitted(
            setting,
            found.next,
            found.bit_constraints,
            machine_count,
            answers,
            admits,
            pass + 1,
        );
    }
}

/// What the callback answered for witnesses from `c` on has no part in
/// whether the answers up to the witness `c` are admitted.
pub proof fn lemma_admitted_up_to_c(
    setting: Setting,
    start: PassState,
    first: spec_fn(int) -> Option<int>,
    second: spec_fn(int) -> Option<int>,
    admits: spec_fn(Seq<char>, Option<int>) -> bool,
    c: nat,
)
    requires
        forall|j: int| 0 <= j < c ==> #[trigger] first(j) == second(j),
    ensures
        setting.queries_admitted(start, first, admits, c) == setting.queries_admitted(
            start,
            second,
            admits,
            c,
        ),
    decreases c,
{
    if c > 0 {
        lemma_admitted_up_to_c(setting, start, first, second, admits, (c - 1) as nat);
        lemma_queries_from_c_have_no_part(setting, start, first, second, (c - 1) as nat);
        assert(first(c - 1) == second(c - 1));
    }
}

/// What the machines gave for identities from `k` on has no part in the pass
/// up to the identity `k`.
pub proof fn lemma_lookups_from_k_have_no_part(
    setting: Setting,
    next: Seq<Option<int>>,
    bit_constraints: Seq<Option<BitConstraint>>,
    machine_count: nat,
    first: spec_fn(int) -> Result<Seq<(usize, ConstraintView)>, EvalErrorView>,
    second: spec_fn(int) -> Result<Seq<(usize, ConstraintView)>, EvalErrorView>,
    k: nat,
)
    requires
        forall|j: int| 0 <= j < k ==> #[trigger] first(j) == second(j),
    ensures
        setting.after_identities_with(next, bit_constraints, machine_count, first, k)
            == setting.after_identities_with(next, bit_constraints, machine_count, second, k),
    decreases k,
{
    if k > 0 {
        lemma_lookups_from_k_have_no_part(
            setting,
            next,
            bit_constraints,
            machine_count,
            first,
            second,
            (k - 1) as nat,
        );
        assert(first(k - 1) == second(k - 1));
    }
}

/// What the callback answered for witnesses from `c` on has no part in the
/// pass up to the witness `c`.
pub proof fn lemma_queries_from_c_have_no_part(
    setting: Setting,
    start: PassState,
    first: spec_fn(int) -> Option<int>,
    second: spec_fn(int) -> Option<int>,
    c: nat,
)
    requires
        forall|j: int| 0 <= j < c ==> #[trigger] first(j) == second(j),
    ensures
        setting.after_queries(start, first, c) == setting.after_queries(start, second, c),
    decreases c,
{
    if c > 0 {
        lemma_queries_from_c_have_no_part(setting, start, first, second, (c - 1) as nat);
        assert(first(c - 1) == second(c - 1));
    }
}

/// Without a machine and without a query callback nothing is asked of the
/// outside: the passes are those of [`Setting::row`], whatever the answers.
pub proof fn lemma_row_with_nobody_to_ask(
    setting: Setting,
    next: Seq<Option<int>>,
    bit_constraints: Seq<Option<BitConstraint>>,
    answers: Answers,
    pass: nat,
)
    ensures
        setting.row_from(next, bit_constraints, 0, false, answers, pass) == setting.row(
            next,
            bit_constraints,
        ),
    decreases unknown_count(next),
{
    lemma_pass_with_nobody_to_ask(
        setting,
        next,
        bit_constraints,
        answers.of_pass(pass).lookups,
        setting.identities.len(),
    );
    let found = setting.pass(next, bit_constraints);
    if found.progress && !is_complete(found.next) && unknown_count(found.next) < unknown_count(
        next,
    ) {
        lemma_row_with_nobody_to_ask(setting, found.next, found.bit_constraints, answers, pass + 1);
    }
}

proof fn lemma_pass_with_nobody_to_ask(
    setting: Setting,
    next: Seq<Option<int>>,
    bit_constraints: Seq<Option<BitConstraint>>,
    lookups: spec_fn(int) -> Result<Seq<(usize, ConstraintView)>, EvalErrorView>,
    k: nat,
)
    ensures
        setting.after_identities_with(next, bit_constraints, 0, lookups, k)
            == setting.after_identities(next, bit_constraints, k),
    decreases k,
{
    if k > 0 {
        lemma_pass_with_nobody_to_ask(setting, next, bit_constraints, lookups, (k - 1) as nat);
    }
}

/// Whether `answers` holds, for each pass of `passes`, what the outside gave in it.
pub open spec fn answers_hold(answers: Answers, passes: Seq<PassAnswers>) -> bool {
    forall|q: int| 0 <= q < passes.len() ==> answers.of_pass(q as nat) == #[trigger] passes[q]
}

/// The answers that hold what the outside gave in each pass of `passes`.
pub open spec fn answers_of(passes: Seq<PassAnswers>) -> Answers {
    Answers {
        lookups: |pass: nat, k: int| (passes[pass as int].lookups)(k),
        queries: |pass: nat, c: int| (passes[pass as int].queries)(c),
    }
}

/// The answers made of the passes hold what was given in each of them.
pub proof fn lemma_answers_of_hold(passes: Seq<PassAnswers>)
    ensures
        answers_hold(answers_of(passes), passes),
{
    let answers = answers_of(passes);
    assert forall|q: int| 0 <= q < passes.len() implies answers.of_pass(q as nat)
        == #[trigger] passes[q] by {
        assert(answers.of_pass(q as nat).lookups =~= passes[q].lookups);
        assert(answers.of_pass(q as nat).queries =~= passes[q].queries);
    }
}

/// Filling a value that was not known leaves one unknown less.
pub proof fn lemma_unknown_count_fill(values: Seq<Option<int>>, i: int, value: int)
    requires
        0 <= i < values.len(),
        values[i] is None,
    ensures
        unknown_count(values.update(i, Some(value))) + 1 == unknown_count(values),
    decreases values.len(),
{
    let filled = values.update(i, Some(value));
    if i == values.len() - 1 {
        assert(filled.drop_last() =~= values.drop_last());
    } else {
        assert(filled.drop_last() =~= values.drop_last().update(i, Some(value)));
        lemma_unknown_count_fill(values.drop_last(), i, value);
    }
}

/// Within a row a value, once known, is never changed: merging constraints
/// keeps every known value and the number of values. Where it makes
/// progress, fewer values are unknown than before; where it makes none, the
/// values are as they were.
pub proof fn lemma_merged_values(
    values: Seq<Option<int>>,
    constraints: Seq<(usize, ConstraintView)>,
)
    requires
        in_range(constraints, values.len()),
    ensures
        merged_values(values, constraints).len() == values.len(),
        forall|i: int|
            0 <= i < values.len() && values[i] is Some ==> merged_values(values, constraints)[i]
                == values[i],
        makes_progress(values, constraints) ==> unknown_count(merged_values(values, constraints))
            < unknown_count(values),
        !makes_progress(values, constraints) ==> merged_values(values, constraints) == values,
    decreases constraints.len(),
{
    if constraints.len() > 0 {
        let shorter = constraints.drop_last();
        assert forall|k: int| 0 <= k < shorter.len() implies (#[trigger] shorter[k]).0
            < values.len() by {
            assert(shorter[k] == constraints[k]);
        }
        lemma_merged_values(values, shorter);
        let before = merged_values(values, shorter);
        let id = constraints.last().0 as int;
        assert(constraints[constraints.len() - 1].0 < values.len());
        match constraints.last().1 {
            ConstraintView::Assignment(value) => {
                if before[id] is None {
                    lemma_unknown_count_fill(before, id, value);
                }
            },
            ConstraintView::BitConstraint(_) => {},
        }
    }
}

/// Whether `i` is the witness of none of the constraints.
pub open spec fn is_untouched(constraints: Seq<(usize, ConstraintView)>, i: int) -> bool {
    forall|k: int| 0 <= k < constraints.len() ==> (#[trigger] constraints[k]).0 != i
}

/// Assignments to witnesses that are not known yet, each witness once, all
/// take effect: every such witness has its value afterwards, every other
/// value is as it was, and where there is an assignment there is progress.
pub proof fn lemma_merged_assignments(
    values: Seq<Option<int>>,
    constraints: Seq<(usize, ConstraintView)>,
)
    requires
        in_range(constraints, values.len()),
        forall|k: int|
            0 <= k < constraints.len() ==> (#[trigger] constraints[k]).1 is Assignment
                && values[constraints[k].0 as int] is None,
        forall|k: int, l: int|
            0 <= k < l < constraints.len() ==> (#[trigger] constraints[k]).0 != (
            #[trigger] constraints[l]).0,
    ensures
        merged_values(values, constraints).len() == values.len(),
        forall|k: int|
            0 <= k < constraints.len() ==> merged_values(
                values,
                constraints,
            )[(#[trigger] constraints[k]).0 as int] == Some(constraints[k].1->Assignment_0),
        forall|i: int|
            0 <= i < values.len() && is_untouched(constraints, i) ==> #[trigger] merged_values(
                values,
                constraints,
            )[i] == values[i],
        constraints.len() > 0 ==> makes_progress(values, constraints),
    decreases constraints.len(),
{
    if constraints.len() > 0 {
        let shorter = constraints.drop_last();
        let last = constraints.last();
        let id = last.0 as int;
        assert(last == constraints[constraints.len() - 1]);
        assert forall|k: int| 0 <= k < shorter.len() implies (#[trigger] shorter[k])
            == constraints[k] by {}
        assert(in_range(shorter, values.len())) by {
            assert forall|k: int| 0 <= k < shorter.len() implies (#[trigger] shorter[k]).0
                < values.len() by {
                assert(shorter[k] == constraints[k]);
            }
        }
        assert forall|k: int| 0 <= k < shorter.len() implies (#[trigger] shorter[k]).1 is Assignment
            && values[shorter[k].0 as int] is None by {
            assert(shorter[k] == constraints[k]);
        }
        assert forall|k: int, l: int| 0 <= k < l < shorter.len() implies (#[trigger] shorter[k]).0
            != (#[trigger] shorter[l]).0 by {
            assert(shorter[k] == constraints[k]);
            assert(shorter[l] == constraints[l]);
        }
        lemma_merged_assignments(values, shorter);
        let before = merged_values(values, shorter);
        assert(is_untouched(shorter, id)) by {
            assert forall|k: int| 0 <= k < shorter.len() implies (#[trigger] shorter[k]).0
                != id by {
                assert(shorter[k] == constraints[k]);
                assert(constraints[k].0 != constraints[constraints.len() - 1].0);
            }
        }
        assert(before[id] == values[id]);
        let merged = merged_values(values, constraints);
        assert(merged == before.update(id, Some(last.1->Assignment_0)));
        assert forall|k: int| 0 <= k < constraints.len() implies merged[(
        #[trigger] constraints[k]).0 as int] == Some(constraints[k].1->Assignment_0) by {
            if k < shorter.len() {
                assert(shorter[k] == constraints[k]);
                assert(constraints[k].0 != constraints[constraints.len() - 1].0);
            }
        }
        assert forall|i: int|
            0 <= i < values.len() && is_untouched(constraints, i) implies #[trigger] merged[i]
            == values[i] by {
            assert(constraints[constraints.len() - 1].0 != i);
            assert(is_untouched(shorter, i)) by {
                assert forall|k: int| 0 <= k < shorter.len() implies (#[trigger] shorter[k]).0
                    != i by {
                    assert(shorter[k] == constraints[k]);
                }
            }
        }
    }
}

/// Merging bit constraints keeps the number of witnesses.
pub proof fn lemma_merged_bit_constraints(
    known: Seq<Option<BitConstraint>>,
    constraints: Seq<(usize, ConstraintView)>,
)
    requires
        in_range(constraints, known.len()),
    ensures
        merged_bit_constraints(known, constraints).len() == known.len(),
    decreases constraints.len(),
{
    if constraints.len() > 0 {
        let shorter = constraints.drop_last();
        assert forall|k: int| 0 <= k < shorter.len() implies (#[trigger] shorter[k]).0
            < known.len() by {
            assert(shorter[k] == constraints[k]);
        }
        lemma_merged_bit_constraints(known, shorter);
    }
}

/// An expression evaluates to a form over all witnesses of the circuit, or not at all.
pub proof fn lemma_evaluation_is_over_all_witnesses(
    window: Window,
    row: EvaluationRow,
    e: Expression,
)
    ensures
        window.evaluate(e, row) matches Ok(form) ==> form.coefficients.len()
            == window.fixed_data.witness_count(),
    decreases e,
{
    match e {
        Expression::BinaryOperation(left, op, right) => {
            lemma_evaluation_is_over_all_witnesses(window, row, *left);
            lemma_evaluation_is_over_all_witnesses(window, row, *right);
        },
        Expression::UnaryOperation(op, inner) => {
            lemma_evaluation_is_over_all_witnesses(window, row, *inner);
        },
        _ => {},
    }
}

/// Solving a form constrains witnesses of the form only.
pub proof fn lemma_solution_in_range(form: LinearForm, known: Seq<Option<BitConstraint>>)
    requires
        form.coefficients.len() <= usize::MAX,
    ensures
        form.direct_solution() matches Ok(constraints) ==> in_range(
            constraints,
            form.coefficients.len(),
        ),
        form.solution(known) matches Ok(constraints) ==> in_range(
            constraints,
            form.coefficients.len(),
        ),
{
    if form.has_sole_unknown() {
        assert(form.is_sole_unknown(form.sole_unknown()));
    }
    lemma_readings_in_range(form, known, form.coefficients.len());
    lemma_readings_in_range(form.negated(), known, form.coefficients.len());
}

proof fn lemma_readings_in_range(form: LinearForm, known: Seq<Option<BitConstraint>>, k: nat)
    requires
        k <= form.coefficients.len() <= usize::MAX,
    ensures
        forall|target: u64| #[trigger]
            in_range(form.bit_readings(known, target, k), form.coefficients.len()),
    decreases k,
{
    if k > 0 {
        lemma_readings_in_range(form, known, (k - 1) as nat);
        assert forall|target: u64| #[trigger]
            in_range(form.bit_readings(known, target, k), form.coefficients.len()) by {
            let before = form.bit_readings(known, target, (k - 1) as nat);
            let now = form.bit_readings(known, target, k);
            assert(in_range(before, form.coefficients.len()));
            assert forall|j: int| 0 <= j < now.len() implies (#[trigger] now[j]).0
                < form.coefficients.len() by {
                if j < before.len() {
                    assert(now[j] == before[j]);
                }
            }
        }
    }
}

/// What the rows of the fixed columns teach constrains witnesses of the circuit only.
proof fn lemma_row_conclusions_in_range(
    fixed_data: FixedData,
    columns: Seq<int>,
    left: Seq<Result<LinearForm, EvalErrorView>>,
    row: int,
    n: nat,
)
    requires
        n <= usize::MAX,
        forall|i: int|
            0 <= i < left.len() ==> ((#[trigger] left[i]) matches Ok(form)
                ==> form.coefficients.len() == n),
    ensures
        crate::machines::row_conclusions(fixed_data, columns, left, row, n) matches Ok(
            constraints,
        ) ==> in_range(constraints, n),
    decreases left.len(),
{
    if left.len() > 0 {
        let shorter = left.drop_last();
        assert forall|i: int| 0 <= i < shorter.len() implies ((#[trigger] shorter[i]) matches Ok(
            form,
        ) ==> form.coefficients.len() == n) by {
            assert(shorter[i] == left[i]);
        }
        lemma_row_conclusions_in_range(fixed_data, columns.drop_last(), shorter, row, n);
        assert(left.last() == left[left.len() - 1]);
        if let Ok(form) = left.last() {
            let difference = form.minus(
                LinearForm::constant(n, fixed_data.fixed_cols@[columns.last()].values@[row]@),
            );
            lemma_solution_in_range(difference, Seq::empty());
        }
    }
}

/// What an identity teaches, where no machine is there to be asked,
/// constrains witnesses of the circuit only.
pub proof fn lemma_identity_outcome_in_range(
    window: Window,
    known: Seq<Option<BitConstraint>>,
    identity: Identity,
)
    requires
        window.fixed_data.witness_count() <= usize::MAX,
    ensures
        identity_outcome(window, known, identity, 0) is Some,
        identity_outcome(window, known, identity, 0) matches Some(Ok(constraints)) ==> in_range(
            constraints,
            window.fixed_data.witness_count(),
        ),
{
    let n = window.fixed_data.witness_count();
    match identity.kind {
        IdentityKind::Polynomial => {
            if let Some(e) = identity.left.selector {
                let row = identity_row(window.fixed_data, e);
                lemma_evaluation_is_over_all_witnesses(window, row, e);
                if let Ok(form) = window.evaluate(e, row) {
                    lemma_solution_in_range(form, known);
                }
            }
        },
        IdentityKind::Plookup | IdentityKind::Permutation => {
            let left = left_forms(window, identity.left.expressions@);
            assert forall|i: int| 0 <= i < left.len() implies ((#[trigger] left[i]) matches Ok(
                form,
            ) ==> form.coefficients.len() == n) by {
                lemma_evaluation_is_over_all_witnesses(
                    window,
                    EvaluationRow::Next,
                    identity.left.expressions@[i],
                );
            }
            if identity.kind == IdentityKind::Plookup {
                let columns = crate::machines::fixed_columns_of(
                    window.fixed_data,
                    identity.right.expressions@,
                );
                if columns is Some {
                    let row = choose|row: int|
                        crate::machines::is_only_match(window.fixed_data, columns->0, left, row);
                    lemma_row_conclusions_in_range(window.fixed_data, columns->0, left, row, n);
                }
            }
        },
        IdentityKind::Connect => {},
    }
}

/// A pass keeps what was known of the row. Where it makes progress, fewer
/// values are unknown after it; where it makes none, the row is as it was.
pub proof fn lemma_pass_progress(
    setting: Setting,
    next: Seq<Option<int>>,
    bit_constraints: Seq<Option<BitConstraint>>,
    k: nat,
)
    requires
        next.len() == setting.fixed_data.witness_count(),
        setting.fixed_data.witness_count() <= usize::MAX,
        k <= setting.identities.len(),
    ensures
        ({
            let pass = setting.after_identities(next, bit_constraints, k);
            &&& pass.next.len() == next.len()
            &&& forall|i: int| 0 <= i < next.len() && next[i] is Some ==> pass.next[i] == next[i]
            &&& pass.progress ==> unknown_count(pass.next) < unknown_count(next)
            &&& !pass.progress ==> pass.next == next
        }),
    decreases k,
{
    if k > 0 {
        lemma_pass_progress(setting, next, bit_constraints, (k - 1) as nat);
        let before = setting.after_identities(next, bit_constraints, (k - 1) as nat);
        let known = combined_constraints(
            setting.fixed_data,
            setting.global_bit_constraints,
            before.bit_constraints,
        );
        lemma_identity_outcome_in_range(setting.window(before.next), known, setting.identities[k - 1]);
        if let Some(Ok(constraints)) = identity_outcome(
            setting.window(before.next),
            known,
            setting.identities[k - 1],
            0,
        ) {
            lemma_merged_values(before.next, constraints);
        }
    }
}

/// The passes for a row end with a pass that finds no value or with the
/// row complete, and they keep what was known of the row.
pub proof fn lemma_row_ends(
    setting: Setting,
    next: Seq<Option<int>>,
    bit_constraints: Seq<Option<BitConstraint>>,
)
    requires
        next.len() == setting.fixed_data.witness_count(),
        setting.fixed_data.witness_count() <= usize::MAX,
    ensures
        ({
            let last = setting.row(next, bit_constraints);
            &&& !last.progress || is_complete(last.next)
            &&& last.next.len() == next.len()
            &&& forall|i: int| 0 <= i < next.len() && next[i] is Some ==> last.next[i] == next[i]
        }),
    decreases unknown_count(next),
{
    lemma_pass_progress(setting, next, bit_constraints, setting.identities.len());
    let pass = setting.pass(next, bit_constraints);
    if pass.progress && !is_complete(pass.next) {
        lemma_row_ends(setting, pass.next, pass.bit_constraints);
    }
}

/// A polynomial identity that does not fail on a complete row holds on it:
/// it evaluates to zero.
pub proof fn lemma_complete_row_meets_identity(
    window: Window,
    known: Seq<Option<BitConstraint>>,
    e: Expression,
)
    requires
        is_complete(window.next),
        window.next.len() == window.fixed_data.witness_count(),
        polynomial_outcome(window, known, e) is Ok,
    ensures
        window.evaluate(e, identity_row(window.fixed_data, e)) matches Ok(form)
            && form.is_constant() && form.offset == 0,
{
    lemma_complete_window_gives_values(window, identity_row(window.fixed_data, e), e);
}

/// A polynomial identity that is solved for its one unknown holds once the
/// unknown has the value that solving assigns to it: in the window with that
/// value the identity evaluates to zero.
pub proof fn lemma_solved_identity_holds(
    window: Window,
    known: Seq<Option<BitConstraint>>,
    e: Expression,
)
    requires
        window.current.len() == window.fixed_data.witness_count(),
        window.next.len() == window.fixed_data.witness_count(),
        are_canonical(window.current),
        are_canonical(window.next),
        window.evaluate(e, identity_row(window.fixed_data, e)) matches Ok(form)
            && form.has_sole_unknown() && has_inverse(form.coefficients[form.sole_unknown()]),
    ensures
        ({
            let row = identity_row(window.fixed_data, e);
            let form = window.evaluate(e, row)->Ok_0;
            let i = form.sole_unknown();
            let value = quotient_of(-form.offset, form.coefficients[i]);
            &&& polynomial_outcome(window, known, e) == Ok::<
                Seq<(usize, ConstraintView)>,
                EvalErrorView,
            >(seq![(i as usize, ConstraintView::Assignment(value))])
            &&& window.next[i] is None
            &&& window.with_next(i, value).evaluate(e, row) matches Ok(after)
                && after.is_constant() && after.offset == 0
        }),
{
    let row = identity_row(window.fixed_data, e);
    let form = window.evaluate(e, row)->Ok_0;
    let i = form.sole_unknown();
    assert(form.is_sole_unknown(i));
    let value = quotient_of(-form.offset, form.coefficients[i]);
    lemma_only_unknowns_occur(window, row, e);
    lemma_evaluation_after_assignment(window, row, e, i, value);
    crate::field::lemma_quotient_solves(form.coefficients[i], form.offset, value);
    let after = form.assigned(i, value);
    assert(form.coefficients[i] * value + form.offset == form.offset + form.coefficients[i]
        * value);
    assert(after.is_constant());
}

} // verus!
