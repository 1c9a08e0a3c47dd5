//! Expressions that are affine in the unknown witnesses of the next row: a sum
//! of witnesses, each with a coefficient, and a constant offset.

use crate::bit_constraints::{BitConstraint, BitConstraintSet};
use crate::eval_error::{EvalError, EvalErrorView};
use crate::field::{has_inverse, lemma_view_range, modulus, quotient_of, FieldElement};
use crate::text::{decimal_text, join, join_text, views_of};
use crate::util::WitnessColumnNamer;
use crate::{constraints_view, eval_result_view, Constraint, ConstraintView, EvalResult};
use vstd::prelude::*;

verus! {

/// An affine expression over `coefficients.len()` witnesses, as integers
/// between zero and the field's size.
pub struct LinearForm {
    pub coefficients: Seq<int>,
    pub offset: int,
}

impl LinearForm {
    /// The constant `c` over `n` witnesses.
    pub open spec fn constant(n: nat, c: int) -> LinearForm {
        LinearForm { coefficients: Seq::new(n, |i: int| 0int), offset: c }
    }

    /// The witness `id` alone, over `n` witnesses.
    pub open spec fn symbol(n: nat, id: int) -> LinearForm {
        LinearForm {
            coefficients: Seq::new(
                n,
                |i: int|
                    if i == id {
                        1int
                    } else {
                        0int
                    },
            ),
            offset: 0,
        }
    }

    /// The sum of the two forms.
    pub open spec fn plus(self, other: LinearForm) -> LinearForm {
        LinearForm {
            coefficients: Seq::new(
                self.coefficients.len(),
                |i: int| (self.coefficients[i] + other.coefficients[i]) % modulus(),
            ),
            offset: (self.offset + other.offset) % modulus(),
        }
    }

    /// The difference of the two forms.
    pub open spec fn minus(self, other: LinearForm) -> LinearForm {
        LinearForm {
            coefficients: Seq::new(
                self.coefficients.len(),
                |i: int| (self.coefficients[i] - other.coefficients[i]) % modulus(),
            ),
            offset: (self.offset - other.offset) % modulus(),
        }
    }

    /// The form with the opposite sign.
    pub open spec fn negated(self) -> LinearForm {
        LinearForm {
            coefficients: Seq::new(
                self.coefficients.len(),
                |i: int| (-self.coefficients[i]) % modulus(),
            ),
            offset: (-self.offset) % modulus(),
        }
    }

    /// The form times `factor`.
    pub open spec fn scaled(self, factor: int) -> LinearForm {
        LinearForm {
            coefficients: Seq::new(
                self.coefficients.len(),
                |i: int| (self.coefficients[i] * factor) % modulus(),
            ),
            offset: (self.offset * factor) % modulus(),
        }
    }

    /// Whether no witness occurs with a coefficient other than zero.
    pub open spec fn is_constant(self) -> bool {
        forall|i: int| 0 <= i < self.coefficients.len() ==> self.coefficients[i] == 0
    }

    /// The value of the form, if it does not depend on any witness.
    pub open spec fn constant_value(self) -> Option<int> {
        if self.is_constant() {
            Some(self.offset)
        } else {
            None
        }
    }

    /// Whether the witness `i` is the only one with a coefficient other than zero.
    pub open spec fn is_sole_unknown(self, i: int) -> bool {
        &&& 0 <= i < self.coefficients.len()
        &&& self.coefficients[i] != 0
        &&& forall|j: int| 0 <= j < self.coefficients.len() && j != i ==> self.coefficients[j] == 0
    }

    /// Whether exactly one witness has a coefficient other than zero.
    pub open spec fn has_sole_unknown(self) -> bool {
        exists|i: int| self.is_sole_unknown(i)
    }

    /// The one witness with a coefficient other than zero, where there is exactly one.
    pub open spec fn sole_unknown(self) -> int {
        choose|i: int| self.is_sole_unknown(i)
    }

    /// What solving `self = 0` gives, with what `known` says about the bits of the witnesses.
    ///
    /// A form with at most one unknown is solved directly. A form with more
    /// unknowns is solved where the bits of its unknowns can be read off the
    /// offset, as it stands or with the opposite sign. Else nothing is concluded.
    pub open spec fn solution(self, known: Seq<Option<BitConstraint>>) -> Result<
        Seq<(usize, ConstraintView)>,
        EvalErrorView,
    > {
        if self.is_constant() || self.has_sole_unknown() {
            self.direct_solution()
        } else {
            match self.bits_reading(known) {
                Some(result) => result,
                None => match self.negated().bits_reading(known) {
                    Some(result) => result,
                    None => Ok(Seq::empty()),
                },
            }
        }
    }

    /// The bits that the first `k` witnesses take up in the sum, or `None`
    /// where the sum does not keep them apart.
    ///
    /// The sum keeps the witnesses apart where each witness that occurs has a
    /// bit constraint and a power of two as its coefficient, where its mask,
    /// shifted by the power, loses no bit, and where the shifted masks do not overlap.
    pub open spec fn bit_layout(self, known: Seq<Option<BitConstraint>>, k: nat) -> Option<u64>
        decreases k,
    {
        if k == 0 {
            Some(0u64)
        } else {
            match self.bit_layout(known, (k - 1) as nat) {
                None => None,
                Some(covered) => if self.coefficients[k - 1] == 0 {
                    Some(covered)
                } else {
                    match (shift_of(self.coefficients[k - 1]), known[k - 1]) {
                        (Some(shift), Some(constraint)) => {
                            let shifted = constraint.mask << shift;
                            if (shifted >> shift) == constraint.mask && covered & shifted == 0 {
                                Some(covered | shifted)
                            } else {
                                None
                            }
                        },
                        _ => None,
                    }
                },
            }
        }
    }

    /// The values of the witnesses among the first `k` that occur in the sum,
    /// read off the bits of `target`: each witness has the bits of `target`
    /// that its shifted mask covers.
    pub open spec fn bit_readings(
        self,
        known: Seq<Option<BitConstraint>>,
        target: u64,
        k: nat,
    ) -> Seq<(usize, ConstraintView)>
        decreases k,
    {
        if k == 0 {
            Seq::empty()
        } else {
            let before = self.bit_readings(known, target, (k - 1) as nat);
            if self.coefficients[k - 1] == 0 {
                before
            } else {
                let shift = shift_of(self.coefficients[k - 1])->0;
                let shifted = known[k - 1]->0.mask << shift;
                before.push(
                    (
                        (k - 1) as usize,
                        ConstraintView::Assignment(((target & shifted) >> shift) as int),
                    ),
                )
            }
        }
    }

    /// Whether the coefficients and the offset are least non-negative representatives.
    pub open spec fn is_canonical(self) -> bool {
        &&& 0 <= self.offset < modulus()
        &&& forall|j: int|
            0 <= j < self.coefficients.len() ==> 0 <= #[trigger] self.coefficients[j] < modulus()
    }

    /// The form with the witness `i` given the value `value`: the witness
    /// does not occur any more, and its term is part of the offset.
    pub open spec fn assigned(self, i: int, value: int) -> LinearForm {
        LinearForm {
            coefficients: self.coefficients.update(i, 0),
            offset: (self.offset + self.coefficients[i] * value) % modulus(),
        }
    }

    /// The sum of the terms of the first `k` witnesses, where the witnesses
    /// have the values `values`.
    pub open spec fn sum_of_terms(self, values: Seq<int>, k: nat) -> int
        decreases k,
    {
        if k == 0 {
            0
        } else {
            self.sum_of_terms(values, (k - 1) as nat) + self.coefficients[k - 1] * values[k - 1]
        }
    }

    /// For each witness the value that is read off the bits of `target` for
    /// it, and zero for a witness that does not occur.
    pub open spec fn bit_values(self, known: Seq<Option<BitConstraint>>, target: u64) -> Seq<int> {
        Seq::new(
            self.coefficients.len(),
            |j: int|
                if self.coefficients[j] == 0 {
                    0
                } else {
                    let shift = shift_of(self.coefficients[j])->0;
                    ((target & (known[j]->0.mask << shift)) >> shift) as int
                },
        )
    }

    /// What reading the witnesses off the bits of the offset gives, or `None`
    /// where that cannot be done.
    ///
    /// It can be done where the sum keeps the witnesses apart, see
    /// [`LinearForm::bit_layout`], in bits that stay below the field's size.
    /// The sum then has to be the offset with the opposite sign. That cannot
    /// be where that number has a bit that no witness covers; else every
    /// witness has the bits that it covers.
    pub open spec fn bits_reading(self, known: Seq<Option<BitConstraint>>) -> Option<
        Result<Seq<(usize, ConstraintView)>, EvalErrorView>,
    > {
        match self.bit_layout(known, self.coefficients.len()) {
            None => None,
            Some(covered) => if covered >= modulus() {
                None
            } else {
                let target = ((-self.offset) % modulus()) as u64;
                if target & !covered != 0 {
                    Some(Err(EvalErrorView::ConstraintUnsatisfiable(Seq::empty())))
                } else {
                    Some(Ok(self.bit_readings(known, target, self.coefficients.len())))
                }
            },
        }
    }

    /// What solving `self = 0` gives.
    ///
    /// A form without unknowns holds or is unsatisfiable. With one unknown, the
    /// unknown is assigned the one value that makes the form zero. With more
    /// than one unknown nothing is concluded.
    pub open spec fn direct_solution(self) -> Result<Seq<(usize, ConstraintView)>, EvalErrorView> {
        if self.is_constant() {
            if self.offset == 0 {
                Ok(Seq::empty())
            } else {
                Err(EvalErrorView::ConstraintUnsatisfiable(Seq::empty()))
            }
        } else if self.has_sole_unknown() {
            let i = self.sole_unknown();
            if has_inverse(self.coefficients[i]) {
                Ok(
                    seq![
                        (
                            i as usize,
                            ConstraintView::Assignment(
                                quotient_of(-self.offset, self.coefficients[i]),
                            ),
                        ),
                    ],
                )
            } else {
                Err(EvalErrorView::Generic("The coefficient of the unknown has no inverse."@))
            }
        } else {
            Ok(Seq::empty())
        }
    }

    /// The summands of the form as texts: for each witness with a coefficient
    /// other than zero its name, after the coefficient where that is not one.
    pub open spec fn term_texts(self, names: Seq<Seq<char>>) -> Seq<Seq<char>>
        decreases self.coefficients.len(),
    {
        if self.coefficients.len() == 0 {
            Seq::empty()
        } else {
            let shorter = LinearForm {
                coefficients: self.coefficients.drop_last(),
                offset: self.offset,
            };
            let i = self.coefficients.len() - 1;
            let c = self.coefficients.last();
            if c == 0 {
                shorter.term_texts(names)
            } else if c == 1 {
                shorter.term_texts(names).push(names[i])
            } else {
                shorter.term_texts(names).push(decimal_text(c as nat) + " * "@ + names[i])
            }
        }
    }

    /// The form as a sum: the terms and, unless it is zero beside a term, the offset.
    pub open spec fn text(self, names: Seq<Seq<char>>) -> Seq<char> {
        let terms = self.term_texts(names);
        if self.offset != 0 || terms.len() == 0 {
            join_text(terms.push(decimal_text(self.offset as nat)), " + "@)
        } else {
            join_text(terms, " + "@)
        }
    }
}

/// Where a form has one unknown, and its coefficient an inverse, the value
/// that solving assigns to the unknown makes the form zero, and no other value does.
pub proof fn lemma_direct_solution_solves(form: LinearForm, value: int)
    requires
        form.has_sole_unknown(),
        has_inverse(form.coefficients[form.sole_unknown()]),
        0 <= value < modulus(),
    ensures
        (form.coefficients[form.sole_unknown()] * value + form.offset) % modulus() == 0
            <==> form.direct_solution() == Ok::<Seq<(usize, ConstraintView)>, EvalErrorView>(
            seq![(form.sole_unknown() as usize, ConstraintView::Assignment(value))],
        ),
{
    let i = form.sole_unknown();
    assert(form.is_sole_unknown(i));
    assert(!form.is_constant());
    crate::field::lemma_quotient_solves(form.coefficients[i], form.offset, value);
    let expected = seq![
        (i as usize, ConstraintView::Assignment(quotient_of(-form.offset, form.coefficients[i]))),
    ];
    let given = seq![(i as usize, ConstraintView::Assignment(value))];
    if value != quotient_of(-form.offset, form.coefficients[i]) {
        assert(expected[0] != given[0]);
    }
}

/// A value given to a witness that does not occur changes nothing.
pub proof fn lemma_assigned_absent(form: LinearForm, i: int, value: int)
    requires
        0 <= i < form.coefficients.len(),
        form.coefficients[i] == 0,
        0 <= form.offset < modulus(),
    ensures
        form.assigned(i, value) == form,
{
    assert(form.coefficients[i] * value == 0) by (nonlinear_arith)
        requires
            form.coefficients[i] == 0,
    ;
    assert(form.assigned(i, value).coefficients =~= form.coefficients);
}

/// Giving a witness a value and adding can be done in either order.
pub proof fn lemma_assigned_plus(a: LinearForm, b: LinearForm, i: int, value: int)
    requires
        a.coefficients.len() == b.coefficients.len(),
        0 <= i < a.coefficients.len(),
    ensures
        a.plus(b).assigned(i, value) == a.assigned(i, value).plus(b.assigned(i, value)),
{
    let p = modulus();
    let left = a.plus(b).assigned(i, value);
    let right = a.assigned(i, value).plus(b.assigned(i, value));
    assert(left.coefficients =~= right.coefficients);
    let ai = a.coefficients[i];
    let bi = b.coefficients[i];
    crate::field::lemma_congruent_remainder(a.offset + b.offset);
    crate::field::lemma_congruent_remainder(ai + bi);
    crate::field::lemma_congruent_product((ai + bi) % p, ai + bi, value, value);
    crate::field::lemma_congruent_sum(
        (a.offset + b.offset) % p,
        a.offset + b.offset,
        ((ai + bi) % p) * value,
        (ai + bi) * value,
    );
    crate::field::lemma_congruent_remainder(a.offset + ai * value);
    crate::field::lemma_congruent_remainder(b.offset + bi * value);
    crate::field::lemma_congruent_sum(
        (a.offset + ai * value) % p,
        a.offset + ai * value,
        (b.offset + bi * value) % p,
        b.offset + bi * value,
    );
    assert((a.offset + b.offset) + (ai + bi) * value == (a.offset + ai * value) + (b.offset + bi
        * value)) by (nonlinear_arith);
}

/// Giving a witness a value and subtracting can be done in either order.
pub proof fn lemma_assigned_minus(a: LinearForm, b: LinearForm, i: int, value: int)
    requires
        a.coefficients.len() == b.coefficients.len(),
        0 <= i < a.coefficients.len(),
    ensures
        a.minus(b).assigned(i, value) == a.assigned(i, value).minus(b.assigned(i, value)),
{
    let p = modulus();
    let left = a.minus(b).assigned(i, value);
    let right = a.assigned(i, value).minus(b.assigned(i, value));
    assert(left.coefficients =~= right.coefficients);
    let ai = a.coefficients[i];
    let bi = b.coefficients[i];
    crate::field::lemma_congruent_remainder(a.offset - b.offset);
    crate::field::lemma_congruent_remainder(ai - bi);
    crate::field::lemma_congruent_product((ai - bi) % p, ai - bi, value, value);
    crate::field::lemma_congruent_sum(
        (a.offset - b.offset) % p,
        a.offset - b.offset,
        ((ai - bi) % p) * value,
        (ai - bi) * value,
    );
    crate::field::lemma_congruent_remainder(a.offset + ai * value);
    crate::field::lemma_congruent_remainder(b.offset + bi * value);
    crate::field::lemma_congruent_product(
        (b.offset + bi * value) % p,
        b.offset + bi * value,
        -1,
        -1,
    );
    crate::field::lemma_congruent_sum(
        (a.offset + ai * value) % p,
        a.offset + ai * value,
        ((b.offset + bi * value) % p) * (-1),
        (b.offset + bi * value) * (-1),
    );
    assert((a.offset - b.offset) + (ai - bi) * value == (a.offset + ai * value) + (b.offset + bi
        * value) * (-1)) by (nonlinear_arith);
    assert((a.offset + ai * value) % p - (b.offset + bi * value) % p == (a.offset + ai * value)
        % p + ((b.offset + bi * value) % p) * (-1));
}

/// Giving a witness a value and changing the sign can be done in either order.
pub proof fn lemma_assigned_negated(a: LinearForm, i: int, value: int)
    requires
        0 <= i < a.coefficients.len(),
    ensures
        a.negated().assigned(i, value) == a.assigned(i, value).negated(),
{
    let p = modulus();
    let left = a.negated().assigned(i, value);
    let right = a.assigned(i, value).negated();
    assert(left.coefficients =~= right.coefficients);
    let ai = a.coefficients[i];
    crate::field::lemma_congruent_remainder(-a.offset);
    crate::field::lemma_congruent_remainder(-ai);
    crate::field::lemma_congruent_product((-ai) % p, -ai, value, value);
    crate::field::lemma_congruent_sum((-a.offset) % p, -a.offset, ((-ai) % p) * value, (-ai) * value);
    crate::field::lemma_congruent_remainder(a.offset + ai * value);
    crate::field::lemma_congruent_product((a.offset + ai * value) % p, a.offset + ai * value, -1, -1);
    assert((-a.offset) + (-ai) * value == (a.offset + ai * value) * (-1)) by (nonlinear_arith);
    assert(-((a.offset + ai * value) % p) == ((a.offset + ai * value) % p) * (-1));
}

/// Giving a witness a value and scaling can be done in either order.
pub proof fn lemma_assigned_scaled(a: LinearForm, factor: int, i: int, value: int)
    requires
        0 <= i < a.coefficients.len(),
    ensures
        a.scaled(factor).assigned(i, value) == a.assigned(i, value).scaled(factor),
{
    let p = modulus();
    let left = a.scaled(factor).assigned(i, value);
    let right = a.assigned(i, value).scaled(factor);
    assert(0 * factor == 0) by (nonlinear_arith);
    assert(left.coefficients =~= right.coefficients);
    let ai = a.coefficients[i];
    crate::field::lemma_congruent_remainder(a.offset * factor);
    crate::field::lemma_congruent_remainder(ai * factor);
    crate::field::lemma_congruent_product((ai * factor) % p, ai * factor, value, value);
    crate::field::lemma_congruent_sum(
        (a.offset * factor) % p,
        a.offset * factor,
        ((ai * factor) % p) * value,
        (ai * factor) * value,
    );
    crate::field::lemma_congruent_remainder(a.offset + ai * value);
    crate::field::lemma_congruent_product(
        (a.offset + ai * value) % p,
        a.offset + ai * value,
        factor,
        factor,
    );
    assert(a.offset * factor + (ai * factor) * value == (a.offset + ai * value) * factor)
        by (nonlinear_arith);
}

/// Whether `c` is two to the power of `shift`, within 64 bits.
pub open spec fn is_shift_of(c: int, shift: u64) -> bool {
    shift < 64 && c == (1u64 << shift) as int
}

/// The power of two that `c` is, if it is one within 64 bits.
pub open spec fn shift_of(c: int) -> Option<u64> {
    if exists|shift: u64| is_shift_of(c, shift) {
        Some(choose|shift: u64| is_shift_of(c, shift))
    } else {
        None
    }
}

/// The power of two that `c` is, if it is one.
pub fn shift_amount(c: u64) -> (r: Option<u64>)
    ensures
        r == shift_of(c as int),
        r matches Some(shift) ==> shift < 64 && c == 1u64 << shift,
{
    let mut shift: u64 = 0;
    while shift < 64
        invariant
            shift <= 64,
            forall|j: u64| j < shift ==> !is_shift_of(c as int, j),
        decreases 64 - shift,
    {
        if c == 1u64 << shift {
            proof {
                assert(is_shift_of(c as int, shift));
                let chosen = choose|s: u64| is_shift_of(c as int, s);
                assert(is_shift_of(c as int, chosen));
                assert(chosen < 64 && shift < 64 && (1u64 << chosen) == (1u64 << shift)
                    ==> chosen == shift) by (bit_vector);
            }
            return Some(shift);
        }
        shift += 1;
    }
    None
}

/// The sum of the terms of the first `k` witnesses takes up, of the bits of
/// `target`, those that the witnesses cover, where each witness has the value
/// that is read off `target` for it.
proof fn lemma_sum_of_bit_values(
    form: LinearForm,
    known: Seq<Option<BitConstraint>>,
    target: u64,
    k: nat,
)
    requires
        k <= form.coefficients.len(),
        form.bit_layout(known, k) is Some,
    ensures
        form.sum_of_terms(form.bit_values(known, target), k) == (target & form.bit_layout(
            known,
            k,
        )->0) as int,
    decreases k,
{
    if k == 0 {
        assert(target & 0u64 == 0u64) by (bit_vector);
    } else {
        let j = (k - 1) as nat;
        lemma_sum_of_bit_values(form, known, target, j);
        let before = form.bit_layout(known, j)->0;
        let c = form.coefficients[j as int];
        let values = form.bit_values(known, target);
        if c == 0 {
            assert(c * values[j as int] == 0) by (nonlinear_arith)
                requires
                    c == 0,
            ;
        } else {
            let shift = shift_of(c)->0;
            assert(is_shift_of(c, shift));
            let mask = known[j as int]->0.mask;
            let shifted = mask << shift;
            let bits = (target & shifted) >> shift;
            let power = 1u64 << shift;
            assert(values[j as int] == bits as int);
            assert(power * bits == (target & shifted)) by (bit_vector)
                requires
                    shift < 64,
                    power == 1u64 << shift,
                    bits == (target & shifted) >> shift,
                    (shifted >> shift) == mask,
                    shifted == mask << shift,
            ;
            assert((target & before) + (target & shifted) == (target & (before | shifted)))
                by (bit_vector)
                requires
                    before & shifted == 0,
            ;
            assert(c * values[j as int] == (target & shifted) as int);
        }
    }
}

/// Where the witnesses are read off the bits of the offset, the form is zero
/// with the values that are read, and these are the values of the readings.
pub proof fn lemma_bit_readings_solve(form: LinearForm, known: Seq<Option<BitConstraint>>)
    requires
        0 <= form.offset < modulus(),
        form.coefficients.len() <= usize::MAX,
        form.bits_reading(known) matches Some(Ok(_)),
    ensures
        ({
            let target = ((-form.offset) % modulus()) as u64;
            let values = form.bit_values(known, target);
            let readings = form.bit_readings(known, target, form.coefficients.len());
            &&& form.bits_reading(known) == Some(
                Ok::<Seq<(usize, ConstraintView)>, EvalErrorView>(readings),
            )
            &&& (form.sum_of_terms(values, form.coefficients.len()) + form.offset) % modulus() == 0
            &&& forall|r: int|
                0 <= r < readings.len() ==> (#[trigger] readings[r]).1 == ConstraintView::Assignment(
                    values[readings[r].0 as int],
                )
        }),
{
    let n = form.coefficients.len();
    let target = ((-form.offset) % modulus()) as u64;
    let covered = form.bit_layout(known, n)->0;
    lemma_sum_of_bit_values(form, known, target, n);
    assert(target & covered == target) by (bit_vector)
        requires
            target & !covered == 0,
    ;
    lemma_readings_are_bit_values(form, known, target, n);
}

/// Each reading assigns to its witness the value that is read off `target` for it.
proof fn lemma_readings_are_bit_values(
    form: LinearForm,
    known: Seq<Option<BitConstraint>>,
    target: u64,
    k: nat,
)
    requires
        k <= form.coefficients.len(),
        form.coefficients.len() <= usize::MAX,
    ensures
        forall|r: int|
            0 <= r < form.bit_readings(known, target, k).len() ==> {
                let reading = #[trigger] form.bit_readings(known, target, k)[r];
                reading.0 < k && reading.1 == ConstraintView::Assignment(
                    form.bit_values(known, target)[reading.0 as int],
                )
            },
    decreases k,
{
    if k > 0 {
        lemma_readings_are_bit_values(form, known, target, (k - 1) as nat);
    }
}

/// The names that `namer` gives, in the order of the witnesses.
pub open spec fn names_of<N: WitnessColumnNamer>(namer: &N) -> Seq<Seq<char>> {
    Seq::new(namer.named_count(), |i: int| namer.name_of(i))
}

/// Coefficients of zero at the end add no terms.
pub proof fn lemma_term_texts_ignore_zero_tail(form: LinearForm, names: Seq<Seq<char>>, w: int)
    requires
        0 <= w <= form.coefficients.len(),
        forall|j: int| w <= j < form.coefficients.len() ==> form.coefficients[j] == 0,
    ensures
        form.term_texts(names) == (LinearForm {
            coefficients: form.coefficients.take(w),
            offset: form.offset,
        }).term_texts(names),
    decreases form.coefficients.len(),
{
    if form.coefficients.len() == w {
        assert(form.coefficients.take(w) =~= form.coefficients);
    } else {
        let shorter = LinearForm {
            coefficients: form.coefficients.drop_last(),
            offset: form.offset,
        };
        lemma_term_texts_ignore_zero_tail(shorter, names, w);
        assert(shorter.coefficients.take(w) =~= form.coefficients.take(w));
    }
}

/// An affine expression in the witnesses of the next row. The coefficient of
/// the witness `i` is `coefficients[i]`, and zero from the vector's end on.
#[derive(Debug)]
pub struct AffineExpression {
    pub coefficients: Vec<FieldElement>,
    pub offset: FieldElement,
}

impl AffineExpression {
    /// The number of witnesses that the expression keeps a coefficient for.
    pub open spec fn width(&self) -> nat {
        self.coefficients@.len()
    }

    /// The coefficient of the witness `i`.
    pub open spec fn coefficient(&self, i: int) -> int {
        if 0 <= i < self.coefficients@.len() {
            self.coefficients@[i]@
        } else {
            0
        }
    }

    /// The expression over `n` witnesses; it says all of it where `n` is at least the width.
    pub open spec fn form(&self, n: nat) -> LinearForm {
        LinearForm {
            coefficients: Seq::new(n, |i: int| self.coefficient(i)),
            offset: self.offset@,
        }
    }

    /// The constant `value`.
    pub fn from_field(value: FieldElement) -> (r: AffineExpression)
        ensures
            r.width() == 0,
            forall|n: nat| #[trigger] r.form(n) == LinearForm::constant(n, value@),
    {
        let r = AffineExpression { coefficients: Vec::new(), offset: value };
        assert forall|n: nat| #[trigger] r.form(n) == LinearForm::constant(n, value@) by {
            assert(r.form(n).coefficients =~= LinearForm::constant(n, value@).coefficients);
        }
        r
    }

    /// The witness `id` alone.
    pub fn from_witness_poly_value(id: usize) -> (r: AffineExpression)
        requires
            id < usize::MAX,
        ensures
            r.width() == id + 1,
            forall|n: nat| #[trigger] r.form(n) == LinearForm::symbol(n, id as int),
    {
        let mut coefficients: Vec<FieldElement> = Vec::new();
        let mut i: usize = 0;
        while i < id
            invariant
                i <= id,
                coefficients@.len() == i,
                forall|j: int| 0 <= j < i ==> coefficients@[j]@ == 0,
            decreases id - i,
        {
            coefficients.push(FieldElement::zero());
            i += 1;
        }
        coefficients.push(FieldElement::one());
        let r = AffineExpression { coefficients, offset: FieldElement::zero() };
        assert forall|n: nat| #[trigger] r.form(n) == LinearForm::symbol(n, id as int) by {
            assert(r.form(n).coefficients =~= LinearForm::symbol(n, id as int).coefficients);
        }
        r
    }

    /// The value of the expression, if it does not depend on any witness.
    pub fn constant_value(&self) -> (r: Option<FieldElement>)
        ensures
            r is Some <==> (forall|i: int| self.coefficient(i) == 0),
            r matches Some(value) ==> value@ == self.offset@,
            forall|n: nat|
                n >= self.width() ==> (match r {
                    Some(value) => Some(value@),
                    None => None,
                }) == (#[trigger] self.form(n)).constant_value(),
    {
        let mut i: usize = 0;
        while i < self.coefficients.len()
            invariant
                i <= self.coefficients@.len(),
                forall|j: int| 0 <= j < i ==> self.coefficient(j) == 0,
            decreases self.coefficients@.len() - i,
        {
            if !self.coefficients[i].is_zero() {
                assert(self.coefficient(i as int) != 0);
                assert forall|n: nat| n >= self.width() implies !(#[trigger] self.form(
                    n,
                )).is_constant() by {
                    assert(self.form(n).coefficients[i as int] != 0);
                }
                return None;
            }
            i += 1;
        }
        assert forall|n: nat| n >= self.width() implies (#[trigger] self.form(n)).is_constant() by {
            assert forall|k: int| 0 <= k < n implies self.form(n).coefficients[k] == 0 by {
                assert(self.coefficient(k) == 0);
            }
        }
        Some(self.offset)
    }

    /// Whether the expression does not depend on any witness.
    pub fn is_constant(&self) -> (r: bool)
        ensures
            r <==> (forall|i: int| self.coefficient(i) == 0),
            forall|n: nat| n >= self.width() ==> r == (#[trigger] self.form(n)).is_constant(),
    {
        self.constant_value().is_some()
    }

    /// The coefficient of the witness `i`.
    fn coefficient_or_zero(&self, i: usize) -> (r: FieldElement)
        ensures
            r@ == self.coefficient(i as int),
    {
        if i < self.coefficients.len() {
            self.coefficients[i]
        } else {
            FieldElement::zero()
        }
    }

    /// The sum of the two expressions.
    pub fn add(&self, other: &AffineExpression) -> (r: AffineExpression)
        ensures
            r.width() == vstd::math::max(self.width() as int, other.width() as int),
            forall|n: nat| #[trigger] r.form(n) == self.form(n).plus(other.form(n)),
    {
        let width = if self.coefficients.len() >= other.coefficients.len() {
            self.coefficients.len()
        } else {
            other.coefficients.len()
        };
        let mut coefficients: Vec<FieldElement> = Vec::new();
        let mut i: usize = 0;
        while i < width
            invariant
                i <= width,
                width == vstd::math::max(self.width() as int, other.width() as int),
                coefficients@.len() == i,
                forall|j: int|
                    0 <= j < i ==> coefficients@[j]@ == (self.coefficient(j) + other.coefficient(
                        j,
                    )) % modulus(),
            decreases width - i,
        {
            coefficients.push(self.coefficient_or_zero(i).add(other.coefficient_or_zero(i)));
            i += 1;
        }
        let r = AffineExpression { coefficients, offset: self.offset.add(other.offset) };
        assert forall|n: nat| #[trigger] r.form(n) == self.form(n).plus(other.form(n)) by {
            assert(r.form(n).coefficients =~= self.form(n).plus(other.form(n)).coefficients);
        }
        r
    }

    /// The difference of the two expressions.
    pub fn sub(&self, other: &AffineExpression) -> (r: AffineExpression)
        ensures
            r.width() == vstd::math::max(self.width() as int, other.width() as int),
            forall|n: nat| #[trigger] r.form(n) == self.form(n).minus(other.form(n)),
    {
        let width = if self.coefficients.len() >= other.coefficients.len() {
            self.coefficients.len()
        } else {
            other.coefficients.len()
        };
        let mut coefficients: Vec<FieldElement> = Vec::new();
        let mut i: usize = 0;
        while i < width
            invariant
                i <= width,
                width == vstd::math::max(self.width() as int, other.width() as int),
                coefficients@.len() == i,
                forall|j: int|
                    0 <= j < i ==> coefficients@[j]@ == (self.coefficient(j) - other.coefficient(
                        j,
                    )) % modulus(),
            decreases width - i,
        {
            coefficients.push(self.coefficient_or_zero(i).sub(other.coefficient_or_zero(i)));
            i += 1;
        }
        let r = AffineExpression { coefficients, offset: self.offset.sub(other.offset) };
        assert forall|n: nat| #[trigger] r.form(n) == self.form(n).minus(other.form(n)) by {
            assert(r.form(n).coefficients =~= self.form(n).minus(other.form(n)).coefficients);
        }
        r
    }

    /// The expression with the opposite sign.
    pub fn neg(&self) -> (r: AffineExpression)
        ensures
            r.width() == self.width(),
            forall|n: nat| #[trigger] r.form(n) == self.form(n).negated(),
    {
        let mut coefficients: Vec<FieldElement> = Vec::new();
        let mut i: usize = 0;
        while i < self.coefficients.len()
            invariant
                i <= self.coefficients@.len(),
                coefficients@.len() == i,
                forall|j: int| 0 <= j < i ==> coefficients@[j]@ == (-self.coefficient(j)) % modulus(),
            decreases self.coefficients@.len() - i,
        {
            coefficients.push(self.coefficients[i].neg());
            i += 1;
        }
        let r = AffineExpression { coefficients, offset: self.offset.neg() };
        assert forall|n: nat| #[trigger] r.form(n) == self.form(n).negated() by {
            assert(r.form(n).coefficients =~= self.form(n).negated().coefficients);
        }
        r
    }

    /// The expression times `factor`.
    pub fn mul(&self, factor: FieldElement) -> (r: AffineExpression)
        ensures
            r.width() == self.width(),
            forall|n: nat| #[trigger] r.form(n) == self.form(n).scaled(factor@),
    {
        let mut coefficients: Vec<FieldElement> = Vec::new();
        let mut i: usize = 0;
        while i < self.coefficients.len()
            invariant
                i <= self.coefficients@.len(),
                coefficients@.len() == i,
                forall|j: int|
                    0 <= j < i ==> coefficients@[j]@ == (self.coefficient(j) * factor@) % modulus(),
            decreases self.coefficients@.len() - i,
        {
            coefficients.push(self.coefficients[i].mul(factor));
            i += 1;
        }
        let r = AffineExpression { coefficients, offset: self.offset.mul(factor) };
        assert(0 * factor@ == 0) by (nonlinear_arith);
        assert forall|n: nat| #[trigger] r.form(n) == self.form(n).scaled(factor@) by {
            assert(r.form(n).coefficients =~= self.form(n).scaled(factor@).coefficients);
        }
        r
    }

    /// Solves `self = 0`, making use of what is known about the bits of the witnesses.
    ///
    /// See [`LinearForm::solution`] for what comes out. The ids in the result
    /// are ids of witnesses that occur in the expression.
    pub fn solve_with_bit_constraints<B: BitConstraintSet>(
        &self,
        known_constraints: &B,
    ) -> (r: EvalResult)
        requires
            self.width() <= known_constraints.witness_count(),
        ensures
            r matches Ok(constraints) ==> forall|k: int|
                0 <= k < constraints@.len() ==> (#[trigger] constraints@[k]).0 < self.width(),
            forall|n: nat|
                self.width() <= n <= known_constraints.witness_count() ==> eval_result_view(r) == (
                #[trigger] self.form(n)).solution(known_constraints_of(known_constraints, n)),
    {
        if self.unknowns_up_to_two() < 2 {
            return self.solve();
        }
        let first = self.read_bits(known_constraints);
        if let Some(result) = first {
            return result;
        }
        let negated = self.neg();
        let second = negated.read_bits(known_constraints);
        proof {
            assert forall|n: nat|
                self.width() <= n <= known_constraints.witness_count() implies (match second {
                Some(result) => Some(eval_result_view(result)),
                None => None,
            }) == (#[trigger] self.form(n)).negated().bits_reading(
                known_constraints_of(known_constraints, n),
            ) by {
                assert(negated.form(n) == self.form(n).negated());
            }
        }
        match second {
            Some(result) => result,
            None => {
                let constraints: Vec<(usize, Constraint)> = Vec::new();
                assert(constraints_view(constraints@) =~= Seq::empty());
                Ok(constraints)
            },
        }
    }

    /// The number of witnesses that occur in the expression, counted up to two.
    fn unknowns_up_to_two(&self) -> (r: usize)
        ensures
            r <= 2,
            forall|n: nat|
                n >= self.width() ==> {
                    let f = #[trigger] self.form(n);
                    &&& r == 0 <==> f.is_constant()
                    &&& r == 1 <==> f.has_sole_unknown()
                },
    {
        let mut first: Option<usize> = None;
        let mut i: usize = 0;
        while i < self.coefficients.len()
            invariant
                i <= self.coefficients@.len(),
                first matches Some(a) ==> a < i && self.coefficient(a as int) != 0,
                first is None ==> forall|j: int| 0 <= j < i ==> self.coefficient(j) == 0,
                first is Some ==> forall|j: int|
                    0 <= j < i && j != first->0 ==> self.coefficient(j) == 0,
            decreases self.coefficients@.len() - i,
        {
            if !self.coefficients[i].is_zero() {
                if first.is_none() {
                    first = Some(i);
                } else {
                    proof {
                        let a = first->0 as int;
                        assert forall|n: nat| n >= self.width() implies {
                            let f = #[trigger] self.form(n);
                            !f.is_constant() && !f.has_sole_unknown()
                        } by {
                            let f = self.form(n);
                            assert(f.coefficients[a] != 0);
                            assert(f.coefficients[i as int] != 0);
                            if f.has_sole_unknown() {
                                let chosen = f.sole_unknown();
                                assert(f.is_sole_unknown(chosen));
                            }
                        }
                    }
                    return 2;
                }
            }
            i += 1;
        }
        match first {
            None => {
                proof {
                    assert forall|n: nat| n >= self.width() implies {
                        let f = #[trigger] self.form(n);
                        f.is_constant() && !f.has_sole_unknown()
                    } by {
                        let f = self.form(n);
                        assert forall|k: int| 0 <= k < n implies f.coefficients[k] == 0 by {
                            assert(self.coefficient(k) == 0);
                        }
                        if f.has_sole_unknown() {
                            let chosen = f.sole_unknown();
                            assert(f.is_sole_unknown(chosen));
                        }
                    }
                }
                0
            },
            Some(a) => {
                proof {
                    assert forall|n: nat| n >= self.width() implies {
                        let f = #[trigger] self.form(n);
                        !f.is_constant() && f.has_sole_unknown()
                    } by {
                        let f = self.form(n);
                        assert(f.coefficients[a as int] != 0);
                        assert forall|j: int| 0 <= j < n && j != a implies f.coefficients[j]
                            == 0 by {
                            assert(self.coefficient(j) == 0);
                        }
                        assert(f.is_sole_unknown(a as int));
                    }
                }
                1
            },
        }
    }

    /// Reads the witnesses off the bits of the offset; see [`LinearForm::bits_reading`].
    fn read_bits<B: BitConstraintSet>(&self, known_constraints: &B) -> (r: Option<EvalResult>)
        requires
            self.width() <= known_constraints.witness_count(),
        ensures
            r matches Some(Ok(constraints)) ==> forall|k: int|
                0 <= k < constraints@.len() ==> (#[trigger] constraints@[k]).0 < self.width(),
            forall|n: nat|
                self.width() <= n <= known_constraints.witness_count() ==> (match r {
                    Some(result) => Some(eval_result_view(result)),
                    None => None,
                }) == (#[trigger] self.form(n)).bits_reading(
                    known_constraints_of(known_constraints, n),
                ),
    {
        let ghost w = self.width();
        let ghost form = self.form(w);
        let ghost known = known_constraints_of(known_constraints, w);
        let mut covered: u64 = 0;
        let mut shifts: Vec<u64> = Vec::new();
        let mut masks: Vec<u64> = Vec::new();
        let mut i: usize = 0;
        while i < self.coefficients.len()
            invariant
                i <= self.coefficients@.len(),
                w == self.width(),
                w <= known_constraints.witness_count(),
                form == self.form(w),
                known == known_constraints_of(known_constraints, w),
                form.bit_layout(known, i as nat) == Some(covered),
                shifts@.len() == i,
                masks@.len() == i,
                forall|j: int|
                    0 <= j < i && form.coefficients[j] != 0 ==> {
                        &&& shift_of(form.coefficients[j]) == Some(#[trigger] shifts@[j])
                        &&& shifts@[j] < 64
                        &&& known[j] is Some
                        &&& masks@[j] == known[j]->0.mask << shifts@[j]
                    },
            decreases self.coefficients@.len() - i,
        {
            let c = self.coefficients[i];
            assert(form.coefficients[i as int] == c@);
            if c.is_zero() {
                shifts.push(0);
                masks.push(0);
            } else {
                let shift = match shift_amount(c.value()) {
                    Some(shift) => shift,
                    None => {
                        proof {
                            self.lemma_no_layout(known_constraints, i as nat);
                        }
                        return None;
                    },
                };
                let constraint = match known_constraints.bit_constraint(i) {
                    Some(constraint) => constraint,
                    None => {
                        proof {
                            self.lemma_no_layout(known_constraints, i as nat);
                        }
                        return None;
                    },
                };
                assert(known[i as int] == Some(constraint));
                let shifted = constraint.mask << shift;
                if (shifted >> shift) != constraint.mask || covered & shifted != 0 {
                    proof {
                        self.lemma_no_layout(known_constraints, i as nat);
                    }
                    return None;
                }
                covered = covered | shifted;
                shifts.push(shift);
                masks.push(shifted);
            }
            i += 1;
        }
        proof {
            self.lemma_layout_beyond_width(known_constraints);
        }
        if covered >= crate::field::MODULUS {
            return None;
        }
        let target = self.offset.neg().value();
        if target & !covered != 0 {
            return Some(Err(EvalError::ConstraintUnsatisfiable(String::new())));
        }
        let mut constraints: Vec<(usize, Constraint)> = Vec::new();
        let mut k: usize = 0;
        assert(constraints_view(constraints@) =~= Seq::empty());
        while k < self.coefficients.len()
            invariant
                k <= self.coefficients@.len(),
                w == self.width(),
                form == self.form(w),
                known == known_constraints_of(known_constraints, w),
                target < crate::field::MODULUS,
                shifts@.len() == w,
                masks@.len() == w,
                forall|j: int|
                    0 <= j < w && form.coefficients[j] != 0 ==> {
                        &&& shift_of(form.coefficients[j]) == Some(#[trigger] shifts@[j])
                        &&& shifts@[j] < 64
                        &&& known[j] is Some
                        &&& masks@[j] == known[j]->0.mask << shifts@[j]
                    },
                constraints_view(constraints@) == form.bit_readings(known, target, k as nat),
                forall|j: int| 0 <= j < constraints@.len() ==> (#[trigger] constraints@[j]).0 < w,
            decreases self.coefficients@.len() - k,
        {
            let c = self.coefficients[k];
            assert(form.coefficients[k as int] == c@);
            if !c.is_zero() {
                let shift = shifts[k];
                let shifted = masks[k];
                let bits = (target & shifted) >> shift;
                assert(bits <= target) by (bit_vector)
                    requires
                        bits == (target & shifted) >> shift,
                        shift < 64,
                ;
                let value = FieldElement::new(bits);
                let ghost before = constraints_view(constraints@);
                constraints.push((k, Constraint::Assignment(value)));
                assert(constraints_view(constraints@) =~= before.push(
                    (k, ConstraintView::Assignment(bits as int)),
                ));
            }
            k += 1;
        }
        proof {
            self.lemma_readings_beyond_width(known_constraints, target);
        }
        Some(Ok(constraints))
    }

    /// Where the sum does not keep the witness `i` apart from those before
    /// it, it keeps the witnesses apart over no number of them above `i`.
    proof fn lemma_no_layout<B: BitConstraintSet>(&self, known_constraints: &B, i: nat)
        requires
            i < self.width(),
            self.width() <= known_constraints.witness_count(),
            self.form(self.width()).bit_layout(
                known_constraints_of(known_constraints, self.width()),
                i + 1,
            ) is None,
        ensures
            forall|n: nat|
                self.width() <= n <= known_constraints.witness_count() ==> (#[trigger] self.form(
                    n,
                )).bits_reading(known_constraints_of(known_constraints, n)) is None,
    {
        assert forall|n: nat|
            self.width() <= n <= known_constraints.witness_count() implies (#[trigger] self.form(
            n,
        )).bits_reading(known_constraints_of(known_constraints, n)) is None by {
            self.lemma_layout_agrees(known_constraints, n, i + 1);
            Self::lemma_layout_stays_none(
                self.form(n),
                known_constraints_of(known_constraints, n),
                i + 1,
                n,
            );
        }
    }

    /// The layout of the first `k` witnesses is the same over any number of
    /// witnesses from the width on.
    proof fn lemma_layout_agrees<B: BitConstraintSet>(&self, known_constraints: &B, n: nat, k: nat)
        requires
            k <= self.width() <= n,
        ensures
            self.form(n).bit_layout(known_constraints_of(known_constraints, n), k) == self.form(
                self.width(),
            ).bit_layout(known_constraints_of(known_constraints, self.width()), k),
        decreases k,
    {
        if k > 0 {
            self.lemma_layout_agrees(known_constraints, n, (k - 1) as nat);
        }
    }

    /// A layout that fails for some witnesses fails for more.
    proof fn lemma_layout_stays_none(
        form: LinearForm,
        known: Seq<Option<BitConstraint>>,
        k: nat,
        n: nat,
    )
        requires
            k <= n,
            form.bit_layout(known, k) is None,
        ensures
            form.bit_layout(known, n) is None,
        decreases n,
    {
        if k < n {
            Self::lemma_layout_stays_none(form, known, k, (n - 1) as nat);
        }
    }

    /// Witnesses from the width on do not occur, and so take up no bits.
    proof fn lemma_layout_beyond_width<B: BitConstraintSet>(&self, known_constraints: &B)
        ensures
            forall|n: nat|
                self.width() <= n ==> (#[trigger] self.form(n)).bit_layout(
                    known_constraints_of(known_constraints, n),
                    n,
                ) == self.form(self.width()).bit_layout(
                    known_constraints_of(known_constraints, self.width()),
                    self.width(),
                ),
    {
        assert forall|n: nat| self.width() <= n implies (#[trigger] self.form(n)).bit_layout(
            known_constraints_of(known_constraints, n),
            n,
        ) == self.form(self.width()).bit_layout(
            known_constraints_of(known_constraints, self.width()),
            self.width(),
        ) by {
            self.lemma_layout_tail(known_constraints, n, n);
        }
    }

    proof fn lemma_layout_tail<B: BitConstraintSet>(&self, known_constraints: &B, n: nat, k: nat)
        requires
            self.width() <= k <= n,
        ensures
            self.form(n).bit_layout(known_constraints_of(known_constraints, n), k) == self.form(
                self.width(),
            ).bit_layout(known_constraints_of(known_constraints, self.width()), self.width()),
        decreases k,
    {
        if k == self.width() {
            self.lemma_layout_agrees(known_constraints, n, k);
        } else {
            self.lemma_layout_tail(known_constraints, n, (k - 1) as nat);
        }
    }

    /// Witnesses from the width on do not occur, and so nothing is read for them.
    proof fn lemma_readings_beyond_width<B: BitConstraintSet>(
        &self,
        known_constraints: &B,
        target: u64,
    )
        ensures
            forall|n: nat|
                self.width() <= n ==> (#[trigger] self.form(n)).bit_readings(
                    known_constraints_of(known_constraints, n),
                    target,
                    n,
                ) == self.form(self.width()).bit_readings(
                    known_constraints_of(known_constraints, self.width()),
                    target,
                    self.width(),
                ),
    {
        assert forall|n: nat| self.width() <= n implies (#[trigger] self.form(n)).bit_readings(
            known_constraints_of(known_constraints, n),
            target,
            n,
        ) == self.form(self.width()).bit_readings(
            known_constraints_of(known_constraints, self.width()),
            target,
            self.width(),
        ) by {
            self.lemma_readings_tail(known_constraints, target, n, n);
        }
    }

    proof fn lemma_readings_tail<B: BitConstraintSet>(
        &self,
        known_constraints: &B,
        target: u64,
        n: nat,
        k: nat,
    )
        requires
            k <= n,
            self.width() <= n,
        ensures
            self.form(n).bit_readings(known_constraints_of(known_constraints, n), target, k)
                == self.form(self.width()).bit_readings(
                known_constraints_of(known_constraints, self.width()),
                target,
                if k <= self.width() {
                    k
                } else {
                    self.width()
                },
            ),
        decreases k,
    {
        if k > 0 {
            self.lemma_readings_tail(known_constraints, target, n, (k - 1) as nat);
        }
    }

    /// Solves `self = 0` for the unknown, where there is exactly one.
    ///
    /// See [`LinearForm::direct_solution`] for what comes out. The ids in the
    /// result are ids of witnesses that occur in the expression.
    pub fn solve(&self) -> (r: EvalResult)
        ensures
            r matches Ok(constraints) ==> forall|k: int|
                0 <= k < constraints@.len() ==> (#[trigger] constraints@[k]).0 < self.width(),
            forall|n: nat|
                n >= self.width() ==> eval_result_view(r) == (#[trigger] self.form(
                    n,
                )).direct_solution(),
    {
        let mut first: Option<usize> = None;
        let mut second: Option<usize> = None;
        let mut i: usize = 0;
        while i < self.coefficients.len()
            invariant
                i <= self.coefficients@.len(),
                first matches Some(a) ==> a < i && self.coefficient(a as int) != 0,
                second matches Some(b) ==> first is Some && first->0 < b < i && self.coefficient(
                    b as int,
                ) != 0,
                first is None ==> forall|j: int| 0 <= j < i ==> self.coefficient(j) == 0,
                (first is Some && second is None) ==> forall|j: int|
                    0 <= j < i && j != first->0 ==> self.coefficient(j) == 0,
            decreases self.coefficients@.len() - i,
        {
            if !self.coefficients[i].is_zero() {
                if first.is_none() {
                    first = Some(i);
                } else if second.is_none() {
                    second = Some(i);
                }
            }
            i += 1;
        }
        match (first, second) {
            (None, _) => {
                proof {
                    assert forall|n: nat| n >= self.width() implies (#[trigger] self.form(
                        n,
                    )).is_constant() by {
                        assert forall|k: int| 0 <= k < n implies self.form(n).coefficients[k]
                            == 0 by {
                            assert(self.coefficient(k) == 0);
                        }
                    }
                }
                if self.offset.is_zero() {
                    let constraints: Vec<(usize, Constraint)> = Vec::new();
                    proof {
                        assert(constraints_view(constraints@) =~= Seq::empty());
                    }
                    Ok(constraints)
                } else {
                    Err(EvalError::ConstraintUnsatisfiable(String::new()))
                }
            },
            (Some(a), None) => {
                let c = self.coefficients[a];
                proof {
                    assert forall|n: nat| n >= self.width() implies {
                        let f = #[trigger] self.form(n);
                        !f.is_constant() && f.has_sole_unknown() && f.sole_unknown() == a
                    } by {
                        let f = self.form(n);
                        assert(f.coefficients[a as int] != 0);
                        assert forall|j: int| 0 <= j < n && j != a implies f.coefficients[j]
                            == 0 by {
                            assert(self.coefficient(j) == 0);
                        }
                        assert(f.is_sole_unknown(a as int));
                        let chosen = f.sole_unknown();
                        assert(f.is_sole_unknown(chosen));
                    }
                }
                match self.offset.neg().div(c) {
                    Some(value) => {
                        let mut constraints: Vec<(usize, Constraint)> = Vec::new();
                        constraints.push((a, Constraint::Assignment(value)));
                        proof {
                            lemma_view_range(self.offset);
                            assert(quotient_of((-self.offset@) % modulus(), c@) == quotient_of(
                                -self.offset@,
                                c@,
                            )) by {
                                vstd::arithmetic::div_mod::lemma_mul_mod_noop_general(
                                    -self.offset@,
                                    crate::field::inverse_of(c@),
                                    modulus(),
                                );
                            }
                            assert(constraints_view(constraints@) =~= seq![
                                (
                                    a,
                                    ConstraintView::Assignment(quotient_of(-self.offset@, c@)),
                                ),
                            ]);
                        }
                        Ok(constraints)
                    },
                    None => Err(
                        EvalError::generic("The coefficient of the unknown has no inverse."),
                    ),
                }
            },
            (Some(a), Some(b)) => {
                proof {
                    assert forall|n: nat| n >= self.width() implies {
                        let f = #[trigger] self.form(n);
                        !f.is_constant() && !f.has_sole_unknown()
                    } by {
                        let f = self.form(n);
                        assert(f.coefficients[a as int] != 0);
                        assert(f.coefficients[b as int] != 0);
                        if f.has_sole_unknown() {
                            let chosen = f.sole_unknown();
                            assert(f.is_sole_unknown(chosen));
                        }
                    }
                }
                let constraints: Vec<(usize, Constraint)> = Vec::new();
                proof {
                    assert(constraints_view(constraints@) =~= Seq::empty());
                }
                Ok(constraints)
            },
        }
    }

    /// The expression as a sum, with the witnesses named by `namer`.
    pub fn format<N: WitnessColumnNamer>(&self, namer: &N) -> (r: String)
        requires
            self.width() <= namer.named_count(),
        ensures
            r@ == self.form(namer.named_count()).text(names_of(namer)),
    {
        let ghost names = names_of(namer);
        let ghost whole = self.form(namer.named_count());
        let mut parts: Vec<String> = Vec::new();
        let mut i: usize = 0;
        while i < self.coefficients.len()
            invariant
                i <= self.coefficients@.len(),
                self.width() <= namer.named_count(),
                names == names_of(namer),
                whole == self.form(namer.named_count()),
                views_of(parts@) == (LinearForm {
                    coefficients: whole.coefficients.take(i as int),
                    offset: whole.offset,
                }).term_texts(names),
            decreases self.coefficients@.len() - i,
        {
            let ghost longer = LinearForm {
                coefficients: whole.coefficients.take(i + 1),
                offset: whole.offset,
            };
            proof {
                assert(longer.coefficients.drop_last() =~= whole.coefficients.take(i as int));
                assert(longer.coefficients.last() == self.coefficient(i as int));
                lemma_view_range(self.coefficients@[i as int]);
            }
            let c = self.coefficients[i];
            if c.is_zero() {
            } else if c.is_one() {
                parts.push(namer.name(i));
                assert(views_of(parts@) =~= longer.term_texts(names));
            } else {
                let mut term = c.to_string();
                term.append(" * ");
                term.append(namer.name(i).as_str());
                parts.push(term);
                assert(views_of(parts@) =~= longer.term_texts(names));
            }
            i += 1;
        }
        proof {
            lemma_term_texts_ignore_zero_tail(whole, names, self.width() as int);
        }
        if !self.offset.is_zero() || parts.len() == 0 {
            let ghost before = views_of(parts@);
            parts.push(self.offset.to_string());
            proof {
                lemma_view_range(self.offset);
                assert(views_of(parts@) =~= before.push(decimal_text(self.offset@ as nat)));
            }
        }
        join(&parts, " + ")
    }
}

/// What `set` knows of the first `n` witnesses.
pub open spec fn known_constraints_of<B: BitConstraintSet>(set: &B, n: nat) -> Seq<
    Option<BitConstraint>,
> {
    Seq::new(n, |i: int| set.constraint_of(i))
}

} // verus!
