//! What is known about the bits of the witnesses of the next row.

use crate::bit_constraints::{BitConstraint, BitConstraintSet};
use crate::fixed_data::{are_distinct, distinct_names, index_of_name, FixedData};
use crate::text::views_of;
use vstd::prelude::*;

verus! {

/// The names of the columns that the constraints are on, in order.
pub open spec fn constraint_names(global: Seq<(String, BitConstraint)>) -> Seq<Seq<char>> {
    Seq::new(global.len(), |i: int| global[i].0@)
}

/// Whether no column has two of the constraints.
pub fn constraint_names_distinct(global: &Vec<(String, BitConstraint)>) -> (r: bool)
    ensures
        r == distinct_names(constraint_names(global@)),
{
    let mut names: Vec<String> = Vec::new();
    let mut i: usize = 0;
    while i < global.len()
        invariant
            i <= global@.len(),
            names@.len() == i,
            forall|j: int| 0 <= j < i ==> names@[j]@ == global@[j].0@,
        decreases global@.len() - i,
    {
        names.push(global[i].0.clone());
        i += 1;
    }
    assert(views_of(names@) =~= constraint_names(global@));
    are_distinct(&names)
}

/// The constraint that `global` holds for `name`, if it holds one.
pub open spec fn global_constraint(global: Seq<(String, BitConstraint)>, name: Seq<char>) -> Option<
    BitConstraint,
> {
    match index_of_name(constraint_names(global), name) {
        Some(k) => Some(global[k].1),
        None => None,
    }
}

/// What is known about the bits of each witness of the next row: the
/// constraint that holds on every row, where the witness has one, else the
/// constraint that was found for this row.
pub open spec fn combined_constraints(
    fixed_data: FixedData,
    global: Seq<(String, BitConstraint)>,
    row: Seq<Option<BitConstraint>>,
) -> Seq<Option<BitConstraint>> {
    Seq::new(
        row.len(),
        |i: int|
            match global_constraint(global, fixed_data.witness_cols@[i].name@) {
                Some(constraint) => Some(constraint),
                None => row[i],
            },
    )
}

/// The bit constraints of the witnesses of the next row: those that hold on
/// every row, keyed by name, before those found for this row, keyed by id.
pub struct WitnessBitConstraintSet<'a> {
    pub fixed_data: &'a FixedData,
    /// Global constraints on witness and fixed polynomials.
    pub global_bit_constraints: &'a Vec<(String, BitConstraint)>,
    /// Bit constraints on the witness polynomials in the next row.
    pub next_bit_constraints: &'a Vec<Option<BitConstraint>>,
}

impl<'a> BitConstraintSet for WitnessBitConstraintSet<'a> {
    open spec fn constraint_of(&self, id: int) -> Option<BitConstraint> {
        combined_constraints(
            *self.fixed_data,
            self.global_bit_constraints@,
            self.next_bit_constraints@,
        )[id]
    }

    open spec fn witness_count(&self) -> nat {
        if self.next_bit_constraints@.len() <= self.fixed_data.witness_count() {
            self.next_bit_constraints@.len()
        } else {
            self.fixed_data.witness_count()
        }
    }

    fn bit_constraint(&self, id: usize) -> (r: Option<BitConstraint>) {
        let name = &self.fixed_data.witness_cols[id].name;
        let ghost names = Seq::new(
            self.global_bit_constraints@.len(),
            |i: int| self.global_bit_constraints@[i].0@,
        );
        let mut i: usize = 0;
        while i < self.global_bit_constraints.len()
            invariant
                i <= self.global_bit_constraints@.len(),
                id < self.witness_count(),
                name == self.fixed_data.witness_cols@[id as int].name,
                names == Seq::new(
                    self.global_bit_constraints@.len(),
                    |i: int| self.global_bit_constraints@[i].0@,
                ),
                forall|j: int| 0 <= j < i ==> names[j] != name@,
            decreases self.global_bit_constraints@.len() - i,
        {
            if self.global_bit_constraints[i].0 == *name {
                proof {
                    assert(names[i as int] == name@);
                    crate::fixed_data::lemma_first_match_is_index(names, name@, i as int);
                }
                return Some(self.global_bit_constraints[i].1);
            }
            i += 1;
        }
        proof {
            crate::fixed_data::lemma_no_match_is_none(names, name@);
        }
        self.next_bit_constraints[id]
    }
}

} // verus!
