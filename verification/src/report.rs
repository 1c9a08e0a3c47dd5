//! The report on a row that could not be completed.

use crate::bit_constraints::BitConstraint;
use crate::expression::Identity;
use crate::fixed_data::DegreeType;
use crate::text::{
    decimal_text, indent_text, join_text, lemma_text_order_is_total, precedes, text_precedes,
};
use vstd::prelude::*;

verus! {

/// In which of the three groups of the report a value stands: `0` for a known
/// value other than zero, `1` for zero, `2` for a value that is not known.
pub open spec fn value_class(value: Option<int>) -> int {
    match value {
        Some(known) => if known == 0 {
            1
        } else {
            0
        },
        None => 2,
    }
}

/// The line of the report for one witness.
pub open spec fn value_line(name: Seq<char>, value: Option<int>) -> Seq<char> {
    name + " = "@ + (match value {
        Some(known) => decimal_text(known as nat),
        None => "<unknown>"@,
    })
}

/// The lines of the witnesses of one group, in the order of their ids.
pub open spec fn class_lines(names: Seq<Seq<char>>, values: Seq<Option<int>>, class: int) -> Seq<
    Seq<char>,
>
    decreases values.len(),
{
    if values.len() == 0 {
        Seq::empty()
    } else {
        let before = class_lines(names, values.drop_last(), class);
        if value_class(values.last()) == class {
            before.push(value_line(names[values.len() - 1], values.last()))
        } else {
            before
        }
    }
}

/// The lines that report the values of a row: known values other than zero
/// first, then zeros, then what is not known.
pub open spec fn value_lines(names: Seq<Seq<char>>, values: Seq<Option<int>>) -> Seq<Seq<char>> {
    class_lines(names, values, 0) + class_lines(names, values, 1) + class_lines(names, values, 2)
}

/// A row could not be completed: the number of the row, and the report that says why.
#[derive(Debug)]
pub struct RowFailure {
    pub row: DegreeType,
    pub report: String,
}

/// The names of the witnesses whose value is not known, in the order of their ids.
pub open spec fn unknown_names(names: Seq<Seq<char>>, values: Seq<Option<int>>) -> Seq<Seq<char>>
    decreases values.len(),
{
    if values.len() == 0 {
        Seq::empty()
    } else {
        let before = unknown_names(names, values.drop_last());
        if values.last() is None {
            before.push(names[values.len() - 1])
        } else {
            before
        }
    }
}

/// The bit constraints that hold on every row, one to a line.
///
/// The report lists them sorted by name, see [`sorted_by_name`].
pub open spec fn global_constraint_lines(global: Seq<(String, BitConstraint)>) -> Seq<char>
    decreases global.len(),
{
    if global.len() == 0 {
        Seq::empty()
    } else {
        global_constraint_lines(global.drop_last()) + "  "@ + global.last().0@ + ": "@
            + global.last().1.text() + "\n"@
    }
}

/// Whether the names come one before the other in the order of texts, so
/// that none occurs twice.
pub open spec fn in_name_order(entries: Seq<(String, BitConstraint)>) -> bool {
    forall|i: int|
        0 <= i < entries.len() - 1 ==> text_precedes(
            (#[trigger] entries[i]).0@,
            entries[i + 1].0@,
        )
}

/// `sorted` with `entry` at its place in the order of names, or `sorted` as
/// it is where it holds an entry of that name already.
pub open spec fn inserted_by_name(
    sorted: Seq<(String, BitConstraint)>,
    entry: (String, BitConstraint),
) -> Seq<(String, BitConstraint)>
    decreases sorted.len(),
{
    if sorted.len() == 0 {
        seq![entry]
    } else if text_precedes(sorted[0].0@, entry.0@) {
        seq![sorted[0]] + inserted_by_name(sorted.drop_first(), entry)
    } else if sorted[0].0@ == entry.0@ {
        sorted
    } else {
        seq![entry] + sorted
    }
}

/// The constraints in the order of their names; of those of one name, the first.
pub open spec fn sorted_by_name(global: Seq<(String, BitConstraint)>) -> Seq<
    (String, BitConstraint),
>
    decreases global.len(),
{
    if global.len() == 0 {
        Seq::empty()
    } else {
        inserted_by_name(sorted_by_name(global.drop_last()), global.last())
    }
}

/// Putting an entry at its place keeps the names in order.
pub proof fn lemma_inserted_by_name_in_order(
    sorted: Seq<(String, BitConstraint)>,
    entry: (String, BitConstraint),
)
    requires
        in_name_order(sorted),
    ensures
        in_name_order(inserted_by_name(sorted, entry)),
        inserted_by_name(sorted, entry).len() > 0,
        inserted_by_name(sorted, entry)[0] == entry || (sorted.len() > 0 && inserted_by_name(
            sorted,
            entry,
        )[0] == sorted[0]),
    decreases sorted.len(),
{
    let after = inserted_by_name(sorted, entry);
    if sorted.len() == 0 {
    } else if text_precedes(sorted[0].0@, entry.0@) {
        let rest = sorted.drop_first();
        assert forall|i: int| 0 <= i < rest.len() - 1 implies text_precedes(
            (#[trigger] rest[i]).0@,
            rest[i + 1].0@,
        ) by {
            assert(rest[i] == sorted[i + 1]);
            assert(rest[i + 1] == sorted[i + 2]);
        }
        lemma_inserted_by_name_in_order(rest, entry);
        let tail = inserted_by_name(rest, entry);
        assert forall|i: int| 0 <= i < after.len() - 1 implies text_precedes(
            (#[trigger] after[i]).0@,
            after[i + 1].0@,
        ) by {
            if i == 0 {
                assert(after[1] == tail[0]);
                if tail[0] != entry {
                    assert(tail[0] == sorted[1]);
                    assert(text_precedes(sorted[0int].0@, sorted[0int + 1].0@));
                }
            } else {
                assert(after[i] == tail[i - 1]);
                assert(after[i + 1] == tail[i]);
            }
        }
    } else if sorted[0].0@ == entry.0@ {
    } else {
        lemma_text_order_is_total(sorted[0].0@, entry.0@);
        assert forall|i: int| 0 <= i < after.len() - 1 implies text_precedes(
            (#[trigger] after[i]).0@,
            after[i + 1].0@,
        ) by {
            if i > 0 {
                assert(after[i] == sorted[i - 1]);
                assert(after[i + 1] == sorted[i]);
            }
        }
    }
}

/// The constraints sorted by name have their names in order, each once.
pub proof fn lemma_sorted_by_name_in_order(global: Seq<(String, BitConstraint)>)
    ensures
        in_name_order(sorted_by_name(global)),
    decreases global.len(),
{
    if global.len() > 0 {
        lemma_sorted_by_name_in_order(global.drop_last());
        lemma_inserted_by_name_in_order(sorted_by_name(global.drop_last()), global.last());
    }
}

/// Puts a constraint at the place of its name among `sorted`; see
/// [`inserted_by_name`].
pub fn insert_by_name(
    sorted: &mut Vec<(String, BitConstraint)>,
    name: String,
    constraint: BitConstraint,
)
    ensures
        final(sorted)@ == inserted_by_name(old(sorted)@, (name, constraint)),
{
    let ghost all = sorted@;
    let ghost entry = (name, constraint);
    let mut j: usize = 0;
    proof {
        assert(all.skip(0) =~= all);
        assert(all.take(0) + inserted_by_name(all, entry) =~= inserted_by_name(all, entry));
    }
    loop
        invariant
            j <= sorted@.len(),
            sorted@ == all,
            entry == (name, constraint),
            inserted_by_name(all, entry) == all.take(j as int) + inserted_by_name(
                all.skip(j as int),
                entry,
            ),
        ensures
            j == sorted@.len() || !text_precedes(sorted@[j as int].0@, name@),
        decreases sorted@.len() - j,
    {
        if j >= sorted.len() {
            break;
        }
        if !precedes(sorted[j].0.as_str(), name.as_str()) {
            break;
        }
        proof {
            let rest = all.skip(j as int);
            assert(rest[0] == all[j as int]);
            assert(rest.drop_first() =~= all.skip(j + 1));
            assert(inserted_by_name(rest, entry) == seq![rest[0]] + inserted_by_name(
                rest.drop_first(),
                entry,
            ));
            assert(all.take(j as int) + (seq![rest[0]] + inserted_by_name(
                all.skip(j + 1),
                entry,
            )) =~= all.take(j + 1) + inserted_by_name(all.skip(j + 1), entry));
        }
        j += 1;
    }
    proof {
        let rest = all.skip(j as int);
        if j < all.len() {
            assert(rest[0] == all[j as int]);
        }
    }
    if j < sorted.len() && sorted[j].0 == name {
        proof {
            assert(all.take(j as int) + all.skip(j as int) =~= all);
        }
        return ;
    }
    sorted.insert(j, (name, constraint));
    proof {
        let rest = all.skip(j as int);
        assert(all.insert(j as int, entry) =~= all.take(j as int) + (seq![entry] + rest));
        if j as int == all.len() {
            assert(rest.len() == 0);
            assert(seq![entry] + rest =~= seq![entry]);
        }
    }
}

/// The constraints in the order of their names; see [`sorted_by_name`].
pub fn sort_by_name(global: &Vec<(String, BitConstraint)>) -> (r: Vec<(String, BitConstraint)>)
    ensures
        r@ == sorted_by_name(global@),
{
    let mut sorted: Vec<(String, BitConstraint)> = Vec::new();
    let mut g: usize = 0;
    while g < global.len()
        invariant
            g <= global@.len(),
            sorted@ == sorted_by_name(global@.take(g as int)),
        decreases global@.len() - g,
    {
        proof {
            assert(global@.take(g + 1).drop_last() =~= global@.take(g as int));
            assert(global@.take(g + 1).last() == global@[g as int]);
        }
        let name: &String = &global[g].0;
        let copy = name.clone();
        assert((copy, global@[g as int].1) == global@[g as int]);
        insert_by_name(&mut sorted, copy, global[g].1);
        g += 1;
    }
    assert(global@.take(g as int) =~= global@);
    sorted
}

/// The bit constraints found for the row, one to a line.
pub open spec fn row_constraint_lines(
    names: Seq<Seq<char>>,
    constraints: Seq<Option<BitConstraint>>,
) -> Seq<char>
    decreases constraints.len(),
{
    if constraints.len() == 0 {
        Seq::empty()
    } else {
        let before = row_constraint_lines(names, constraints.drop_last());
        match constraints.last() {
            Some(constraint) => before + "  "@ + names[constraints.len() - 1] + ": "@
                + constraint.text() + "\n"@,
            None => before,
        }
    }
}

/// The report on a row that could not be completed: the witnesses without a
/// value, the reasons, the bit constraints and the values of the row.
pub open spec fn failure_report_text(
    row: DegreeType,
    names: Seq<Seq<char>>,
    values: Seq<Option<int>>,
    reasons: Seq<Seq<char>>,
    global: Seq<(String, BitConstraint)>,
    constraints: Seq<Option<BitConstraint>>,
) -> Seq<char> {
    "\nError: Row "@ + decimal_text(row as nat)
        + ": Identity check failed or unable to derive values for witness polynomials: "@
        + join_text(unknown_names(names, values), ", "@) + "\n\nReasons:\n"@ + join_text(
        reasons,
        "\n\n"@,
    ) + "\n\nKnown bit constraints:\nGlobal:\n"@ + global_constraint_lines(
        sorted_by_name(global),
    )
        + "For this row:\n"@ + row_constraint_lines(names, constraints)
        + "\nCurrent values (known nonzero first, then zero, then unknown):\n"@ + indent_text(
        join_text(value_lines(names, values), "\n"@),
        "    "@,
    ) + "\nWitness generation failed."@
}

} // verus!
