//! What is known of a circuit before witness generation starts: its size, its
//! named constants, its fixed columns and the list of its witness columns.

use crate::expression::Expression;
use crate::field::FieldElement;
use crate::text::views_of;
use vstd::prelude::*;

verus! {

/// The type of row numbers and of the number of rows.
pub type DegreeType = u64;

/// A column whose values the generator has to find.
#[derive(Debug)]
pub struct WitnessColumn {
    /// The position of the column in the list of witness columns.
    pub id: usize,
    pub name: String,
    /// The expression that says how to ask for a value of this column, if it can be asked for.
    pub query: Option<Expression>,
}

/// A column whose values are given: one for each row.
#[derive(Debug)]
pub struct FixedColumn {
    pub name: String,
    pub values: Vec<FieldElement>,
}

/// Everything that is given of a circuit but its identities.
#[derive(Debug)]
pub struct FixedData {
    /// The number of rows.
    pub degree: DegreeType,
    pub constants: Vec<(String, FieldElement)>,
    pub fixed_cols: Vec<FixedColumn>,
    pub witness_cols: Vec<WitnessColumn>,
}

/// `i` is the first position at which `names` holds `name`.
pub open spec fn is_first_match(names: Seq<Seq<char>>, name: Seq<char>, i: int) -> bool {
    &&& 0 <= i < names.len()
    &&& names[i] == name
    &&& forall|j: int| 0 <= j < i ==> names[j] != name
}

/// The first position at which `names` holds `name`, if there is one.
pub open spec fn index_of_name(names: Seq<Seq<char>>, name: Seq<char>) -> Option<int> {
    if exists|i: int| is_first_match(names, name, i) {
        Some(choose|i: int| is_first_match(names, name, i))
    } else {
        None
    }
}

/// The first match, once found, is what `index_of_name` gives.
pub proof fn lemma_first_match_is_index(names: Seq<Seq<char>>, name: Seq<char>, i: int)
    requires
        is_first_match(names, name, i),
    ensures
        index_of_name(names, name) == Some(i),
{
    let chosen = choose|k: int| is_first_match(names, name, k);
    assert(is_first_match(names, name, chosen));
    if chosen < i {
        assert(names[chosen] != name);
    } else if i < chosen {
        assert(names[i] != name);
    }
}

/// A name that occurs nowhere has no index.
pub proof fn lemma_no_match_is_none(names: Seq<Seq<char>>, name: Seq<char>)
    requires
        forall|j: int| 0 <= j < names.len() ==> names[j] != name,
    ensures
        index_of_name(names, name) is None,
{
}

/// Whether no name occurs twice.
pub open spec fn distinct_names(names: Seq<Seq<char>>) -> bool {
    forall|i: int, j: int| 0 <= i < j < names.len() ==> names[i] != names[j]
}

/// Among names of which none occurs twice, a name is found where it stands.
pub proof fn lemma_one_of_a_name(names: Seq<Seq<char>>, i: int)
    requires
        distinct_names(names),
        0 <= i < names.len(),
    ensures
        index_of_name(names, names[i]) == Some(i),
{
    assert(is_first_match(names, names[i], i));
    lemma_first_match_is_index(names, names[i], i);
}

/// Whether no name occurs twice.
pub fn are_distinct(names: &Vec<String>) -> (r: bool)
    ensures
        r == distinct_names(views_of(names@)),
{
    let ghost views = views_of(names@);
    let mut j: usize = 0;
    while j < names.len()
        invariant
            j <= names@.len(),
            views == views_of(names@),
            forall|a: int, b: int| 0 <= a < b < j ==> views[a] != views[b],
        decreases names@.len() - j,
    {
        let mut i: usize = 0;
        while i < j
            invariant
                i <= j < names@.len(),
                views == views_of(names@),
                forall|a: int| 0 <= a < i ==> views[a] != views[j as int],
            decreases j - i,
        {
            if names[i] == names[j] {
                assert(views[i as int] == views[j as int]);
                return false;
            }
            i += 1;
        }
        j += 1;
    }
    true
}

impl FixedData {
    /// The names of the witness columns, in order.
    pub open spec fn witness_names(&self) -> Seq<Seq<char>> {
        Seq::new(self.witness_cols@.len(), |i: int| self.witness_cols@[i].name@)
    }

    /// The names of the fixed columns, in order.
    pub open spec fn fixed_names(&self) -> Seq<Seq<char>> {
        Seq::new(self.fixed_cols@.len(), |i: int| self.fixed_cols@[i].name@)
    }

    /// The names of the constants, in order.
    pub open spec fn constant_names(&self) -> Seq<Seq<char>> {
        Seq::new(self.constants@.len(), |i: int| self.constants@[i].0@)
    }

    /// The number of witness columns.
    pub open spec fn witness_count(&self) -> nat {
        self.witness_cols@.len()
    }

    /// There is at least one row, every fixed column has a value for every row,
    /// every witness column knows its own position, and no two witness
    /// columns, no two fixed columns and no two constants have one name.
    pub open spec fn wf(&self) -> bool {
        &&& self.degree > 0
        &&& forall|i: int|
            0 <= i < self.fixed_cols@.len() ==> (#[trigger] self.fixed_cols@[i]).values@.len()
                == self.degree
        &&& forall|i: int|
            0 <= i < self.witness_cols@.len() ==> (#[trigger] self.witness_cols@[i]).id == i
        &&& distinct_names(self.witness_names())
        &&& distinct_names(self.fixed_names())
        &&& distinct_names(self.constant_names())
    }

    /// Puts the parts together, if they fit: see [`FixedData::wf`].
    pub fn new(
        degree: DegreeType,
        constants: Vec<(String, FieldElement)>,
        fixed_cols: Vec<FixedColumn>,
        witness_cols: Vec<WitnessColumn>,
    ) -> (r: Option<FixedData>)
        ensures
            r is Some <==> (FixedData { degree, constants, fixed_cols, witness_cols }).wf(),
            r matches Some(data) ==> data == (FixedData {
                degree,
                constants,
                fixed_cols,
                witness_cols,
            }),
    {
        let data = FixedData { degree, constants, fixed_cols, witness_cols };
        if data.is_wf() {
            Some(data)
        } else {
            None
        }
    }

    /// Whether the parts fit: see [`FixedData::wf`].
    pub fn is_wf(&self) -> (r: bool)
        ensures
            r == self.wf(),
    {
        if self.degree == 0 {
            return false;
        }
        let mut i: usize = 0;
        while i < self.fixed_cols.len()
            invariant
                i <= self.fixed_cols@.len(),
                forall|j: int|
                    0 <= j < i ==> (#[trigger] self.fixed_cols@[j]).values@.len() == self.degree,
            decreases self.fixed_cols@.len() - i,
        {
            if self.fixed_cols[i].values.len() as u64 != self.degree {
                assert(self.fixed_cols@[i as int].values@.len() != self.degree);
                return false;
            }
            i += 1;
        }
        let mut k: usize = 0;
        while k < self.witness_cols.len()
            invariant
                k <= self.witness_cols@.len(),
                forall|j: int| 0 <= j < k ==> (#[trigger] self.witness_cols@[j]).id == j,
            decreases self.witness_cols@.len() - k,
        {
            if self.witness_cols[k].id != k {
                assert(self.witness_cols@[k as int].id != k);
                return false;
            }
            k += 1;
        }
        are_distinct(&self.witness_name_list()) && are_distinct(&self.fixed_name_list())
            && are_distinct(&self.constant_name_list())
    }

    /// The names of the witness columns, in order.
    pub fn witness_name_list(&self) -> (r: Vec<String>)
        ensures
            views_of(r@) == self.witness_names(),
    {
        let mut names: Vec<String> = Vec::new();
        let mut i: usize = 0;
        while i < self.witness_cols.len()
            invariant
                i <= self.witness_cols@.len(),
                names@.len() == i,
                forall|j: int| 0 <= j < i ==> names@[j]@ == self.witness_cols@[j].name@,
            decreases self.witness_cols@.len() - i,
        {
            names.push(self.witness_cols[i].name.clone());
            i += 1;
        }
        assert(views_of(names@) =~= self.witness_names());
        names
    }

    /// The names of the fixed columns, in order.
    pub fn fixed_name_list(&self) -> (r: Vec<String>)
        ensures
            views_of(r@) == self.fixed_names(),
    {
        let mut names: Vec<String> = Vec::new();
        let mut i: usize = 0;
        while i < self.fixed_cols.len()
            invariant
                i <= self.fixed_cols@.len(),
                names@.len() == i,
                forall|j: int| 0 <= j < i ==> names@[j]@ == self.fixed_cols@[j].name@,
            decreases self.fixed_cols@.len() - i,
        {
            names.push(self.fixed_cols[i].name.clone());
            i += 1;
        }
        assert(views_of(names@) =~= self.fixed_names());
        names
    }

    /// The names of the constants, in order.
    pub fn constant_name_list(&self) -> (r: Vec<String>)
        ensures
            views_of(r@) == self.constant_names(),
    {
        let mut names: Vec<String> = Vec::new();
        let mut i: usize = 0;
        while i < self.constants.len()
            invariant
                i <= self.constants@.len(),
                names@.len() == i,
                forall|j: int| 0 <= j < i ==> names@[j]@ == self.constants@[j].0@,
            decreases self.constants@.len() - i,
        {
            names.push(self.constants[i].0.clone());
            i += 1;
        }
        assert(views_of(names@) =~= self.constant_names());
        names
    }

    /// The position of the witness column called `name`, if there is one.
    pub fn witness_id(&self, name: &str) -> (r: Option<usize>)
        ensures
            r matches Some(id) ==> id < self.witness_count(),
            (match r {
                Some(id) => Some(id as int),
                None => None,
            }) == index_of_name(self.witness_names(), name@),
    {
        let wanted = String::from_str(name);
        let mut i: usize = 0;
        while i < self.witness_cols.len()
            invariant
                i <= self.witness_cols@.len(),
                wanted@ == name@,
                forall|j: int| 0 <= j < i ==> self.witness_names()[j] != name@,
            decreases self.witness_cols@.len() - i,
        {
            if self.witness_cols[i].name == wanted {
                proof {
                    assert(self.witness_names()[i as int] == name@);
                    lemma_first_match_is_index(self.witness_names(), name@, i as int);
                }
                return Some(i);
            }
            i += 1;
        }
        proof {
            lemma_no_match_is_none(self.witness_names(), name@);
        }
        None
    }

    /// The position of the fixed column called `name`, if there is one.
    pub fn fixed_column_id(&self, name: &str) -> (r: Option<usize>)
        ensures
            r matches Some(id) ==> id < self.fixed_cols@.len(),
            (match r {
                Some(id) => Some(id as int),
                None => None,
            }) == index_of_name(self.fixed_names(), name@),
    {
        let wanted = String::from_str(name);
        let mut i: usize = 0;
        while i < self.fixed_cols.len()
            invariant
                i <= self.fixed_cols@.len(),
                wanted@ == name@,
                forall|j: int| 0 <= j < i ==> self.fixed_names()[j] != name@,
            decreases self.fixed_cols@.len() - i,
        {
            if self.fixed_cols[i].name == wanted {
                proof {
                    assert(self.fixed_names()[i as int] == name@);
                    lemma_first_match_is_index(self.fixed_names(), name@, i as int);
                }
                return Some(i);
            }
            i += 1;
        }
        proof {
            lemma_no_match_is_none(self.fixed_names(), name@);
        }
        None
    }

    /// The value of the constant called `name`, if there is one.
    pub fn constant(&self, name: &str) -> (r: Option<FieldElement>)
        ensures
            r == self.constant_value(name@),
    {
        let wanted = String::from_str(name);
        let mut i: usize = 0;
        while i < self.constants.len()
            invariant
                i <= self.constants@.len(),
                wanted@ == name@,
                forall|j: int| 0 <= j < i ==> self.constant_names()[j] != name@,
            decreases self.constants@.len() - i,
        {
            if self.constants[i].0 == wanted {
                proof {
                    assert(self.constant_names()[i as int] == name@);
                    lemma_first_match_is_index(self.constant_names(), name@, i as int);
                }
                return Some(self.constants[i].1);
            }
            i += 1;
        }
        proof {
            lemma_no_match_is_none(self.constant_names(), name@);
        }
        None
    }

    /// The value of the first constant called `name`, if there is one.
    pub open spec fn constant_value(&self, name: Seq<char>) -> Option<FieldElement> {
        match index_of_name(self.constant_names(), name) {
            Some(i) => Some(self.constants@[i].1),
            None => None,
        }
    }
}

} // verus!
