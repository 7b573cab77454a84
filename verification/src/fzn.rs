//! The FlatZinc model of the constraint program, as far as the justifier
//! reads it: the domains of its variables, its named arrays and its
//! constraints.

use rangelist::IntervalIterator;
use rangelist::RangeList;
use vstd::hash_map::StringHashMap;
use vstd::prelude::*;

verus! {

/// `rangelist::RangeList`: a sorted collection of inclusive ranges. Nothing
/// is assumed of what a value of it holds but what `ranges_of` names.
#[verifier::external_type_specification]
#[verifier::external_body]
#[verifier::reject_recursive_types(E)]
pub struct ExRangeList<E: PartialOrd>(RangeList<E>);

/// The ranges that a range list of integers holds, each as its first and
/// its last value, in the order in which the list keeps them.
pub uninterp spec fn ranges_of(list: RangeList<i64>) -> Seq<(i64, i64)>;

/// `IntervalIterator::intervals` of `rangelist`, on a `RangeList<i64>`: the
/// iterator hands out the ranges that the list holds, one `RangeInclusive`
/// for each, in the order in which the list keeps them. Each is given here
/// as its start and its end.
#[verifier::external_body]
fn intervals_of(list: &RangeList<i64>) -> (v: Vec<(i64, i64)>)
    ensures
        v@ == ranges_of(*list),
{
    list.intervals().map(|range| (*range.start(), *range.end())).collect()
}

/// The first value of the first range and the last value of the last range,
/// where there is a range.
pub open spec fn spec_min_max(ranges: Seq<(i64, i64)>) -> Option<(i64, i64)> {
    if ranges.len() == 0 {
        None
    } else {
        Some((ranges[0].0, ranges.last().1))
    }
}

/// The least and the greatest bound of a range list: the first value of its
/// first range and the last value of its last range.
pub fn min_max(list: &RangeList<i64>) -> (r: Option<(i64, i64)>)
    ensures
        r == spec_min_max(ranges_of(*list)),
{
    let ranges = intervals_of(list);
    if ranges.len() == 0 {
        None
    } else {
        Some((ranges[0].0, ranges[ranges.len() - 1].1))
    }
}

/// The values that a variable may take.
pub enum FznDomain {
    /// Ranges of integers.
    Int(RangeList<i64>),
    /// Ranges of floating-point numbers, which the justifier does not read.
    Float,
}

/// A variable of the model.
pub struct FznVariable {
    /// The domain, where the model gives one.
    pub domain: Option<FznDomain>,
}

/// A literal of the model.
pub enum FznLiteral {
    /// An integer.
    Int(i64),
    /// The name of a variable or of an array.
    Identifier(String),
    /// A literal of another kind, as the text that describes it.
    Other(String),
}

/// An argument of a constraint.
pub enum FznArgument {
    /// An array written in place.
    Array(Vec<FznLiteral>),
    /// One literal.
    Literal(FznLiteral),
}

/// A named array of the model.
pub struct FznArray {
    pub contents: Vec<FznLiteral>,
}

/// A constraint of the model: its family and its arguments.
pub struct FznConstraint {
    pub id: String,
    pub args: Vec<FznArgument>,
}

/// The model: variables and arrays by name, and the constraints in the
/// order of the model.
pub struct FznModel {
    variables: StringHashMap<FznVariable>,
    arrays: StringHashMap<FznArray>,
    constraints: Vec<FznConstraint>,
}

impl FznModel {
    /// The variables of the model, by name.
    pub closed spec fn variables(&self) -> Map<Seq<char>, FznVariable> {
        self.variables@
    }

    /// The named arrays of the model, by name.
    pub closed spec fn arrays(&self) -> Map<Seq<char>, FznArray> {
        self.arrays@
    }

    /// The constraints of the model, in its order.
    pub closed spec fn constraints(&self) -> Seq<FznConstraint> {
        self.constraints@
    }

    /// A model without variables, arrays or constraints.
    pub fn new() -> (r: Self)
        ensures
            r.variables() == Map::<Seq<char>, FznVariable>::empty(),
            r.arrays() == Map::<Seq<char>, FznArray>::empty(),
            r.constraints() == Seq::<FznConstraint>::empty(),
    {
        FznModel {
            variables: StringHashMap::new(),
            arrays: StringHashMap::new(),
            constraints: Vec::new(),
        }
    }

    /// Enters the variable `name`, in place of one of that name.
    pub fn add_variable(&mut self, name: String, variable: FznVariable)
        ensures
            final(self).variables() == old(self).variables().insert(name@, variable),
            final(self).arrays() == old(self).arrays(),
            final(self).constraints() == old(self).constraints(),
    {
        self.variables.insert(name, variable);
    }

    /// Enters the array `name`, in place of one of that name.
    pub fn add_array(&mut self, name: String, array: FznArray)
        ensures
            final(self).variables() == old(self).variables(),
            final(self).arrays() == old(self).arrays().insert(name@, array),
            final(self).constraints() == old(self).constraints(),
    {
        self.arrays.insert(name, array);
    }

    /// Adds a constraint after those that the model holds.
    pub fn add_constraint(&mut self, constraint: FznConstraint)
        ensures
            final(self).variables() == old(self).variables(),
            final(self).arrays() == old(self).arrays(),
            final(self).constraints() == old(self).constraints().push(constraint),
    {
        self.constraints.push(constraint);
    }

    /// The variable `name`, where the model has one.
    pub fn variable(&self, name: &str) -> (r: Option<&FznVariable>)
        ensures
            match r {
                Some(v) => self.variables().contains_key(name@) && *v == self.variables()[name@],
                None => !self.variables().contains_key(name@),
            },
    {
        self.variables.get(name)
    }

    /// The array `name`, where the model has one.
    pub fn array(&self, name: &str) -> (r: Option<&FznArray>)
        ensures
            match r {
                Some(a) => self.arrays().contains_key(name@) && *a == self.arrays()[name@],
                None => !self.arrays().contains_key(name@),
            },
    {
        self.arrays.get(name)
    }

    /// The constraint at `index`, counted from 0, where the model has one.
    pub fn constraint(&self, index: u64) -> (r: Option<&FznConstraint>)
        ensures
            match r {
                Some(c) => index < self.constraints().len() && *c == self.constraints()[index as int],
                None => index >= self.constraints().len(),
            },
    {
        if index < self.constraints.len() as u64 {
            Some(&self.constraints[index as usize])
        } else {
            None
        }
    }
}

} // verus!
