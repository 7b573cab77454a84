//! What the pseudo-Boolean variables of a proof mean in the constraint
//! program: the literal map.

use crate::text::{chars_of, find_char, find_from, slice_text};
use vstd::hash_map::StringHashMap;
use vstd::prelude::*;

verus! {

/// The kind of a variable of the constraint program.
#[derive(Debug, Clone, Copy)]
pub enum CPVarType {
    IntVar,
    BoolVar,
}

/// How a condition compares a variable with a value.
#[derive(Debug, Clone, Copy, PartialEq, Eq, Structural)]
pub enum CPOperator {
    Less,
    GreaterEqual,
    Equal,
    NotEqual,
}

impl CPOperator {
    /// The operator of the negated condition.
    pub open spec fn spec_negated(&self) -> CPOperator {
        match *self {
            CPOperator::Less => CPOperator::GreaterEqual,
            CPOperator::GreaterEqual => CPOperator::Less,
            CPOperator::Equal => CPOperator::NotEqual,
            CPOperator::NotEqual => CPOperator::Equal,
        }
    }

    /// The operator of the negated condition.
    #[verifier::when_used_as_spec(spec_negated)]
    pub fn negated(&self) -> (r: Self)
        ensures
            r == self.spec_negated(),
    {
        match self {
            CPOperator::Less => CPOperator::GreaterEqual,
            CPOperator::GreaterEqual => CPOperator::Less,
            CPOperator::Equal => CPOperator::NotEqual,
            CPOperator::NotEqual => CPOperator::Equal,
        }
    }

    /// The operator as it is written: `<`, `>=`, `==` or `!=`.
    pub open spec fn symbol(self) -> Seq<char> {
        match self {
            CPOperator::Less => "<"@,
            CPOperator::GreaterEqual => ">="@,
            CPOperator::Equal => "=="@,
            CPOperator::NotEqual => "!="@,
        }
    }

    /// The operator as it is written.
    pub fn as_str(&self) -> (r: &'static str)
        ensures
            r@ == self.symbol(),
    {
        match self {
            CPOperator::Less => "<",
            CPOperator::GreaterEqual => ">=",
            CPOperator::Equal => "==",
            CPOperator::NotEqual => "!=",
        }
    }
}

/// Negating an operator twice gives the operator back.
pub proof fn lemma_negated_twice(op: CPOperator)
    ensures
        op.negated().negated() == op,
{
}

/// What one pseudo-Boolean variable stands for.
#[derive(Debug)]
pub enum CPLitData {
    /// The variable `name` compared with `value`: true where
    /// `name operator value` holds.
    Condition { cpvartype: CPVarType, name: String, operator: CPOperator, value: String },
    /// A variable of two values, named `V=k`: true where the variable `V`
    /// has the value `k`, one of the two ends of its domain.
    Boolvar { cpvartype: CPVarType, name: String },
}

/// The part of `name` before its first `=`; all of it where it has none.
pub open spec fn before_equals(name: Seq<char>) -> Seq<char> {
    name.take(find_char(name, '='))
}

impl CPLitData {
    /// The variable of the constraint program that the entry speaks of: the
    /// name of a condition, and of a `Boolvar` the part of its name before
    /// the `=`.
    pub open spec fn cp_var(self) -> Seq<char> {
        match self {
            CPLitData::Condition { name, .. } => name@,
            CPLitData::Boolvar { name, .. } => before_equals(name@),
        }
    }

    /// The variable of the constraint program that the entry speaks of.
    pub fn get_name(&self) -> (r: Vec<char>)
        ensures
            r@ == self.cp_var(),
    {
        match self {
            CPLitData::Condition { name, .. } => chars_of(name.as_str()),
            CPLitData::Boolvar { name, .. } => {
                let text = chars_of(name.as_str());
                proof {
                    assert(text@.skip(0) == text@);
                }
                let k = find_from(&text, 0, '=');
                slice_text(&text, 0, k)
            },
        }
    }

    /// A copy of the entry.
    pub fn duplicate(&self) -> (r: Self)
        ensures
            r == *self,
    {
        match self {
            CPLitData::Condition { cpvartype, name, operator, value } => CPLitData::Condition {
                cpvartype: *cpvartype,
                name: name.clone(),
                operator: *operator,
                value: value.clone(),
            },
            CPLitData::Boolvar { cpvartype, name } => CPLitData::Boolvar {
                cpvartype: *cpvartype,
                name: name.clone(),
            },
        }
    }
}

/// The literal map: for each pseudo-Boolean variable of the proof, by its
/// name, what it stands for.
pub struct CPLitMap {
    raw_map: StringHashMap<CPLitData>,
}

impl View for CPLitMap {
    type V = Map<Seq<char>, CPLitData>;

    closed spec fn view(&self) -> Map<Seq<char>, CPLitData> {
        self.raw_map@
    }
}

impl CPLitMap {
    /// A map without entries.
    pub fn new() -> (r: Self)
        ensures
            r@ == Map::<Seq<char>, CPLitData>::empty(),
    {
        CPLitMap { raw_map: StringHashMap::new() }
    }

    /// Enters what `pb_var` stands for, in place of what was entered for it
    /// before.
    pub fn insert(&mut self, pb_var: String, data: CPLitData)
        ensures
            final(self)@ == old(self)@.insert(pb_var@, data),
    {
        self.raw_map.insert(pb_var, data);
    }

    /// What `pb_var` stands for, where the map says so.
    pub fn get(&self, pb_var: &String) -> (r: Option<CPLitData>)
        ensures
            r == if self@.contains_key(pb_var@) {
                Some(self@[pb_var@])
            } else {
                None
            },
    {
        match self.raw_map.get(pb_var.as_str()) {
            Some(data) => Some(data.duplicate()),
            None => None,
        }
    }
}

} // verus!
