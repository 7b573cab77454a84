//! What the justifier has written and defined so far, and the definitions
//! that every constraint family builds on: the bit encoding of a variable,
//! the bounds of a variable, and the definition of a literal.

use crate::bits::{cp_var_bits, var_bits, weight_failure, weights_fit};
use crate::cp_lit_map::{before_equals, CPLitData, CPLitMap, CPOperator};
use crate::decimal::{decimal, parse_i64, parse_int, push_decimal};
use crate::fzn::{min_max, ranges_of, spec_min_max, FznDomain, FznModel};
use crate::pb::{lits_of, Lit, PBLiteral};
use crate::stats::tally;
use crate::text::{
    chars_of,
    lines_of,
    push_str,
    push_text,
    split,
    split_text,
    string_of,
    texts,
    lemma_split_nonempty,
};
use crate::{Failure, PBarberError, ProofFileStats};
use vstd::hash_set::StringHashSet;
use vstd::prelude::*;

verus! {

/// What the justifier reads and never changes.
pub struct Env {
    /// The FlatZinc model.
    pub fzn: FznModel,
    /// The literal map.
    pub lits: Map<Seq<char>, CPLitData>,
    /// Whether the lines written are counted.
    pub stats: bool,
}

/// What the justifier has written and what it remembers of it.
pub struct Ledger {
    /// The lines written, first line first.
    pub out: Seq<Seq<char>>,
    /// The definition IDs of the literals whose definition was written.
    pub defined: Set<Seq<char>>,
    /// The variables whose two bounds were written.
    pub bounded: Set<Seq<char>>,
    /// The FlatZinc constraints, by ID, whose encoding was written.
    pub encoded: Set<Seq<char>>,
}

impl Ledger {
    /// The ledger after one more line.
    pub open spec fn write(self, line: Seq<char>) -> Ledger {
        Ledger { out: self.out.push(line), ..self }
    }
}

/// A justification error whose message is made of three parts.
pub open spec fn unjustified(head: Seq<char>, subject: Seq<char>, tail: Seq<char>) -> Failure {
    Failure::JustificationError(head + subject + tail)
}

/// The ID under which the definition of `lit` is written: `@lf` and the
/// name of its variable, or `@lr` where it is negated.
pub open spec fn definition_id(lit: Lit) -> Seq<char> {
    if lit.negated {
        "@lr"@ + lit.name
    } else {
        "@lf"@ + lit.name
    }
}

/// The ID of the lower bound of `var`.
pub open spec fn lower_bound_id(var: Seq<char>) -> Seq<char> {
    "@lb"@ + var
}

/// The ID of the upper bound of `var`.
pub open spec fn upper_bound_id(var: Seq<char>) -> Seq<char> {
    "@ub"@ + var
}

/// The least and the greatest value of the domain of `var`.
pub open spec fn domain_of(fzn: FznModel, var: Seq<char>) -> Result<(i64, i64), Failure> {
    if !fzn.variables().contains_key(var) {
        Err(unjustified("Expected variable, but got "@, var, ""@))
    } else {
        match fzn.variables()[var].domain {
            None => Err(
                unjustified("No domain found for "@, var, " in the fzn file (unsupported)."@),
            ),
            Some(FznDomain::Float) => Err(
                unjustified(
                    "Expected Int domain for "@,
                    var,
                    " but found Float (unsupported)."@,
                ),
            ),
            Some(FznDomain::Int(list)) => match spec_min_max(ranges_of(list)) {
                None => Err(
                    unjustified("Couldn't get the min and max domain values for "@, var, ""@),
                ),
                Some(bounds) => Ok(bounds),
            },
        }
    }
}

/// The bit encoding of `var`, scaled by `m`.
pub open spec fn bits_of(fzn: FznModel, var: Seq<char>, m: int) -> Result<Seq<char>, Failure> {
    match domain_of(fzn, var) {
        Err(e) => Err(e),
        Ok((min, max)) => if weights_fit(min as int, max as int, m) {
            Ok(var_bits(var, min as int, max as int, m))
        } else {
            Err(Failure::JustificationError(weight_failure(var)))
        },
    }
}

/// The line that gives `var` its lower bound.
pub open spec fn lower_bound_line(var: Seq<char>, bits: Seq<char>, min: int) -> Seq<char> {
    lower_bound_id(var) + " a "@ + bits + " >="@ + decimal(min) + " :: bits_lower_bound ;"@
}

/// The line that gives `var` its upper bound.
pub open spec fn upper_bound_line(var: Seq<char>, bits: Seq<char>, max: int) -> Seq<char> {
    upper_bound_id(var) + " a "@ + bits + " <="@ + decimal(max) + " :: bits_upper_bound ;"@
}

/// Makes sure that the bounds of `var` are written: the ledger after it,
/// and the IDs of the lower and of the upper bound.
///
/// The first success for a variable writes its two bound lines; after it,
/// nothing is written for that variable. A failure writes nothing.
pub open spec fn ensure_bounds(env: Env, ledger: Ledger, var: Seq<char>) -> (
    Ledger,
    Result<(Seq<char>, Seq<char>), Failure>,
) {
    let ids = (lower_bound_id(var), upper_bound_id(var));
    if ledger.bounded.contains(var) {
        (ledger, Ok(ids))
    } else {
        match (domain_of(env.fzn, var), bits_of(env.fzn, var, 1)) {
            (Ok((min, max)), Ok(bits)) => (
                Ledger {
                    out: ledger.out.push(lower_bound_line(var, bits, min as int)).push(
                        upper_bound_line(var, bits, max as int),
                    ),
                    bounded: ledger.bounded.insert(var),
                    ..ledger
                },
                Ok(ids),
            ),
            (Err(e), _) => (ledger, Err(e)),
            (_, Err(e)) => (ledger, Err(e)),
        }
    }
}

/// The line that defines a literal: under `id`, the literal `lit` implies
/// that the bits `bits` compare as `operator` says with `value`.
pub open spec fn definition_line(
    id: Seq<char>,
    lit: Lit,
    bits: Seq<char>,
    operator: Seq<char>,
    value: int,
) -> Seq<char> {
    id + " red "@ + (if lit.negated {
        "~"@
    } else {
        " "@
    }) + lit.name + " ==> "@ + bits + " "@ + operator + " "@ + decimal(value) + " : "@ + lit.name
        + " -> "@ + (if lit.negated {
        "1"@
    } else {
        "0"@
    }) + " ;"@
}

/// What is reported for a literal without an entry in the literal map.
pub open spec fn unknown_literal(name: Seq<char>) -> Failure {
    Failure::LiteralLookupError("Couldn't find CP definition for literal "@ + name)
}

/// What is reported for a condition on equality.
pub open spec fn equality_literal() -> Failure {
    Failure::JustificationError("Can't handle equality literals yet."@)
}

/// What is reported for a value that is no integer.
pub open spec fn bad_value(value: Seq<char>, var: Seq<char>) -> Failure {
    Failure::JustificationError(
        "Couldn't parse the value "@ + value + " of the condition on "@ + var,
    )
}

/// What is reported for a `Boolvar` whose name gives no value.
pub open spec fn bad_boolvar(name: Seq<char>) -> Failure {
    unjustified("Found Boolvar "@, name, " with '=' in name, but couldn't parse value"@)
}

/// What is reported for a `Boolvar` whose value is no end of its domain.
pub open spec fn wide_boolvar(name: Seq<char>) -> Failure {
    unjustified("Found Boolvar "@, name, " with more than two values in its domain."@)
}

/// The integer that `s` writes, where 64 bits hold it.
pub open spec fn parse_value(s: Seq<char>) -> Option<int> {
    match parse_int(s) {
        Some(v) => if i64::MIN <= v <= i64::MAX {
            Some(v)
        } else {
            None
        },
        None => None,
    }
}

/// The operator and the value of the definition of a condition literal:
/// `>= value` for a condition `>= value`, and `<= value - 1` for a
/// condition `< value`.
pub open spec fn condition_bound(operator: CPOperator, value: Seq<char>, var: Seq<char>) -> Result<
    (Seq<char>, int),
    Failure,
> {
    match operator {
        CPOperator::GreaterEqual => match parse_value(value) {
            Some(v) => Ok((">="@, v)),
            None => Err(bad_value(value, var)),
        },
        CPOperator::Less => match parse_value(value) {
            Some(v) => Ok(("<="@, v - 1)),
            None => Err(bad_value(value, var)),
        },
        _ => Err(equality_literal()),
    }
}

/// The value that the name `V=k` of a `Boolvar` gives: the integer between
/// its first `=` and its second.
pub open spec fn boolvar_value(name: Seq<char>) -> Result<int, Failure> {
    let parts = split(name, '=');
    if parts.len() < 2 {
        Err(bad_boolvar(name))
    } else {
        match parse_value(parts[1]) {
            Some(v) => Ok(v),
            None => Err(bad_boolvar(name)),
        }
    }
}

/// The operator and the value of the definition of a `Boolvar` literal
/// `V=k`, for a domain `[min, max]`: the literal says `<= k` where `k` is
/// `min`, and `>= k` where it is `max`; its negation says `>= k + 1` and
/// `<= k - 1`.
pub open spec fn boolvar_bound(name: Seq<char>, negated: bool, value: int, min: int, max: int)
    -> Result<(Seq<char>, int), Failure> {
    if value == min {
        if negated {
            Ok((">="@, value + 1))
        } else {
            Ok(("<="@, value))
        }
    } else if value == max {
        if negated {
            Ok(("<="@, value - 1))
        } else {
            Ok((">="@, value))
        }
    } else {
        Err(wide_boolvar(name))
    }
}

/// Makes sure that a condition literal is defined.
pub open spec fn ensure_condition(
    env: Env,
    ledger: Ledger,
    lit: Lit,
    var: Seq<char>,
    operator: CPOperator,
    value: Seq<char>,
) -> (Ledger, Result<Seq<char>, Failure>) {
    let id = definition_id(lit);
    let effective = if lit.negated {
        operator.negated()
    } else {
        operator
    };
    match condition_bound(effective, value, var) {
        Err(e) => (ledger, Err(e)),
        Ok((symbol, bound)) => match bits_of(env.fzn, var, 1) {
            Err(e) => (ledger, Err(e)),
            Ok(bits) => (
                Ledger {
                    out: ledger.out.push(definition_line(id, lit, bits, symbol, bound)),
                    defined: ledger.defined.insert(id),
                    ..ledger
                },
                Ok(id),
            ),
        },
    }
}

/// Makes sure that a `Boolvar` literal is defined, the bounds of its
/// variable first.
pub open spec fn ensure_boolvar(env: Env, ledger: Ledger, lit: Lit, name: Seq<char>) -> (
    Ledger,
    Result<Seq<char>, Failure>,
) {
    let id = definition_id(lit);
    let var = before_equals(name);
    match boolvar_value(name) {
        Err(e) => (ledger, Err(e)),
        Ok(value) => {
            let (bounded, ids) = ensure_bounds(env, ledger, var);
            match ids {
                Err(e) => (bounded, Err(e)),
                Ok(_) => match (bits_of(env.fzn, var, 1), domain_of(env.fzn, var)) {
                    (Ok(bits), Ok((min, max))) => match boolvar_bound(
                        name,
                        lit.negated,
                        value,
                        min as int,
                        max as int,
                    ) {
                        Err(e) => (bounded, Err(e)),
                        Ok((symbol, bound)) => (
                            Ledger {
                                out: bounded.out.push(
                                    definition_line(id, lit, bits, symbol, bound),
                                ),
                                defined: bounded.defined.insert(id),
                                ..bounded
                            },
                            Ok(id),
                        ),
                    },
                    (Err(e), _) => (bounded, Err(e)),
                    (_, Err(e)) => (bounded, Err(e)),
                },
            }
        },
    }
}

/// Makes sure that the definition of `lit` is written: the ledger after it,
/// and the definition ID of the literal.
///
/// A literal that is defined already writes nothing. Otherwise the literal
/// map says what the literal stands for, and its definition is written
/// under the definition ID: for a condition at once, for a `Boolvar` after
/// the bounds of its variable.
pub open spec fn ensure_lit(env: Env, ledger: Ledger, lit: Lit) -> (
    Ledger,
    Result<Seq<char>, Failure>,
) {
    let id = definition_id(lit);
    if ledger.defined.contains(id) {
        (ledger, Ok(id))
    } else if !env.lits.contains_key(lit.name) {
        (ledger, Err(unknown_literal(lit.name)))
    } else {
        match env.lits[lit.name] {
            CPLitData::Condition { name, operator, value, .. } => ensure_condition(
                env,
                ledger,
                lit,
                name@,
                operator,
                value@,
            ),
            CPLitData::Boolvar { name, .. } => ensure_boolvar(env, ledger, lit, name@),
        }
    }
}

/// The definitions of the literals `lits` from index `from` on, each
/// literal first and its negation second, where `pos` and `neg` hold the
/// IDs of the literals before `from`.
pub open spec fn ensure_rest(
    env: Env,
    ledger: Ledger,
    lits: Seq<Lit>,
    strict: bool,
    from: int,
    pos: Seq<Seq<char>>,
    neg: Seq<Seq<char>>,
) -> (Ledger, Result<(Seq<Seq<char>>, Seq<Seq<char>>), Failure>)
    decreases lits.len() - from,
{
    if from < 0 || from >= lits.len() {
        (ledger, Ok((pos, neg)))
    } else {
        let (first, p) = ensure_lit(env, ledger, lits[from]);
        match ensured(p, strict) {
            Err(e) => (first, Err(e)),
            Ok(p_id) => {
                let (second, n) = ensure_lit(env, first, lits[from].negation());
                match ensured(n, strict) {
                    Err(e) => (second, Err(e)),
                    Ok(n_id) => ensure_rest(
                        env,
                        second,
                        lits,
                        strict,
                        from + 1,
                        with_id(pos, p_id),
                        with_id(neg, n_id),
                    ),
                }
            },
        }
    }
}

/// What becomes of the result of one definition: its ID; nothing, where the
/// literal is not in the literal map and this is let pass; or the failure.
pub open spec fn ensured(r: Result<Seq<char>, Failure>, strict: bool) -> Result<
    Option<Seq<char>>,
    Failure,
> {
    match r {
        Ok(id) => Ok(Some(id)),
        Err(Failure::LiteralLookupError(m)) => if strict {
            Err(Failure::LiteralLookupError(m))
        } else {
            Ok(None)
        },
        Err(e) => Err(e),
    }
}

/// The IDs with one more, where there is one.
pub open spec fn with_id(ids: Seq<Seq<char>>, id: Option<Seq<char>>) -> Seq<Seq<char>> {
    match id {
        Some(i) => ids.push(i),
        None => ids,
    }
}

/// Makes sure that every literal of `lits` and its negation are defined:
/// the ledger after it, and the IDs of the literals and those of their
/// negations.
///
/// A literal that the literal map does not know ends the run where
/// `strict` holds, and is passed over, with no ID for it, where it does
/// not. Any other failure ends the run.
pub open spec fn ensure_all(env: Env, ledger: Ledger, lits: Seq<Lit>, strict: bool) -> (
    Ledger,
    Result<(Seq<Seq<char>>, Seq<Seq<char>>), Failure>,
) {
    ensure_rest(env, ledger, lits, strict, 0, Seq::empty(), Seq::empty())
}

/// The justifier's means to write lines and to define what derivations
/// build on. It is handed to each constraint family.
pub struct JustifierActions {
    out: Vec<String>,
    stats: bool,
    output_stats: ProofFileStats,
    defined_lits: StringHashSet,
    defined_bounds: StringHashSet,
    encoded: StringHashSet,
    fzn: FznModel,
    cp_lit_map: CPLitMap,
}

/// The error for a justification that failed, in three parts.
pub fn unjustified_error(head: &str, subject: &Vec<char>, tail: &str) -> (e: PBarberError)
    ensures
        e@ == unjustified(head@, subject@, tail@),
{
    let mut m: Vec<char> = Vec::new();
    push_str(&mut m, head);
    push_text(&mut m, subject);
    push_str(&mut m, tail);
    PBarberError::JustificationError(string_of(&m))
}

impl JustifierActions {
    /// What is read and never changed.
    pub closed spec fn env(&self) -> Env {
        Env { fzn: self.fzn, lits: self.cp_lit_map@, stats: self.stats }
    }

    /// What has been written and what is remembered of it.
    pub closed spec fn ledger(&self) -> Ledger {
        Ledger {
            out: lines_of(self.out@),
            defined: self.defined_lits@,
            bounded: self.defined_bounds@,
            encoded: self.encoded@,
        }
    }

    /// The counts of the lines written.
    pub closed spec fn output_tally(&self) -> crate::stats::Tally {
        self.output_stats@
    }

    /// Where the lines written are counted, the counts are those of the
    /// lines written.
    pub open spec fn wf(&self) -> bool {
        self.env().stats ==> self.output_tally() == tally(self.ledger().out)
    }

    /// Actions that have written nothing, on the given model and literal
    /// map.
    pub fn new(fzn: FznModel, cp_lit_map: CPLitMap, stats: bool) -> (r: Self)
        ensures
            r.wf(),
            r.env() == (Env { fzn, lits: cp_lit_map@, stats }),
            r.ledger() == (Ledger {
                out: Seq::empty(),
                defined: Set::empty(),
                bounded: Set::empty(),
                encoded: Set::empty(),
            }),
    {
        let r = JustifierActions {
            out: Vec::new(),
            stats,
            output_stats: ProofFileStats::default(),
            defined_lits: StringHashSet::new(),
            defined_bounds: StringHashSet::new(),
            encoded: StringHashSet::new(),
            fzn,
            cp_lit_map,
        };
        proof {
            assert(lines_of(r.out@) =~= Seq::<Seq<char>>::empty());
        }
        r
    }

    /// Writes one line.
    pub fn write(&mut self, content: &Vec<char>)
        requires
            old(self).wf(),
        ensures
            final(self).wf(),
            final(self).env() == old(self).env(),
            final(self).ledger() == old(self).ledger().write(content@),
    {
        let line = string_of(content);
        if self.stats {
            self.output_stats.record_line(line.as_str());
        }
        let ghost before = self.out@;
        self.out.push(line);
        proof {
            assert(lines_of(self.out@) =~= lines_of(before).push(content@));
            assert(lines_of(self.out@).drop_last() == lines_of(before));
        }
    }

    /// The lines written, first line first.
    pub fn output(&self) -> (r: &Vec<String>)
        ensures
            lines_of(r@) == self.ledger().out,
    {
        &self.out
    }

    /// The lines written, first line first.
    pub fn into_output(self) -> (r: Vec<String>)
        ensures
            lines_of(r@) == self.ledger().out,
    {
        self.out
    }

    /// The FlatZinc model.
    pub fn fzn(&self) -> (r: &FznModel)
        ensures
            *r == self.env().fzn,
    {
        &self.fzn
    }

    /// Whether the encoding of the FlatZinc constraint `fzn_id` was
    /// written.
    pub fn is_encoded(&self, fzn_id: &str) -> (r: bool)
        ensures
            r == self.ledger().encoded.contains(fzn_id@),
    {
        self.encoded.contains(fzn_id)
    }

    /// Remembers that the encoding of the FlatZinc constraint `fzn_id` was
    /// written.
    pub fn mark_encoded(&mut self, fzn_id: String)
        requires
            old(self).wf(),
        ensures
            final(self).wf(),
            final(self).env() == old(self).env(),
            final(self).ledger() == (Ledger {
                encoded: old(self).ledger().encoded.insert(fzn_id@),
                ..old(self).ledger()
            }),
    {
        self.encoded.insert(fzn_id);
    }

    /// The counts of the lines written.
    pub fn output_stats(&self) -> (r: &ProofFileStats)
        ensures
            r@ == self.output_tally(),
    {
        &self.output_stats
    }

    /// The ID under which the definition of `lit` is written.
    pub fn definition_id(&self, lit: &PBLiteral) -> (r: Vec<char>)
        ensures
            r@ == definition_id(lit@),
    {
        let mut id: Vec<char> = Vec::new();
        if lit.is_negated() {
            push_str(&mut id, "@lr");
        } else {
            push_str(&mut id, "@lf");
        }
        push_str(&mut id, lit.var_name());
        id
    }

    /// The least and the greatest value of the domain of `var`.
    pub fn get_min_max_for_var(&self, var: &Vec<char>) -> (r: Result<(i64, i64), PBarberError>)
        ensures
            match r {
                Ok(bounds) => domain_of(self.env().fzn, var@) == Ok::<(i64, i64), Failure>(bounds),
                Err(e) => domain_of(self.env().fzn, var@) == Err::<(i64, i64), Failure>(e@),
            },
    {
        let name = string_of(var);
        match self.fzn.variable(name.as_str()) {
            None => Err(unjustified_error("Expected variable, but got ", var, "")),
            Some(variable) => match &variable.domain {
                None => Err(
                    unjustified_error(
                        "No domain found for ",
                        var,
                        " in the fzn file (unsupported).",
                    ),
                ),
                Some(FznDomain::Float) => Err(
                    unjustified_error(
                        "Expected Int domain for ",
                        var,
                        " but found Float (unsupported).",
                    ),
                ),
                Some(FznDomain::Int(list)) => match min_max(list) {
                    None => Err(
                        unjustified_error(
                            "Couldn't get the min and max domain values for ",
                            var,
                            "",
                        ),
                    ),
                    Some(bounds) => Ok(bounds),
                },
            },
        }
    }

    /// The bit encoding of `var`, scaled by `multiplier`.
    pub fn cp_var_bits_str(&self, var: &Vec<char>, multiplier: i64) -> (r: Result<
        Vec<char>,
        PBarberError,
    >)
        ensures
            match r {
                Ok(bits) => bits_of(self.env().fzn, var@, multiplier as int) == Ok::<
                    Seq<char>,
                    Failure,
                >(bits@),
                Err(e) => bits_of(self.env().fzn, var@, multiplier as int) == Err::<
                    Seq<char>,
                    Failure,
                >(e@),
            },
    {
        match self.get_min_max_for_var(var) {
            Err(e) => Err(e),
            Ok((min, max)) => cp_var_bits(var, min, max, multiplier),
        }
    }

    /// What the literal map says of the variable of `lit`.
    pub fn get_cp_lit_data(&self, lit: &PBLiteral) -> (r: Result<CPLitData, PBarberError>)
        ensures
            match r {
                Ok(data) => self.env().lits.contains_key(lit@.name) && data
                    == self.env().lits[lit@.name],
                Err(e) => !self.env().lits.contains_key(lit@.name) && e@ == unknown_literal(
                    lit@.name,
                ),
            },
    {
        match self.cp_lit_map.get(&lit.name) {
            Some(data) => Ok(data),
            None => {
                let mut m: Vec<char> = Vec::new();
                push_str(&mut m, "Couldn't find CP definition for literal ");
                push_str(&mut m, lit.var_name());
                Err(PBarberError::LiteralLookupError(string_of(&m)))
            },
        }
    }

    /// Makes sure that the bounds of `var` are written, and gives the IDs
    /// of its lower and of its upper bound.
    pub fn ensure_bounds_defined(&mut self, var: &Vec<char>) -> (r: Result<
        (Vec<char>, Vec<char>),
        PBarberError,
    >)
        requires
            old(self).wf(),
        ensures
            final(self).wf(),
            final(self).env() == old(self).env(),
            final(self).ledger() == ensure_bounds(old(self).env(), old(self).ledger(), var@).0,
            match r {
                Ok((lb, ub)) => ensure_bounds(old(self).env(), old(self).ledger(), var@).1 == Ok::<
                    (Seq<char>, Seq<char>),
                    Failure,
                >((lb@, ub@)),
                Err(e) => ensure_bounds(old(self).env(), old(self).ledger(), var@).1 == Err::<
                    (Seq<char>, Seq<char>),
                    Failure,
                >(e@),
            },
    {
        let mut lb_id: Vec<char> = Vec::new();
        push_str(&mut lb_id, "@lb");
        push_text(&mut lb_id, var);
        let mut ub_id: Vec<char> = Vec::new();
        push_str(&mut ub_id, "@ub");
        push_text(&mut ub_id, var);
        let name = string_of(var);
        if self.defined_bounds.contains(name.as_str()) {
            return Ok((lb_id, ub_id));
        }
        let (min, max) = match self.get_min_max_for_var(var) {
            Ok(bounds) => bounds,
            Err(e) => {
                return Err(e);
            },
        };
        let bits = match self.cp_var_bits_str(var, 1) {
            Ok(bits) => bits,
            Err(e) => {
                return Err(e);
            },
        };
        let mut line: Vec<char> = Vec::new();
        push_text(&mut line, &lb_id);
        push_str(&mut line, " a ");
        push_text(&mut line, &bits);
        push_str(&mut line, " >=");
        push_decimal(&mut line, min as i128);
        push_str(&mut line, " :: bits_lower_bound ;");
        self.write(&line);
        let mut line: Vec<char> = Vec::new();
        push_text(&mut line, &ub_id);
        push_str(&mut line, " a ");
        push_text(&mut line, &bits);
        push_str(&mut line, " <=");
        push_decimal(&mut line, max as i128);
        push_str(&mut line, " :: bits_upper_bound ;");
        self.write(&line);
        self.defined_bounds.insert(name);
        Ok((lb_id, ub_id))
    }

    /// Writes the definition of `lit` under `id` and remembers it.
    fn define(
        &mut self,
        id: &Vec<char>,
        lit: &PBLiteral,
        bits: &Vec<char>,
        operator: &str,
        value: i128,
    )
        requires
            old(self).wf(),
        ensures
            final(self).wf(),
            final(self).env() == old(self).env(),
            final(self).ledger() == (Ledger {
                out: old(self).ledger().out.push(
                    definition_line(id@, lit@, bits@, operator@, value as int),
                ),
                defined: old(self).ledger().defined.insert(id@),
                ..old(self).ledger()
            }),
    {
        let mut line: Vec<char> = Vec::new();
        push_text(&mut line, id);
        push_str(&mut line, " red ");
        if lit.is_negated() {
            push_str(&mut line, "~");
        } else {
            push_str(&mut line, " ");
        }
        push_str(&mut line, lit.var_name());
        push_str(&mut line, " ==> ");
        push_text(&mut line, bits);
        push_str(&mut line, " ");
        push_str(&mut line, operator);
        push_str(&mut line, " ");
        push_decimal(&mut line, value);
        push_str(&mut line, " : ");
        push_str(&mut line, lit.var_name());
        push_str(&mut line, " -> ");
        if lit.is_negated() {
            push_str(&mut line, "1");
        } else {
            push_str(&mut line, "0");
        }
        push_str(&mut line, " ;");
        self.write(&line);
        self.defined_lits.insert(string_of(id));
    }

    /// Makes sure that the definition of `lit` is written, and gives its
    /// definition ID.
    pub fn ensure_lit_defined(&mut self, lit: &PBLiteral) -> (r: Result<Vec<char>, PBarberError>)
        requires
            old(self).wf(),
        ensures
            final(self).wf(),
            final(self).env() == old(self).env(),
            final(self).ledger() == ensure_lit(old(self).env(), old(self).ledger(), lit@).0,
            match r {
                Ok(id) => ensure_lit(old(self).env(), old(self).ledger(), lit@).1 == Ok::<
                    Seq<char>,
                    Failure,
                >(id@),
                Err(e) => ensure_lit(old(self).env(), old(self).ledger(), lit@).1 == Err::<
                    Seq<char>,
                    Failure,
                >(e@),
            },
    {
        let def_id = self.definition_id(lit);
        let key = string_of(&def_id);
        if self.defined_lits.contains(key.as_str()) {
            return Ok(def_id);
        }
        let data = match self.get_cp_lit_data(lit) {
            Ok(data) => data,
            Err(e) => {
                return Err(e);
            },
        };
        match data {
            CPLitData::Condition { name, operator, value, .. } => {
                let var = chars_of(name.as_str());
                let value_text = chars_of(value.as_str());
                let effective = if lit.is_negated() {
                    operator.negated()
                } else {
                    operator
                };
                let (symbol, bound): (&str, i128) = match effective {
                    CPOperator::GreaterEqual => match parse_i64(&value_text) {
                        Some(v) => (">=", v as i128),
                        None => {
                            return Err(bad_value_error(&value_text, &var));
                        },
                    },
                    CPOperator::Less => match parse_i64(&value_text) {
                        Some(v) => ("<=", v as i128 - 1),
                        None => {
                            return Err(bad_value_error(&value_text, &var));
                        },
                    },
                    _ => {
                        return Err(
                            PBarberError::JustificationError(
                                string_of(&chars_of("Can't handle equality literals yet.")),
                            ),
                        );
                    },
                };
                let bits = match self.cp_var_bits_str(&var, 1) {
                    Ok(bits) => bits,
                    Err(e) => {
                        return Err(e);
                    },
                };
                self.define(&def_id, lit, &bits, symbol, bound);
                Ok(def_id)
            },
            CPLitData::Boolvar { name, .. } => {
                let full = chars_of(name.as_str());
                let parts = split_text(&full, '=');
                proof {
                    lemma_split_nonempty(full@, '=');
                    assert(texts(parts@)[0] == parts@[0]@);
                }
                if parts.len() < 2 {
                    return Err(
                        unjustified_error(
                            "Found Boolvar ",
                            &full,
                            " with '=' in name, but couldn't parse value",
                        ),
                    );
                }
                proof {
                    assert(texts(parts@)[1] == parts@[1]@);
                }
                let value: i64 = match parse_i64(&parts[1]) {
                    Some(v) => v,
                    None => {
                        return Err(
                            unjustified_error(
                                "Found Boolvar ",
                                &full,
                                " with '=' in name, but couldn't parse value",
                            ),
                        );
                    },
                };
                let var = &parts[0];
                match self.ensure_bounds_defined(var) {
                    Ok(_) => {},
                    Err(e) => {
                        return Err(e);
                    },
                }
                let bits = match self.cp_var_bits_str(var, 1) {
                    Ok(bits) => bits,
                    Err(e) => {
                        return Err(e);
                    },
                };
                let (min, max) = match self.get_min_max_for_var(var) {
                    Ok(bounds) => bounds,
                    Err(e) => {
                        return Err(e);
                    },
                };
                let (symbol, bound): (&str, i128) = if value == min {
                    if lit.is_negated() {
                        (">=", value as i128 + 1)
                    } else {
                        ("<=", value as i128)
                    }
                } else if value == max {
                    if lit.is_negated() {
                        ("<=", value as i128 - 1)
                    } else {
                        (">=", value as i128)
                    }
                } else {
                    return Err(
                        unjustified_error(
                            "Found Boolvar ",
                            &full,
                            " with more than two values in its domain.",
                        ),
                    );
                };
                self.define(&def_id, lit, &bits, symbol, bound);
                Ok(def_id)
            },
        }
    }

    /// Makes sure that every literal of `lits` and its negation are
    /// defined, and gives the IDs of the literals and those of their
    /// negations.
    pub fn ensure_all_lits_defined(&mut self, lits: &Vec<PBLiteral>, strict: bool) -> (r: Result<
        (Vec<Vec<char>>, Vec<Vec<char>>),
        PBarberError,
    >)
        requires
            old(self).wf(),
        ensures
            final(self).wf(),
            final(self).env() == old(self).env(),
            final(self).ledger() == ensure_all(
                old(self).env(),
                old(self).ledger(),
                lits_of(lits@),
                strict,
            ).0,
            match r {
                Ok((pos, neg)) => ensure_all(
                    old(self).env(),
                    old(self).ledger(),
                    lits_of(lits@),
                    strict,
                ).1 == Ok::<(Seq<Seq<char>>, Seq<Seq<char>>), Failure>((texts(pos@), texts(neg@))),
                Err(e) => ensure_all(old(self).env(), old(self).ledger(), lits_of(lits@), strict).1
                    == Err::<(Seq<Seq<char>>, Seq<Seq<char>>), Failure>(e@),
            },
    {
        let mut pos: Vec<Vec<char>> = Vec::new();
        let mut neg: Vec<Vec<char>> = Vec::new();
        let mut i: usize = 0;
        let ghost all = lits_of(lits@);
        let ghost env = self.env();
        let ghost start = self.ledger();
        proof {
            assert(texts(pos@) =~= Seq::<Seq<char>>::empty());
            assert(texts(neg@) =~= Seq::<Seq<char>>::empty());
        }
        while i < lits.len()
            invariant
                i <= lits.len(),
                all == lits_of(lits@),
                self.wf(),
                self.env() == env,
                env == old(self).env(),
                start == old(self).ledger(),
                ensure_all(env, start, all, strict) == ensure_rest(
                    env,
                    self.ledger(),
                    all,
                    strict,
                    i as int,
                    texts(pos@),
                    texts(neg@),
                ),
            decreases lits.len() - i,
        {
            let lit = &lits[i];
            proof {
                assert(all[i as int] == lit@);
            }
            match self.ensure_lit_defined(lit) {
                Ok(id) => {
                    let ghost before = pos@;
                    pos.push(id);
                    proof {
                        assert(texts(pos@) =~= texts(before).push(id@));
                    }
                },
                Err(PBarberError::LiteralLookupError(m)) => {
                    if strict {
                        return Err(PBarberError::LiteralLookupError(m));
                    }
                },
                Err(e) => {
                    return Err(e);
                },
            }
            let mut other = lit.duplicate();
            other.negate();
            match self.ensure_lit_defined(&other) {
                Ok(id) => {
                    let ghost before = neg@;
                    neg.push(id);
                    proof {
                        assert(texts(neg@) =~= texts(before).push(id@));
                    }
                },
                Err(PBarberError::LiteralLookupError(m)) => {
                    if strict {
                        return Err(PBarberError::LiteralLookupError(m));
                    }
                },
                Err(e) => {
                    return Err(e);
                },
            }
            i += 1;
        }
        Ok((pos, neg))
    }
}

/// The error for a value that is no integer.
fn bad_value_error(value: &Vec<char>, var: &Vec<char>) -> (e: PBarberError)
    ensures
        e@ == bad_value(value@, var@),
{
    let mut m: Vec<char> = Vec::new();
    push_str(&mut m, "Couldn't parse the value ");
    push_text(&mut m, value);
    push_str(&mut m, " of the condition on ");
    push_text(&mut m, var);
    PBarberError::JustificationError(string_of(&m))
}

} // verus!
