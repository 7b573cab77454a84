//! The justification of an `IntLinear` assertion: a linear inequality or
//! equation of the FlatZinc model, encoded over the bits of its variables,
//! from which the definitions of the assertion's literals and the bounds of
//! the other variables derive the assertion.

use crate::decimal::{decimal, parse_nat, parse_u64, push_decimal};
use crate::fzn::{FznArgument, FznConstraint, FznLiteral, FznModel};
use crate::justifier::actions::{
    bits_of,
    ensure_all,
    ensure_bounds,
    unjustified,
    unjustified_error,
    unknown_literal,
    Env,
    JustifierActions,
    Ledger,
};
use crate::justifier::{PolBuilder, PolLine};
use crate::pb::{lits_of, Constraint, Lit, PBConstraint, PBLiteral};
use crate::text::{
    chars_of,
    is_str,
    lines_of,
    push_str,
    push_text,
    same_text,
    split,
    split_text,
    string_of,
    strip_prefixes,
    strip_prefixes_text,
    texts,
    trim,
    trim_text,
    lemma_split_nonempty,
};
use crate::{Failure, PBarberError};
use vstd::prelude::*;

verus! {

/// A linear constraint of the model: its family, the ID of the constraint,
/// the weights and the variables of its terms, and its right-hand side.
pub struct Linear {
    pub family: Seq<char>,
    pub fzn_id: Seq<char>,
    pub coeffs: Seq<i64>,
    pub vars: Seq<Seq<char>>,
    pub rhs: i64,
}

/// The ID of the FlatZinc constraint in the antecedents of an assertion:
/// their first word.
pub open spec fn antecedent_id(antecedents: Seq<char>) -> Seq<char> {
    split(trim(antecedents), ' ')[0]
}

/// The number in a constraint ID `@f<n>`.
pub open spec fn constraint_number(fzn_id: Seq<char>) -> Option<nat> {
    match parse_nat(strip_prefixes(trim(fzn_id), "@f"@)) {
        Some(n) => if n <= u64::MAX {
            Some(n)
        } else {
            None
        },
        None => None,
    }
}

/// The constraint of the model that `fzn_id` names.
pub open spec fn fzn_constraint(fzn: FznModel, fzn_id: Seq<char>) -> Result<
    FznConstraint,
    Failure,
> {
    match constraint_number(fzn_id) {
        None => Err(unjustified("Failed to get line number from fzn_id `"@, fzn_id, "`"@)),
        Some(n) => if n < fzn.constraints().len() {
            Ok(fzn.constraints()[n as int])
        } else {
            Err(unjustified("Couldn't find fzn constraint for id "@, fzn_id, ""@))
        },
    }
}

/// A literal of the model as it is named in a message.
pub open spec fn literal_text(l: FznLiteral) -> Seq<char> {
    match l {
        FznLiteral::Int(v) => decimal(v as int),
        FznLiteral::Identifier(s) => s@,
        FznLiteral::Other(s) => s@,
    }
}

/// The integers that the literals are; the first that is none is reported.
pub open spec fn integers_of(ls: Seq<FznLiteral>) -> Result<Seq<i64>, Failure>
    decreases ls.len(),
{
    if ls.len() == 0 {
        Ok(Seq::empty())
    } else {
        match integers_of(ls.drop_last()) {
            Err(e) => Err(e),
            Ok(head) => match ls.last() {
                FznLiteral::Int(v) => Ok(head.push(v)),
                other => Err(
                    unjustified(
                        "IntLinear: coeff should be integer but got "@,
                        literal_text(other),
                        ""@,
                    ),
                ),
            },
        }
    }
}

/// The names that the literals are; the first that is none is reported.
pub open spec fn names_of(ls: Seq<FznLiteral>) -> Result<Seq<Seq<char>>, Failure>
    decreases ls.len(),
{
    if ls.len() == 0 {
        Ok(Seq::empty())
    } else {
        match names_of(ls.drop_last()) {
            Err(e) => Err(e),
            Ok(head) => match ls.last() {
                FznLiteral::Identifier(s) => Ok(head.push(s@)),
                other => Err(
                    unjustified(
                        "IntLinear: var should be identifier but got "@,
                        literal_text(other),
                        ""@,
                    ),
                ),
            },
        }
    }
}

/// The literals of the weights: an array in place, or a named array of the
/// model.
pub open spec fn weight_literals(fzn: FznModel, arg: FznArgument) -> Result<
    Seq<FznLiteral>,
    Failure,
> {
    match arg {
        FznArgument::Array(ls) => Ok(ls@),
        FznArgument::Literal(FznLiteral::Identifier(id)) => if fzn.arrays().contains_key(id@) {
            Ok(fzn.arrays()[id@].contents@)
        } else {
            Err(unjustified("Expected array, but got "@, id@, ""@))
        },
        _ => Err(
            Failure::JustificationError("IntLinear: coeff should be array, or array identifier"@),
        ),
    }
}

/// The literals of the variables: an array in place.
pub open spec fn variable_literals(arg: FznArgument) -> Result<Seq<FznLiteral>, Failure> {
    match arg {
        FznArgument::Array(ls) => Ok(ls@),
        _ => Err(Failure::JustificationError("IntLinear: vars should be array"@)),
    }
}

/// The right-hand side: an integer.
pub open spec fn rhs_literal(arg: FznArgument) -> Result<i64, Failure> {
    match arg {
        FznArgument::Literal(FznLiteral::Int(v)) => Ok(v),
        _ => Err(Failure::JustificationError("IntLinear: rhs should be Int"@)),
    }
}

/// Whether `family` is a family of linear constraints that is justified.
pub open spec fn is_linear_family(family: Seq<char>) -> bool {
    family == "int_lin_le"@ || family == "int_lin_eq"@
}

/// The linear constraint that the antecedents of an assertion name.
pub open spec fn linear_of(fzn: FznModel, antecedents: Seq<char>) -> Result<Linear, Failure> {
    let fzn_id = antecedent_id(antecedents);
    match fzn_constraint(fzn, fzn_id) {
        Err(e) => Err(e),
        Ok(c) => if !is_linear_family(c.id@) {
            Err(unjustified("Don't know how to encode constraint "@, c.id@, ""@))
        } else if c.args@.len() < 3 {
            Err(Failure::JustificationError("IntLinear: expected three arguments"@))
        } else {
            match weight_literals(fzn, c.args@[0]) {
                Err(e) => Err(e),
                Ok(ws) => match integers_of(ws) {
                    Err(e) => Err(e),
                    Ok(coeffs) => match variable_literals(c.args@[1]) {
                        Err(e) => Err(e),
                        Ok(vs) => match names_of(vs) {
                            Err(e) => Err(e),
                            Ok(vars) => match rhs_literal(c.args@[2]) {
                                Err(e) => Err(e),
                                Ok(rhs) => Ok(
                                    Linear { family: c.id@, fzn_id, coeffs, vars, rhs },
                                ),
                            },
                        },
                    },
                },
            }
        },
    }
}

impl Linear {
    /// The number of terms: each weight that has a variable.
    pub open spec fn pairs(self) -> nat {
        if self.coeffs.len() <= self.vars.len() {
            self.coeffs.len()
        } else {
            self.vars.len()
        }
    }

    /// The ID of the encoding with `<=`.
    pub open spec fn le_id(self) -> Seq<char> {
        self.fzn_id + "_le"@
    }

    /// The ID of the encoding with `>=`.
    pub open spec fn ge_id(self) -> Seq<char> {
        self.fzn_id + "_ge"@
    }
}

/// The bit encodings of the first `n` terms, each variable scaled by its
/// weight, each after a space.
pub open spec fn encoded_terms(fzn: FznModel, lin: Linear, n: nat) -> Result<Seq<char>, Failure>
    decreases n,
{
    if n == 0 {
        Ok(Seq::empty())
    } else {
        match encoded_terms(fzn, lin, (n - 1) as nat) {
            Err(e) => Err(e),
            Ok(head) => match bits_of(fzn, lin.vars[n - 1], lin.coeffs[n - 1] as int) {
                Err(e) => Err(e),
                Ok(bits) => Ok(head + " "@ + bits),
            },
        }
    }
}

/// The line that states the linear constraint over bits, under `id` and
/// with the operator `operator`.
pub open spec fn encoding_line(lin: Linear, terms: Seq<char>, id: Seq<char>, operator: Seq<char>)
    -> Seq<char> {
    id + " a"@ + terms + " "@ + operator + " "@ + decimal(lin.rhs as int) + " :: "@ + lin.family
        + " ;"@
}

/// Makes sure that the encoding of the linear constraint is written: one
/// line with `<=`, and for an equation one with `>=` after it.
///
/// The first success for a constraint ID writes the lines; after it,
/// nothing is written for that ID. A failure writes nothing.
pub open spec fn encode(env: Env, ledger: Ledger, lin: Linear) -> (Ledger, Result<(), Failure>) {
    if ledger.encoded.contains(lin.fzn_id) {
        (ledger, Ok(()))
    } else {
        match encoded_terms(env.fzn, lin, lin.pairs()) {
            Err(e) => (ledger, Err(e)),
            Ok(terms) => {
                let le = ledger.out.push(encoding_line(lin, terms, lin.le_id(), "<="@));
                (
                    Ledger {
                        out: if lin.family == "int_lin_eq"@ {
                            le.push(encoding_line(lin, terms, lin.ge_id(), ">="@))
                        } else {
                            le
                        },
                        encoded: ledger.encoded.insert(lin.fzn_id),
                        ..ledger
                    },
                    Ok(()),
                )
            },
        }
    }
}

/// The linear constraint that the antecedents name, with its encoding
/// written.
pub open spec fn linear_new(env: Env, ledger: Ledger, antecedents: Seq<char>) -> (
    Ledger,
    Result<Linear, Failure>,
) {
    match linear_of(env.fzn, antecedents) {
        Err(e) => (ledger, Err(e)),
        Ok(lin) => {
            let (encoded, r) = encode(env, ledger, lin);
            match r {
                Err(e) => (encoded, Err(e)),
                Ok(_) => (encoded, Ok(lin)),
            }
        },
    }
}

/// The variable of the constraint program that each literal speaks of; the
/// first literal that the literal map does not know is reported.
pub open spec fn reasons(env: Env, lits: Seq<Lit>) -> Result<Seq<Seq<char>>, Failure>
    decreases lits.len(),
{
    if lits.len() == 0 {
        Ok(Seq::empty())
    } else {
        match reasons(env, lits.drop_last()) {
            Err(e) => Err(e),
            Ok(head) => if env.lits.contains_key(lits.last().name) {
                Ok(head.push(env.lits[lits.last().name].cp_var()))
            } else {
                Err(unknown_literal(lits.last().name))
            },
        }
    }
}

/// The index of the first `name` among `names`, or their number.
pub open spec fn position(names: Seq<Seq<char>>, name: Seq<char>) -> int
    decreases names.len(),
{
    if names.len() == 0 {
        0
    } else if names[0] == name {
        0
    } else {
        1 + position(names.skip(1), name)
    }
}

/// The magnitude of a weight.
pub open spec fn magnitude_of(c: i64) -> int {
    if c < 0 {
        -c
    } else {
        c as int
    }
}

/// The sign of the product of a weight and a multiplier: 1, -1 or 0.
pub open spec fn product_sign(coeff: i64, mult: i64) -> int {
    if coeff == 0 || mult == 0 {
        0
    } else if (coeff > 0) == (mult > 0) {
        1
    } else {
        -1
    }
}

/// The `pol` line after the terms of the linear constraint from index
/// `from` on.
///
/// A variable that a literal of the assertion speaks of adds the definition
/// of that literal's negation, multiplied by the
/// magnitude of the variable's weight. Any other variable has its bounds
/// defined, and adds its lower bound where weight times multiplier is
/// positive, its upper bound where it is negative, multiplied likewise.
pub open spec fn substitute_from(
    env: Env,
    ledger: Ledger,
    lin: Linear,
    neg: Seq<Seq<char>>,
    names: Seq<Seq<char>>,
    mult: i64,
    from: int,
    pol: PolLine,
) -> (Ledger, Result<PolLine, Failure>)
    decreases lin.pairs() - from,
{
    if from < 0 || from >= lin.pairs() {
        (ledger, Ok(pol))
    } else {
        let coeff = lin.coeffs[from];
        let var = lin.vars[from];
        let at = position(names, var);
        if 0 <= at < names.len() {
            let next = if at < neg.len() {
                pol.add_weighted(neg[at], magnitude_of(coeff))
            } else {
                pol
            };
            substitute_from(env, ledger, lin, neg, names, mult, from + 1, next)
        } else {
            let (bounded, ids) = ensure_bounds(env, ledger, var);
            match ids {
                Err(e) => (bounded, Err(e)),
                Ok((lb, ub)) => {
                    let next = if product_sign(coeff, mult) > 0 {
                        pol.add_weighted(lb, magnitude_of(coeff))
                    } else if product_sign(coeff, mult) < 0 {
                        pol.add_weighted(ub, magnitude_of(coeff))
                    } else {
                        pol
                    };
                    substitute_from(env, bounded, lin, neg, names, mult, from + 1, next)
                },
            }
        }
    }
}

/// Writes the `pol` line that starts from the encoding `enc_id` and
/// substitutes the literals of the assertion into it.
pub open spec fn substitute(
    env: Env,
    ledger: Ledger,
    lin: Linear,
    neg: Seq<Seq<char>>,
    lits: Seq<Lit>,
    enc_id: Seq<char>,
    mult: i64,
) -> (Ledger, Result<(), Failure>) {
    match reasons(env, lits) {
        Err(e) => (ledger, Err(e)),
        Ok(names) => {
            let (after, r) = substitute_from(
                env,
                ledger,
                lin,
                neg,
                names,
                mult,
                0,
                PolLine::start().add(enc_id),
            );
            match r {
                Err(e) => (after, Err(e)),
                Ok(pol) => (after.write(pol.done().text), Ok(())),
            }
        },
    }
}

/// The line that states the constraint `c` under `id` as following by unit
/// propagation from the lines before it.
pub open spec fn rup_line(id: Seq<char>, c: Constraint) -> Seq<char> {
    id + " rup "@ + c.pretty() + ";"@
}

/// The justification of the `IntLinear` assertion of `c` under `id`, from
/// the linear constraint `lin`.
///
/// Every literal of `c` and its negation are defined first; a literal that
/// the literal map does not know ends the justification. Then one `pol`
/// line substitutes the literals into the encoding with `<=`, for an
/// equation a second one into the encoding with `>=`, and a `rup` line
/// states `c`.
pub open spec fn justify_linear(env: Env, ledger: Ledger, lin: Linear, c: Constraint, id: Seq<char>)
    -> (Ledger, Result<(), Failure>) {
    let (defined, ids) = ensure_all(env, ledger, c.lits(), true);
    match ids {
        Err(e) => (defined, Err(e)),
        Ok((_, neg)) => if !is_linear_family(lin.family) {
            (defined, Err(unjustified(""@, lin.family, " not yet implemented"@)))
        } else {
            let (first, r1) = substitute(env, defined, lin, neg, c.lits(), lin.le_id(), 1i64);
            match r1 {
                Err(e) => (first, Err(e)),
                Ok(_) => {
                    let (second, r2) = if lin.family == "int_lin_eq"@ {
                        substitute(env, first, lin, neg, c.lits(), lin.ge_id(), -1i64)
                    } else {
                        (first, Ok(()))
                    };
                    match r2 {
                        Err(e) => (second, Err(e)),
                        Ok(_) => (second.write(rup_line(id, c)), Ok(())),
                    }
                },
            }
        },
    }
}

/// The justifier of the assertions that follow from one linear constraint
/// of the model.
pub struct IntLinearJustifier {
    constraint_name: String,
    fzn_id: String,
    coeffs: Vec<i64>,
    vars: Vec<String>,
    rhs: i64,
}

impl View for IntLinearJustifier {
    type V = Linear;

    closed spec fn view(&self) -> Linear {
        Linear {
            family: self.constraint_name@,
            fzn_id: self.fzn_id@,
            coeffs: self.coeffs@,
            vars: lines_of(self.vars@),
            rhs: self.rhs,
        }
    }
}

fn literal_text_of(l: &FznLiteral) -> (t: Vec<char>)
    ensures
        t@ == literal_text(*l),
{
    match l {
        FznLiteral::Int(v) => crate::decimal::decimal_text(*v as i128),
        FznLiteral::Identifier(s) => chars_of(s.as_str()),
        FznLiteral::Other(s) => chars_of(s.as_str()),
    }
}

fn integers(ls: &Vec<FznLiteral>) -> (r: Result<Vec<i64>, PBarberError>)
    ensures
        match r {
            Ok(v) => integers_of(ls@) == Ok::<Seq<i64>, Failure>(v@),
            Err(e) => integers_of(ls@) == Err::<Seq<i64>, Failure>(e@),
        },
{
    let mut v: Vec<i64> = Vec::new();
    let mut i: usize = 0;
    proof {
        assert(ls@.take(0) =~= Seq::<FznLiteral>::empty());
    }
    while i < ls.len()
        invariant
            i <= ls.len(),
            integers_of(ls@.take(i as int)) == Ok::<Seq<i64>, Failure>(v@),
        decreases ls.len() - i,
    {
        proof {
            assert(ls@.take(i + 1).drop_last() == ls@.take(i as int));
            assert(ls@.take(i + 1).last() == ls@[i as int]);
        }
        match &ls[i] {
            FznLiteral::Int(value) => {
                v.push(*value);
            },
            other => {
                let text = literal_text_of(other);
                proof {
                    lemma_integers_fail(ls@, i + 1);
                }
                return Err(
                    unjustified_error("IntLinear: coeff should be integer but got ", &text, ""),
                );
            },
        }
        i += 1;
    }
    proof {
        assert(ls@.take(i as int) == ls@);
    }
    Ok(v)
}

/// A failure among the first literals is the failure of all of them.
proof fn lemma_integers_fail(ls: Seq<FznLiteral>, k: int)
    requires
        0 <= k <= ls.len(),
        integers_of(ls.take(k)) is Err,
    ensures
        integers_of(ls) == integers_of(ls.take(k)),
    decreases ls.len() - k,
{
    if k == ls.len() {
        assert(ls.take(k) == ls);
    } else {
        assert(ls.drop_last().take(k) == ls.take(k));
        lemma_integers_fail(ls.drop_last(), k);
    }
}

fn names(ls: &Vec<FznLiteral>) -> (r: Result<Vec<String>, PBarberError>)
    ensures
        match r {
            Ok(v) => names_of(ls@) == Ok::<Seq<Seq<char>>, Failure>(lines_of(v@)),
            Err(e) => names_of(ls@) == Err::<Seq<Seq<char>>, Failure>(e@),
        },
{
    let mut v: Vec<String> = Vec::new();
    let mut i: usize = 0;
    proof {
        assert(ls@.take(0) =~= Seq::<FznLiteral>::empty());
        assert(lines_of(v@) =~= Seq::<Seq<char>>::empty());
    }
    while i < ls.len()
        invariant
            i <= ls.len(),
            names_of(ls@.take(i as int)) == Ok::<Seq<Seq<char>>, Failure>(lines_of(v@)),
        decreases ls.len() - i,
    {
        proof {
            assert(ls@.take(i + 1).drop_last() == ls@.take(i as int));
            assert(ls@.take(i + 1).last() == ls@[i as int]);
        }
        match &ls[i] {
            FznLiteral::Identifier(name) => {
                let ghost before = v@;
                v.push(name.clone());
                proof {
                    assert(lines_of(v@) =~= lines_of(before).push(name@));
                }
            },
            other => {
                let text = literal_text_of(other);
                proof {
                    lemma_names_fail(ls@, i + 1);
                }
                return Err(
                    unjustified_error("IntLinear: var should be identifier but got ", &text, ""),
                );
            },
        }
        i += 1;
    }
    proof {
        assert(ls@.take(i as int) == ls@);
    }
    Ok(v)
}

/// A failure among the first literals is the failure of all of them.
proof fn lemma_names_fail(ls: Seq<FznLiteral>, k: int)
    requires
        0 <= k <= ls.len(),
        names_of(ls.take(k)) is Err,
    ensures
        names_of(ls) == names_of(ls.take(k)),
    decreases ls.len() - k,
{
    if k == ls.len() {
        assert(ls.take(k) == ls);
    } else {
        assert(ls.drop_last().take(k) == ls.take(k));
        lemma_names_fail(ls.drop_last(), k);
    }
}

/// A failure among the first terms is the failure of all of them.
proof fn lemma_encoded_terms_fail(fzn: FznModel, lin: Linear, k: nat, n: nat)
    requires
        k <= n,
        encoded_terms(fzn, lin, k) is Err,
    ensures
        encoded_terms(fzn, lin, n) == encoded_terms(fzn, lin, k),
    decreases n - k,
{
    if k < n {
        lemma_encoded_terms_fail(fzn, lin, k, (n - 1) as nat);
    }
}

/// A failure among the first literals is the failure of all of them.
proof fn lemma_reasons_fail(env: Env, lits: Seq<Lit>, k: int)
    requires
        0 <= k <= lits.len(),
        reasons(env, lits.take(k)) is Err,
    ensures
        reasons(env, lits) == reasons(env, lits.take(k)),
    decreases lits.len() - k,
{
    if k == lits.len() {
        assert(lits.take(k) == lits);
    } else {
        assert(lits.drop_last().take(k) == lits.take(k));
        lemma_reasons_fail(env, lits.drop_last(), k);
    }
}

/// The magnitude of a weight.
fn magnitude(c: i64) -> (m: u64)
    ensures
        m == magnitude_of(c),
{
    if c == i64::MIN {
        0x8000_0000_0000_0000u64
    } else if c < 0 {
        (-c) as u64
    } else {
        c as u64
    }
}

/// The index of the first `name` among `names`, or their number.
fn position_in(names: &Vec<Vec<char>>, name: &Vec<char>) -> (k: usize)
    ensures
        k == position(texts(names@), name@),
        k <= names.len(),
{
    let mut k: usize = 0;
    let ghost all = texts(names@);
    proof {
        assert(all.skip(0) == all);
    }
    while k < names.len()
        invariant
            k <= names.len(),
            all == texts(names@),
            position(all, name@) == k + position(all.skip(k as int), name@),
        decreases names.len() - k,
    {
        proof {
            assert(all.skip(k as int)[0] == names@[k as int]@);
            assert(all.skip(k as int).skip(1) == all.skip(k + 1));
        }
        if same_text(&names[k], name) {
            return k;
        }
        k += 1;
    }
    k
}

impl IntLinearJustifier {
    /// The constraint of the model that `fzn_id` names.
    fn get_fzn_constraint<'a>(fzn: &'a FznModel, fzn_id: &Vec<char>) -> (r: Result<
        &'a FznConstraint,
        PBarberError,
    >)
        ensures
            match r {
                Ok(c) => fzn_constraint(*fzn, fzn_id@) == Ok::<FznConstraint, Failure>(*c),
                Err(e) => fzn_constraint(*fzn, fzn_id@) == Err::<FznConstraint, Failure>(e@),
            },
    {
        let number = strip_prefixes_text(&trim_text(fzn_id), &chars_of("@f"));
        match parse_u64(&number) {
            None => Err(
                unjustified_error("Failed to get line number from fzn_id `", fzn_id, "`"),
            ),
            Some(n) => match fzn.constraint(n) {
                Some(c) => Ok(c),
                None => Err(
                    unjustified_error("Couldn't find fzn constraint for id ", fzn_id, ""),
                ),
            },
        }
    }

    /// The linear constraint that the antecedents of an assertion name.
    fn read(fzn: &FznModel, antecedents: &str) -> (r: Result<Self, PBarberError>)
        ensures
            match r {
                Ok(lin) => linear_of(*fzn, antecedents@) == Ok::<Linear, Failure>(lin@),
                Err(e) => linear_of(*fzn, antecedents@) == Err::<Linear, Failure>(e@),
            },
    {
        let text = trim_text(&chars_of(antecedents));
        let mut words = split_text(&text, ' ');
        proof {
            lemma_split_nonempty(text@, ' ');
            assert(texts(words@)[0] == words@[0]@);
        }
        let fzn_id = words.swap_remove(0);
        let constraint = match Self::get_fzn_constraint(fzn, &fzn_id) {
            Ok(c) => c,
            Err(e) => {
                return Err(e);
            },
        };
        let family = chars_of(constraint.id.as_str());
        if !(is_str(&family, "int_lin_le") || is_str(&family, "int_lin_eq")) {
            return Err(unjustified_error("Don't know how to encode constraint ", &family, ""));
        }
        if constraint.args.len() < 3 {
            return Err(
                PBarberError::JustificationError(
                    string_of(&chars_of("IntLinear: expected three arguments")),
                ),
            );
        }
        let coeffs = match &constraint.args[0] {
            FznArgument::Array(ls) => match integers(ls) {
                Ok(v) => v,
                Err(e) => {
                    return Err(e);
                },
            },
            FznArgument::Literal(FznLiteral::Identifier(id)) => match fzn.array(id.as_str()) {
                Some(array) => match integers(&array.contents) {
                    Ok(v) => v,
                    Err(e) => {
                        return Err(e);
                    },
                },
                None => {
                    return Err(
                        unjustified_error("Expected array, but got ", &chars_of(id.as_str()), ""),
                    );
                },
            },
            _ => {
                return Err(
                    PBarberError::JustificationError(
                        string_of(
                            &chars_of("IntLinear: coeff should be array, or array identifier"),
                        ),
                    ),
                );
            },
        };
        let vars = match &constraint.args[1] {
            FznArgument::Array(ls) => match names(ls) {
                Ok(v) => v,
                Err(e) => {
                    return Err(e);
                },
            },
            _ => {
                return Err(
                    PBarberError::JustificationError(
                        string_of(&chars_of("IntLinear: vars should be array")),
                    ),
                );
            },
        };
        let rhs: i64 = match &constraint.args[2] {
            FznArgument::Literal(FznLiteral::Int(v)) => *v,
            _ => {
                return Err(
                    PBarberError::JustificationError(
                        string_of(&chars_of("IntLinear: rhs should be Int")),
                    ),
                );
            },
        };
        Ok(
            IntLinearJustifier {
                constraint_name: string_of(&family),
                fzn_id: string_of(&fzn_id),
                coeffs,
                vars,
                rhs,
            },
        )
    }

    /// The number of terms.
    fn pairs(&self) -> (n: usize)
        ensures
            n == self@.pairs(),
    {
        proof {
            assert(lines_of(self.vars@).len() == self.vars@.len());
        }
        if self.coeffs.len() <= self.vars.len() {
            self.coeffs.len()
        } else {
            self.vars.len()
        }
    }

    /// The line that states the constraint over bits.
    fn encode_lin(&self, terms: &Vec<char>, suffix: &str, operator: &str) -> (line: Vec<char>)
        ensures
            line@ == encoding_line(self@, terms@, self@.fzn_id + suffix@, operator@),
    {
        let mut line: Vec<char> = Vec::new();
        push_str(&mut line, self.fzn_id.as_str());
        push_str(&mut line, suffix);
        push_str(&mut line, " a");
        push_text(&mut line, terms);
        push_str(&mut line, " ");
        push_str(&mut line, operator);
        push_str(&mut line, " ");
        push_decimal(&mut line, self.rhs as i128);
        push_str(&mut line, " :: ");
        push_str(&mut line, self.constraint_name.as_str());
        push_str(&mut line, " ;");
        line
    }

    /// Makes sure that the encoding of the constraint is written.
    fn encode(&self, actions: &mut JustifierActions) -> (r: Result<(), PBarberError>)
        requires
            old(actions).wf(),
        ensures
            final(actions).wf(),
            final(actions).env() == old(actions).env(),
            final(actions).ledger() == encode(old(actions).env(), old(actions).ledger(), self@).0,
            match r {
                Ok(_) => encode(old(actions).env(), old(actions).ledger(), self@).1 == Ok::<
                    (),
                    Failure,
                >(()),
                Err(e) => encode(old(actions).env(), old(actions).ledger(), self@).1 == Err::<
                    (),
                    Failure,
                >(e@),
            },
    {
        if actions.is_encoded(self.fzn_id.as_str()) {
            return Ok(());
        }
        let n = self.pairs();
        let mut terms: Vec<char> = Vec::new();
        let mut i: usize = 0;
        while i < n
            invariant
                i <= n,
                n == self@.pairs(),
                actions.env() == old(actions).env(),
                actions.ledger() == old(actions).ledger(),
                actions.wf(),
                !old(actions).ledger().encoded.contains(self@.fzn_id),
                encoded_terms(actions.env().fzn, self@, i as nat) == Ok::<Seq<char>, Failure>(
                    terms@,
                ),
            decreases n - i,
        {
            proof {
                assert(lines_of(self.vars@)[i as int] == self.vars@[i as int]@);
            }
            let var = chars_of(self.vars[i].as_str());
            match actions.cp_var_bits_str(&var, self.coeffs[i]) {
                Ok(bits) => {
                    push_str(&mut terms, " ");
                    push_text(&mut terms, &bits);
                },
                Err(e) => {
                    proof {
                        lemma_encoded_terms_fail(
                            actions.env().fzn,
                            self@,
                            (i + 1) as nat,
                            n as nat,
                        );
                    }
                    return Err(e);
                },
            }
            i += 1;
        }
        let le = self.encode_lin(&terms, "_le", "<=");
        actions.write(&le);
        if is_str(&chars_of(self.constraint_name.as_str()), "int_lin_eq") {
            let ge = self.encode_lin(&terms, "_ge", ">=");
            actions.write(&ge);
        }
        actions.mark_encoded(self.fzn_id.clone());
        Ok(())
    }

    /// The justifier for the linear constraint that the antecedents of an
    /// assertion name, with the encoding of the constraint written.
    pub fn new(actions: &mut JustifierActions, antecedents_str: &str) -> (r: Result<
        Self,
        PBarberError,
    >)
        requires
            old(actions).wf(),
        ensures
            final(actions).wf(),
            final(actions).env() == old(actions).env(),
            final(actions).ledger() == linear_new(
                old(actions).env(),
                old(actions).ledger(),
                antecedents_str@,
            ).0,
            match r {
                Ok(lin) => linear_new(
                    old(actions).env(),
                    old(actions).ledger(),
                    antecedents_str@,
                ).1 == Ok::<Linear, Failure>(lin@),
                Err(e) => linear_new(
                    old(actions).env(),
                    old(actions).ledger(),
                    antecedents_str@,
                ).1 == Err::<Linear, Failure>(e@),
            },
    {
        let lin = match Self::read(actions.fzn(), antecedents_str) {
            Ok(lin) => lin,
            Err(e) => {
                return Err(e);
            },
        };
        match lin.encode(actions) {
            Ok(_) => Ok(lin),
            Err(e) => Err(e),
        }
    }

    /// The variable of the constraint program that each literal speaks of.
    fn reason_vars(actions: &JustifierActions, lits: &Vec<PBLiteral>) -> (r: Result<
        Vec<Vec<char>>,
        PBarberError,
    >)
        ensures
            match r {
                Ok(v) => reasons(actions.env(), lits_of(lits@)) == Ok::<
                    Seq<Seq<char>>,
                    Failure,
                >(texts(v@)),
                Err(e) => reasons(actions.env(), lits_of(lits@)) == Err::<
                    Seq<Seq<char>>,
                    Failure,
                >(e@),
            },
    {
        let mut v: Vec<Vec<char>> = Vec::new();
        let mut i: usize = 0;
        let ghost all = lits_of(lits@);
        proof {
            assert(all.take(0) =~= Seq::<Lit>::empty());
            assert(texts(v@) =~= Seq::<Seq<char>>::empty());
        }
        while i < lits.len()
            invariant
                i <= lits.len(),
                all == lits_of(lits@),
                reasons(actions.env(), all.take(i as int)) == Ok::<Seq<Seq<char>>, Failure>(
                    texts(v@),
                ),
            decreases lits.len() - i,
        {
            proof {
                assert(all.take(i + 1).drop_last() == all.take(i as int));
                assert(all.take(i + 1).last() == lits@[i as int]@);
            }
            match actions.get_cp_lit_data(&lits[i]) {
                Ok(data) => {
                    let ghost before = v@;
                    let name = data.get_name();
                    v.push(name);
                    proof {
                        assert(texts(v@) =~= texts(before).push(name@));
                    }
                },
                Err(e) => {
                    proof {
                        lemma_reasons_fail(actions.env(), all, i + 1);
                    }
                    return Err(e);
                },
            }
            i += 1;
        }
        proof {
            assert(all.take(i as int) == all);
        }
        Ok(v)
    }

    /// Writes the `pol` line that starts from the encoding `enc_id` and
    /// substitutes the literals of the assertion into it.
    fn sub_lits_into_ineq(
        &self,
        actions: &mut JustifierActions,
        neg_def_ids: &Vec<Vec<char>>,
        lits: &Vec<PBLiteral>,
        enc_id: &String,
        mult: i64,
    ) -> (r: Result<(), PBarberError>)
        requires
            old(actions).wf(),
        ensures
            final(actions).wf(),
            final(actions).env() == old(actions).env(),
            final(actions).ledger() == substitute(
                old(actions).env(),
                old(actions).ledger(),
                self@,
                texts(neg_def_ids@),
                lits_of(lits@),
                enc_id@,
                mult,
            ).0,
            match r {
                Ok(_) => substitute(
                    old(actions).env(),
                    old(actions).ledger(),
                    self@,
                    texts(neg_def_ids@),
                    lits_of(lits@),
                    enc_id@,
                    mult,
                ).1 == Ok::<(), Failure>(()),
                Err(e) => substitute(
                    old(actions).env(),
                    old(actions).ledger(),
                    self@,
                    texts(neg_def_ids@),
                    lits_of(lits@),
                    enc_id@,
                    mult,
                ).1 == Err::<(), Failure>(e@),
            },
    {
        let mut pol = PolBuilder::new();
        pol.add(enc_id);
        let reason_vars = match Self::reason_vars(actions, lits) {
            Ok(v) => v,
            Err(e) => {
                return Err(e);
            },
        };
        let n = self.pairs();
        let mut i: usize = 0;
        let ghost env = actions.env();
        let ghost start = actions.ledger();
        let ghost first = pol@;
        let ghost neg = texts(neg_def_ids@);
        let ghost names = texts(reason_vars@);
        while i < n
            invariant
                i <= n,
                n == self@.pairs(),
                actions.wf(),
                actions.env() == env,
                env == old(actions).env(),
                start == old(actions).ledger(),
                first == PolLine::start().add(enc_id@),
                reasons(env, lits_of(lits@)) == Ok::<Seq<Seq<char>>, Failure>(names),
                neg == texts(neg_def_ids@),
                names == texts(reason_vars@),
                substitute_from(env, start, self@, neg, names, mult, 0, first) == substitute_from(
                    env,
                    actions.ledger(),
                    self@,
                    neg,
                    names,
                    mult,
                    i as int,
                    pol@,
                ),
            decreases n - i,
        {
            proof {
                assert(lines_of(self.vars@)[i as int] == self.vars@[i as int]@);
            }
            let coeff: i64 = self.coeffs[i];
            let var = chars_of(self.vars[i].as_str());
            let at = position_in(&reason_vars, &var);
            if at < reason_vars.len() {
                if at < neg_def_ids.len() {
                    proof {
                        assert(neg[at as int] == neg_def_ids@[at as int]@);
                    }
                    pol.add_weighted(&string_of(&neg_def_ids[at]), magnitude(coeff));
                }
            } else {
                match actions.ensure_bounds_defined(&var) {
                    Err(e) => {
                        return Err(e);
                    },
                    Ok((lb, ub)) => {
                        if coeff != 0 && mult != 0 {
                            if (coeff > 0) == (mult > 0) {
                                pol.add_weighted(&string_of(&lb), magnitude(coeff));
                            } else {
                                pol.add_weighted(&string_of(&ub), magnitude(coeff));
                            }
                        }
                    },
                }
            }
            i += 1;
        }
        let line = chars_of(pol.done());
        actions.write(&line);
        Ok(())
    }

    /// Writes the justification of the assertion of `constraint` under
    /// `id_str`.
    pub fn justify(&self, actions: &mut JustifierActions, constraint: &PBConstraint, id_str: &str)
        -> (r: Result<(), PBarberError>)
        requires
            old(actions).wf(),
        ensures
            final(actions).wf(),
            final(actions).env() == old(actions).env(),
            final(actions).ledger() == justify_linear(
                old(actions).env(),
                old(actions).ledger(),
                self@,
                constraint@,
                id_str@,
            ).0,
            match r {
                Ok(_) => justify_linear(
                    old(actions).env(),
                    old(actions).ledger(),
                    self@,
                    constraint@,
                    id_str@,
                ).1 == Ok::<(), Failure>(()),
                Err(e) => justify_linear(
                    old(actions).env(),
                    old(actions).ledger(),
                    self@,
                    constraint@,
                    id_str@,
                ).1 == Err::<(), Failure>(e@),
            },
    {
        let lits = constraint.get_constraint_lits();
        let neg = match actions.ensure_all_lits_defined(&lits, true) {
            Ok((_, neg)) => neg,
            Err(e) => {
                return Err(e);
            },
        };
        let family = chars_of(self.constraint_name.as_str());
        let equation = is_str(&family, "int_lin_eq");
        if !(is_str(&family, "int_lin_le") || equation) {
            return Err(unjustified_error("", &family, " not yet implemented"));
        }
        let mut le_id = self.fzn_id.clone();
        le_id.append("_le");
        match self.sub_lits_into_ineq(actions, &neg, &lits, &le_id, 1) {
            Ok(_) => {},
            Err(e) => {
                return Err(e);
            },
        }
        if equation {
            let mut ge_id = self.fzn_id.clone();
            ge_id.append("_ge");
            match self.sub_lits_into_ineq(actions, &neg, &lits, &ge_id, -1) {
                Ok(_) => {},
                Err(e) => {
                    return Err(e);
                },
            }
        }
        let mut line: Vec<char> = Vec::new();
        push_str(&mut line, id_str);
        push_str(&mut line, " rup ");
        push_text(&mut line, &constraint.pretty_text());
        push_str(&mut line, ";");
        actions.write(&line);
        Ok(())
    }
}

} // verus!
