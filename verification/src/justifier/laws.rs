//! What holds of everything that the justifier writes: a definition is
//! written once, and an ID is used only after the line that introduces it.

use crate::cp_lit_map::{before_equals, CPLitData};
use crate::fzn::FznModel;
use crate::justifier::actions::{
    bits_of,
    definition_id,
    definition_line,
    domain_of,
    ensure_all,
    ensure_bounds,
    ensure_lit,
    ensure_rest,
    ensured,
    lower_bound_id,
    lower_bound_line,
    upper_bound_id,
    upper_bound_line,
    with_id,
    Env,
    Ledger,
};
use crate::justifier::int_linear::{
    encode,
    encoded_terms,
    encoding_line,
    fzn_constraint,
    justify_linear,
    linear_new,
    linear_of,
    position,
    reasons,
    substitute,
    substitute_from,
    Linear,
};
use crate::justifier::int_var_def::{implied_line, justify_int_var_def};
use crate::justifier::{
    bare_line,
    family_name,
    justify_line,
    read_assertion,
    recoverable,
    settle,
    start_desk,
    style_from,
    style_line,
    style_operands,
    Desk,
    PolLine,
};
use crate::pb::{Constraint, Lit};
use crate::text::{
    find_char,
    find_sub,
    has_prefix,
    lemma_find_char,
    lemma_find_sub,
    lemma_split_nonempty,
    split,
};
use crate::Failure;
use vstd::prelude::*;

verus! {

/// Whether `long` begins with the lines of `short`.
pub open spec fn extends(long: Seq<Seq<char>>, short: Seq<Seq<char>>) -> bool {
    short.len() <= long.len() && long.take(short.len() as int) == short
}

/// The bounds of a variable are written once: a success writes the two
/// bound lines where the variable had none, and nothing where it had them;
/// a failure writes nothing; and after a success another call writes
/// nothing and gives the same IDs.
pub proof fn lemma_bounds_written_once(env: Env, ledger: Ledger, var: Seq<char>)
    ensures
        ({
            let (after, r) = ensure_bounds(env, ledger, var);
            &&& extends(after.out, ledger.out)
            &&& after.out.len() == if r is Ok && !ledger.bounded.contains(var) {
                ledger.out.len() + 2
            } else {
                ledger.out.len()
            }
            &&& r is Ok ==> ensure_bounds(env, after, var) == (after, r)
        }),
{
    let (after, r) = ensure_bounds(env, ledger, var);
    assert(after.out.take(ledger.out.len() as int) =~= ledger.out);
}

/// The definition of a literal is written once, under its definition ID: a
/// success gives the definition ID, and the literal counts as defined after
/// it, and no other literal more than before; a call writes nothing for a
/// literal that is defined; otherwise a success writes the definition as its
/// last line, after at most the two bound lines of the literal's variable;
/// and after a success another call writes nothing.
pub proof fn lemma_definition_written_once(env: Env, ledger: Ledger, lit: Lit)
    ensures
        ({
            let (after, r) = ensure_lit(env, ledger, lit);
            let id = definition_id(lit);
            &&& extends(after.out, ledger.out)
            &&& after.out.len() <= ledger.out.len() + 3
            &&& r is Ok ==> r == Ok::<Seq<char>, Failure>(id) && after.defined
                == ledger.defined.insert(id)
            &&& ledger.defined.contains(id) ==> after == ledger && r == Ok::<Seq<char>, Failure>(
                id,
            )
            &&& r is Ok && !ledger.defined.contains(id) ==> has_definition(after.out.last(), id)
                && after.out.len() > ledger.out.len()
            &&& r is Ok ==> ensure_lit(env, after, lit) == (after, Ok::<Seq<char>, Failure>(id))
        }),
{
    let (after, r) = ensure_lit(env, ledger, lit);
    let id = definition_id(lit);
    if !ledger.defined.contains(id) && env.lits.contains_key(lit.name) {
        match env.lits[lit.name] {
            CPLitData::Condition { name, operator, value, .. } => {
                if r is Ok {
                    let line = after.out.last();
                    lemma_definition_line_starts(id, lit, line);
                }
            },
            CPLitData::Boolvar { name, .. } => {
                let var = before_equals(name@);
                lemma_bounds_written_once(env, ledger, var);
                if r is Ok {
                    let line = after.out.last();
                    lemma_definition_line_starts(id, lit, line);
                }
                let bounded = ensure_bounds(env, ledger, var).0;
                assert(bounded.out.take(ledger.out.len() as int) == ledger.out);
            },
        }
    }
    assert(after.out.take(ledger.out.len() as int) =~= ledger.out);
}

/// Whether `line` is a definition under `id`: it begins with the ID and the
/// rule `red`.
pub open spec fn has_definition(line: Seq<char>, id: Seq<char>) -> bool {
    has_prefix(line, id + " red "@)
}

/// A definition line begins with its ID and the rule `red`.
proof fn lemma_definition_line_starts(id: Seq<char>, lit: Lit, line: Seq<char>)
    requires
        exists|bits: Seq<char>, operator: Seq<char>, value: int|
            line == #[trigger] definition_line(id, lit, bits, operator, value),
    ensures
        has_definition(line, id),
{
    let (bits, operator, value) = choose|bits: Seq<char>, operator: Seq<char>, value: int|
        line == #[trigger] definition_line(id, lit, bits, operator, value);
    let head = id + " red "@;
    assert(line.subrange(0, head.len() as int) =~= head);
}

/// Whether `line` begins with `id` and a space.
pub open spec fn begins(line: Seq<char>, id: Seq<char>) -> bool {
    has_prefix(line, id + seq![' '])
}

/// Whether a line of `out` introduces `id`: it begins with the ID and a
/// space.
pub open spec fn introduces(out: Seq<Seq<char>>, id: Seq<char>) -> bool {
    exists|i: int| 0 <= i < out.len() && begins(#[trigger] out[i], id)
}

/// Whether every ID among `ids` is introduced by a line of `out`.
pub open spec fn all_introduced(out: Seq<Seq<char>>, ids: Seq<Seq<char>>) -> bool {
    forall|i: int| 0 <= i < ids.len() ==> introduces(out, #[trigger] ids[i])
}

/// Whether the FlatZinc constraint `fzn_id` is an equation.
pub open spec fn is_equation(fzn: FznModel, fzn_id: Seq<char>) -> bool {
    fzn_constraint(fzn, fzn_id) matches Ok(c) && c.id@ == "int_lin_eq"@
}

/// Whether the linear constraint `lin` has the family that the model gives
/// the constraint of its ID.
pub open spec fn of_model(fzn: FznModel, lin: Linear) -> bool {
    fzn_constraint(fzn, lin.fzn_id) matches Ok(c) && c.id@ == lin.family
}

/// Whether everything that the ledger remembers as written is written: the
/// definition of every literal that counts as defined, the two bounds of
/// every variable that counts as bounded, and the encoding of every
/// constraint that counts as encoded, for an equation with both operators.
pub open spec fn grounded(env: Env, ledger: Ledger) -> bool {
    &&& forall|id: Seq<char>| #[trigger]
        ledger.defined.contains(id) ==> introduces(ledger.out, id)
    &&& forall|v: Seq<char>| #[trigger]
        ledger.bounded.contains(v) ==> introduces(ledger.out, lower_bound_id(v)) && introduces(
            ledger.out,
            upper_bound_id(v),
        )
    &&& forall|f: Seq<char>| #[trigger]
        ledger.encoded.contains(f) ==> introduces(ledger.out, f + "_le"@) && (is_equation(
            env.fzn,
            f,
        ) ==> introduces(ledger.out, f + "_ge"@))
}

/// Whether every ID among `ids` is the ID of a literal that counts as
/// defined.
pub open spec fn known(ids: Seq<Seq<char>>, defined: Set<Seq<char>>) -> bool {
    forall|i: int| 0 <= i < ids.len() ==> defined.contains(#[trigger] ids[i])
}

/// A line that begins with an ID and a text that begins with a space
/// begins with the ID and a space.
proof fn lemma_begins(id: Seq<char>, mid: Seq<char>, rest: Seq<char>)
    requires
        mid.len() > 0,
        mid[0] == ' ',
    ensures
        begins(id + mid + rest, id),
{
    let line = id + mid + rest;
    assert(line.subrange(0, (id.len() + 1) as int) =~= id + seq![' ']);
}

/// What is introduced stays introduced as more lines are written.
pub proof fn lemma_introduced_stays(out: Seq<Seq<char>>, longer: Seq<Seq<char>>, id: Seq<char>)
    requires
        extends(longer, out),
        introduces(out, id),
    ensures
        introduces(longer, id),
{
    let i = choose|i: int| 0 <= i < out.len() && begins(#[trigger] out[i], id);
    assert(longer[i] == longer.take(out.len() as int)[i]);
    assert(begins(longer[i], id));
}

/// A ledger that is grounded stays so as more lines are written.
proof fn lemma_grounded_stays(env: Env, ledger: Ledger, longer: Seq<Seq<char>>)
    requires
        grounded(env, ledger),
        extends(longer, ledger.out),
    ensures
        grounded(env, Ledger { out: longer, ..ledger }),
{
    let after = Ledger { out: longer, ..ledger };
    assert forall|id: Seq<char>| #[trigger] after.defined.contains(id) implies introduces(
        after.out,
        id,
    ) by {
        lemma_introduced_stays(ledger.out, longer, id);
    }
    assert forall|v: Seq<char>| #[trigger] after.bounded.contains(v) implies introduces(
        after.out,
        lower_bound_id(v),
    ) && introduces(after.out, upper_bound_id(v)) by {
        lemma_introduced_stays(ledger.out, longer, lower_bound_id(v));
        lemma_introduced_stays(ledger.out, longer, upper_bound_id(v));
    }
    assert forall|f: Seq<char>| #[trigger] after.encoded.contains(f) implies introduces(
        after.out,
        f + "_le"@,
    ) && (is_equation(env.fzn, f) ==> introduces(after.out, f + "_ge"@)) by {
        lemma_introduced_stays(ledger.out, longer, f + "_le"@);
        if is_equation(env.fzn, f) {
            lemma_introduced_stays(ledger.out, longer, f + "_ge"@);
        }
    }
}

/// One more line keeps a ledger grounded.
pub proof fn lemma_write_grounded(env: Env, ledger: Ledger, line: Seq<char>)
    requires
        grounded(env, ledger),
    ensures
        grounded(env, ledger.write(line)),
        extends(ledger.write(line).out, ledger.out),
{
    assert(ledger.out.push(line).take(ledger.out.len() as int) =~= ledger.out);
    lemma_grounded_stays(env, ledger, ledger.out.push(line));
}

/// IDs that are introduced stay so as more lines are written.
proof fn lemma_all_introduced_stays(out: Seq<Seq<char>>, longer: Seq<Seq<char>>, ids: Seq<Seq<char>>)
    requires
        extends(longer, out),
        all_introduced(out, ids),
    ensures
        all_introduced(longer, ids),
{
    assert forall|i: int| 0 <= i < ids.len() implies introduces(longer, #[trigger] ids[i]) by {
        lemma_introduced_stays(out, longer, ids[i]);
    }
}

/// Writing on after writing on is writing on.
proof fn lemma_extends_twice(a: Seq<Seq<char>>, b: Seq<Seq<char>>, c: Seq<Seq<char>>)
    requires
        extends(b, a),
        extends(c, b),
    ensures
        extends(c, a),
{
    assert(c.take(a.len() as int) =~= b.take(a.len() as int));
}

/// Making sure of the bounds of a variable keeps the ledger grounded; after
/// a success the variable counts as bounded.
pub proof fn lemma_bounds_grounded(env: Env, ledger: Ledger, var: Seq<char>)
    requires
        grounded(env, ledger),
    ensures
        grounded(env, ensure_bounds(env, ledger, var).0),
        extends(ensure_bounds(env, ledger, var).0.out, ledger.out),
        ensure_bounds(env, ledger, var).0.defined == ledger.defined,
        ensure_bounds(env, ledger, var).0.encoded == ledger.encoded,
        ensure_bounds(env, ledger, var).1 matches Ok(ids) ==> ensure_bounds(
            env,
            ledger,
            var,
        ).0.bounded.contains(var) && ids == (lower_bound_id(var), upper_bound_id(var)),
{
    let (after, r) = ensure_bounds(env, ledger, var);
    assert(after.out.take(ledger.out.len() as int) =~= ledger.out);
    if r is Ok && !ledger.bounded.contains(var) {
        let (min, max) = domain_of(env.fzn, var)->Ok_0;
        let bits = bits_of(env.fzn, var, 1)->Ok_0;
        let lower = lower_bound_line(var, bits, min as int);
        let upper = upper_bound_line(var, bits, max as int);
        reveal_strlit(" a ");
        lemma_begins(
            lower_bound_id(var),
            " a "@,
            bits + " >="@ + crate::decimal::decimal(min as int) + " :: bits_lower_bound ;"@,
        );
        lemma_begins(
            upper_bound_id(var),
            " a "@,
            bits + " <="@ + crate::decimal::decimal(max as int) + " :: bits_upper_bound ;"@,
        );
        assert(lower =~= lower_bound_id(var) + " a "@ + (bits + " >="@ + crate::decimal::decimal(
            min as int,
        ) + " :: bits_lower_bound ;"@));
        assert(upper =~= upper_bound_id(var) + " a "@ + (bits + " <="@ + crate::decimal::decimal(
            max as int,
        ) + " :: bits_upper_bound ;"@));
        let n = ledger.out.len() as int;
        assert(after.out[n] == lower);
        assert(after.out[n + 1] == upper);
        assert(introduces(after.out, lower_bound_id(var)));
        assert(introduces(after.out, upper_bound_id(var)));
        lemma_grounded_stays(env, ledger, after.out);
        assert forall|v: Seq<char>| #[trigger] after.bounded.contains(v) implies introduces(
            after.out,
            lower_bound_id(v),
        ) && introduces(after.out, upper_bound_id(v)) by {
            if v != var {
                assert(ledger.bounded.contains(v));
                lemma_introduced_stays(ledger.out, after.out, lower_bound_id(v));
                lemma_introduced_stays(ledger.out, after.out, upper_bound_id(v));
            }
        }
    }
}

/// A ledger that writes the definition of a literal after a grounded
/// ledger, and counts the literal as defined, is grounded.
proof fn lemma_define_grounded(
    env: Env,
    ledger: Ledger,
    id: Seq<char>,
    lit: Lit,
    bits: Seq<char>,
    operator: Seq<char>,
    value: int,
)
    requires
        grounded(env, ledger),
    ensures
        grounded(
            env,
            Ledger {
                out: ledger.out.push(definition_line(id, lit, bits, operator, value)),
                defined: ledger.defined.insert(id),
                ..ledger
            },
        ),
{
    let line = definition_line(id, lit, bits, operator, value);
    let after = Ledger { out: ledger.out.push(line), defined: ledger.defined.insert(id), ..ledger };
    lemma_write_grounded(env, ledger, line);
    reveal_strlit(" red ");
    let rest = (if lit.negated {
        "~"@
    } else {
        " "@
    }) + lit.name + " ==> "@ + bits + " "@ + operator + " "@ + crate::decimal::decimal(value)
        + " : "@ + lit.name + " -> "@ + (if lit.negated {
        "1"@
    } else {
        "0"@
    }) + " ;"@;
    lemma_begins(id, " red "@, rest);
    assert(line =~= id + " red "@ + rest);
    assert(after.out[ledger.out.len() as int] == line);
    assert(introduces(after.out, id));
    assert forall|d: Seq<char>| #[trigger] after.defined.contains(d) implies introduces(
        after.out,
        d,
    ) by {
        if d != id {
            assert(ledger.defined.contains(d));
            lemma_introduced_stays(ledger.out, after.out, d);
        }
    }
}

/// Making sure of the definition of a literal keeps the ledger grounded;
/// the ID that a success gives is that of a literal that counts as
/// defined; and what counted as defined still does.
pub proof fn lemma_lit_grounded(env: Env, ledger: Ledger, lit: Lit)
    requires
        grounded(env, ledger),
    ensures
        grounded(env, ensure_lit(env, ledger, lit).0),
        extends(ensure_lit(env, ledger, lit).0.out, ledger.out),
        ledger.defined.subset_of(ensure_lit(env, ledger, lit).0.defined),
        ensure_lit(env, ledger, lit).0.encoded == ledger.encoded,
        ensure_lit(env, ledger, lit).1 matches Ok(id) ==> id == definition_id(lit) && ensure_lit(
            env,
            ledger,
            lit,
        ).0.defined.contains(id),
{
    let (after, r) = ensure_lit(env, ledger, lit);
    let id = definition_id(lit);
    assert(ledger.out.take(ledger.out.len() as int) =~= ledger.out);
    if !ledger.defined.contains(id) && env.lits.contains_key(lit.name) {
        match env.lits[lit.name] {
            CPLitData::Condition { name, operator, value, .. } => {
                if r is Ok {
                    let line = after.out.last();
                    let (bits, symbol, bound) = choose|
                        bits: Seq<char>,
                        symbol: Seq<char>,
                        bound: int,
                    |
                        after == (Ledger {
                            out: ledger.out.push(
                                #[trigger] definition_line(id, lit, bits, symbol, bound),
                            ),
                            defined: ledger.defined.insert(id),
                            ..ledger
                        });
                    lemma_define_grounded(env, ledger, id, lit, bits, symbol, bound);
                    assert(after.out.take(ledger.out.len() as int) =~= ledger.out);
                }
            },
            CPLitData::Boolvar { name, .. } => {
                let var = before_equals(name@);
                let bounded = ensure_bounds(env, ledger, var).0;
                lemma_bounds_grounded(env, ledger, var);
                if r is Ok {
                    let (bits, symbol, bound) = choose|
                        bits: Seq<char>,
                        symbol: Seq<char>,
                        bound: int,
                    |
                        after == (Ledger {
                            out: bounded.out.push(
                                #[trigger] definition_line(id, lit, bits, symbol, bound),
                            ),
                            defined: bounded.defined.insert(id),
                            ..bounded
                        });
                    lemma_define_grounded(env, bounded, id, lit, bits, symbol, bound);
                    assert(after.out.take(bounded.out.len() as int) =~= bounded.out);
                    lemma_extends_twice(ledger.out, bounded.out, after.out);
                }
            },
        }
    }
}

/// Making sure of the definitions of literals keeps the ledger grounded,
/// and every ID that a success gives is that of a literal that counts as
/// defined.
pub proof fn lemma_rest_grounded(
    env: Env,
    ledger: Ledger,
    lits: Seq<Lit>,
    strict: bool,
    from: int,
    pos: Seq<Seq<char>>,
    neg: Seq<Seq<char>>,
)
    requires
        grounded(env, ledger),
        known(pos, ledger.defined),
        known(neg, ledger.defined),
    ensures
        grounded(env, ensure_rest(env, ledger, lits, strict, from, pos, neg).0),
        extends(ensure_rest(env, ledger, lits, strict, from, pos, neg).0.out, ledger.out),
        ensure_rest(env, ledger, lits, strict, from, pos, neg).0.encoded == ledger.encoded,
        ensure_rest(env, ledger, lits, strict, from, pos, neg).1 matches Ok(ids) ==> known(
            ids.0,
            ensure_rest(env, ledger, lits, strict, from, pos, neg).0.defined,
        ) && known(ids.1, ensure_rest(env, ledger, lits, strict, from, pos, neg).0.defined),
    decreases lits.len() - from,
{
    assert(ledger.out.take(ledger.out.len() as int) =~= ledger.out);
    if !(from < 0 || from >= lits.len()) {
        let (first, p) = ensure_lit(env, ledger, lits[from]);
        lemma_lit_grounded(env, ledger, lits[from]);
        match ensured(p, strict) {
            Err(e) => {},
            Ok(p_id) => {
                let (second, n) = ensure_lit(env, first, lits[from].negation());
                lemma_lit_grounded(env, first, lits[from].negation());
                lemma_extends_twice(ledger.out, first.out, second.out);
                match ensured(n, strict) {
                    Err(e) => {},
                    Ok(n_id) => {
                        let pos2 = with_id(pos, p_id);
                        let neg2 = with_id(neg, n_id);
                        assert(known(pos2, second.defined)) by {
                            assert forall|i: int| 0 <= i < pos2.len() implies second.defined.contains(#[trigger] pos2[i]) by {
                                if i < pos.len() {
                                    assert(pos2[i] == pos[i]);
                                }
                            }
                        }
                        assert(known(neg2, second.defined)) by {
                            assert forall|i: int| 0 <= i < neg2.len() implies second.defined.contains(#[trigger] neg2[i]) by {
                                if i < neg.len() {
                                    assert(neg2[i] == neg[i]);
                                }
                            }
                        }
                        lemma_rest_grounded(env, second, lits, strict, from + 1, pos2, neg2);
                        let last = ensure_rest(env, second, lits, strict, from + 1, pos2, neg2).0;
                        lemma_extends_twice(ledger.out, second.out, last.out);
                    },
                }
            },
        }
    }
}

/// In a grounded ledger, IDs of literals that count as defined are
/// introduced.
proof fn lemma_known_introduced(env: Env, ledger: Ledger, ids: Seq<Seq<char>>)
    requires
        grounded(env, ledger),
        known(ids, ledger.defined),
    ensures
        all_introduced(ledger.out, ids),
{
    assert forall|i: int| 0 <= i < ids.len() implies introduces(ledger.out, #[trigger] ids[i]) by {
        assert(ledger.defined.contains(ids[i]));
    }
}

/// Adding terms to a `pol` line adds them to the IDs that it names.
proof fn lemma_add_from_terms(pol: PolLine, terms: Seq<Seq<char>>, from: int)
    requires
        0 <= from <= terms.len(),
    ensures
        pol.add_from(terms, from).terms == pol.terms + terms.skip(from),
    decreases terms.len() - from,
{
    if from < terms.len() {
        lemma_add_from_terms(pol.add(terms[from]), terms, from + 1);
        assert(pol.terms.push(terms[from]) + terms.skip(from + 1) =~= pol.terms + terms.skip(from));
    } else {
        assert(pol.terms + terms.skip(from) =~= pol.terms);
    }
}

/// The justification of an `IntVarDef` assertion uses no ID before the
/// line that introduces it.
///
/// It keeps the ledger grounded, and where it succeeds, it writes two lines
/// after the definitions that it made sure of: a `pol` line, every term of
/// which is introduced by a line before it, and the line that states the
/// constraint.
pub proof fn lemma_int_var_def_grounded(env: Env, ledger: Ledger, c: Constraint, id: Seq<char>)
    requires
        grounded(env, ledger),
    ensures
        grounded(env, justify_int_var_def(env, ledger, c, id).0),
        extends(justify_int_var_def(env, ledger, c, id).0.out, ledger.out),
        justify_int_var_def(env, ledger, c, id).0.encoded == ledger.encoded,
        justify_int_var_def(env, ledger, c, id).1 is Ok ==> ({
            let defined = ensure_all(env, ledger, c.lits(), true).0;
            let pol = PolLine::start().add_all(ensure_all(env, ledger, c.lits(), true).1->Ok_0.0);
            let after = justify_int_var_def(env, ledger, c, id).0;
            &&& after.out.len() == defined.out.len() + 2
            &&& after.out[defined.out.len() as int] == pol.done().text
            &&& all_introduced(defined.out, pol.terms)
        }),
{
    let (defined, ids) = ensure_all(env, ledger, c.lits(), true);
    assert(known(Seq::<Seq<char>>::empty(), ledger.defined));
    lemma_rest_grounded(env, ledger, c.lits(), true, 0, Seq::empty(), Seq::empty());
    if ids is Ok && ids->Ok_0.0.len() <= 2 {
        let pos = ids->Ok_0.0;
        let pol = PolLine::start().add_all(pos);
        lemma_add_from_terms(PolLine::start(), pos, 0);
        assert(pol.terms =~= pos);
        lemma_known_introduced(env, defined, pos);
        let first = defined.write(pol.done().text);
        lemma_write_grounded(env, defined, pol.done().text);
        lemma_write_grounded(env, first, crate::justifier::int_var_def::implied_line(id, c));
        let after = justify_int_var_def(env, ledger, c, id).0;
        lemma_extends_twice(defined.out, first.out, after.out);
        lemma_extends_twice(ledger.out, defined.out, after.out);
    }
}

/// Writing the terms of a linear constraint into a `pol` line keeps the
/// ledger grounded, and every term of the line is introduced by a line that
/// is written before the line is.
pub proof fn lemma_substitute_from_grounded(
    env: Env,
    ledger: Ledger,
    lin: Linear,
    neg: Seq<Seq<char>>,
    names: Seq<Seq<char>>,
    mult: i64,
    from: int,
    pol: PolLine,
)
    requires
        grounded(env, ledger),
        all_introduced(ledger.out, neg),
        all_introduced(ledger.out, pol.terms),
    ensures
        grounded(env, substitute_from(env, ledger, lin, neg, names, mult, from, pol).0),
        extends(substitute_from(env, ledger, lin, neg, names, mult, from, pol).0.out, ledger.out),
        substitute_from(env, ledger, lin, neg, names, mult, from, pol).0.encoded == ledger.encoded,
        substitute_from(env, ledger, lin, neg, names, mult, from, pol).1 matches Ok(line)
            ==> all_introduced(
            substitute_from(env, ledger, lin, neg, names, mult, from, pol).0.out,
            line.terms,
        ),
    decreases lin.pairs() - from,
{
    assert(ledger.out.take(ledger.out.len() as int) =~= ledger.out);
    if !(from < 0 || from >= lin.pairs()) {
        let coeff = lin.coeffs[from];
        let var = lin.vars[from];
        let at = position(names, var);
        if 0 <= at < names.len() {
            let next = if at < neg.len() {
                pol.add_weighted(neg[at], crate::justifier::int_linear::magnitude_of(coeff))
            } else {
                pol
            };
            assert(all_introduced(ledger.out, next.terms)) by {
                assert forall|i: int| 0 <= i < next.terms.len() implies introduces(
                    ledger.out,
                    #[trigger] next.terms[i],
                ) by {
                    if i < pol.terms.len() {
                        assert(next.terms[i] == pol.terms[i]);
                    } else {
                        assert(next.terms[i] == neg[at]);
                    }
                }
            }
            lemma_substitute_from_grounded(env, ledger, lin, neg, names, mult, from + 1, next);
        } else {
            let (bounded, ids) = ensure_bounds(env, ledger, var);
            lemma_bounds_grounded(env, ledger, var);
            match ids {
                Err(e) => {},
                Ok((lb, ub)) => {
                    let m = crate::justifier::int_linear::magnitude_of(coeff);
                    let sign = crate::justifier::int_linear::product_sign(coeff, mult);
                    let next = if sign > 0 {
                        pol.add_weighted(lb, m)
                    } else if sign < 0 {
                        pol.add_weighted(ub, m)
                    } else {
                        pol
                    };
                    lemma_all_introduced_stays(ledger.out, bounded.out, neg);
                    lemma_all_introduced_stays(ledger.out, bounded.out, pol.terms);
                    assert(all_introduced(bounded.out, next.terms)) by {
                        assert forall|i: int| 0 <= i < next.terms.len() implies introduces(bounded.out, #[trigger] next.terms[i]) by {
                            if i < pol.terms.len() {
                                assert(next.terms[i] == pol.terms[i]);
                            }
                        }
                    }
                    lemma_substitute_from_grounded(
                        env,
                        bounded,
                        lin,
                        neg,
                        names,
                        mult,
                        from + 1,
                        next,
                    );
                    let last = substitute_from(
                        env,
                        bounded,
                        lin,
                        neg,
                        names,
                        mult,
                        from + 1,
                        next,
                    ).0;
                    lemma_extends_twice(ledger.out, bounded.out, last.out);
                },
            }
        }
    }
}

/// The `pol` line of an `IntLinear` justification uses no ID before the
/// line that introduces it.
///
/// Where the encoding that the line starts from and the definitions of the
/// negated literals are written, the substitution keeps the ledger
/// grounded, and where it succeeds, the `pol` line is the last line
/// written, and every term of it is introduced by a line before it.
pub proof fn lemma_substitute_grounded(
    env: Env,
    ledger: Ledger,
    lin: Linear,
    neg: Seq<Seq<char>>,
    lits: Seq<Lit>,
    enc_id: Seq<char>,
    mult: i64,
)
    requires
        grounded(env, ledger),
        all_introduced(ledger.out, neg),
        introduces(ledger.out, enc_id),
    ensures
        grounded(env, substitute(env, ledger, lin, neg, lits, enc_id, mult).0),
        extends(substitute(env, ledger, lin, neg, lits, enc_id, mult).0.out, ledger.out),
        substitute(env, ledger, lin, neg, lits, enc_id, mult).0.encoded == ledger.encoded,
        substitute(env, ledger, lin, neg, lits, enc_id, mult).1 is Ok ==> ({
            let names = reasons(env, lits)->Ok_0;
            let (before, pol) = substitute_from(
                env,
                ledger,
                lin,
                neg,
                names,
                mult,
                0,
                PolLine::start().add(enc_id),
            );
            &&& substitute(env, ledger, lin, neg, lits, enc_id, mult).0 == before.write(
                pol->Ok_0.done().text,
            )
            &&& all_introduced(before.out, pol->Ok_0.terms)
        }),
{
    assert(ledger.out.take(ledger.out.len() as int) =~= ledger.out);
    match reasons(env, lits) {
        Err(e) => {},
        Ok(names) => {
            let start = PolLine::start().add(enc_id);
            assert(all_introduced(ledger.out, start.terms)) by {
                assert forall|i: int| 0 <= i < start.terms.len() implies introduces(ledger.out, #[trigger] start.terms[i]) by {
                    assert(start.terms[i] == enc_id);
                }
            }
            lemma_substitute_from_grounded(env, ledger, lin, neg, names, mult, 0, start);
            let (before, r) = substitute_from(env, ledger, lin, neg, names, mult, 0, start);
            if r is Ok {
                lemma_write_grounded(env, before, r->Ok_0.done().text);
                lemma_extends_twice(ledger.out, before.out, before.write(r->Ok_0.done().text).out);
            }
        },
    }
}

/// The justification of an `IntLinear` assertion keeps the ledger grounded,
/// where the encoding of its linear constraint is written.
pub proof fn lemma_linear_grounded(
    env: Env,
    ledger: Ledger,
    lin: Linear,
    c: Constraint,
    id: Seq<char>,
)
    requires
        grounded(env, ledger),
        ledger.encoded.contains(lin.fzn_id),
        of_model(env.fzn, lin),
    ensures
        grounded(env, justify_linear(env, ledger, lin, c, id).0),
        extends(justify_linear(env, ledger, lin, c, id).0.out, ledger.out),
{
    let (defined, ids) = ensure_all(env, ledger, c.lits(), true);
    assert(known(Seq::<Seq<char>>::empty(), ledger.defined));
    lemma_rest_grounded(env, ledger, c.lits(), true, 0, Seq::empty(), Seq::empty());
    if ids is Ok && crate::justifier::int_linear::is_linear_family(lin.family) {
        let neg = ids->Ok_0.1;
        lemma_known_introduced(env, defined, neg);
        assert(defined.encoded.contains(lin.fzn_id));
        lemma_substitute_grounded(env, defined, lin, neg, c.lits(), lin.le_id(), 1i64);
        let (first, r1) = substitute(env, defined, lin, neg, c.lits(), lin.le_id(), 1i64);
        lemma_extends_twice(ledger.out, defined.out, first.out);
        if r1 is Ok {
            lemma_all_introduced_stays(defined.out, first.out, neg);
            if lin.family == "int_lin_eq"@ {
                assert(first.encoded.contains(lin.fzn_id));
                assert(is_equation(env.fzn, lin.fzn_id));
                lemma_substitute_grounded(env, first, lin, neg, c.lits(), lin.ge_id(), -1i64);
            }
            let (second, r2) = if lin.family == "int_lin_eq"@ {
                substitute(env, first, lin, neg, c.lits(), lin.ge_id(), -1i64)
            } else {
                (first, Ok(()))
            };
            assert(second.out.take(second.out.len() as int) =~= second.out);
            lemma_extends_twice(ledger.out, first.out, second.out);
            if r2 is Ok {
                let line = crate::justifier::int_linear::rup_line(id, c);
                lemma_write_grounded(env, second, line);
                lemma_extends_twice(ledger.out, second.out, second.write(line).out);
            }
        }
    }
}

/// Writing the encoding of a linear constraint of the model keeps the
/// ledger grounded; after a success the constraint counts as encoded.
pub proof fn lemma_encode_grounded(env: Env, ledger: Ledger, lin: Linear)
    requires
        grounded(env, ledger),
        of_model(env.fzn, lin),
    ensures
        grounded(env, encode(env, ledger, lin).0),
        extends(encode(env, ledger, lin).0.out, ledger.out),
        encode(env, ledger, lin).1 is Ok ==> encode(env, ledger, lin).0.encoded.contains(
            lin.fzn_id,
        ),
{
    let (after, r) = encode(env, ledger, lin);
    assert(after.out.take(ledger.out.len() as int) =~= ledger.out);
    if r is Ok && !ledger.encoded.contains(lin.fzn_id) {
        let terms = encoded_terms(env.fzn, lin, lin.pairs())->Ok_0;
        let le = encoding_line(lin, terms, lin.le_id(), "<="@);
        let ge = encoding_line(lin, terms, lin.ge_id(), ">="@);
        reveal_strlit(" a");
        let tail_le = terms + " "@ + "<="@ + " "@ + crate::decimal::decimal(lin.rhs as int)
            + " :: "@ + lin.family + " ;"@;
        let tail_ge = terms + " "@ + ">="@ + " "@ + crate::decimal::decimal(lin.rhs as int)
            + " :: "@ + lin.family + " ;"@;
        lemma_begins(lin.le_id(), " a"@, tail_le);
        lemma_begins(lin.ge_id(), " a"@, tail_ge);
        assert(le =~= lin.le_id() + " a"@ + tail_le);
        assert(ge =~= lin.ge_id() + " a"@ + tail_ge);
        let n = ledger.out.len() as int;
        assert(after.out[n] == le);
        assert(introduces(after.out, lin.le_id()));
        if lin.family == "int_lin_eq"@ {
            assert(after.out[n + 1] == ge);
            assert(introduces(after.out, lin.ge_id()));
        }
        lemma_grounded_stays(env, ledger, after.out);
        assert forall|f: Seq<char>| #[trigger] after.encoded.contains(f) implies introduces(
            after.out,
            f + "_le"@,
        ) && (is_equation(env.fzn, f) ==> introduces(after.out, f + "_ge"@)) by {
            if f != lin.fzn_id {
                assert(ledger.encoded.contains(f));
                lemma_introduced_stays(ledger.out, after.out, f + "_le"@);
                if is_equation(env.fzn, f) {
                    lemma_introduced_stays(ledger.out, after.out, f + "_ge"@);
                }
            }
        }
    }
}

/// The linear constraint that the antecedents of an assertion name has the
/// family that the model gives it.
pub proof fn lemma_linear_of_model(fzn: FznModel, antecedents: Seq<char>)
    ensures
        linear_of(fzn, antecedents) matches Ok(lin) ==> of_model(fzn, lin),
{
}

/// Settling the outcome of a justification keeps the ledger grounded.
proof fn lemma_settle_grounded(
    env: Env,
    step: (Ledger, Result<(), Failure>),
    id: Seq<char>,
    c: Constraint,
    family: Seq<char>,
)
    requires
        grounded(env, step.0),
    ensures
        grounded(env, settle(step, id, c, family).0),
        extends(settle(step, id, c, family).0.out, step.0.out),
{
    assert(step.0.out.take(step.0.out.len() as int) =~= step.0.out);
    if step.1 is Err && recoverable(step.1->Err_0) is Some {
        let comment = crate::justifier::failed_comment(recoverable(step.1->Err_0)->0);
        let first = step.0.write(comment);
        lemma_write_grounded(env, step.0, comment);
        let bare = crate::justifier::bare_line(id, c, family);
        lemma_write_grounded(env, first, bare);
        lemma_extends_twice(step.0.out, first.out, first.write(bare).out);
    }
}

/// The justification of an assertion line keeps the ledger grounded.
pub proof fn lemma_justify_grounded(env: Env, ledger: Ledger, line: Seq<char>)
    requires
        grounded(env, ledger),
    ensures
        grounded(env, justify_line(env, ledger, line).0),
        extends(justify_line(env, ledger, line).0.out, ledger.out),
{
    reveal(justify_line);
    assert(ledger.out.take(ledger.out.len() as int) =~= ledger.out);
    match read_assertion(line) {
        Err(e) => {},
        Ok(a) => match a.name {
            None => {
                lemma_write_grounded(env, ledger, line);
            },
            Some(raw) => {
                let family = family_name(raw);
                if family == "IntVarDef"@ {
                    let step = justify_int_var_def(env, ledger, a.constraint, a.id);
                    lemma_int_var_def_grounded(env, ledger, a.constraint, a.id);
                    lemma_settle_grounded(env, step, a.id, a.constraint, family);
                    lemma_extends_twice(
                        ledger.out,
                        step.0.out,
                        settle(step, a.id, a.constraint, family).0.out,
                    );
                } else if family == "IntLinear"@ {
                    let (built, lin) = linear_new(env, ledger, a.antecedents);
                    lemma_linear_of_model(env.fzn, a.antecedents);
                    match linear_of(env.fzn, a.antecedents) {
                        Err(e) => {},
                        Ok(l) => {
                            lemma_encode_grounded(env, ledger, l);
                        },
                    }
                    assert(grounded(env, built));
                    assert(extends(built.out, ledger.out));
                    match lin {
                        Ok(lin) => {
                            let step = justify_linear(env, built, lin, a.constraint, a.id);
                            lemma_linear_grounded(env, built, lin, a.constraint, a.id);
                            lemma_settle_grounded(env, step, a.id, a.constraint, family);
                            lemma_extends_twice(
                                built.out,
                                step.0.out,
                                settle(step, a.id, a.constraint, family).0.out,
                            );
                            lemma_extends_twice(
                                ledger.out,
                                built.out,
                                settle(step, a.id, a.constraint, family).0.out,
                            );
                        },
                        Err(e) => {
                            if recoverable(e) is Some {
                                assert(known(Seq::<Seq<char>>::empty(), built.defined));
                                lemma_rest_grounded(
                                    env,
                                    built,
                                    a.constraint.lits(),
                                    false,
                                    0,
                                    Seq::empty(),
                                    Seq::empty(),
                                );
                                let tried = ensure_all(env, built, a.constraint.lits(), false).0;
                                let step = (tried, Err::<(), Failure>(e));
                                lemma_settle_grounded(env, step, a.id, a.constraint, family);
                                lemma_extends_twice(
                                    built.out,
                                    tried.out,
                                    settle(step, a.id, a.constraint, family).0.out,
                                );
                                lemma_extends_twice(
                                    ledger.out,
                                    built.out,
                                    settle(step, a.id, a.constraint, family).0.out,
                                );
                            }
                        },
                    }
                } else {
                    assert(known(Seq::<Seq<char>>::empty(), ledger.defined));
                    lemma_rest_grounded(
                        env,
                        ledger,
                        a.constraint.lits(),
                        false,
                        0,
                        Seq::empty(),
                        Seq::empty(),
                    );
                    let tried = ensure_all(env, ledger, a.constraint.lits(), false).0;
                    let comment = crate::justifier::unknown_comment();
                    lemma_write_grounded(env, tried, comment);
                    let first = tried.write(comment);
                    let bare = crate::justifier::bare_line(a.id, a.constraint, family);
                    lemma_write_grounded(env, first, bare);
                    lemma_extends_twice(tried.out, first.out, first.write(bare).out);
                    lemma_extends_twice(ledger.out, tried.out, first.write(bare).out);
                }
            },
        },
    }
}

/// The operands of a `pol` line keep the ledger grounded.
proof fn lemma_operands_grounded(env: Env, desk: Desk, words: Seq<Seq<char>>, from: int)
    requires
        grounded(env, desk.ledger),
    ensures
        grounded(env, style_operands(env, desk, words, from).0.ledger),
        extends(style_operands(env, desk, words, from).0.ledger.out, desk.ledger.out),
    decreases words.len() - from,
{
    assert(desk.ledger.out.take(desk.ledger.out.len() as int) =~= desk.ledger.out);
    if !(from < 0 || from >= words.len()) {
        let term = words[from];
        if crate::justifier::is_pol_sign(term) {
            lemma_operands_grounded(env, desk, words, from + 1);
        } else if !(term.len() > 0 && term[0] == '@') {
        } else if desk.held.contains_key(term) {
            let (ledger, r) = justify_line(env, desk.ledger, desk.held[term]);
            lemma_justify_grounded(env, desk.ledger, desk.held[term]);
            let next = Desk { ledger, held: desk.held.remove(term) };
            if r is Ok {
                lemma_operands_grounded(env, next, words, from + 1);
                lemma_extends_twice(
                    desk.ledger.out,
                    ledger.out,
                    style_operands(env, next, words, from + 1).0.ledger.out,
                );
            }
        } else {
            lemma_operands_grounded(env, desk, words, from + 1);
        }
    }
}

/// One line of the proof keeps the ledger grounded.
pub proof fn lemma_style_line_grounded(env: Env, cache: nat, desk: Desk, line: Seq<char>)
    requires
        grounded(env, desk.ledger),
    ensures
        grounded(env, style_line(env, cache, desk, line).0.ledger),
        extends(style_line(env, cache, desk, line).0.ledger.out, desk.ledger.out),
{
    assert(desk.ledger.out.take(desk.ledger.out.len() as int) =~= desk.ledger.out);
    if !(line.len() > 0 && line[0] == '@') {
        lemma_write_grounded(env, desk.ledger, line);
    } else {
        let words = crate::text::split(line, ' ');
        if words.len() < 2 {
        } else if words[1] == "pol"@ || words[1] == "p"@ {
            let (after, r) = style_operands(env, desk, words, 2);
            lemma_operands_grounded(env, desk, words, 2);
            match r {
                Ok(_) => {
                    lemma_write_grounded(env, after.ledger, line);
                    lemma_extends_twice(
                        desk.ledger.out,
                        after.ledger.out,
                        after.ledger.write(line).out,
                    );
                },
                Err(Failure::UnexpectedLineStart { expected, found }) => {
                    let comment = crate::justifier::failed_comment(
                        (Failure::UnexpectedLineStart { expected, found }).message(),
                    );
                    lemma_write_grounded(env, after.ledger, comment);
                    let first = after.ledger.write(comment);
                    lemma_write_grounded(env, first, line);
                    lemma_extends_twice(after.ledger.out, first.out, first.write(line).out);
                    lemma_extends_twice(desk.ledger.out, after.ledger.out, first.write(line).out);
                },
                Err(e) => {},
            }
        } else if words[1] == "a"@ {
            if !(desk.held.len() < cache) {
                lemma_justify_grounded(env, desk.ledger, line);
            }
        }
    }
}

/// Definitions come first: whatever proof the justifier is given, every
/// literal that counts as defined, every variable that counts as bounded
/// and every constraint that counts as encoded has the lines that
/// introduce it among the lines written, and nothing that was written is
/// changed.
pub proof fn lemma_style_grounded(
    env: Env,
    cache: nat,
    desk: Desk,
    lines: Seq<Seq<char>>,
    from: int,
)
    requires
        grounded(env, desk.ledger),
    ensures
        grounded(env, style_from(env, cache, desk, lines, from).0.ledger),
        extends(style_from(env, cache, desk, lines, from).0.ledger.out, desk.ledger.out),
    decreases lines.len() - from,
{
    assert(desk.ledger.out.take(desk.ledger.out.len() as int) =~= desk.ledger.out);
    if !(from < 0 || from >= lines.len()) {
        let (next, r) = style_line(env, cache, desk, lines[from]);
        lemma_style_line_grounded(env, cache, desk, lines[from]);
        if r is Ok {
            lemma_style_grounded(env, cache, next, lines, from + 1);
            lemma_extends_twice(
                desk.ledger.out,
                next.ledger.out,
                style_from(env, cache, next, lines, from + 1).0.ledger.out,
            );
        }
    }
}

/// The ID of an assertion line is what stands before its first space: an
/// assertion line that can be read, with a first word and `a` as its
/// second, has its first word as its ID.
pub proof fn lemma_assertion_id(line: Seq<char>)
    requires
        split(line, ' ').len() >= 2,
        split(line, ' ')[1] == "a"@,
        read_assertion(line) is Ok,
    ensures
        read_assertion(line)->Ok_0.id == split(line, ' ')[0],
        begins(line, split(line, ' ')[0]),
{
    reveal_strlit("a");
    reveal_strlit(" a ");
    let head = split(line, ':')[0];
    let j = find_char(line, ':');
    lemma_split_nonempty(line, ':');
    lemma_find_char(line, ':');
    let k = find_sub(head, " a "@);
    lemma_find_sub(head, " a "@);
    let i = find_char(line, ' ');
    lemma_find_char(line, ' ');
    lemma_split_nonempty(line, ' ');
    assert(head == line.take(j));
    // The mark ` a ` stands at `k`, within the head.
    let at_k = head.skip(k).subrange(0, " a "@.len() as int);
    assert(at_k == " a "@);
    assert(at_k[0] == ' ' && at_k[1] == 'a' && at_k[2] == ' ');
    assert(head[k] == ' ' && head[k + 1] == 'a' && head[k + 2] == ' ');
    assert(line[k] == ' ');
    assert(i <= k);
    // The second word is what follows the first space.
    assert(i < line.len());
    let rest = line.skip(i + 1);
    assert(split(line, ' ') == seq![line.take(i)] + split(rest, ' '));
    lemma_split_nonempty(rest, ' ');
    lemma_find_char(rest, ' ');
    let m = find_char(rest, ' ');
    assert(split(line, ' ')[1] == rest.take(m));
    assert(rest.take(m).len() == 1);
    assert(rest.take(m)[0] == 'a');
    assert(line[i + 1] == 'a');
    if m == rest.len() {
        assert(line.len() == i + 2);
        assert(false);
    }
    assert(rest[m] == ' ');
    assert(line[i + 2] == ' ');
    // No colon stands before the mark at the first space.
    assert(i < j);
    assert(line[i + 1] != ':' && line[i + 2] != ':');
    assert(j >= i + 3);
    if k > i {
        assert(head.skip(i).subrange(0, " a "@.len() as int) =~= " a "@);
        assert(has_prefix(head.skip(i), " a "@));
        assert(false);
    }
    assert(head.take(k) =~= line.take(i));
    assert(line.subrange(0, (line.take(i).len() + 1) as int) =~= line.take(i) + seq![' ']);
}

/// An assertion line that can be read begins with its ID.
proof fn lemma_plain_line_begins(line: Seq<char>)
    requires
        read_assertion(line) is Ok,
    ensures
        begins(line, read_assertion(line)->Ok_0.id),
{
    reveal_strlit(" a ");
    let head = split(line, ':')[0];
    lemma_split_nonempty(line, ':');
    lemma_find_char(line, ':');
    let k = find_sub(head, " a "@);
    lemma_find_sub(head, " a "@);
    let at_k = head.skip(k).subrange(0, " a "@.len() as int);
    assert(at_k == " a "@);
    assert(at_k[0] == ' ');
    assert(head[k] == ' ');
    assert(line.subrange(0, k + 1) =~= head.take(k) + seq![' ']);
}

/// The bare assertion of a constraint begins with its ID.
proof fn lemma_bare_begins(id: Seq<char>, c: Constraint, family: Seq<char>)
    ensures
        begins(bare_line(id, c, family), id),
{
    reveal_strlit(" a ");
    let rest = crate::text::strip_end(c.pretty(), ';') + " :: "@ + family + " ;"@;
    lemma_begins(id, " a "@, rest);
    assert(bare_line(id, c, family) =~= id + " a "@ + rest);
}

/// The line that states a constraint as implied begins with its ID.
proof fn lemma_implied_begins(id: Seq<char>, c: Constraint)
    ensures
        begins(implied_line(id, c), id),
{
    reveal_strlit(" ia ");
    let rest = crate::text::strip_end(c.pretty(), ';') + " : -1;"@;
    lemma_begins(id, " ia "@, rest);
    assert(implied_line(id, c) =~= id + " ia "@ + rest);
}

/// The line that states a constraint as following by unit propagation
/// begins with its ID.
proof fn lemma_rup_begins(id: Seq<char>, c: Constraint)
    ensures
        begins(crate::justifier::int_linear::rup_line(id, c), id),
{
    reveal_strlit(" rup ");
    let rest = c.pretty() + ";"@;
    lemma_begins(id, " rup "@, rest);
    assert(crate::justifier::int_linear::rup_line(id, c) =~= id + " rup "@ + rest);
}

/// The outcome of a justification that ends under the ID of the assertion
/// where it succeeds ends under that ID where it is settled as a success.
proof fn lemma_settle_under_id(
    step: (Ledger, Result<(), Failure>),
    id: Seq<char>,
    c: Constraint,
    family: Seq<char>,
)
    requires
        step.1 is Ok ==> step.0.out.len() > 0 && begins(step.0.out.last(), id),
        settle(step, id, c, family).1 is Ok,
    ensures
        settle(step, id, c, family).0.out.len() > 0,
        begins(settle(step, id, c, family).0.out.last(), id),
{
    lemma_bare_begins(id, c, family);
}

/// The justification of an `IntVarDef` assertion that succeeds ends with
/// the line that states the constraint.
proof fn lemma_int_var_def_ends(env: Env, ledger: Ledger, c: Constraint, id: Seq<char>)
    requires
        justify_int_var_def(env, ledger, c, id).1 is Ok,
    ensures
        justify_int_var_def(env, ledger, c, id).0.out.len() > 0,
        justify_int_var_def(env, ledger, c, id).0.out.last() == implied_line(id, c),
{
}

/// The justification of an `IntLinear` assertion that succeeds ends with
/// the line that states the constraint.
proof fn lemma_linear_ends(env: Env, ledger: Ledger, lin: Linear, c: Constraint, id: Seq<char>)
    requires
        justify_linear(env, ledger, lin, c, id).1 is Ok,
    ensures
        justify_linear(env, ledger, lin, c, id).0.out.len() > 0,
        justify_linear(env, ledger, lin, c, id).0.out.last()
            == crate::justifier::int_linear::rup_line(id, c),
{
}

/// A justified assertion stands under its ID: where the justification of an
/// assertion line succeeds, it writes at least one line, and the last line
/// that it writes begins with the ID of the assertion.
pub proof fn lemma_justified_under_id(env: Env, ledger: Ledger, line: Seq<char>)
    requires
        justify_line(env, ledger, line).1 is Ok,
    ensures
        read_assertion(line) is Ok,
        justify_line(env, ledger, line).0.out.len() > 0,
        begins(justify_line(env, ledger, line).0.out.last(), read_assertion(line)->Ok_0.id),
{
    reveal(justify_line);
    let a = read_assertion(line)->Ok_0;
    let c = a.constraint;
    match a.name {
        None => {
            lemma_plain_line_begins(line);
        },
        Some(raw) => {
            let family = family_name(raw);
            lemma_bare_begins(a.id, c, family);
            if family == "IntVarDef"@ {
                let step = justify_int_var_def(env, ledger, c, a.id);
                if step.1 is Ok {
                    lemma_int_var_def_ends(env, ledger, c, a.id);
                    lemma_implied_begins(a.id, c);
                }
                lemma_settle_under_id(step, a.id, c, family);
            } else if family == "IntLinear"@ {
                let (built, lin) = linear_new(env, ledger, a.antecedents);
                match lin {
                    Ok(lin) => {
                        let step = justify_linear(env, built, lin, c, a.id);
                        if step.1 is Ok {
                            lemma_linear_ends(env, built, lin, c, a.id);
                            lemma_rup_begins(a.id, c);
                        }
                        lemma_settle_under_id(step, a.id, c, family);
                    },
                    Err(e) => {},
                }
            }
        },
    }
}

/// Whether every assertion that is held back is held under its ID: its
/// line has the ID as its first word and `a` as its second.
pub open spec fn well_held(held: Map<Seq<char>, Seq<char>>) -> bool {
    forall|key: Seq<char>| #[trigger]
        held.contains_key(key) ==> split(held[key], ' ').len() >= 2 && split(held[key], ' ')[0]
            == key && split(held[key], ' ')[1] == "a"@ && !crate::justifier::is_pol_sign(key)
            && key.len() > 0 && key[0] == '@'
}

/// The first word of a line that begins with `@` begins with `@`, and is
/// none of `+`, `s` and `;`.
proof fn lemma_label_is_no_sign(line: Seq<char>)
    requires
        line.len() > 0,
        line[0] == '@',
    ensures
        split(line, ' ')[0].len() > 0,
        split(line, ' ')[0][0] == '@',
        !crate::justifier::is_pol_sign(split(line, ' ')[0]),
{
    lemma_split_nonempty(line, ' ');
    lemma_find_char(line, ' ');
    reveal_strlit("+");
    reveal_strlit("s");
    reveal_strlit(";");
    let first = split(line, ' ')[0];
    assert(first[0] == '@');
}

/// The operands of a `pol` line that are held back are justified before
/// the line is written: where the ledger is grounded and the look at the
/// operands succeeds, every operand under which an assertion was held is
/// introduced by a line that is written, and the assertions that are still
/// held are held under their IDs.
pub proof fn lemma_operands_justified(env: Env, desk: Desk, words: Seq<Seq<char>>, from: int)
    requires
        0 <= from,
        well_held(desk.held),
        grounded(env, desk.ledger),
        style_operands(env, desk, words, from).1 is Ok,
    ensures
        well_held(style_operands(env, desk, words, from).0.held),
        extends(style_operands(env, desk, words, from).0.ledger.out, desk.ledger.out),
        forall|i: int|
            from <= i < words.len() && desk.held.contains_key(#[trigger] words[i]) ==> introduces(
                style_operands(env, desk, words, from).0.ledger.out,
                words[i],
            ),
    decreases words.len() - from,
{
    assert(desk.ledger.out.take(desk.ledger.out.len() as int) =~= desk.ledger.out);
    if from < words.len() {
        let term = words[from];
        let end = style_operands(env, desk, words, from).0;
        if crate::justifier::is_pol_sign(term) {
            lemma_operands_justified(env, desk, words, from + 1);
            assert(!desk.held.contains_key(term));
        } else if !(term.len() > 0 && term[0] == '@') {
        } else if desk.held.contains_key(term) {
            let line = desk.held[term];
            let (ledger, r) = justify_line(env, desk.ledger, line);
            let next = Desk { ledger, held: desk.held.remove(term) };
            lemma_justified_under_id(env, desk.ledger, line);
            lemma_justify_grounded(env, desk.ledger, line);
            lemma_assertion_id(line);
            assert(begins(ledger.out.last(), term));
            assert(introduces(ledger.out, term)) by {
                assert(begins(ledger.out[ledger.out.len() - 1], term));
            }
            assert(well_held(next.held));
            lemma_operands_justified(env, next, words, from + 1);
            lemma_introduced_stays(ledger.out, end.ledger.out, term);
            assert forall|i: int|
                from <= i < words.len() && desk.held.contains_key(
                    #[trigger] words[i],
                ) implies introduces(end.ledger.out, words[i]) by {
                if words[i] != term {
                    assert(next.held.contains_key(words[i]));
                }
            }
            lemma_extends_twice(desk.ledger.out, ledger.out, end.ledger.out);
        } else {
            lemma_operands_justified(env, desk, words, from + 1);
        }
    }
}

/// One line of the proof keeps the held assertions under their IDs.
pub proof fn lemma_style_line_well_held(env: Env, cache: nat, desk: Desk, line: Seq<char>)
    requires
        well_held(desk.held),
    ensures
        well_held(style_line(env, cache, desk, line).0.held),
{
    if line.len() > 0 && line[0] == '@' {
        let words = split(line, ' ');
        lemma_label_is_no_sign(line);
        if words.len() >= 2 && (words[1] == "pol"@ || words[1] == "p"@) {
            lemma_operands_held(env, desk, words, 2);
        }
    }
}

/// The operands of a `pol` line keep the held assertions under their IDs.
proof fn lemma_operands_held(env: Env, desk: Desk, words: Seq<Seq<char>>, from: int)
    requires
        well_held(desk.held),
    ensures
        well_held(style_operands(env, desk, words, from).0.held),
    decreases words.len() - from,
{
    if !(from < 0 || from >= words.len()) {
        let term = words[from];
        if crate::justifier::is_pol_sign(term) {
            lemma_operands_held(env, desk, words, from + 1);
        } else if !(term.len() > 0 && term[0] == '@') {
        } else if desk.held.contains_key(term) {
            let (ledger, r) = justify_line(env, desk.ledger, desk.held[term]);
            let next = Desk { ledger, held: desk.held.remove(term) };
            assert(well_held(next.held));
            if r is Ok {
                lemma_operands_held(env, next, words, from + 1);
            }
        } else {
            lemma_operands_held(env, desk, words, from + 1);
        }
    }
}

/// Assertions come before their use: where the ledger is grounded, a `pol`
/// line of the proof whose operands are looked at without failure is
/// written as the last line, and every operand under which an assertion was
/// held is introduced by a line before it.
pub proof fn lemma_pol_line_after_assertions(env: Env, cache: nat, desk: Desk, line: Seq<char>)
    requires
        well_held(desk.held),
        grounded(env, desk.ledger),
        line.len() > 0,
        line[0] == '@',
        split(line, ' ').len() >= 2,
        split(line, ' ')[1] == "pol"@ || split(line, ' ')[1] == "p"@,
        style_operands(env, desk, split(line, ' '), 2).1 is Ok,
    ensures
        ({
            let after = style_line(env, cache, desk, line).0.ledger.out;
            &&& after.len() > 0
            &&& after.last() == line
            &&& forall|i: int|
                2 <= i < split(line, ' ').len() && desk.held.contains_key(
                    #[trigger] split(line, ' ')[i],
                ) ==> introduces(after.drop_last(), split(line, ' ')[i])
        }),
{
    let words = split(line, ' ');
    lemma_operands_justified(env, desk, words, 2);
    let before = style_operands(env, desk, words, 2).0.ledger;
    assert(before.write(line).out.drop_last() =~= before.out);
}

/// Whatever proof the justifier is given, the assertions that it holds
/// back are held under their IDs.
pub proof fn lemma_style_well_held(
    env: Env,
    cache: nat,
    desk: Desk,
    lines: Seq<Seq<char>>,
    from: int,
)
    requires
        well_held(desk.held),
    ensures
        well_held(style_from(env, cache, desk, lines, from).0.held),
    decreases lines.len() - from,
{
    if !(from < 0 || from >= lines.len()) {
        let (next, r) = style_line(env, cache, desk, lines[from]);
        lemma_style_line_well_held(env, cache, desk, lines[from]);
        if r is Ok {
            lemma_style_well_held(env, cache, next, lines, from + 1);
        }
    }
}

/// Before anything is written or held, the ledger is grounded and nothing
/// is held but under its ID.
pub proof fn lemma_start_is_in_order(env: Env)
    ensures
        grounded(env, start_desk().ledger),
        well_held(start_desk().held),
{
}

/// Definitions come first in every run: whatever proof the justifier is
/// given from the start, after the run every literal that counts as defined,
/// every variable that counts as bounded and every constraint that counts as
/// encoded has the lines that introduce it among the lines written.
pub proof fn lemma_run_is_grounded(env: Env, cache: nat, lines: Seq<Seq<char>>)
    ensures
        grounded(env, style_from(env, cache, start_desk(), lines, 0).0.ledger),
        well_held(style_from(env, cache, start_desk(), lines, 0).0.held),
{
    lemma_start_is_in_order(env);
    lemma_style_grounded(env, cache, start_desk(), lines, 0);
    lemma_style_well_held(env, cache, start_desk(), lines, 0);
}

/// The definition IDs of the literals `lits` from index `from` on.
pub open spec fn definition_ids(lits: Seq<Lit>, from: int) -> Seq<Seq<char>> {
    lits.skip(from).map_values(|l: Lit| definition_id(l))
}

/// Where no literal is passed over, the IDs that making sure of the
/// definitions of literals gives are the definition IDs of the literals and
/// those of their negations, one for each literal, in their order.
pub proof fn lemma_rest_gives_definition_ids(
    env: Env,
    ledger: Ledger,
    lits: Seq<Lit>,
    from: int,
    pos: Seq<Seq<char>>,
    neg: Seq<Seq<char>>,
)
    requires
        0 <= from <= lits.len(),
        ensure_rest(env, ledger, lits, true, from, pos, neg).1 is Ok,
    ensures
        ensure_rest(env, ledger, lits, true, from, pos, neg).1->Ok_0.0 == pos + definition_ids(
            lits,
            from,
        ),
        ensure_rest(env, ledger, lits, true, from, pos, neg).1->Ok_0.1 == neg + definition_ids(
            lits.map_values(|l: Lit| l.negation()),
            from,
        ),
    decreases lits.len() - from,
{
    let others = lits.map_values(|l: Lit| l.negation());
    if from < lits.len() {
        let (first, p) = ensure_lit(env, ledger, lits[from]);
        lemma_definition_written_once(env, ledger, lits[from]);
        let (second, n) = ensure_lit(env, first, lits[from].negation());
        lemma_definition_written_once(env, first, lits[from].negation());
        let p_id = definition_id(lits[from]);
        let n_id = definition_id(lits[from].negation());
        lemma_rest_gives_definition_ids(
            env,
            second,
            lits,
            from + 1,
            pos.push(p_id),
            neg.push(n_id),
        );
        assert(pos.push(p_id) + definition_ids(lits, from + 1) =~= pos + definition_ids(
            lits,
            from,
        ));
        assert(neg.push(n_id) + definition_ids(others, from + 1) =~= neg + definition_ids(
            others,
            from,
        ));
    } else {
        assert(pos + definition_ids(lits, from) =~= pos);
        assert(neg + definition_ids(others, from) =~= neg);
    }
}

/// Making sure of every literal of a constraint gives the definition IDs:
/// where no literal is passed over, a success gives, for each literal in
/// its order, its definition ID and that of its negation.
pub proof fn lemma_all_gives_definition_ids(env: Env, ledger: Ledger, lits: Seq<Lit>)
    requires
        ensure_all(env, ledger, lits, true).1 is Ok,
    ensures
        ensure_all(env, ledger, lits, true).1->Ok_0.0 == lits.map_values(
            |l: Lit| definition_id(l),
        ),
        ensure_all(env, ledger, lits, true).1->Ok_0.1 == lits.map_values(
            |l: Lit| definition_id(l.negation()),
        ),
{
    lemma_rest_gives_definition_ids(env, ledger, lits, 0, Seq::empty(), Seq::empty());
    let others = lits.map_values(|l: Lit| l.negation());
    assert(lits.skip(0) == lits);
    assert(others.skip(0) == others);
    assert(Seq::<Seq<char>>::empty() + definition_ids(lits, 0) =~= lits.map_values(
        |l: Lit| definition_id(l),
    ));
    assert(Seq::<Seq<char>>::empty() + definition_ids(others, 0) =~= lits.map_values(
        |l: Lit| definition_id(l.negation()),
    ));
}

} // verus!
