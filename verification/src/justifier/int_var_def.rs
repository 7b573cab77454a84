//! The justification of an `IntVarDef` assertion: the sum of the
//! definitions of its literals implies it.

use crate::justifier::actions::{ensure_all, Env, JustifierActions, Ledger};
use crate::justifier::{PolBuilder, PolLine};
use crate::pb::{Constraint, PBConstraint};
use crate::text::{chars_of, push_str, push_text, string_of, strings_of, strip_end, strip_end_text};
use crate::{Failure, PBarberError};
use vstd::prelude::*;

verus! {

/// The line that states the constraint `c` under `id` as implied by the
/// step before it.
pub open spec fn implied_line(id: Seq<char>, c: Constraint) -> Seq<char> {
    id + " ia "@ + strip_end(c.pretty(), ';') + " : -1;"@
}

/// What is reported for an `IntVarDef` assertion with too many literals.
pub open spec fn too_many_lits() -> Failure {
    Failure::JustificationError("IntVarDef with more than 2 lits"@)
}

/// The justification of the `IntVarDef` assertion of `c` under `id`.
///
/// Every literal of `c` and its negation are defined first; a literal that
/// the literal map does not know ends the justification. Then a `pol` line
/// sums the definitions of the literals, and a line states `c` as implied.
/// A constraint with more than two literals is not justified.
pub open spec fn justify_int_var_def(env: Env, ledger: Ledger, c: Constraint, id: Seq<char>) -> (
    Ledger,
    Result<(), Failure>,
) {
    let (defined, ids) = ensure_all(env, ledger, c.lits(), true);
    match ids {
        Err(e) => (defined, Err(e)),
        Ok((pos, _)) => if pos.len() > 2 {
            (defined, Err(too_many_lits()))
        } else {
            (
                defined.write(PolLine::start().add_all(pos).done().text).write(
                    implied_line(id, c),
                ),
                Ok(()),
            )
        },
    }
}

/// The justifier of `IntVarDef` assertions.
pub struct IntVarDefJustifier {}

impl IntVarDefJustifier {
    /// Writes the justification of the assertion of `constraint` under
    /// `id_str`.
    pub fn justify(&self, actions: &mut JustifierActions, constraint: &PBConstraint, id_str: &str)
        -> (r: Result<(), PBarberError>)
        requires
            old(actions).wf(),
        ensures
            final(actions).wf(),
            final(actions).env() == old(actions).env(),
            final(actions).ledger() == justify_int_var_def(
                old(actions).env(),
                old(actions).ledger(),
                constraint@,
                id_str@,
            ).0,
            match r {
                Ok(_) => justify_int_var_def(
                    old(actions).env(),
                    old(actions).ledger(),
                    constraint@,
                    id_str@,
                ).1 == Ok::<(), Failure>(()),
                Err(e) => justify_int_var_def(
                    old(actions).env(),
                    old(actions).ledger(),
                    constraint@,
                    id_str@,
                ).1 == Err::<(), Failure>(e@),
            },
    {
        let lits = constraint.get_constraint_lits();
        let pos = match actions.ensure_all_lits_defined(&lits, true) {
            Ok((pos, _)) => pos,
            Err(e) => {
                return Err(e);
            },
        };
        if pos.len() > 2 {
            return Err(
                PBarberError::JustificationError(
                    string_of(&chars_of("IntVarDef with more than 2 lits")),
                ),
            );
        }
        let ids = strings_of(&pos);
        let mut pol = PolBuilder::new();
        pol.add_all(&ids);
        let pol_line = chars_of(pol.done());
        actions.write(&pol_line);
        let mut line: Vec<char> = Vec::new();
        push_str(&mut line, id_str);
        push_str(&mut line, " ia ");
        let pretty = strip_end_text(&constraint.pretty_text(), ';');
        push_text(&mut line, &pretty);
        push_str(&mut line, " : -1;");
        actions.write(&line);
        Ok(())
    }
}

} // verus!
