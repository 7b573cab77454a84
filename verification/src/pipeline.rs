//! Trimming and justifying in one go.

use crate::cp_lit_map::CPLitMap;
use crate::fzn::FznModel;
use crate::justifier::actions::Env;
use crate::justifier::{start_desk, style_from, Justifier};
use crate::stats::tally;
use crate::text::lines_of;
use crate::trimmer::{start_shears, trim_all, Trimmer};
use crate::{Failure, JustifierConfig, PBarberError, ProofFileStats, TrimmerConfig};
use vstd::prelude::*;

verus! {

/// The lines in the opposite order.
pub fn reverse_lines(lines: &Vec<String>) -> (r: Vec<String>)
    ensures
        lines_of(r@) == lines_of(lines@).reverse(),
{
    let mut r: Vec<String> = Vec::new();
    let mut i: usize = lines.len();
    let ghost all = lines_of(lines@);
    while i > 0
        invariant
            i <= lines.len(),
            all == lines_of(lines@),
            r.len() == lines.len() - i,
            forall|j: int| 0 <= j < r.len() ==> (#[trigger] r@[j])@ == all[all.len() - 1 - j],
        decreases i,
    {
        i -= 1;
        r.push(lines[i].clone());
    }
    proof {
        assert(lines_of(r@) =~= all.reverse());
    }
    r
}

/// Reversing twice gives the lines back.
pub proof fn lemma_reverse_twice(lines: Seq<Seq<char>>)
    ensures
        lines.reverse().reverse() == lines,
{
    assert(lines.reverse().reverse() =~= lines);
}

/// What trimming writes for the proof `input`, given last line first, and
/// how it ends.
pub open spec fn trimmed(config: TrimmerConfig, input: Seq<Seq<char>>) -> (
    Seq<Seq<char>>,
    Result<(), Failure>,
) {
    let (shears, r) = trim_all(config, start_shears(), input, 0);
    (shears.out, r)
}

/// What justifying writes for the proof `input`, given first line first,
/// and how it ends.
pub open spec fn styled(env: Env, cache: nat, input: Seq<Seq<char>>) -> (
    Seq<Seq<char>>,
    Result<(), Failure>,
) {
    let (desk, r) = style_from(env, cache, start_desk(), input, 0);
    (desk.ledger.out, r)
}

/// What trimming and then justifying write for the proof `input`, given
/// last line first, and how they end: what the trimmer writes, where it
/// fails; otherwise what the justifier writes for the lines that the
/// trimmer wrote, taken in the opposite order.
pub open spec fn trimmed_and_styled(
    config: TrimmerConfig,
    env: Env,
    cache: nat,
    input: Seq<Seq<char>>,
) -> (Seq<Seq<char>>, Result<(), Failure>) {
    match trimmed(config, input).1 {
        Err(e) => trimmed(config, input),
        Ok(_) => styled(env, cache, trimmed(config, input).0.reverse()),
    }
}

/// Trims the proof `input`, given last line first, and justifies what is
/// left of it. The lines written, first line first, are put in `out`; where
/// trimming fails, `out` holds what the trimmer wrote.
///
/// Where the justifier counts lines, a success gives the counts of the
/// lines that it read and of those that it wrote.
pub fn trim_and_style(
    input: Vec<String>,
    trimmer_config: TrimmerConfig,
    fzn: FznModel,
    cp_lit_map: CPLitMap,
    justifier_config: JustifierConfig,
    out: &mut Vec<String>,
) -> (r: Result<Option<(ProofFileStats, ProofFileStats)>, PBarberError>)
    ensures
        ({
            let env = Env { fzn, lits: cp_lit_map@, stats: justifier_config.justifier_stats };
            let cache = justifier_config.max_line_cache as nat;
            let all = trimmed_and_styled(trimmer_config, env, cache, lines_of(input@));
            &&& lines_of(final(out)@) == all.0
            &&& match r {
                Ok(counts) => all.1 == Ok::<(), Failure>(()) && match counts {
                    Some((read, written)) => justifier_config.justifier_stats && read@ == tally(
                        trimmed(trimmer_config, lines_of(input@)).0.reverse(),
                    ) && written@ == tally(all.0),
                    None => !justifier_config.justifier_stats,
                },
                Err(e) => all.1 == Err::<(), Failure>(e@),
            }
        }),
{
    let mut trimmer = Trimmer::with_config(input, trimmer_config);
    match trimmer.trim() {
        Ok(_) => {},
        Err(e) => {
            *out = trimmer.into_output();
            return Err(e);
        },
    }
    let kept = reverse_lines(trimmer.output());
    let mut justifier = Justifier::with_config(kept, fzn, cp_lit_map, justifier_config);
    let r = justifier.style();
    *out = justifier.into_output();
    r
}

} // verus!
