//! Trimming and justifying the proof logs of a constraint-programming
//! solver, so that they can be verified as pseudo-Boolean proofs.
//!
//! A solver that finds a constraint program unsatisfiable writes a proof
//! log: a pseudo-Boolean proof whose assertions state what the solver's
//! constraints imply. This library makes such a log smaller and makes its
//! assertions follow from the lines before them.
//!
//! - [`trimmer`] keeps the lines that the contradiction rests on.
//! - [`justifier`] replaces each assertion that is used by a derivation:
//!   the definitions of its literals over the bits of the solver's integer
//!   variables, and the steps from them to the assertion.
//! - [`pipeline`] does both in one go.
//! - [`pb`] reads and writes pseudo-Boolean constraints, [`cp_lit_map`] and
//!   [`fzn`] hold what the solver says of its literals and of its model,
//!   and [`bits`] is the bit encoding of an integer variable.
//! - [`text`] and [`decimal`] are the text primitives underneath, and
//!   [`stats`] counts the lines of a proof.
//!
//! Every function comes with the spec function that says what it computes.
//! The passes over a proof are specified by what they do line by line, on
//! the state that they keep: [`trimmer::trim_all`] and
//! [`justifier::style_from`]. What holds of every run is proved in
//! [`trimmer::laws`] and [`justifier::laws`].

pub mod bits;
pub mod cp_lit_map;
pub mod decimal;
pub mod fzn;
pub mod justifier;
pub mod pb;
pub mod pipeline;
pub mod stats;
pub mod text;
pub mod trimmer;

use crate::decimal::push_decimal;
use crate::stats::{
    bumped,
    count_family,
    entries_of,
    family_of_line,
    names_text,
    rule_of_line,
    tally_assertion,
    tally_line,
    tally_text,
    Tally,
};
use crate::text::{chars_of, has_prefix, is_str, push_str, starts_with, string_of};
use vstd::prelude::*;

verus! {

/// What can go wrong while a proof is trimmed or justified.
#[derive(Debug)]
pub enum PBarberError {
    /// A stream could not be read or written.
    Io(String),
    /// A line, or a term of one, does not start as the grammar asks.
    UnexpectedLineStart { expected: String, found: String },
    /// A line carries no usable constraint ID.
    MalformedConstraintId(String),
    /// A labelled line names a rule that is not handled.
    UnknownRule(String),
    /// The library found itself in a state that it should never reach.
    Internal(String),
    /// The proof does not end in a conclusion.
    MissingConclusion,
    /// A constraint does not follow the constraint grammar.
    ParseError { expected: String, found: String },
    /// An assertion could not be justified; the justifier recovers from it.
    JustificationError(String),
    /// A literal has no entry in the literal map.
    LiteralLookupError(String),
}

/// A `PBarberError` with its texts as sequences of characters.
pub enum Failure {
    Io(Seq<char>),
    UnexpectedLineStart { expected: Seq<char>, found: Seq<char> },
    MalformedConstraintId(Seq<char>),
    UnknownRule(Seq<char>),
    Internal(Seq<char>),
    MissingConclusion,
    ParseError { expected: Seq<char>, found: Seq<char> },
    JustificationError(Seq<char>),
    LiteralLookupError(Seq<char>),
}

impl View for PBarberError {
    type V = Failure;

    open spec fn view(&self) -> Failure {
        match self {
            PBarberError::Io(m) => Failure::Io(m@),
            PBarberError::UnexpectedLineStart { expected, found } => Failure::UnexpectedLineStart {
                expected: expected@,
                found: found@,
            },
            PBarberError::MalformedConstraintId(m) => Failure::MalformedConstraintId(m@),
            PBarberError::UnknownRule(m) => Failure::UnknownRule(m@),
            PBarberError::Internal(m) => Failure::Internal(m@),
            PBarberError::MissingConclusion => Failure::MissingConclusion,
            PBarberError::ParseError { expected, found } => Failure::ParseError {
                expected: expected@,
                found: found@,
            },
            PBarberError::JustificationError(m) => Failure::JustificationError(m@),
            PBarberError::LiteralLookupError(m) => Failure::LiteralLookupError(m@),
        }
    }
}

impl Failure {
    /// The sentence that describes the failure to a user.
    pub open spec fn message(self) -> Seq<char> {
        match self {
            Failure::Io(m) => "IO error: "@ + m,
            Failure::UnexpectedLineStart { expected, found } => "Expected line to start with `"@
                + expected + "`, got `"@ + found + "`"@,
            Failure::MalformedConstraintId(m) => "Missing or malformed constraint ID in line: "@
                + m,
            Failure::UnknownRule(m) => "Unknown rule encountered: "@ + m,
            Failure::Internal(m) => "Internal logic error: "@ + m,
            Failure::MissingConclusion => "Missing proof conclusion"@,
            Failure::ParseError { expected, found } => "Parse error: expected `"@ + expected
                + "`, got `"@ + found + "`"@,
            Failure::JustificationError(m) => "Justification error: "@ + m,
            Failure::LiteralLookupError(m) => "Justification error: "@ + m,
        }
    }
}

impl PBarberError {
    /// The sentence that describes the error to a user.
    pub fn message(&self) -> (r: String)
        ensures
            r@ == self@.message(),
    {
        let mut t: Vec<char> = Vec::new();
        match self {
            PBarberError::Io(m) => {
                push_str(&mut t, "IO error: ");
                push_str(&mut t, m.as_str());
            },
            PBarberError::UnexpectedLineStart { expected, found } => {
                push_str(&mut t, "Expected line to start with `");
                push_str(&mut t, expected.as_str());
                push_str(&mut t, "`, got `");
                push_str(&mut t, found.as_str());
                push_str(&mut t, "`");
            },
            PBarberError::MalformedConstraintId(m) => {
                push_str(&mut t, "Missing or malformed constraint ID in line: ");
                push_str(&mut t, m.as_str());
            },
            PBarberError::UnknownRule(m) => {
                push_str(&mut t, "Unknown rule encountered: ");
                push_str(&mut t, m.as_str());
            },
            PBarberError::Internal(m) => {
                push_str(&mut t, "Internal logic error: ");
                push_str(&mut t, m.as_str());
            },
            PBarberError::MissingConclusion => {
                push_str(&mut t, "Missing proof conclusion");
            },
            PBarberError::ParseError { expected, found } => {
                push_str(&mut t, "Parse error: expected `");
                push_str(&mut t, expected.as_str());
                push_str(&mut t, "`, got `");
                push_str(&mut t, found.as_str());
                push_str(&mut t, "`");
            },
            PBarberError::JustificationError(m) => {
                push_str(&mut t, "Justification error: ");
                push_str(&mut t, m.as_str());
            },
            PBarberError::LiteralLookupError(m) => {
                push_str(&mut t, "Justification error: ");
                push_str(&mut t, m.as_str());
            },
        }
        string_of(&t)
    }
}

/// How a proof is trimmed.
pub struct TrimmerConfig {
    /// Delete every constraint right after its last use.
    pub eager_deletion: bool,
    /// Count the lines read and written.
    pub stats: bool,
    /// Delete the definitions of the literals of each kept assertion.
    pub lit_deletion: bool,
}

impl TrimmerConfig {
    /// The settings without the deletion of literal definitions, which is
    /// of no use in a proof whose assertions are not justified.
    pub fn without_lit_deletion(self) -> (r: Self)
        ensures
            r == (TrimmerConfig { lit_deletion: false, ..self }),
    {
        TrimmerConfig { lit_deletion: false, ..self }
    }
}

impl Default for TrimmerConfig {
    fn default() -> (r: Self)
        ensures
            !r.eager_deletion,
            !r.stats,
            !r.lit_deletion,
    {
        TrimmerConfig { eager_deletion: false, stats: false, lit_deletion: false }
    }
}

/// How a proof is justified.
pub struct JustifierConfig {
    /// The proof's lines come first line first.
    pub read_forwards: bool,
    /// Count the lines read and written.
    pub justifier_stats: bool,
    /// How many assertions are held back at most, each until its first use.
    pub max_line_cache: usize,
}

impl Default for JustifierConfig {
    fn default() -> (r: Self)
        ensures
            !r.read_forwards,
            !r.justifier_stats,
            r.max_line_cache == 0,
    {
        JustifierConfig { read_forwards: false, justifier_stats: false, max_line_cache: 0 }
    }
}

/// The lines of a proof, counted by their rule.
pub struct ProofFileStats {
    pub total_lines: u64,
    pub pol_lines: u64,
    pub red_lines: u64,
    pub a_lines: u64,
    pub del_lines: u64,
    /// The assertions by constraint family, in the order in which the
    /// families were first met.
    pub a_lines_by_name: Vec<(String, u64)>,
}

/// The counts of one proof beside those of another.
pub struct ProofFileStatsComparison<'a> {
    current: &'a ProofFileStats,
    reference: &'a ProofFileStats,
}

impl View for ProofFileStats {
    type V = Tally;

    open spec fn view(&self) -> Tally {
        Tally {
            total: self.total_lines as int,
            pol: self.pol_lines as int,
            red: self.red_lines as int,
            assertions: self.a_lines as int,
            del: self.del_lines as int,
            by_name: entries_of(self.a_lines_by_name@),
        }
    }
}

impl Default for ProofFileStats {
    fn default() -> (r: Self)
        ensures
            r@ == crate::stats::no_tally(),
    {
        let r = ProofFileStats {
            total_lines: 0,
            pol_lines: 0,
            red_lines: 0,
            a_lines: 0,
            del_lines: 0,
            a_lines_by_name: Vec::new(),
        };
        assert(entries_of(r.a_lines_by_name@) =~= Seq::empty());
        r
    }
}

impl Clone for ProofFileStats {
    fn clone(&self) -> (r: Self)
        ensures
            r@ == self@,
    {
        let mut names: Vec<(String, u64)> = Vec::new();
        let mut i: usize = 0;
        while i < self.a_lines_by_name.len()
            invariant
                i <= self.a_lines_by_name.len(),
                entries_of(names@) == entries_of(self.a_lines_by_name@).take(i as int),
            decreases self.a_lines_by_name.len() - i,
        {
            let ghost before = names@;
            let name = self.a_lines_by_name[i].0.clone();
            names.push((name, self.a_lines_by_name[i].1));
            proof {
                let all = entries_of(self.a_lines_by_name@);
                assert(entries_of(before) == all.take(i as int));
                assert forall|j: int| 0 <= j < i + 1 implies entries_of(names@)[j] == all.take(
                    i + 1,
                )[j] by {
                    if j < i {
                        assert(names@[j] == before[j]);
                        assert(entries_of(before)[j] == all.take(i as int)[j]);
                    }
                }
                assert(entries_of(names@) =~= all.take(i + 1));
            }
            i += 1;
        }
        proof {
            assert(entries_of(self.a_lines_by_name@).take(i as int) == entries_of(
                self.a_lines_by_name@,
            ));
        }
        ProofFileStats {
            total_lines: self.total_lines,
            pol_lines: self.pol_lines,
            red_lines: self.red_lines,
            a_lines: self.a_lines,
            del_lines: self.del_lines,
            a_lines_by_name: names,
        }
    }
}

impl ProofFileStats {
    /// Counts the line `line`.
    pub fn record_line(&mut self, line: &str)
        ensures
            final(self)@ == tally_line(old(self)@, line@),
    {
        let text = chars_of(line);
        self.total_lines = bumped(self.total_lines);
        match rule_of_line(&text) {
            None => {},
            Some(rule) => {
                if is_str(&rule, "a") {
                    self.record_assertion(line);
                } else if is_str(&rule, "red") {
                    self.red_lines = bumped(self.red_lines);
                } else if is_str(&rule, "pol") || is_str(&rule, "p") {
                    self.pol_lines = bumped(self.pol_lines);
                } else if is_str(&rule, "del") {
                    self.del_lines = bumped(self.del_lines);
                }
            },
        }
    }

    /// Counts the assertion line `line`, by its constraint family too where
    /// it names one.
    pub fn record_assertion(&mut self, line: &str)
        ensures
            final(self)@ == tally_assertion(old(self)@, line@),
    {
        let text = chars_of(line);
        self.a_lines = bumped(self.a_lines);
        match family_of_line(&text) {
            Some(name) => {
                count_family(&mut self.a_lines_by_name, &name);
            },
            None => {},
        }
    }

    /// These counts beside the counts `other`.
    pub fn compared_to<'a>(&'a self, other: &'a ProofFileStats) -> (r: ProofFileStatsComparison<
        'a,
    >)
        ensures
            r.current() == self,
            r.reference() == other,
    {
        ProofFileStatsComparison { current: self, reference: other }
    }

    /// The text of the counts: one line for each count, then one for each
    /// constraint family.
    pub fn render(&self) -> (r: String)
        ensures
            r@ == tally_text(self@),
    {
        let mut t: Vec<char> = Vec::new();
        push_str(&mut t, "Total lines: ");
        push_decimal(&mut t, self.total_lines as i128);
        push_str(&mut t, "\nAssertion lines: ");
        push_decimal(&mut t, self.a_lines as i128);
        push_str(&mut t, "\nPol lines: ");
        push_decimal(&mut t, self.pol_lines as i128);
        push_str(&mut t, "\nRed lines: ");
        push_decimal(&mut t, self.red_lines as i128);
        push_str(&mut t, "\nDel lines: ");
        push_decimal(&mut t, self.del_lines as i128);
        push_str(&mut t, "\nAssertion lines by name:\n");
        let ghost head = t@;
        let ghost entries = entries_of(self.a_lines_by_name@);
        let mut i: usize = 0;
        while i < self.a_lines_by_name.len()
            invariant
                i <= self.a_lines_by_name.len(),
                entries == entries_of(self.a_lines_by_name@),
                t@ == head + names_text(entries.take(i as int)),
            decreases self.a_lines_by_name.len() - i,
        {
            proof {
                let upto = entries.take(i + 1);
                assert(upto.drop_last() == entries.take(i as int));
                assert(upto.last() == (
                    self.a_lines_by_name@[i as int].0@,
                    self.a_lines_by_name@[i as int].1 as int,
                ));
            }
            push_str(&mut t, " \u{221f} `");
            push_str(&mut t, self.a_lines_by_name[i].0.as_str());
            push_str(&mut t, "`: ");
            push_decimal(&mut t, self.a_lines_by_name[i].1 as i128);
            push_str(&mut t, "\n");
            i += 1;
        }
        proof {
            assert(entries.take(i as int) == entries);
        }
        string_of(&t)
    }
}

impl<'a> ProofFileStatsComparison<'a> {
    /// The counts that are compared.
    pub closed spec fn current(&self) -> &ProofFileStats {
        self.current
    }

    /// The counts that they are compared to.
    pub closed spec fn reference(&self) -> &ProofFileStats {
        self.reference
    }

    /// The counts that are compared.
    pub fn current_stats(&self) -> (r: &'a ProofFileStats)
        ensures
            r == self.current(),
    {
        self.current
    }

    /// The counts that they are compared to.
    pub fn reference_stats(&self) -> (r: &'a ProofFileStats)
        ensures
            r == self.reference(),
    {
        self.reference
    }
}

/// A pass over a proof: it reads the lines of the proof one by one, and
/// writes lines.
pub trait ProofReader {
    /// The lines that have not been read yet, in the order in which they
    /// will be.
    spec fn pending(&self) -> Seq<Seq<char>>;

    /// The lines written, in the order in which they were.
    spec fn written(&self) -> Seq<Seq<char>>;

    /// Whether lines are counted.
    spec fn counts_lines(&self) -> bool;

    /// Whether the pass is in order.
    spec fn in_order(&self) -> bool;

    /// Whether lines are counted.
    fn has_stats(&self) -> (r: bool)
        ensures
            r == self.counts_lines(),
    ;

    /// Reads the next line, where there is one.
    fn next_line(&mut self) -> (r: Option<String>)
        requires
            old(self).in_order(),
        ensures
            final(self).in_order(),
            final(self).written() == old(self).written(),
            final(self).counts_lines() == old(self).counts_lines(),
            match r {
                Some(line) => old(self).pending().len() > 0 && line@ == old(self).pending()[0]
                    && final(self).pending() == old(self).pending().skip(1),
                None => old(self).pending().len() == 0 && final(self).pending() == old(
                    self,
                ).pending(),
            },
    ;

    /// Writes one line.
    fn write_line(&mut self, content: &str)
        requires
            old(self).in_order(),
        ensures
            final(self).in_order(),
            final(self).written() == old(self).written().push(content@),
            final(self).pending() == old(self).pending(),
            final(self).counts_lines() == old(self).counts_lines(),
    ;

    /// Makes sure that `line` starts with `pattern`.
    fn assert_starts_with(&self, line: &String, pattern: &str) -> (r: Result<(), PBarberError>)
        ensures
            match r {
                Ok(_) => has_prefix(line@, pattern@),
                Err(e) => !has_prefix(line@, pattern@) && e@ == (Failure::UnexpectedLineStart {
                    expected: pattern@,
                    found: line@,
                }),
            },
    {
        let text = chars_of(line.as_str());
        let start = chars_of(pattern);
        if starts_with(&text, &start) {
            Ok(())
        } else {
            Err(
                PBarberError::UnexpectedLineStart {
                    expected: string_of(&start),
                    found: string_of(&text),
                },
            )
        }
    }
}

} // verus!
