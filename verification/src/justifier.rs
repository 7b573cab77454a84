//! The justifier: it replaces the assertions of a trimmed proof by
//! derivations in the pseudo-Boolean proof format.

pub mod actions;
pub mod int_linear;
pub mod int_var_def;
pub mod laws;

use crate::cp_lit_map::CPLitMap;
use crate::decimal::{decimal, decimal_text};
use crate::fzn::FznModel;
use crate::justifier::actions::{ensure_all, Env, JustifierActions, Ledger};
use crate::justifier::int_linear::{justify_linear, linear_new, IntLinearJustifier};
use crate::justifier::int_var_def::{justify_int_var_def, IntVarDefJustifier};
use crate::pb::{parse, parse_failure, Constraint, PBConstraint};
use crate::stats::tally;
use crate::text::{
    chars_of,
    find_sub,
    find_sub_text,
    is_str,
    lines_of,
    push_str,
    push_text,
    slice_text,
    split,
    split_text,
    string_of,
    strip_end,
    strip_end_text,
    texts,
    trim,
    trim_text,
    lemma_split_nonempty,
};
use crate::{Failure, JustifierConfig, PBarberError, ProofFileStats};
use vstd::hash_map::StringHashMap;
use vstd::prelude::*;

verus! {

/// A `pol` line under construction: its text so far, whether it holds no
/// term yet, and the constraint IDs that its terms name.
pub struct PolLine {
    pub text: Seq<char>,
    pub empty: bool,
    pub terms: Seq<Seq<char>>,
}

impl PolLine {
    /// The line before any term.
    pub open spec fn start() -> PolLine {
        PolLine { text: "pol "@, empty: true, terms: Seq::empty() }
    }

    /// What stands before the next term: nothing before the first, ` + `
    /// before every other.
    pub open spec fn gap(self) -> Seq<char> {
        if self.empty {
            Seq::empty()
        } else {
            " + "@
        }
    }

    /// The line with one more term: the term and a space.
    pub open spec fn add(self, term: Seq<char>) -> PolLine {
        PolLine {
            text: self.text + self.gap() + term + " "@,
            empty: false,
            terms: self.terms.push(term),
        }
    }

    /// The line with one more term, multiplied by `weight`: the term, the
    /// weight and `*`, with a space after each.
    pub open spec fn add_weighted(self, term: Seq<char>, weight: int) -> PolLine {
        PolLine {
            text: self.text + self.gap() + term + " "@ + decimal(weight) + " * "@,
            empty: false,
            terms: self.terms.push(term),
        }
    }

    /// The line with the terms `terms` from index `from` on added.
    pub open spec fn add_from(self, terms: Seq<Seq<char>>, from: int) -> PolLine
        decreases terms.len() - from,
    {
        if from < 0 || from >= terms.len() {
            self
        } else {
            self.add(terms[from]).add_from(terms, from + 1)
        }
    }

    /// The line with all of `terms` added.
    pub open spec fn add_all(self, terms: Seq<Seq<char>>) -> PolLine {
        self.add_from(terms, 0)
    }

    /// The line with its end.
    pub open spec fn done(self) -> PolLine {
        PolLine { text: self.text + ";"@, ..self }
    }
}

/// Builds a `pol` line: the sum of the terms that are added to it.
pub struct PolBuilder {
    pol_line: String,
    empty: bool,
    terms: Ghost<Seq<Seq<char>>>,
}

impl View for PolBuilder {
    type V = PolLine;

    closed spec fn view(&self) -> PolLine {
        PolLine { text: self.pol_line@, empty: self.empty, terms: self.terms@ }
    }
}

impl PolBuilder {
    /// A builder without terms.
    pub fn new() -> (r: Self)
        ensures
            r@ == PolLine::start(),
    {
        PolBuilder { pol_line: String::from_str("pol "), empty: true, terms: Ghost(Seq::empty()) }
    }

    /// Ends the line, and gives its text.
    pub fn done(&mut self) -> (r: &str)
        ensures
            final(self)@ == old(self)@.done(),
            r@ == old(self)@.done().text,
    {
        self.pol_line.append(";");
        self.pol_line.as_str()
    }

    /// Adds the term `term`.
    pub fn add(&mut self, term: &String)
        ensures
            final(self)@ == old(self)@.add(term@),
    {
        if !self.empty {
            self.pol_line.append(" + ");
        }
        self.pol_line.append(term.as_str());
        self.pol_line.append(" ");
        self.empty = false;
        self.terms = Ghost(self.terms@.push(term@));
    }

    /// Adds all of `terms`, in their order.
    pub fn add_all(&mut self, terms: &Vec<String>)
        ensures
            final(self)@ == old(self)@.add_all(crate::text::lines_of(terms@)),
    {
        let mut i: usize = 0;
        let ghost all = crate::text::lines_of(terms@);
        while i < terms.len()
            invariant
                i <= terms.len(),
                all == crate::text::lines_of(terms@),
                old(self)@.add_all(all) == self@.add_from(all, i as int),
            decreases terms.len() - i,
        {
            proof {
                assert(all[i as int] == terms@[i as int]@);
            }
            self.add(&terms[i]);
            i += 1;
        }
    }

    /// Adds the term `term`, multiplied by `weight`.
    pub fn add_weighted(&mut self, term: &String, weight: u64)
        ensures
            final(self)@ == old(self)@.add_weighted(term@, weight as int),
    {
        if !self.empty {
            self.pol_line.append(" + ");
        }
        self.pol_line.append(term.as_str());
        self.pol_line.append(" ");
        let digits = string_of(&decimal_text(weight as i128));
        self.pol_line.append(digits.as_str());
        self.pol_line.append(" * ");
        self.empty = false;
        self.terms = Ghost(self.terms@.push(term@));
    }
}

/// The text `to_trim` without the semicolons at its end.
pub fn trim_sc(to_trim: &str) -> (r: &str)
    ensures
        r@ == strip_end(to_trim@, ';'),
{
    let text = chars_of(to_trim);
    let stripped = strip_end_text(&text, ';');
    proof {
        crate::text::lemma_strip_end_prefix(to_trim@, ';');
    }
    to_trim.substring_char(0, stripped.len())
}

/// The parts of an assertion line.
pub struct Assertion {
    /// The ID of the assertion.
    pub id: Seq<char>,
    /// The constraint that is asserted.
    pub constraint: Constraint,
    /// What stands between the first colon and the second.
    pub antecedents: Seq<char>,
    /// What stands between the second colon and the third, where there is a
    /// second colon.
    pub name: Option<Seq<char>>,
}

/// What is reported for a line that lacks a part.
pub open spec fn missing_part(part: Seq<char>, line: Seq<char>) -> Failure {
    Failure::ParseError { expected: part, found: line }
}

/// The parts of the assertion line `line`: before its first colon the ID
/// and, after ` a `, the constraint; then the antecedents, and the name of
/// the constraint family.
pub open spec fn read_assertion(line: Seq<char>) -> Result<Assertion, Failure> {
    let fields = split(line, ':');
    let head = fields[0];
    let k = find_sub(head, " a "@);
    if k >= head.len() {
        Err(missing_part(" a "@, line))
    } else {
        let text = head.skip(k + " a "@.len());
        match parse(text) {
            None => Err(parse_failure(text)),
            Some(constraint) => if fields.len() < 2 {
                Err(missing_part(":"@, line))
            } else {
                Ok(
                    Assertion {
                        id: head.take(k),
                        constraint,
                        antecedents: fields[1],
                        name: if fields.len() > 2 {
                            Some(fields[2])
                        } else {
                            None
                        },
                    },
                )
            },
        }
    }
}

/// The message of a failure that a justification recovers from.
pub open spec fn recoverable(e: Failure) -> Option<Seq<char>> {
    match e {
        Failure::JustificationError(m) => Some(m),
        Failure::LiteralLookupError(m) => Some(m),
        _ => None,
    }
}

/// The comment before an assertion whose justification failed.
pub open spec fn failed_comment(message: Seq<char>) -> Seq<char> {
    "% PBarber Justifier failed to justify the following: (error msg: "@ + message + ")"@
}

/// The comment before an assertion of a family that is not known.
pub open spec fn unknown_comment() -> Seq<char> {
    "% PBarber Justifier didn't know how to justify the following:"@
}

/// The assertion of `c` under `id`, with nothing but the name of its
/// family after it.
pub open spec fn bare_line(id: Seq<char>, c: Constraint, family: Seq<char>) -> Seq<char> {
    id + " a "@ + strip_end(c.pretty(), ';') + " :: "@ + family + " ;"@
}

/// The outcome of a justification: where it failed with a failure that is
/// recovered from, the comment that says so and the bare assertion are
/// written, and the outcome is a success.
pub open spec fn settle(
    step: (Ledger, Result<(), Failure>),
    id: Seq<char>,
    c: Constraint,
    family: Seq<char>,
) -> (Ledger, Result<(), Failure>) {
    match step.1 {
        Ok(_) => step,
        Err(e) => match recoverable(e) {
            Some(message) => (
                step.0.write(failed_comment(message)).write(bare_line(id, c, family)),
                Ok(()),
            ),
            None => step,
        },
    }
}

/// The family that the name field of an assertion gives.
pub open spec fn family_name(raw: Seq<char>) -> Seq<char> {
    strip_end(trim(raw), ';')
}

/// The justification of the assertion line `line`.
///
/// A line without a family is written as it is. An `IntVarDef` or
/// `IntLinear` assertion is replaced by its derivation; where that fails,
/// by a comment and the bare assertion. For a family that is not known, and
/// for a linear constraint that cannot be read, the definitions of the
/// assertion's literals are attempted, and a comment and the bare assertion
/// are written. A line that is no assertion with a constraint is a failure.
#[verifier::opaque]
pub open spec fn justify_line(env: Env, ledger: Ledger, line: Seq<char>) -> (
    Ledger,
    Result<(), Failure>,
) {
    match read_assertion(line) {
        Err(e) => (ledger, Err(e)),
        Ok(a) => match a.name {
            None => (ledger.write(line), Ok(())),
            Some(raw) => {
                let family = family_name(raw);
                if family == "IntVarDef"@ {
                    settle(
                        justify_int_var_def(env, ledger, a.constraint, a.id),
                        a.id,
                        a.constraint,
                        family,
                    )
                } else if family == "IntLinear"@ {
                    let (built, lin) = linear_new(env, ledger, a.antecedents);
                    match lin {
                        Ok(lin) => settle(
                            justify_linear(env, built, lin, a.constraint, a.id),
                            a.id,
                            a.constraint,
                            family,
                        ),
                        Err(e) => match recoverable(e) {
                            Some(message) => (
                                ensure_all(env, built, a.constraint.lits(), false).0.write(
                                    failed_comment(message),
                                ).write(bare_line(a.id, a.constraint, family)),
                                Ok(()),
                            ),
                            None => (built, Err(e)),
                        },
                    }
                } else {
                    (
                        ensure_all(env, ledger, a.constraint.lits(), false).0.write(
                            unknown_comment(),
                        ).write(bare_line(a.id, a.constraint, family)),
                        Ok(()),
                    )
                }
            },
        },
    }
}

/// What the justifier has written, and the assertions that it holds back.
pub struct Desk {
    pub ledger: Ledger,
    /// The assertion lines that wait for their first use, by their ID.
    pub held: Map<Seq<char>, Seq<char>>,
}

/// What is reported for a term of a `pol` line that is no constraint ID.
pub open spec fn bad_term(term: Seq<char>) -> Failure {
    Failure::UnexpectedLineStart { expected: "@"@, found: term }
}

/// Whether `word` is a word of a `pol` line that names no constraint.
pub open spec fn is_pol_sign(word: Seq<char>) -> bool {
    word == "+"@ || word == "s"@ || word == ";"@
}

/// The operands of a `pol` line from the word at `from` on: each
/// assertion that is held under the ID of an operand is justified, and
/// held no longer.
pub open spec fn style_operands(env: Env, desk: Desk, words: Seq<Seq<char>>, from: int) -> (
    Desk,
    Result<(), Failure>,
)
    decreases words.len() - from,
{
    if from < 0 || from >= words.len() {
        (desk, Ok(()))
    } else {
        let term = words[from];
        if is_pol_sign(term) {
            style_operands(env, desk, words, from + 1)
        } else if !(term.len() > 0 && term[0] == '@') {
            (desk, Err(bad_term(term)))
        } else if desk.held.contains_key(term) {
            let (ledger, r) = justify_line(env, desk.ledger, desk.held[term]);
            let next = Desk { ledger, held: desk.held.remove(term) };
            match r {
                Err(e) => (next, Err(e)),
                Ok(_) => style_operands(env, next, words, from + 1),
            }
        } else {
            style_operands(env, desk, words, from + 1)
        }
    }
}

/// What one line of the proof does.
///
/// A line without an ID is written as it is. A `pol` line has the held
/// assertions among its operands justified, and is written after them; a
/// term of it that is no constraint ID ends the look at its operands, and a
/// comment says so before the line. An assertion is held back for its first
/// use while fewer than `cache` assertions are held, and justified at once
/// otherwise. A line with an ID and any other rule is a failure.
pub open spec fn style_line(env: Env, cache: nat, desk: Desk, line: Seq<char>) -> (
    Desk,
    Result<(), Failure>,
) {
    if !(line.len() > 0 && line[0] == '@') {
        (Desk { ledger: desk.ledger.write(line), ..desk }, Ok(()))
    } else {
        let words = split(line, ' ');
        if words.len() < 2 {
            (desk, Err(Failure::UnknownRule(Seq::empty())))
        } else if words[1] == "pol"@ || words[1] == "p"@ {
            let (after, r) = style_operands(env, desk, words, 2);
            match r {
                Ok(_) => (Desk { ledger: after.ledger.write(line), ..after }, Ok(())),
                Err(Failure::UnexpectedLineStart { expected, found }) => (
                    Desk {
                        ledger: after.ledger.write(
                            failed_comment(
                                (Failure::UnexpectedLineStart { expected, found }).message(),
                            ),
                        ).write(line),
                        ..after
                    },
                    Ok(()),
                ),
                Err(e) => (after, Err(e)),
            }
        } else if words[1] == "a"@ {
            if desk.held.len() < cache {
                (Desk { held: desk.held.insert(words[0], line), ..desk }, Ok(()))
            } else {
                let (ledger, r) = justify_line(env, desk.ledger, line);
                (Desk { ledger, ..desk }, r)
            }
        } else {
            (desk, Err(Failure::UnknownRule(words[1])))
        }
    }
}

/// What the lines of the proof from index `from` on do, up to the first
/// failure.
pub open spec fn style_from(env: Env, cache: nat, desk: Desk, lines: Seq<Seq<char>>, from: int)
    -> (Desk, Result<(), Failure>)
    decreases lines.len() - from,
{
    if from < 0 || from >= lines.len() {
        (desk, Ok(()))
    } else {
        let (next, r) = style_line(env, cache, desk, lines[from]);
        match r {
            Err(e) => (next, Err(e)),
            Ok(_) => style_from(env, cache, next, lines, from + 1),
        }
    }
}

/// The number of lines that are read up to the first failure, the failing
/// line included.
pub open spec fn style_reads(env: Env, cache: nat, desk: Desk, lines: Seq<Seq<char>>, from: int)
    -> int
    decreases lines.len() - from,
{
    if from < 0 || from >= lines.len() {
        from
    } else {
        let (next, r) = style_line(env, cache, desk, lines[from]);
        match r {
            Err(e) => from + 1,
            Ok(_) => style_reads(env, cache, next, lines, from + 1),
        }
    }
}

/// Replaces the assertions of a proof by their derivations.
///
/// The lines of the proof are taken in the order of the proof: an
/// assertion stands before the lines that use it.
pub struct Justifier {
    lines: Vec<String>,
    next: usize,
    config: JustifierConfig,
    input_stats: ProofFileStats,
    lines_to_justify: StringHashMap<String>,
    actions: JustifierActions,
}

impl Justifier {
    /// The lines of the proof.
    pub closed spec fn lines(&self) -> Seq<Seq<char>> {
        lines_of(self.lines@)
    }

    /// The number of lines read.
    pub closed spec fn consumed(&self) -> int {
        self.next as int
    }

    /// What is read and never changed.
    pub closed spec fn env(&self) -> Env {
        self.actions.env()
    }

    /// The most assertions that are held back at a time.
    pub closed spec fn cache(&self) -> nat {
        self.config.max_line_cache as nat
    }

    /// What has been written, and the assertions that are held back.
    pub closed spec fn desk(&self) -> Desk {
        Desk { ledger: self.actions.ledger(), held: held_of(self.lines_to_justify@) }
    }

    /// The justifier is in order: it has read no more lines than there are,
    /// and where lines are counted, the counts are those of the lines read
    /// and of the lines written.
    pub closed spec fn wf(&self) -> bool {
        &&& self.next <= self.lines.len()
        &&& self.actions.wf()
        &&& self.config.justifier_stats == self.actions.env().stats
        &&& self.config.justifier_stats ==> self.input_stats@ == tally(
            self.lines().take(self.next as int),
        )
    }

    /// Whether lines are counted.
    pub closed spec fn counts(&self) -> bool {
        self.config.justifier_stats
    }

    /// A justifier for the proof `input`, with the settings that
    /// `JustifierConfig::default` gives.
    pub fn new(input: Vec<String>, fzn: FznModel, cp_lit_map: CPLitMap) -> (r: Self)
        ensures
            r.wf(),
            r.lines() == lines_of(input@),
            r.consumed() == 0,
            r.cache() == 0,
            !r.counts(),
            r.env() == (Env { fzn, lits: cp_lit_map@, stats: false }),
            r.desk() == start_desk(),
    {
        Self::with_config(input, fzn, cp_lit_map, JustifierConfig::default())
    }

    /// A justifier for the proof `input`.
    pub fn with_config(
        input: Vec<String>,
        fzn: FznModel,
        cp_lit_map: CPLitMap,
        config: JustifierConfig,
    ) -> (r: Self)
        ensures
            r.wf(),
            r.lines() == lines_of(input@),
            r.consumed() == 0,
            r.cache() == config.max_line_cache,
            r.counts() == config.justifier_stats,
            r.env() == (Env { fzn, lits: cp_lit_map@, stats: config.justifier_stats }),
            r.desk() == start_desk(),
    {
        let stats = config.justifier_stats;
        let r = Justifier {
            lines: input,
            next: 0,
            config,
            input_stats: ProofFileStats::default(),
            lines_to_justify: StringHashMap::new(),
            actions: JustifierActions::new(fzn, cp_lit_map, stats),
        };
        proof {
            assert(r.lines().take(0) =~= Seq::<Seq<char>>::empty());
            assert(held_of(r.lines_to_justify@) =~= Map::<Seq<char>, Seq<char>>::empty());
        }
        r
    }

    /// The lines written, first line first.
    pub fn output(&self) -> (r: &Vec<String>)
        ensures
            lines_of(r@) == self.desk().ledger.out,
    {
        self.actions.output()
    }

    /// The lines written, first line first.
    pub fn into_output(self) -> (r: Vec<String>)
        ensures
            lines_of(r@) == self.desk().ledger.out,
    {
        self.actions.into_output()
    }

    /// The next line of the proof, where there is one.
    fn next_line(&mut self) -> (r: Option<Vec<char>>)
        requires
            old(self).wf(),
        ensures
            final(self).wf(),
            final(self).lines() == old(self).lines(),
            final(self).env() == old(self).env(),
            final(self).cache() == old(self).cache(),
            final(self).counts() == old(self).counts(),
            final(self).desk() == old(self).desk(),
            match r {
                Some(line) => old(self).consumed() < old(self).lines().len() && line@
                    == old(self).lines()[old(self).consumed()] && final(self).consumed()
                    == old(self).consumed() + 1,
                None => old(self).consumed() == old(self).lines().len() && final(self).consumed()
                    == old(self).consumed(),
            },
    {
        if self.next >= self.lines.len() {
            return None;
        }
        let line = chars_of(self.lines[self.next].as_str());
        if self.config.justifier_stats {
            self.input_stats.record_line(self.lines[self.next].as_str());
        }
        proof {
            let upto = self.lines().take(self.next + 1);
            assert(upto.drop_last() == self.lines().take(self.next as int));
            assert(upto.last() == line@);
        }
        self.next = self.next + 1;
        Some(line)
    }

    /// Writes the assertion of `constraint` under `id` with nothing but the
    /// name of its family after it.
    fn write_bare_assertion(&mut self, constraint: &PBConstraint, id: &Vec<char>, family: &Vec<char>)
        requires
            old(self).wf(),
        ensures
            final(self).wf(),
            final(self).lines() == old(self).lines(),
            final(self).consumed() == old(self).consumed(),
            final(self).env() == old(self).env(),
            final(self).cache() == old(self).cache(),
            final(self).counts() == old(self).counts(),
            final(self).desk() == (Desk {
                ledger: old(self).desk().ledger.write(bare_line(id@, constraint@, family@)),
                ..old(self).desk()
            }),
    {
        let mut line: Vec<char> = Vec::new();
        push_text(&mut line, id);
        push_str(&mut line, " a ");
        push_text(&mut line, &strip_end_text(&constraint.pretty_text(), ';'));
        push_str(&mut line, " :: ");
        push_text(&mut line, family);
        push_str(&mut line, " ;");
        self.actions.write(&line);
    }

    /// Writes the comment that says that a justification failed, and the
    /// bare assertion after it.
    fn failed_to_justify(
        &mut self,
        constraint: &PBConstraint,
        id: &Vec<char>,
        family: &Vec<char>,
        message: &str,
    )
        requires
            old(self).wf(),
        ensures
            final(self).wf(),
            final(self).lines() == old(self).lines(),
            final(self).consumed() == old(self).consumed(),
            final(self).env() == old(self).env(),
            final(self).cache() == old(self).cache(),
            final(self).counts() == old(self).counts(),
            final(self).desk() == (Desk {
                ledger: old(self).desk().ledger.write(failed_comment(message@)).write(
                    bare_line(id@, constraint@, family@),
                ),
                ..old(self).desk()
            }),
    {
        let mut line: Vec<char> = Vec::new();
        push_str(&mut line, "% PBarber Justifier failed to justify the following: (error msg: ");
        push_str(&mut line, message);
        push_str(&mut line, ")");
        self.actions.write(&line);
        self.write_bare_assertion(constraint, id, family);
    }

    /// Settles the outcome of a justification.
    fn settle(
        &mut self,
        outcome: Result<(), PBarberError>,
        constraint: &PBConstraint,
        id: &Vec<char>,
        family: &Vec<char>,
        Ghost(step): Ghost<(Ledger, Result<(), Failure>)>,
    ) -> (r: Result<(), PBarberError>)
        requires
            old(self).wf(),
            old(self).desk().ledger == step.0,
            match outcome {
                Ok(_) => step.1 == Ok::<(), Failure>(()),
                Err(e) => step.1 == Err::<(), Failure>(e@),
            },
        ensures
            final(self).wf(),
            final(self).lines() == old(self).lines(),
            final(self).consumed() == old(self).consumed(),
            final(self).env() == old(self).env(),
            final(self).cache() == old(self).cache(),
            final(self).counts() == old(self).counts(),
            final(self).desk() == (Desk {
                ledger: settle(step, id@, constraint@, family@).0,
                ..old(self).desk()
            }),
            match r {
                Ok(_) => settle(step, id@, constraint@, family@).1 == Ok::<(), Failure>(()),
                Err(e) => settle(step, id@, constraint@, family@).1 == Err::<(), Failure>(e@),
            },
    {
        match outcome {
            Ok(_) => Ok(()),
            Err(PBarberError::JustificationError(m)) => {
                self.failed_to_justify(constraint, id, family, m.as_str());
                Ok(())
            },
            Err(PBarberError::LiteralLookupError(m)) => {
                self.failed_to_justify(constraint, id, family, m.as_str());
                Ok(())
            },
            Err(e) => Err(e),
        }
    }

    /// Justifies the assertion line `line`.
    fn justify(&mut self, line: &Vec<char>) -> (r: Result<(), PBarberError>)
        requires
            old(self).wf(),
        ensures
            final(self).wf(),
            final(self).lines() == old(self).lines(),
            final(self).consumed() == old(self).consumed(),
            final(self).env() == old(self).env(),
            final(self).cache() == old(self).cache(),
            final(self).counts() == old(self).counts(),
            final(self).desk() == (Desk {
                ledger: justify_line(old(self).env(), old(self).desk().ledger, line@).0,
                ..old(self).desk()
            }),
            match r {
                Ok(_) => justify_line(old(self).env(), old(self).desk().ledger, line@).1 == Ok::<
                    (),
                    Failure,
                >(()),
                Err(e) => justify_line(old(self).env(), old(self).desk().ledger, line@).1 == Err::<
                    (),
                    Failure,
                >(e@),
            },
    {
        proof {
            reveal(justify_line);
        }
        let fields = split_text(line, ':');
        proof {
            lemma_split_nonempty(line@, ':');
            assert(texts(fields@)[0] == fields@[0]@);
        }
        let head = &fields[0];
        let mark = chars_of(" a ");
        let k = find_sub_text(head, &mark);
        if k >= head.len() {
            return Err(
                PBarberError::ParseError { expected: string_of(&mark), found: string_of(line) },
            );
        }
        let text = slice_text(head, k + mark.len(), head.len());
        proof {
            assert(text@ == head@.skip(k + " a "@.len()));
        }
        let constraint = match PBConstraint::parse(&text) {
            Ok(c) => c,
            Err(e) => {
                return Err(e);
            },
        };
        if fields.len() < 2 {
            return Err(
                PBarberError::ParseError {
                    expected: string_of(&chars_of(":")),
                    found: string_of(line),
                },
            );
        }
        let id = slice_text(head, 0, k);
        proof {
            assert(id@ == head@.take(k as int));
            assert(texts(fields@)[1] == fields@[1]@);
        }
        if fields.len() < 3 {
            self.actions.write(line);
            return Ok(());
        }
        proof {
            assert(texts(fields@)[2] == fields@[2]@);
        }
        let family = strip_end_text(&trim_text(&fields[2]), ';');
        let id_text = string_of(&id);
        if is_str(&family, "IntVarDef") {
            let ghost step = justify_int_var_def(
                self.env(),
                self.desk().ledger,
                constraint@,
                id@,
            );
            let justifier = IntVarDefJustifier {  };
            let outcome = justifier.justify(&mut self.actions, &constraint, id_text.as_str());
            self.settle(outcome, &constraint, &id, &family, Ghost(step))
        } else if is_str(&family, "IntLinear") {
            let antecedents = string_of(&fields[1]);
            match IntLinearJustifier::new(&mut self.actions, antecedents.as_str()) {
                Ok(justifier) => {
                    let ghost step = justify_linear(
                        self.env(),
                        self.desk().ledger,
                        justifier@,
                        constraint@,
                        id@,
                    );
                    let outcome = justifier.justify(
                        &mut self.actions,
                        &constraint,
                        id_text.as_str(),
                    );
                    self.settle(outcome, &constraint, &id, &family, Ghost(step))
                },
                Err(PBarberError::JustificationError(m)) => {
                    let lits = constraint.get_constraint_lits();
                    let _ = self.actions.ensure_all_lits_defined(&lits, false);
                    self.failed_to_justify(&constraint, &id, &family, m.as_str());
                    Ok(())
                },
                Err(PBarberError::LiteralLookupError(m)) => {
                    let lits = constraint.get_constraint_lits();
                    let _ = self.actions.ensure_all_lits_defined(&lits, false);
                    self.failed_to_justify(&constraint, &id, &family, m.as_str());
                    Ok(())
                },
                Err(e) => Err(e),
            }
        } else {
            let lits = constraint.get_constraint_lits();
            let _ = self.actions.ensure_all_lits_defined(&lits, false);
            self.actions.write(
                &chars_of("% PBarber Justifier didn't know how to justify the following:"),
            );
            self.write_bare_assertion(&constraint, &id, &family);
            Ok(())
        }
    }

    /// Looks at the operands of a `pol` line.
    fn style_terms(&mut self, words: &Vec<Vec<char>>) -> (r: Result<(), PBarberError>)
        requires
            old(self).wf(),
        ensures
            final(self).wf(),
            final(self).lines() == old(self).lines(),
            final(self).consumed() == old(self).consumed(),
            final(self).env() == old(self).env(),
            final(self).cache() == old(self).cache(),
            final(self).counts() == old(self).counts(),
            final(self).desk() == style_operands(
                old(self).env(),
                old(self).desk(),
                texts(words@),
                2,
            ).0,
            match r {
                Ok(_) => style_operands(old(self).env(), old(self).desk(), texts(words@), 2).1
                    == Ok::<(), Failure>(()),
                Err(e) => style_operands(old(self).env(), old(self).desk(), texts(words@), 2).1
                    == Err::<(), Failure>(e@),
            },
    {
        let mut i: usize = 2;
        let ghost all = texts(words@);
        while i < words.len()
            invariant
                2 <= i,
                all == texts(words@),
                self.wf(),
                self.lines() == old(self).lines(),
                self.consumed() == old(self).consumed(),
                self.env() == old(self).env(),
                self.cache() == old(self).cache(),
                self.counts() == old(self).counts(),
                style_operands(old(self).env(), old(self).desk(), all, 2) == style_operands(
                    self.env(),
                    self.desk(),
                    all,
                    i as int,
                ),
            decreases words.len() - i,
        {
            let term = &words[i];
            proof {
                assert(all[i as int] == term@);
            }
            if is_str(term, "+") || is_str(term, "s") || is_str(term, ";") {
            } else if !(term.len() > 0 && term[0] == '@') {
                return Err(
                    PBarberError::UnexpectedLineStart {
                        expected: string_of(&chars_of("@")),
                        found: string_of(term),
                    },
                );
            } else {
                let key = string_of(term);
                let ghost before = self.lines_to_justify@;
                proof {
                    lemma_held_get(before, key@);
                }
                let held: Option<Vec<char>> = match self.lines_to_justify.get(key.as_str()) {
                    Some(line) => Some(chars_of(line.as_str())),
                    None => None,
                };
                match held {
                    Some(line) => {
                        self.lines_to_justify.remove(key.as_str());
                        proof {
                            lemma_held_remove(before, key@);
                        }
                        match self.justify(&line) {
                            Ok(_) => {},
                            Err(e) => {
                                return Err(e);
                            },
                        }
                    },
                    None => {},
                }
            }
            i += 1;
        }
        Ok(())
    }

    /// Does what one line of the proof asks for.
    fn style_one(&mut self, line: &Vec<char>) -> (r: Result<(), PBarberError>)
        requires
            old(self).wf(),
        ensures
            final(self).wf(),
            final(self).lines() == old(self).lines(),
            final(self).consumed() == old(self).consumed(),
            final(self).env() == old(self).env(),
            final(self).cache() == old(self).cache(),
            final(self).counts() == old(self).counts(),
            final(self).desk() == style_line(
                old(self).env(),
                old(self).cache(),
                old(self).desk(),
                line@,
            ).0,
            match r {
                Ok(_) => style_line(old(self).env(), old(self).cache(), old(self).desk(), line@).1
                    == Ok::<(), Failure>(()),
                Err(e) => style_line(old(self).env(), old(self).cache(), old(self).desk(), line@).1
                    == Err::<(), Failure>(e@),
            },
    {
        if !(line.len() > 0 && line[0] == '@') {
            self.actions.write(line);
            return Ok(());
        }
        let words = split_text(line, ' ');
        proof {
            lemma_split_nonempty(line@, ' ');
            assert(texts(words@)[0] == words@[0]@);
        }
        if words.len() < 2 {
            return Err(PBarberError::UnknownRule(String::new()));
        }
        proof {
            assert(texts(words@)[1] == words@[1]@);
        }
        let rule = &words[1];
        if is_str(rule, "pol") || is_str(rule, "p") {
            match self.style_terms(&words) {
                Ok(_) => {
                    self.actions.write(line);
                    Ok(())
                },
                Err(PBarberError::UnexpectedLineStart { expected, found }) => {
                    let e = PBarberError::UnexpectedLineStart { expected, found };
                    let message = e.message();
                    let mut comment: Vec<char> = Vec::new();
                    push_str(
                        &mut comment,
                        "% PBarber Justifier failed to justify the following: (error msg: ",
                    );
                    push_str(&mut comment, message.as_str());
                    push_str(&mut comment, ")");
                    self.actions.write(&comment);
                    self.actions.write(line);
                    Ok(())
                },
                Err(e) => Err(e),
            }
        } else if is_str(rule, "a") {
            proof {
                lemma_held_insert(self.lines_to_justify@, words@[0]@, line@);
            }
            if self.lines_to_justify.len() < self.config.max_line_cache {
                self.lines_to_justify.insert(string_of(&words[0]), string_of(line));
                Ok(())
            } else {
                self.justify(line)
            }
        } else {
            Err(PBarberError::UnknownRule(string_of(rule)))
        }
    }

    /// Justifies the proof: every line that has not been read yet is read,
    /// up to the first failure, and what it asks for is done.
    ///
    /// Where lines are counted, a success gives the counts of the lines
    /// read and of the lines written.
    pub fn style(&mut self) -> (r: Result<Option<(ProofFileStats, ProofFileStats)>, PBarberError>)
        requires
            old(self).wf(),
        ensures
            final(self).wf(),
            final(self).lines() == old(self).lines(),
            final(self).env() == old(self).env(),
            final(self).cache() == old(self).cache(),
            final(self).counts() == old(self).counts(),
            final(self).desk() == style_from(
                old(self).env(),
                old(self).cache(),
                old(self).desk(),
                old(self).lines(),
                old(self).consumed(),
            ).0,
            final(self).consumed() == style_reads(
                old(self).env(),
                old(self).cache(),
                old(self).desk(),
                old(self).lines(),
                old(self).consumed(),
            ),
            match r {
                Ok(counts) => style_from(
                    old(self).env(),
                    old(self).cache(),
                    old(self).desk(),
                    old(self).lines(),
                    old(self).consumed(),
                ).1 == Ok::<(), Failure>(()) && match counts {
                    Some((read, written)) => old(self).counts() && read@ == tally(
                        old(self).lines(),
                    ) && written@ == tally(final(self).desk().ledger.out),
                    None => !old(self).counts(),
                },
                Err(e) => style_from(
                    old(self).env(),
                    old(self).cache(),
                    old(self).desk(),
                    old(self).lines(),
                    old(self).consumed(),
                ).1 == Err::<(), Failure>(e@),
            },
    {
        loop
            invariant_except_break
                self.wf(),
                self.lines() == old(self).lines(),
                self.env() == old(self).env(),
                self.cache() == old(self).cache(),
                self.counts() == old(self).counts(),
                style_from(
                    old(self).env(),
                    old(self).cache(),
                    old(self).desk(),
                    old(self).lines(),
                    old(self).consumed(),
                ) == style_from(
                    self.env(),
                    self.cache(),
                    self.desk(),
                    self.lines(),
                    self.consumed(),
                ),
                style_reads(
                    old(self).env(),
                    old(self).cache(),
                    old(self).desk(),
                    old(self).lines(),
                    old(self).consumed(),
                ) == style_reads(
                    self.env(),
                    self.cache(),
                    self.desk(),
                    self.lines(),
                    self.consumed(),
                ),
            ensures
                self.wf(),
                self.lines() == old(self).lines(),
                self.env() == old(self).env(),
                self.cache() == old(self).cache(),
                self.counts() == old(self).counts(),
                self.consumed() == self.lines().len(),
                self.consumed() == style_reads(
                    old(self).env(),
                    old(self).cache(),
                    old(self).desk(),
                    old(self).lines(),
                    old(self).consumed(),
                ),
                style_from(
                    old(self).env(),
                    old(self).cache(),
                    old(self).desk(),
                    old(self).lines(),
                    old(self).consumed(),
                ) == (self.desk(), Ok::<(), Failure>(())),
            decreases self.lines().len() - self.consumed(),
        {
            match self.next_line() {
                None => {
                    break ;
                },
                Some(line) => match self.style_one(&line) {
                    Ok(_) => {},
                    Err(e) => {
                        return Err(e);
                    },
                },
            }
        }
        if self.config.justifier_stats {
            proof {
                assert(self.lines().take(self.next as int) == self.lines());
            }
            Ok(Some((self.input_stats.clone(), self.actions.output_stats().clone())))
        } else {
            Ok(None)
        }
    }
}

impl crate::ProofReader for Justifier {
    closed spec fn pending(&self) -> Seq<Seq<char>> {
        self.lines().skip(self.consumed())
    }

    closed spec fn written(&self) -> Seq<Seq<char>> {
        self.desk().ledger.out
    }

    closed spec fn counts_lines(&self) -> bool {
        self.config.justifier_stats
    }

    closed spec fn in_order(&self) -> bool {
        self.wf()
    }

    fn has_stats(&self) -> (r: bool) {
        self.config.justifier_stats
    }

    fn next_line(&mut self) -> (r: Option<String>) {
        proof {
            if self.next < self.lines.len() {
                assert(self.lines().skip(self.next as int)[0] == self.lines()[self.next as int]);
                assert(self.lines().skip(self.next as int).skip(1) == self.lines().skip(
                    self.next + 1,
                ));
            }
        }
        match Justifier::next_line(self) {
            Some(line) => Some(string_of(&line)),
            None => None,
        }
    }

    fn write_line(&mut self, content: &str) {
        self.actions.write(&chars_of(content));
    }
}

/// The assertion lines that are held back, as sequences of characters.
pub open spec fn held_of(m: Map<Seq<char>, String>) -> Map<Seq<char>, Seq<char>> {
    m.map_values(|line: String| line@)
}

/// The desk before anything is written or held.
pub open spec fn start_desk() -> Desk {
    Desk {
        ledger: Ledger {
            out: Seq::empty(),
            defined: Set::empty(),
            bounded: Set::empty(),
            encoded: Set::empty(),
        },
        held: Map::empty(),
    }
}

proof fn lemma_held_get(m: Map<Seq<char>, String>, key: Seq<char>)
    ensures
        held_of(m).contains_key(key) == m.contains_key(key),
        m.contains_key(key) ==> held_of(m)[key] == m[key]@,
{
}

proof fn lemma_held_remove(m: Map<Seq<char>, String>, key: Seq<char>)
    ensures
        held_of(m.remove(key)) == held_of(m).remove(key),
{
    assert(held_of(m.remove(key)) =~= held_of(m).remove(key));
}

proof fn lemma_held_insert(m: Map<Seq<char>, String>, key: Seq<char>, line: Seq<char>)
    ensures
        forall|s: String| s@ == line ==> held_of(#[trigger] m.insert(key, s)) == held_of(m).insert(key, line),
        held_of(m).len() == m.len(),
{
    assert forall|s: String| s@ == line implies held_of(#[trigger] m.insert(key, s)) == held_of(
        m,
    ).insert(key, line) by {
        assert(held_of(m.insert(key, s)) =~= held_of(m).insert(key, line));
    }
    assert(held_of(m).dom() =~= m.dom());
}

} // verus!
