//! The trimmer: it keeps the lines of a proof that the contradiction rests
//! on, and adds the deletions that keep small what has to be held in memory
//! while the proof is verified.

pub mod laws;

use crate::justifier::is_pol_sign;
use crate::stats::tally;
use crate::text::{
    chars_of,
    has_prefix,
    is_str,
    lines_of,
    push_str,
    push_text,
    slice_text,
    split,
    split_text,
    starts_with_str,
    string_of,
    strip_end,
    strip_end_text,
    texts,
    trim,
    trim_text,
    lemma_split_nonempty,
};
use crate::{Failure, PBarberError, ProofFileStats, TrimmerConfig};
use vstd::hash_set::StringHashSet;
use vstd::prelude::*;

verus! {

/// What the trimmer has written and what it has marked.
pub struct Shears {
    /// The lines written, in the order in which they were written.
    pub out: Seq<Seq<char>>,
    /// The IDs of the constraints that the contradiction rests on, as far
    /// as they are known.
    pub live: Set<Seq<char>>,
    /// The IDs that the proof deletes, each to be deleted after its last
    /// use.
    pub deferred: Set<Seq<char>>,
    /// The variables whose definitions were deleted.
    pub seen: Set<Seq<char>>,
}

impl Shears {
    /// The state after one more line.
    pub open spec fn write(self, line: Seq<char>) -> Shears {
        Shears { out: self.out.push(line), ..self }
    }
}

/// The state before anything is written or marked.
pub open spec fn start_shears() -> Shears {
    Shears { out: Seq::empty(), live: Set::empty(), deferred: Set::empty(), seen: Set::empty() }
}

/// The ID that a conclusion line names: what stands after its first colon,
/// up to the next semicolon, without the white space around it.
pub open spec fn conclusion_id(line: Seq<char>) -> Option<Seq<char>> {
    let fields = split(line, ':');
    if fields.len() < 2 {
        None
    } else {
        Some(trim(split(fields[1], ';')[0]))
    }
}

/// What is reported for a line that does not start with `expected`.
pub open spec fn wrong_start(expected: Seq<char>, line: Seq<char>) -> Failure {
    Failure::UnexpectedLineStart { expected, found: line }
}

/// What the end of the proof does, which is read first: the three lines
/// from index `from` on are the end of the proof, the conclusion and the
/// output. Each is written, and the constraint that the conclusion names is
/// marked.
pub open spec fn trim_header(shears: Shears, lines: Seq<Seq<char>>, from: int) -> (
    Shears,
    Result<(), Failure>,
) {
    if from < 0 || from >= lines.len() || !has_prefix(lines[from], "end pseudo-Boolean"@) {
        (shears, Err(Failure::MissingConclusion))
    } else {
        let ended = shears.write(lines[from]);
        if from + 1 >= lines.len() {
            (ended, Err(Failure::MissingConclusion))
        } else if !has_prefix(lines[from + 1], "conclusion UNSAT"@) {
            (ended, Err(wrong_start("conclusion UNSAT"@, lines[from + 1])))
        } else {
            let concluded = ended.write(lines[from + 1]);
            match conclusion_id(lines[from + 1]) {
                None => (concluded, Err(Failure::MalformedConstraintId(lines[from + 1]))),
                Some(id) => {
                    let marked = Shears { live: concluded.live.insert(id), ..concluded };
                    if from + 2 >= lines.len() {
                        (marked, Err(Failure::MissingConclusion))
                    } else if !has_prefix(lines[from + 2], "output"@) {
                        (marked, Err(wrong_start("output"@, lines[from + 2])))
                    } else {
                        (marked.write(lines[from + 2]), Ok(()))
                    }
                },
            }
        }
    }
}

/// The line that deletes the constraint `id`.
pub open spec fn deletion_line(id: Seq<char>) -> Seq<char> {
    "del id "@ + id + " ;"@
}

/// What the operands of a kept `pol` line do, from the word at `from` on:
/// an operand that is not marked yet is marked, and this being its last
/// use, it is deleted where every constraint is, or where the proof
/// deletes it.
pub open spec fn trim_operands(
    config: TrimmerConfig,
    shears: Shears,
    words: Seq<Seq<char>>,
    from: int,
) -> (Shears, Result<(), Failure>)
    decreases words.len() - from,
{
    if from < 0 || from >= words.len() {
        (shears, Ok(()))
    } else {
        let term = words[from];
        if is_pol_sign(term) {
            trim_operands(config, shears, words, from + 1)
        } else if !(term.len() > 0 && term[0] == '@') {
            (shears, Err(wrong_start("@"@, term)))
        } else if shears.live.contains(term) {
            trim_operands(config, shears, words, from + 1)
        } else {
            let deleted = if config.eager_deletion || shears.deferred.contains(term) {
                shears.write(deletion_line(term))
            } else {
                shears
            };
            trim_operands(
                config,
                Shears { live: deleted.live.insert(term), ..deleted },
                words,
                from + 1,
            )
        }
    }
}

/// The variable that a word of a constraint names: the word without a `~`
/// at its start.
pub open spec fn variable_of(word: Seq<char>) -> Seq<char> {
    if word.len() > 0 && word[0] == '~' {
        word.skip(1)
    } else {
        word
    }
}

/// What the words of a kept assertion do, from the word at `from` up to
/// its `>=`: each variable that starts with `x` and was not met before has
/// the two definitions of its literals deleted.
pub open spec fn trim_literals(shears: Shears, words: Seq<Seq<char>>, from: int) -> Shears
    decreases words.len() - from,
{
    if from < 0 || from >= words.len() || words[from] == ">="@ {
        shears
    } else {
        let var = variable_of(words[from]);
        if !(var.len() > 0 && var[0] == 'x') || shears.seen.contains(var) {
            trim_literals(shears, words, from + 1)
        } else {
            trim_literals(
                Shears {
                    out: shears.out.push(deletion_line("@lf"@ + var)).push(
                        deletion_line("@lr"@ + var),
                    ),
                    seen: shears.seen.insert(var),
                    ..shears
                },
                words,
                from + 1,
            )
        }
    }
}

/// What a line with a constraint ID does: where its ID is marked, the line
/// is kept, after what its rule asks for; where it is not, nothing is
/// done.
pub open spec fn trim_labelled(config: TrimmerConfig, shears: Shears, line: Seq<char>) -> (
    Shears,
    Result<(), Failure>,
) {
    let words = split(line, ' ');
    if !shears.live.contains(words[0]) {
        (shears, Ok(()))
    } else if words.len() < 2 {
        (shears, Err(Failure::UnknownRule(Seq::empty())))
    } else if words[1] == "pol"@ || words[1] == "p"@ {
        let (after, r) = trim_operands(config, shears, words, 2);
        match r {
            Err(e) => (after, Err(e)),
            Ok(_) => (after.write(line), Ok(())),
        }
    } else if words[1] == "a"@ {
        if config.lit_deletion {
            (trim_literals(shears, words, 0).write(line), Ok(()))
        } else {
            (shears.write(line), Ok(()))
        }
    } else {
        (shears, Err(Failure::UnknownRule(words[1])))
    }
}

/// What a deletion of the proof does: where every constraint is deleted
/// after its last use anyway, nothing; otherwise the first ID that it names
/// is noted for deletion after its last use. A deletion that names no ID is
/// written as it is.
pub open spec fn trim_deletion(config: TrimmerConfig, shears: Shears, line: Seq<char>) -> Shears {
    let words = split(line, ' ');
    if config.eager_deletion {
        shears
    } else if words.len() < 3 {
        shears.write(line)
    } else {
        Shears { deferred: shears.deferred.insert(strip_end(words[2], ';')), ..shears }
    }
}

/// What one line of the proof does, after the end of the proof was read.
///
/// A line with a constraint ID is kept where its ID is marked. A deletion
/// is noted. Every other line, the preamble among them, is written as it
/// is.
pub open spec fn trim_line(config: TrimmerConfig, shears: Shears, line: Seq<char>) -> (
    Shears,
    Result<(), Failure>,
) {
    if line.len() > 0 && line[0] == '@' {
        trim_labelled(config, shears, line)
    } else if has_prefix(line, "del id"@) {
        (trim_deletion(config, shears, line), Ok(()))
    } else {
        (shears.write(line), Ok(()))
    }
}

/// What the lines from index `from` on do, up to the first failure.
pub open spec fn trim_from(config: TrimmerConfig, shears: Shears, lines: Seq<Seq<char>>, from: int)
    -> (Shears, Result<(), Failure>)
    decreases lines.len() - from,
{
    if from < 0 || from >= lines.len() {
        (shears, Ok(()))
    } else {
        let (next, r) = trim_line(config, shears, lines[from]);
        match r {
            Err(e) => (next, Err(e)),
            Ok(_) => trim_from(config, next, lines, from + 1),
        }
    }
}

/// What trimming does to the lines from index `from` on, which begin with
/// the end of the proof.
pub open spec fn trim_all(config: TrimmerConfig, shears: Shears, lines: Seq<Seq<char>>, from: int)
    -> (Shears, Result<(), Failure>) {
    let (headed, r) = trim_header(shears, lines, from);
    match r {
        Err(e) => (headed, Err(e)),
        Ok(_) => trim_from(config, headed, lines, from + 3),
    }
}

/// Trims a proof.
///
/// The lines of the proof are taken last line first, and the lines that
/// are kept are written in that order too.
pub struct Trimmer {
    marked_for_output: StringHashSet,
    marked_for_deletion: StringHashSet,
    lits_seen: StringHashSet,
    lines: Vec<String>,
    next: usize,
    out: Vec<String>,
    config: TrimmerConfig,
    input_stats: ProofFileStats,
    output_stats: ProofFileStats,
}

impl Trimmer {
    /// The lines of the proof, last line first.
    pub closed spec fn lines(&self) -> Seq<Seq<char>> {
        lines_of(self.lines@)
    }

    /// The number of lines read.
    pub closed spec fn consumed(&self) -> int {
        self.next as int
    }

    /// How the proof is trimmed.
    pub closed spec fn config(&self) -> TrimmerConfig {
        self.config
    }

    /// What has been written and marked.
    pub closed spec fn shears(&self) -> Shears {
        Shears {
            out: lines_of(self.out@),
            live: self.marked_for_output@,
            deferred: self.marked_for_deletion@,
            seen: self.lits_seen@,
        }
    }

    /// The trimmer is in order: it has read no more lines than there are,
    /// and where lines are counted, the counts are those of the lines read
    /// and of the lines written.
    pub closed spec fn wf(&self) -> bool {
        &&& self.next <= self.lines.len()
        &&& self.config.stats ==> self.input_stats@ == tally(self.lines().take(self.next as int))
        &&& self.config.stats ==> self.output_stats@ == tally(lines_of(self.out@))
    }

    /// A trimmer for the proof `input`, with the settings that
    /// `TrimmerConfig::default` gives.
    pub fn new(input: Vec<String>) -> (r: Self)
        ensures
            r.wf(),
            r.lines() == lines_of(input@),
            r.consumed() == 0,
            r.shears() == start_shears(),
            !r.config().eager_deletion,
            !r.config().stats,
            !r.config().lit_deletion,
    {
        Self::with_config(input, TrimmerConfig::default())
    }

    /// A trimmer for the proof `input`.
    pub fn with_config(input: Vec<String>, config: TrimmerConfig) -> (r: Self)
        ensures
            r.wf(),
            r.lines() == lines_of(input@),
            r.consumed() == 0,
            r.shears() == start_shears(),
            r.config() == config,
    {
        let r = Trimmer {
            marked_for_output: StringHashSet::new(),
            marked_for_deletion: StringHashSet::new(),
            lits_seen: StringHashSet::new(),
            lines: input,
            next: 0,
            out: Vec::new(),
            config,
            input_stats: ProofFileStats::default(),
            output_stats: ProofFileStats::default(),
        };
        proof {
            assert(r.lines().take(0) =~= Seq::<Seq<char>>::empty());
            assert(lines_of(r.out@) =~= Seq::<Seq<char>>::empty());
        }
        r
    }

    /// The lines written, in the order in which they were written.
    pub fn output(&self) -> (r: &Vec<String>)
        ensures
            lines_of(r@) == self.shears().out,
    {
        &self.out
    }

    /// The lines written, in the order in which they were written.
    pub fn into_output(self) -> (r: Vec<String>)
        ensures
            lines_of(r@) == self.shears().out,
    {
        self.out
    }

    /// The next line of the proof, where there is one.
    fn next_line(&mut self) -> (r: Option<Vec<char>>)
        requires
            old(self).wf(),
        ensures
            final(self).wf(),
            final(self).lines() == old(self).lines(),
            final(self).config() == old(self).config(),
            final(self).shears() == old(self).shears(),
            match r {
                Some(line) => old(self).consumed() < old(self).lines().len() && line@
                    == old(self).lines()[old(self).consumed()] && final(self).consumed()
                    == old(self).consumed() + 1,
                None => old(self).consumed() >= old(self).lines().len() && final(self).consumed()
                    == old(self).consumed(),
            },
    {
        if self.next >= self.lines.len() {
            return None;
        }
        let line = chars_of(self.lines[self.next].as_str());
        if self.config.stats {
            self.input_stats.record_line(self.lines[self.next].as_str());
        }
        proof {
            let upto = self.lines().take(self.next + 1);
            assert(upto.drop_last() == self.lines().take(self.next as int));
            assert(upto.last() == line@);
        }
        self.next = self.next + 1;
        Some(line)
    }

    /// Writes one line.
    fn write_line(&mut self, content: &Vec<char>)
        requires
            old(self).wf(),
        ensures
            final(self).wf(),
            final(self).lines() == old(self).lines(),
            final(self).consumed() == old(self).consumed(),
            final(self).config() == old(self).config(),
            final(self).shears() == old(self).shears().write(content@),
    {
        let line = string_of(content);
        if self.config.stats {
            self.output_stats.record_line(line.as_str());
        }
        let ghost before = self.out@;
        self.out.push(line);
        proof {
            assert(lines_of(self.out@) =~= lines_of(before).push(content@));
            assert(lines_of(self.out@).drop_last() == lines_of(before));
        }
    }

    /// Writes the line that deletes the constraint `id`.
    fn write_deletion(&mut self, prefix: &str, id: &Vec<char>)
        requires
            old(self).wf(),
        ensures
            final(self).wf(),
            final(self).lines() == old(self).lines(),
            final(self).consumed() == old(self).consumed(),
            final(self).config() == old(self).config(),
            final(self).shears() == old(self).shears().write(deletion_line(prefix@ + id@)),
    {
        let mut line: Vec<char> = Vec::new();
        push_str(&mut line, "del id ");
        push_str(&mut line, prefix);
        push_text(&mut line, id);
        push_str(&mut line, " ;");
        proof {
            assert(line@ == "del id "@ + (prefix@ + id@) + " ;"@);
        }
        self.write_line(&line);
    }

    /// Reads the end of the proof.
    fn trim_end_of_proof(&mut self) -> (r: Result<(), PBarberError>)
        requires
            old(self).wf(),
        ensures
            final(self).wf(),
            final(self).lines() == old(self).lines(),
            final(self).config() == old(self).config(),
            final(self).shears() == trim_header(
                old(self).shears(),
                old(self).lines(),
                old(self).consumed(),
            ).0,
            match r {
                Ok(_) => trim_header(old(self).shears(), old(self).lines(), old(self).consumed()).1
                    == Ok::<(), Failure>(()) && final(self).consumed() == old(self).consumed() + 3,
                Err(e) => trim_header(old(self).shears(), old(self).lines(), old(self).consumed()).1
                    == Err::<(), Failure>(e@),
            },
    {
        let first = match self.next_line() {
            Some(line) => line,
            None => {
                return Err(PBarberError::MissingConclusion);
            },
        };
        if !starts_with_str(&first, "end pseudo-Boolean") {
            return Err(PBarberError::MissingConclusion);
        }
        self.write_line(&first);
        let second = match self.next_line() {
            Some(line) => line,
            None => {
                return Err(PBarberError::MissingConclusion);
            },
        };
        if !starts_with_str(&second, "conclusion UNSAT") {
            return Err(
                PBarberError::UnexpectedLineStart {
                    expected: string_of(&chars_of("conclusion UNSAT")),
                    found: string_of(&second),
                },
            );
        }
        self.write_line(&second);
        let fields = split_text(&second, ':');
        if fields.len() < 2 {
            return Err(PBarberError::MalformedConstraintId(string_of(&second)));
        }
        proof {
            assert(texts(fields@)[1] == fields@[1]@);
        }
        let parts = split_text(&fields[1], ';');
        proof {
            lemma_split_nonempty(fields@[1]@, ';');
            assert(texts(parts@)[0] == parts@[0]@);
        }
        let id = trim_text(&parts[0]);
        self.marked_for_output.insert(string_of(&id));
        let third = match self.next_line() {
            Some(line) => line,
            None => {
                return Err(PBarberError::MissingConclusion);
            },
        };
        if !starts_with_str(&third, "output") {
            return Err(
                PBarberError::UnexpectedLineStart {
                    expected: string_of(&chars_of("output")),
                    found: string_of(&third),
                },
            );
        }
        self.write_line(&third);
        Ok(())
    }

    /// Marks the operands of a kept `pol` line.
    fn trim_terms(&mut self, words: &Vec<Vec<char>>) -> (r: Result<(), PBarberError>)
        requires
            old(self).wf(),
        ensures
            final(self).wf(),
            final(self).lines() == old(self).lines(),
            final(self).consumed() == old(self).consumed(),
            final(self).config() == old(self).config(),
            final(self).shears() == trim_operands(
                old(self).config(),
                old(self).shears(),
                texts(words@),
                2,
            ).0,
            match r {
                Ok(_) => trim_operands(old(self).config(), old(self).shears(), texts(words@), 2).1
                    == Ok::<(), Failure>(()),
                Err(e) => trim_operands(old(self).config(), old(self).shears(), texts(words@), 2).1
                    == Err::<(), Failure>(e@),
            },
    {
        let mut i: usize = 2;
        let ghost all = texts(words@);
        while i < words.len()
            invariant
                2 <= i,
                all == texts(words@),
                self.wf(),
                self.lines() == old(self).lines(),
                self.consumed() == old(self).consumed(),
                self.config() == old(self).config(),
                trim_operands(old(self).config(), old(self).shears(), all, 2) == trim_operands(
                    self.config(),
                    self.shears(),
                    all,
                    i as int,
                ),
            decreases words.len() - i,
        {
            let term = &words[i];
            proof {
                assert(all[i as int] == term@);
            }
            if is_str(term, "+") || is_str(term, "s") || is_str(term, ";") {
            } else if !(term.len() > 0 && term[0] == '@') {
                return Err(
                    PBarberError::UnexpectedLineStart {
                        expected: string_of(&chars_of("@")),
                        found: string_of(term),
                    },
                );
            } else {
                let key = string_of(term);
                if !self.marked_for_output.contains(key.as_str()) {
                    if self.config.eager_deletion || self.marked_for_deletion.contains(
                        key.as_str(),
                    ) {
                        proof {
                            assert(""@ + term@ == term@) by {
                                reveal_strlit("");
                                assert(""@ + term@ =~= term@);
                            }
                        }
                        self.write_deletion("", term);
                    }
                    self.marked_for_output.insert(key);
                }
            }
            i += 1;
        }
        Ok(())
    }

    /// Deletes the definitions of the literals of a kept assertion.
    fn trim_lits(&mut self, words: &Vec<Vec<char>>)
        requires
            old(self).wf(),
        ensures
            final(self).wf(),
            final(self).lines() == old(self).lines(),
            final(self).consumed() == old(self).consumed(),
            final(self).config() == old(self).config(),
            final(self).shears() == trim_literals(old(self).shears(), texts(words@), 0),
    {
        let mut i: usize = 0;
        let ghost all = texts(words@);
        while i < words.len()
            invariant_except_break
                all == texts(words@),
                self.wf(),
                self.lines() == old(self).lines(),
                self.consumed() == old(self).consumed(),
                self.config() == old(self).config(),
                trim_literals(old(self).shears(), all, 0) == trim_literals(
                    self.shears(),
                    all,
                    i as int,
                ),
            ensures
                self.wf(),
                self.lines() == old(self).lines(),
                self.consumed() == old(self).consumed(),
                self.config() == old(self).config(),
                self.shears() == trim_literals(old(self).shears(), texts(words@), 0),
            decreases words.len() - i,
        {
            let word = &words[i];
            proof {
                assert(all[i as int] == word@);
            }
            if is_str(word, ">=") {
                break ;
            }
            let var = if word.len() > 0 && word[0] == '~' {
                let v = slice_text(word, 1, word.len());
                assert(v@ == word@.skip(1));
                v
            } else {
                let v = slice_text(word, 0, word.len());
                assert(v@ == word@);
                v
            };
            let key = string_of(&var);
            if var.len() > 0 && var[0] == 'x' && !self.lits_seen.contains(key.as_str()) {
                self.lits_seen.insert(key);
                self.write_deletion("@lf", &var);
                self.write_deletion("@lr", &var);
            }
            i += 1;
        }
    }

    /// Does what one line of the proof asks for.
    fn trim_one(&mut self, line: &Vec<char>) -> (r: Result<(), PBarberError>)
        requires
            old(self).wf(),
        ensures
            final(self).wf(),
            final(self).lines() == old(self).lines(),
            final(self).consumed() == old(self).consumed(),
            final(self).config() == old(self).config(),
            final(self).shears() == trim_line(old(self).config(), old(self).shears(), line@).0,
            match r {
                Ok(_) => trim_line(old(self).config(), old(self).shears(), line@).1 == Ok::<
                    (),
                    Failure,
                >(()),
                Err(e) => trim_line(old(self).config(), old(self).shears(), line@).1 == Err::<
                    (),
                    Failure,
                >(e@),
            },
    {
        if line.len() > 0 && line[0] == '@' {
            let words = split_text(line, ' ');
            proof {
                lemma_split_nonempty(line@, ' ');
                assert(texts(words@)[0] == words@[0]@);
            }
            let id = string_of(&words[0]);
            if !self.marked_for_output.contains(id.as_str()) {
                return Ok(());
            }
            if words.len() < 2 {
                return Err(PBarberError::UnknownRule(String::new()));
            }
            proof {
                assert(texts(words@)[1] == words@[1]@);
            }
            let rule = &words[1];
            if is_str(rule, "pol") || is_str(rule, "p") {
                match self.trim_terms(&words) {
                    Ok(_) => {},
                    Err(e) => {
                        return Err(e);
                    },
                }
                self.write_line(line);
                Ok(())
            } else if is_str(rule, "a") {
                if self.config.lit_deletion {
                    self.trim_lits(&words);
                }
                self.write_line(line);
                Ok(())
            } else {
                Err(PBarberError::UnknownRule(string_of(rule)))
            }
        } else if starts_with_str(line, "del id") {
            if self.config.eager_deletion {
                return Ok(());
            }
            let words = split_text(line, ' ');
            if words.len() < 3 {
                self.write_line(line);
                return Ok(());
            }
            proof {
                assert(texts(words@)[2] == words@[2]@);
            }
            let id = strip_end_text(&words[2], ';');
            self.marked_for_deletion.insert(string_of(&id));
            Ok(())
        } else {
            self.write_line(line);
            Ok(())
        }
    }

    /// Trims the proof: the lines that have not been read yet, which begin
    /// with the end of the proof, are read up to the first failure, and
    /// those that the contradiction rests on are written.
    ///
    /// Where lines are counted, a success gives the counts of the lines
    /// read and of the lines written.
    pub fn trim(&mut self) -> (r: Result<Option<(ProofFileStats, ProofFileStats)>, PBarberError>)
        requires
            old(self).wf(),
        ensures
            final(self).wf(),
            final(self).lines() == old(self).lines(),
            final(self).config() == old(self).config(),
            final(self).shears() == trim_all(
                old(self).config(),
                old(self).shears(),
                old(self).lines(),
                old(self).consumed(),
            ).0,
            match r {
                Ok(counts) => trim_all(
                    old(self).config(),
                    old(self).shears(),
                    old(self).lines(),
                    old(self).consumed(),
                ).1 == Ok::<(), Failure>(()) && final(self).consumed() == old(self).lines().len()
                    && match counts {
                    Some((read, written)) => old(self).config().stats && read@ == tally(
                        old(self).lines(),
                    ) && written@ == tally(final(self).shears().out),
                    None => !old(self).config().stats,
                },
                Err(e) => trim_all(
                    old(self).config(),
                    old(self).shears(),
                    old(self).lines(),
                    old(self).consumed(),
                ).1 == Err::<(), Failure>(e@),
            },
    {
        match self.trim_end_of_proof() {
            Ok(_) => {},
            Err(e) => {
                return Err(e);
            },
        }
        let ghost headed = self.shears();
        let ghost start = self.consumed();
        loop
            invariant_except_break
                self.wf(),
                self.lines() == old(self).lines(),
                self.config() == old(self).config(),
                start == old(self).consumed() + 3,
                trim_header(old(self).shears(), old(self).lines(), old(self).consumed()) == (
                    headed,
                    Ok::<(), Failure>(()),
                ),
                trim_from(old(self).config(), headed, old(self).lines(), start) == trim_from(
                    self.config(),
                    self.shears(),
                    self.lines(),
                    self.consumed(),
                ),
            ensures
                self.wf(),
                self.lines() == old(self).lines(),
                self.config() == old(self).config(),
                self.consumed() >= self.lines().len(),
                trim_from(old(self).config(), headed, old(self).lines(), start) == (
                    self.shears(),
                    Ok::<(), Failure>(()),
                ),
            decreases self.lines().len() - self.consumed(),
        {
            match self.next_line() {
                None => {
                    break ;
                },
                Some(line) => match self.trim_one(&line) {
                    Ok(_) => {},
                    Err(e) => {
                        return Err(e);
                    },
                },
            }
        }
        if self.config.stats {
            proof {
                assert(self.lines().take(self.next as int) == self.lines());
            }
            Ok(Some((self.input_stats.clone(), self.output_stats.clone())))
        } else {
            Ok(None)
        }
    }
}

impl crate::ProofReader for Trimmer {
    closed spec fn pending(&self) -> Seq<Seq<char>> {
        self.lines().skip(self.consumed())
    }

    closed spec fn written(&self) -> Seq<Seq<char>> {
        self.shears().out
    }

    closed spec fn counts_lines(&self) -> bool {
        self.config.stats
    }

    closed spec fn in_order(&self) -> bool {
        self.wf()
    }

    fn has_stats(&self) -> (r: bool) {
        self.config.stats
    }

    fn next_line(&mut self) -> (r: Option<String>) {
        proof {
            if self.next < self.lines.len() {
                assert(self.lines().skip(self.next as int)[0] == self.lines()[self.next as int]);
                assert(self.lines().skip(self.next as int).skip(1) == self.lines().skip(
                    self.next + 1,
                ));
            }
        }
        match Trimmer::next_line(self) {
            Some(line) => Some(string_of(&line)),
            None => None,
        }
    }

    fn write_line(&mut self, content: &str) {
        Trimmer::write_line(self, &chars_of(content));
    }
}

} // verus!
