//! What holds of every proof that is trimmed: the lines that are written are
//! the lines whose constraints the contradiction rests on.

use crate::justifier::is_pol_sign;
use crate::text::{has_prefix, split};
use crate::trimmer::{
    conclusion_id,
    deletion_line,
    start_shears,
    trim_all,
    trim_from,
    trim_header,
    trim_line,
    trim_literals,
    trim_operands,
    variable_of,
    Shears,
};
use crate::{Failure, TrimmerConfig};
use vstd::prelude::*;

verus! {

/// Whether `line` carries a constraint ID.
pub open spec fn is_labelled(line: Seq<char>) -> bool {
    line.len() > 0 && line[0] == '@'
}

/// The constraint ID of a line that carries one: its first word.
pub open spec fn label_of(line: Seq<char>) -> Seq<char> {
    split(line, ' ')[0]
}

/// Whether the trimmer, in the state `shears`, keeps the line `line`.
pub open spec fn keeps(shears: Shears, line: Seq<char>) -> bool {
    is_labelled(line) && shears.live.contains(label_of(line))
}

/// Whether `words`, from index `from` on, hold `term`.
pub open spec fn holds_word(words: Seq<Seq<char>>, from: int, term: Seq<char>) -> bool {
    exists|i: int| from <= i < words.len() && #[trigger] words[i] == term
}

/// Whether `line` is a `pol` line with the operand `term`.
pub open spec fn names_operand(line: Seq<char>, term: Seq<char>) -> bool {
    let words = split(line, ' ');
    &&& is_labelled(line)
    &&& words.len() >= 2
    &&& (words[1] == "pol"@ || words[1] == "p"@)
    &&& holds_word(words, 2, term)
}

/// The state before the line at index `k` is read, where the state before
/// the line at `from` is `start` and no line between them fails.
pub open spec fn shears_before(
    config: TrimmerConfig,
    start: Shears,
    lines: Seq<Seq<char>>,
    from: int,
    k: int,
) -> Shears
    decreases k - from,
{
    if k <= from {
        start
    } else {
        trim_line(config, shears_before(config, start, lines, from, k - 1), lines[k - 1]).0
    }
}

/// Whether the lines from index `from` on are in the order of a proof: no
/// `pol` line has an operand that is the ID of its own line or of a line
/// that is read before it. The lines are read last line first, so an
/// operand names a line that stands earlier in the proof.
pub open spec fn refers_back(lines: Seq<Seq<char>>, from: int) -> bool {
    forall|j: int, k: int|
        from <= k <= j < lines.len() && is_labelled(#[trigger] lines[k]) ==> !names_operand(
            #[trigger] lines[j],
            label_of(lines[k]),
        )
}

/// The operands of a `pol` line mark nothing but operands, and unmark
/// nothing.
proof fn lemma_operands_mark(
    config: TrimmerConfig,
    shears: Shears,
    words: Seq<Seq<char>>,
    from: int,
)
    requires
        0 <= from,
    ensures
        shears.live.subset_of(trim_operands(config, shears, words, from).0.live),
        forall|x: Seq<char>|
            trim_operands(config, shears, words, from).0.live.contains(x)
                && !shears.live.contains(x) ==> holds_word(words, from, x),
    decreases words.len() - from,
{
    if from < words.len() {
        let term = words[from];
        if is_pol_sign(term) {
            lemma_operands_mark(config, shears, words, from + 1);
        } else if !(term.len() > 0 && term[0] == '@') {
        } else if shears.live.contains(term) {
            lemma_operands_mark(config, shears, words, from + 1);
        } else {
            let deleted = if config.eager_deletion || shears.deferred.contains(term) {
                shears.write(deletion_line(term))
            } else {
                shears
            };
            let marked = Shears { live: deleted.live.insert(term), ..deleted };
            lemma_operands_mark(config, marked, words, from + 1);
            assert(words[from] == term);
        }
        let after = trim_operands(config, shears, words, from).0;
        assert forall|x: Seq<char>| after.live.contains(x) && !shears.live.contains(
            x,
        ) implies holds_word(words, from, x) by {
            if x == term {
                assert(words[from] == x);
            } else {
                assert(holds_word(words, from + 1, x));
                let i = choose|i: int| from + 1 <= i < words.len() && #[trigger] words[i] == x;
                assert(words[i] == x);
            }
        }
    }
}

/// The words of an assertion mark nothing and unmark nothing.
proof fn lemma_literals_mark_nothing(shears: Shears, words: Seq<Seq<char>>, from: int)
    ensures
        trim_literals(shears, words, from).live == shears.live,
    decreases words.len() - from,
{
    if !(from < 0 || from >= words.len() || words[from] == ">="@) {
        let var = variable_of(words[from]);
        if !(var.len() > 0 && var[0] == 'x') || shears.seen.contains(var) {
            lemma_literals_mark_nothing(shears, words, from + 1);
        } else {
            lemma_literals_mark_nothing(
                Shears {
                    out: shears.out.push(deletion_line("@lf"@ + var)).push(
                        deletion_line("@lr"@ + var),
                    ),
                    seen: shears.seen.insert(var),
                    ..shears
                },
                words,
                from + 1,
            );
        }
    }
}

/// A line marks nothing but its operands, and unmarks nothing. A line that
/// is kept is the last line written for it where it does not fail; a line
/// that is not kept and carries an ID changes nothing.
proof fn lemma_line_marks(config: TrimmerConfig, shears: Shears, line: Seq<char>)
    ensures
        shears.live.subset_of(trim_line(config, shears, line).0.live),
        forall|x: Seq<char>|
            trim_line(config, shears, line).0.live.contains(x) && !shears.live.contains(x)
                ==> names_operand(line, x),
        keeps(shears, line) && trim_line(config, shears, line).1 is Ok ==> trim_line(
            config,
            shears,
            line,
        ).0.out.len() > 0 && trim_line(config, shears, line).0.out.last() == line,
        is_labelled(line) && !keeps(shears, line) ==> trim_line(config, shears, line) == (
            shears,
            Ok::<(), Failure>(()),
        ),
{
    if is_labelled(line) {
        let words = split(line, ' ');
        if shears.live.contains(words[0]) && words.len() >= 2 {
            if words[1] == "pol"@ || words[1] == "p"@ {
                lemma_operands_mark(config, shears, words, 2);
            } else if words[1] == "a"@ {
                lemma_literals_mark_nothing(shears, words, 0);
            }
        }
    }
}

/// Reading on from the line after `from` gives the state that reading on
/// from `from` gives.
proof fn lemma_shears_before_shift(
    config: TrimmerConfig,
    start: Shears,
    lines: Seq<Seq<char>>,
    from: int,
    k: int,
)
    requires
        from < k,
    ensures
        shears_before(config, start, lines, from, k) == shears_before(
            config,
            trim_line(config, start, lines[from]).0,
            lines,
            from + 1,
            k,
        ),
    decreases k - from,
{
    let next = trim_line(config, start, lines[from]).0;
    if k > from + 1 {
        lemma_shears_before_shift(config, start, lines, from, k - 1);
        assert(shears_before(config, next, lines, from + 1, k) == trim_line(
            config,
            shears_before(config, next, lines, from + 1, k - 1),
            lines[k - 1],
        ).0);
    } else {
        assert(shears_before(config, start, lines, from, from) == start);
        assert(shears_before(config, next, lines, from + 1, k) == next);
    }
}

/// A run without failure ends in the state before the end of the lines,
/// and none of its lines fails.
proof fn lemma_run(config: TrimmerConfig, start: Shears, lines: Seq<Seq<char>>, from: int)
    requires
        0 <= from <= lines.len(),
        trim_from(config, start, lines, from).1 is Ok,
    ensures
        trim_from(config, start, lines, from).0 == shears_before(
            config,
            start,
            lines,
            from,
            lines.len() as int,
        ),
        forall|k: int|
            from <= k < lines.len() ==> (#[trigger] trim_line(
                config,
                shears_before(config, start, lines, from, k),
                lines[k],
            )).1 is Ok,
    decreases lines.len() - from,
{
    if from < lines.len() {
        let next = trim_line(config, start, lines[from]).0;
        lemma_run(config, next, lines, from + 1);
        lemma_shears_before_shift(config, start, lines, from, lines.len() as int);
        assert forall|k: int| from <= k < lines.len() implies (#[trigger] trim_line(
            config,
            shears_before(config, start, lines, from, k),
            lines[k],
        )).1 is Ok by {
            if k > from {
                lemma_shears_before_shift(config, start, lines, from, k);
            }
        }
    }
}

/// What is marked stays marked, and what is marked between two lines is an
/// operand of a line between them.
proof fn lemma_marks_between(
    config: TrimmerConfig,
    start: Shears,
    lines: Seq<Seq<char>>,
    from: int,
    k: int,
    m: int,
    x: Seq<char>,
)
    requires
        from <= k <= m <= lines.len(),
        0 <= from,
    ensures
        shears_before(config, start, lines, from, k).live.contains(x) ==> shears_before(
            config,
            start,
            lines,
            from,
            m,
        ).live.contains(x),
        shears_before(config, start, lines, from, m).live.contains(x) && !shears_before(
            config,
            start,
            lines,
            from,
            k,
        ).live.contains(x) ==> exists|j: int| k <= j < m && names_operand(#[trigger] lines[j], x),
    decreases m - k,
{
    if k < m {
        lemma_marks_between(config, start, lines, from, k, m - 1, x);
        let before = shears_before(config, start, lines, from, m - 1);
        lemma_line_marks(config, before, lines[m - 1]);
        if shears_before(config, start, lines, from, m).live.contains(x) && !shears_before(
            config,
            start,
            lines,
            from,
            k,
        ).live.contains(x) {
            if before.live.contains(x) {
                let j = choose|j: int| k <= j < m - 1 && names_operand(#[trigger] lines[j], x);
                assert(names_operand(lines[j], x));
            } else {
                assert(names_operand(lines[m - 1], x));
            }
        }
    }
}

/// Trimming keeps the lines that the contradiction rests on.
///
/// Of a proof that is trimmed without failure, take a line with a
/// constraint ID after the three lines of the end of the proof. Where the
/// trimmer keeps the line, it writes it, and its ID is marked in the end;
/// where it does not keep it, it writes nothing for it.
pub proof fn lemma_kept_lines_are_live(config: TrimmerConfig, lines: Seq<Seq<char>>, k: int)
    requires
        trim_all(config, start_shears(), lines, 0).1 is Ok,
        3 <= k < lines.len(),
        is_labelled(lines[k]),
    ensures
        ({
            let headed = trim_header(start_shears(), lines, 0).0;
            let before = shears_before(config, headed, lines, 3, k);
            let after = shears_before(config, headed, lines, 3, k + 1);
            let end = trim_all(config, start_shears(), lines, 0).0;
            &&& keeps(before, lines[k]) ==> after.out.len() > 0 && after.out.last() == lines[k]
                && end.live.contains(label_of(lines[k]))
            &&& !keeps(before, lines[k]) ==> after == before
        }),
{
    let headed = trim_header(start_shears(), lines, 0).0;
    let before = shears_before(config, headed, lines, 3, k);
    lemma_run(config, headed, lines, 3);
    lemma_line_marks(config, before, lines[k]);
    assert(trim_line(config, before, lines[k]).1 is Ok);
    lemma_marks_between(config, headed, lines, 3, k, lines.len() as int, label_of(lines[k]));
}

/// Trimming keeps every line whose ID is marked in the end, for a proof in
/// order.
///
/// Of a proof that is trimmed without failure and in which every operand
/// of a `pol` line names a line that stands earlier in the proof, take a
/// line with a constraint ID after the three lines of the end of the
/// proof. The trimmer keeps the line if, and only if, its ID is marked in
/// the end.
pub proof fn lemma_live_lines_are_kept(config: TrimmerConfig, lines: Seq<Seq<char>>, k: int)
    requires
        trim_all(config, start_shears(), lines, 0).1 is Ok,
        refers_back(lines, 3),
        3 <= k < lines.len(),
        is_labelled(lines[k]),
    ensures
        ({
            let headed = trim_header(start_shears(), lines, 0).0;
            let before = shears_before(config, headed, lines, 3, k);
            let end = trim_all(config, start_shears(), lines, 0).0;
            keeps(before, lines[k]) <==> end.live.contains(label_of(lines[k]))
        }),
{
    let headed = trim_header(start_shears(), lines, 0).0;
    let before = shears_before(config, headed, lines, 3, k);
    let x = label_of(lines[k]);
    lemma_run(config, headed, lines, 3);
    lemma_marks_between(config, headed, lines, 3, k, lines.len() as int, x);
    let end = trim_all(config, start_shears(), lines, 0).0;
    if end.live.contains(x) && !before.live.contains(x) {
        let j = choose|j: int| k <= j < lines.len() && names_operand(#[trigger] lines[j], x);
        assert(is_labelled(lines[k]));
        assert(!names_operand(lines[j], label_of(lines[k])));
    }
}

/// Whether the lines of `after` are those of `before` and, after them,
/// lines without a constraint ID and, where `kept` holds, the line `line`.
pub open spec fn adds_only(
    before: Seq<Seq<char>>,
    after: Seq<Seq<char>>,
    line: Seq<char>,
    kept: bool,
) -> bool {
    &&& before.len() <= after.len()
    &&& after.take(before.len() as int) == before
    &&& forall|i: int|
        before.len() <= i < after.len() ==> !is_labelled(#[trigger] after[i]) || (kept && after[i]
            == line)
}

/// A line that deletes a constraint carries no constraint ID.
proof fn lemma_deletion_unlabelled(id: Seq<char>)
    ensures
        !is_labelled(deletion_line(id)),
{
    reveal_strlit("del id ");
    assert(deletion_line(id)[0] == 'd');
}

/// Lines to which nothing is added are only added to.
proof fn lemma_adds_none(out: Seq<Seq<char>>, line: Seq<char>, kept: bool)
    ensures
        adds_only(out, out, line, kept),
{
    assert(out.take(out.len() as int) =~= out);
}

/// One more line after lines that were only added to is only added.
proof fn lemma_adds_one(
    before: Seq<Seq<char>>,
    after: Seq<Seq<char>>,
    line: Seq<char>,
    kept: bool,
    next: Seq<char>,
)
    requires
        adds_only(before, after, line, kept),
        !is_labelled(next) || (kept && next == line),
    ensures
        adds_only(before, after.push(next), line, kept),
{
    assert(after.push(next).take(before.len() as int) =~= after.take(before.len() as int));
}

/// Lines that were only added to lines that were only added are only
/// added.
proof fn lemma_adds_twice(
    a: Seq<Seq<char>>,
    b: Seq<Seq<char>>,
    c: Seq<Seq<char>>,
    line: Seq<char>,
    kept: bool,
)
    requires
        adds_only(a, b, line, false),
        adds_only(b, c, line, kept),
    ensures
        adds_only(a, c, line, kept),
{
    assert(c.take(a.len() as int) =~= b.take(a.len() as int));
    assert forall|i: int| a.len() <= i < c.len() implies !is_labelled(#[trigger] c[i]) || (kept
        && c[i] == line) by {
        if i < b.len() {
            assert(c[i] == c.take(b.len() as int)[i]);
        }
    }
}

/// The operands of a `pol` line write nothing but deletions.
proof fn lemma_operands_add(
    config: TrimmerConfig,
    shears: Shears,
    words: Seq<Seq<char>>,
    from: int,
    line: Seq<char>,
)
    ensures
        adds_only(shears.out, trim_operands(config, shears, words, from).0.out, line, false),
    decreases words.len() - from,
{
    assert(shears.out.take(shears.out.len() as int) =~= shears.out);
    if !(from < 0 || from >= words.len()) {
        let term = words[from];
        if is_pol_sign(term) {
            lemma_operands_add(config, shears, words, from + 1, line);
        } else if !(term.len() > 0 && term[0] == '@') {
        } else if shears.live.contains(term) {
            lemma_operands_add(config, shears, words, from + 1, line);
        } else {
            let deleted = if config.eager_deletion || shears.deferred.contains(term) {
                shears.write(deletion_line(term))
            } else {
                shears
            };
            let marked = Shears { live: deleted.live.insert(term), ..deleted };
            lemma_deletion_unlabelled(term);
            if config.eager_deletion || shears.deferred.contains(term) {
                lemma_adds_one(shears.out, shears.out, line, false, deletion_line(term));
            }
            lemma_operands_add(config, marked, words, from + 1, line);
            lemma_adds_twice(
                shears.out,
                marked.out,
                trim_operands(config, marked, words, from + 1).0.out,
                line,
                false,
            );
        }
    }
}

/// The words of an assertion write nothing but deletions.
proof fn lemma_literals_add(shears: Shears, words: Seq<Seq<char>>, from: int, line: Seq<char>)
    ensures
        adds_only(shears.out, trim_literals(shears, words, from).out, line, false),
    decreases words.len() - from,
{
    assert(shears.out.take(shears.out.len() as int) =~= shears.out);
    if !(from < 0 || from >= words.len() || words[from] == ">="@) {
        let var = variable_of(words[from]);
        if !(var.len() > 0 && var[0] == 'x') || shears.seen.contains(var) {
            lemma_literals_add(shears, words, from + 1, line);
        } else {
            let first = deletion_line("@lf"@ + var);
            let second = deletion_line("@lr"@ + var);
            let next = Shears {
                out: shears.out.push(first).push(second),
                seen: shears.seen.insert(var),
                ..shears
            };
            lemma_deletion_unlabelled("@lf"@ + var);
            lemma_deletion_unlabelled("@lr"@ + var);
            lemma_adds_one(shears.out, shears.out, line, false, first);
            lemma_adds_one(shears.out, shears.out.push(first), line, false, second);
            lemma_literals_add(next, words, from + 1, line);
            lemma_adds_twice(
                shears.out,
                next.out,
                trim_literals(next, words, from + 1).out,
                line,
                false,
            );
        }
    }
}

/// A line writes nothing with a constraint ID but itself, and itself only
/// where it is kept.
proof fn lemma_line_adds(config: TrimmerConfig, shears: Shears, line: Seq<char>)
    ensures
        adds_only(shears.out, trim_line(config, shears, line).0.out, line, keeps(shears, line)),
{
    assert(shears.out.take(shears.out.len() as int) =~= shears.out);
    let kept = keeps(shears, line);
    if is_labelled(line) {
        let words = split(line, ' ');
        if shears.live.contains(words[0]) && words.len() >= 2 {
            if words[1] == "pol"@ || words[1] == "p"@ {
                let (after, r) = trim_operands(config, shears, words, 2);
                lemma_operands_add(config, shears, words, 2, line);
                lemma_adds_none(after.out, line, kept);
                if r is Ok {
                    lemma_adds_one(after.out, after.out, line, kept, line);
                    lemma_adds_twice(shears.out, after.out, after.out.push(line), line, kept);
                } else {
                    lemma_adds_twice(shears.out, after.out, after.out, line, kept);
                }
            } else if words[1] == "a"@ {
                if config.lit_deletion {
                    let after = trim_literals(shears, words, 0);
                    lemma_literals_add(shears, words, 0, line);
                    lemma_adds_none(after.out, line, kept);
                    lemma_adds_one(after.out, after.out, line, kept, line);
                    lemma_adds_twice(shears.out, after.out, after.out.push(line), line, kept);
                } else {
                    lemma_adds_one(shears.out, shears.out, line, kept, line);
                }
            }
        }
    } else if has_prefix(line, "del id"@) {
        let words = split(line, ' ');
        if !config.eager_deletion && words.len() < 3 {
            lemma_adds_one(shears.out, shears.out, line, kept, line);
        }
    } else {
        lemma_adds_one(shears.out, shears.out, line, kept, line);
    }
}

/// The end of a proof is written without a line that carries a constraint
/// ID.
proof fn lemma_header_adds(lines: Seq<Seq<char>>)
    requires
        trim_header(start_shears(), lines, 0).1 is Ok,
    ensures
        forall|i: int|
            0 <= i < trim_header(start_shears(), lines, 0).0.out.len() ==> !is_labelled(
                #[trigger] trim_header(start_shears(), lines, 0).0.out[i],
            ),
{
    reveal_strlit("end pseudo-Boolean");
    reveal_strlit("conclusion UNSAT");
    reveal_strlit("output");
    let out = trim_header(start_shears(), lines, 0).0.out;
    assert(out =~= seq![lines[0], lines[1], lines[2]]);
    assert(lines[0].subrange(0, "end pseudo-Boolean"@.len() as int)[0] == 'e');
    assert(lines[1].subrange(0, "conclusion UNSAT"@.len() as int)[0] == 'c');
    assert(lines[2].subrange(0, "output"@.len() as int)[0] == 'o');
}

/// Whether every line of `out` that carries a constraint ID is a line of
/// the proof before index `upto` that the trimmer kept.
pub open spec fn all_kept(
    out: Seq<Seq<char>>,
    config: TrimmerConfig,
    headed: Shears,
    lines: Seq<Seq<char>>,
    upto: int,
) -> bool {
    forall|i: int|
        0 <= i < out.len() && is_labelled(#[trigger] out[i]) ==> exists|k: int|
            3 <= k < upto && #[trigger] lines[k] == out[i] && keeps(
                shears_before(config, headed, lines, 3, k),
                lines[k],
            )
}

/// What is written up to a line holds no line with a constraint ID but
/// lines that were kept.
proof fn lemma_all_kept(config: TrimmerConfig, lines: Seq<Seq<char>>, m: int)
    requires
        trim_header(start_shears(), lines, 0).1 is Ok,
        3 <= m <= lines.len(),
    ensures
        all_kept(
            shears_before(config, trim_header(start_shears(), lines, 0).0, lines, 3, m).out,
            config,
            trim_header(start_shears(), lines, 0).0,
            lines,
            m,
        ),
    decreases m,
{
    let headed = trim_header(start_shears(), lines, 0).0;
    if m == 3 {
        lemma_header_adds(lines);
    } else {
        lemma_all_kept(config, lines, m - 1);
        let before = shears_before(config, headed, lines, 3, m - 1);
        let after = shears_before(config, headed, lines, 3, m);
        let line = lines[m - 1];
        lemma_line_adds(config, before, line);
        assert forall|i: int| 0 <= i < after.out.len() && is_labelled(
            #[trigger] after.out[i],
        ) implies exists|k: int|
            3 <= k < m && #[trigger] lines[k] == after.out[i] && keeps(
                shears_before(config, headed, lines, 3, k),
                lines[k],
            ) by {
            if i < before.out.len() {
                assert(after.out[i] == after.out.take(before.out.len() as int)[i]);
                assert(is_labelled(before.out[i]));
                let k = choose|k: int|
                    3 <= k < m - 1 && #[trigger] lines[k] == before.out[i] && keeps(
                        shears_before(config, headed, lines, 3, k),
                        lines[k],
                    );
                assert(lines[k] == after.out[i]);
            } else {
                assert(lines[m - 1] == after.out[i]);
            }
        }
    }
}

/// Trimming writes no line with a constraint ID but lines that it kept.
///
/// Of a proof that is trimmed without failure, every line written that
/// carries a constraint ID is a line of the proof, after the three lines of
/// its end, that the trimmer kept.
pub proof fn lemma_written_lines_are_kept(config: TrimmerConfig, lines: Seq<Seq<char>>)
    requires
        trim_all(config, start_shears(), lines, 0).1 is Ok,
    ensures
        all_kept(
            trim_all(config, start_shears(), lines, 0).0.out,
            config,
            trim_header(start_shears(), lines, 0).0,
            lines,
            lines.len() as int,
        ),
{
    let headed = trim_header(start_shears(), lines, 0).0;
    lemma_run(config, headed, lines, 3);
    lemma_all_kept(config, lines, lines.len() as int);
}

/// Whether `word` is a constraint ID: it begins with `@`.
pub open spec fn is_id(word: Seq<char>) -> bool {
    word.len() > 0 && word[0] == '@'
}

/// The operands of a `pol` line that are looked at without failure are
/// marked, every one of them that is a constraint ID.
proof fn lemma_operands_are_marked(
    config: TrimmerConfig,
    shears: Shears,
    words: Seq<Seq<char>>,
    from: int,
)
    requires
        0 <= from,
        trim_operands(config, shears, words, from).1 is Ok,
    ensures
        forall|i: int|
            from <= i < words.len() && is_id(#[trigger] words[i]) ==> trim_operands(
                config,
                shears,
                words,
                from,
            ).0.live.contains(words[i]),
    decreases words.len() - from,
{
    if from < words.len() {
        let term = words[from];
        let end = trim_operands(config, shears, words, from).0;
        if is_pol_sign(term) {
            reveal_strlit("+");
            reveal_strlit("s");
            reveal_strlit(";");
            lemma_operands_are_marked(config, shears, words, from + 1);
        } else if !(term.len() > 0 && term[0] == '@') {
        } else if shears.live.contains(term) {
            lemma_operands_are_marked(config, shears, words, from + 1);
            lemma_operands_mark(config, shears, words, from + 1);
        } else {
            let deleted = if config.eager_deletion || shears.deferred.contains(term) {
                shears.write(deletion_line(term))
            } else {
                shears
            };
            let marked = Shears { live: deleted.live.insert(term), ..deleted };
            lemma_operands_are_marked(config, marked, words, from + 1);
            lemma_operands_mark(config, marked, words, from + 1);
            assert(marked.live.contains(term));
        }
    }
}

/// The contradiction rests on what is marked, and on nothing else.
///
/// Of a proof that is trimmed without failure, an ID is marked in the end
/// if, and only if, the conclusion names it or it is an operand of a `pol`
/// line that the trimmer kept: the marked IDs are those that the
/// contradiction refers to, directly or through the lines that it refers
/// to.
pub proof fn lemma_marked_is_referenced(config: TrimmerConfig, lines: Seq<Seq<char>>, x: Seq<char>)
    requires
        trim_all(config, start_shears(), lines, 0).1 is Ok,
    ensures
        ({
            let headed = trim_header(start_shears(), lines, 0).0;
            let end = trim_all(config, start_shears(), lines, 0).0;
            let referred = exists|j: int|
                3 <= j < lines.len() && keeps(
                    shears_before(config, headed, lines, 3, j),
                    #[trigger] lines[j],
                ) && names_operand(lines[j], x);
            &&& end.live.contains(x) ==> conclusion_id(lines[1]) == Some(x) || referred
            &&& conclusion_id(lines[1]) == Some(x) ==> end.live.contains(x)
            &&& referred && is_id(x) ==> end.live.contains(x)
        }),
{
    let headed = trim_header(start_shears(), lines, 0).0;
    let end = trim_all(config, start_shears(), lines, 0).0;
    let n = lines.len() as int;
    lemma_run(config, headed, lines, 3);
    lemma_marks_between(config, headed, lines, 3, 3, n, x);
    assert(headed.live =~= set![conclusion_id(lines[1])->0]);
    if end.live.contains(x) && conclusion_id(lines[1]) != Some(x) {
        lemma_first_mark(config, headed, lines, n, x);
    }
    if exists|j: int|
        3 <= j < n && keeps(shears_before(config, headed, lines, 3, j), #[trigger] lines[j])
            && names_operand(lines[j], x) {
        let j = choose|j: int|
            3 <= j < n && keeps(shears_before(config, headed, lines, 3, j), #[trigger] lines[j])
                && names_operand(lines[j], x);
        if is_id(x) {
            let before = shears_before(config, headed, lines, 3, j);
            let words = split(lines[j], ' ');
            assert(trim_line(config, before, lines[j]).1 is Ok);
            lemma_operands_are_marked(config, before, words, 2);
            let i = choose|i: int| 2 <= i < words.len() && #[trigger] words[i] == x;
            assert(is_id(words[i]));
            lemma_operands_mark(config, before, words, 2);
            assert(shears_before(config, headed, lines, 3, j + 1).live.contains(x));
            lemma_marks_between(config, headed, lines, 3, j + 1, n, x);
        }
    }
}

/// What is marked after the lines before index `m`, and was not marked
/// before them, is an operand of a line among them that was kept.
proof fn lemma_first_mark(
    config: TrimmerConfig,
    headed: Shears,
    lines: Seq<Seq<char>>,
    m: int,
    x: Seq<char>,
)
    requires
        3 <= m <= lines.len(),
        shears_before(config, headed, lines, 3, m).live.contains(x),
        !headed.live.contains(x),
    ensures
        exists|j: int|
            3 <= j < m && keeps(shears_before(config, headed, lines, 3, j), #[trigger] lines[j])
                && names_operand(lines[j], x),
    decreases m,
{
    if m > 3 {
        let before = shears_before(config, headed, lines, 3, m - 1);
        if before.live.contains(x) {
            lemma_first_mark(config, headed, lines, m - 1, x);
            let j = choose|j: int|
                3 <= j < m - 1 && keeps(
                    shears_before(config, headed, lines, 3, j),
                    #[trigger] lines[j],
                ) && names_operand(lines[j], x);
            assert(keeps(shears_before(config, headed, lines, 3, j), lines[j])
                && names_operand(lines[j], x));
        } else {
            lemma_line_marks(config, before, lines[m - 1]);
            assert(names_operand(lines[m - 1], x));
            assert(keeps(before, lines[m - 1]));
        }
    }
}

} // verus!
