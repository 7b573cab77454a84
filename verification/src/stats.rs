//! Counting the lines of a proof by their rule.

use crate::decimal::decimal;
use crate::text::{
    is_str,
    split,
    split_text,
    string_of,
    strip_end,
    strip_end_text,
    strip_start,
    strip_start_text,
    texts,
    trim,
    trim_text,
    lemma_split_nonempty,
};
use vstd::prelude::*;

verus! {

/// The counts of a `ProofFileStats`, with its names as sequences of
/// characters.
pub struct Tally {
    pub total: int,
    pub pol: int,
    pub red: int,
    pub assertions: int,
    pub del: int,
    /// The assertions by constraint family, in the order in which the
    /// families were first met.
    pub by_name: Seq<(Seq<char>, int)>,
}

/// The next value of a counter, which stays at the largest value that it
/// can hold.
pub open spec fn bump(n: int) -> int {
    if n < u64::MAX {
        n + 1
    } else {
        n
    }
}

/// The rule of a line: its first word, or its second where the first is a
/// constraint ID.
pub open spec fn rule_of(line: Seq<char>) -> Option<Seq<char>> {
    let words = split(line, ' ');
    if words[0].len() > 0 && words[0][0] == '@' {
        if words.len() > 1 {
            Some(words[1])
        } else {
            None
        }
    } else {
        Some(words[0])
    }
}

/// The constraint family that an assertion line names: what stands after
/// its second colon, up to the next one, without the white space and the
/// semicolons around it.
pub open spec fn family_of(line: Seq<char>) -> Option<Seq<char>> {
    let fields = split(line, ':');
    if fields.len() > 2 {
        Some(strip_start(strip_end(trim(fields[2]), ';'), ';'))
    } else {
        None
    }
}

/// The index of the first entry for `name`, or the number of entries.
pub open spec fn position_of(entries: Seq<(Seq<char>, int)>, name: Seq<char>) -> int
    decreases entries.len(),
{
    if entries.len() == 0 {
        0
    } else if entries[0].0 == name {
        0
    } else {
        1 + position_of(entries.skip(1), name)
    }
}

/// The entries after one more assertion of the family `name`.
pub open spec fn count_name(entries: Seq<(Seq<char>, int)>, name: Seq<char>) -> Seq<
    (Seq<char>, int),
> {
    let i = position_of(entries, name);
    if 0 <= i < entries.len() {
        entries.update(i, (name, bump(entries[i].1)))
    } else {
        entries.push((name, 1))
    }
}

/// The counts after one more assertion line.
pub open spec fn tally_assertion(t: Tally, line: Seq<char>) -> Tally {
    let counted = Tally { assertions: bump(t.assertions), ..t };
    match family_of(line) {
        Some(name) => Tally { by_name: count_name(counted.by_name, name), ..counted },
        None => counted,
    }
}

/// The counts after one more line.
pub open spec fn tally_line(t: Tally, line: Seq<char>) -> Tally {
    let counted = Tally { total: bump(t.total), ..t };
    match rule_of(line) {
        None => counted,
        Some(rule) => if rule == "a"@ {
            tally_assertion(counted, line)
        } else if rule == "red"@ {
            Tally { red: bump(counted.red), ..counted }
        } else if rule == "pol"@ || rule == "p"@ {
            Tally { pol: bump(counted.pol), ..counted }
        } else if rule == "del"@ {
            Tally { del: bump(counted.del), ..counted }
        } else {
            counted
        },
    }
}

/// The counts before any line.
pub open spec fn no_tally() -> Tally {
    Tally { total: 0, pol: 0, red: 0, assertions: 0, del: 0, by_name: Seq::empty() }
}

/// The counts of `lines`.
pub open spec fn tally(lines: Seq<Seq<char>>) -> Tally
    decreases lines.len(),
{
    if lines.len() == 0 {
        no_tally()
    } else {
        tally_line(tally(lines.drop_last()), lines.last())
    }
}

/// The text of the counts: one line for each count, then one for each
/// constraint family.
pub open spec fn tally_text(t: Tally) -> Seq<char> {
    "Total lines: "@ + decimal(t.total) + "\nAssertion lines: "@ + decimal(t.assertions)
        + "\nPol lines: "@ + decimal(t.pol) + "\nRed lines: "@ + decimal(t.red) + "\nDel lines: "@
        + decimal(t.del) + "\nAssertion lines by name:\n"@ + names_text(t.by_name)
}

/// One line for each constraint family, with the number of its assertions.
pub open spec fn names_text(entries: Seq<(Seq<char>, int)>) -> Seq<char>
    decreases entries.len(),
{
    if entries.len() == 0 {
        Seq::empty()
    } else {
        names_text(entries.drop_last()) + " \u{221f} `"@ + entries.last().0 + "`: "@ + decimal(
            entries.last().1,
        ) + "\n"@
    }
}

/// The entries of a `ProofFileStats` by name, with their names as sequences
/// of characters.
pub open spec fn entries_of(v: Seq<(String, u64)>) -> Seq<(Seq<char>, int)> {
    v.map_values(|e: (String, u64)| (e.0@, e.1 as int))
}

/// The next value of a counter.
pub fn bumped(n: u64) -> (r: u64)
    ensures
        r == bump(n as int),
{
    if n < u64::MAX {
        n + 1
    } else {
        n
    }
}

/// The rule of a line.
pub fn rule_of_line(line: &Vec<char>) -> (r: Option<Vec<char>>)
    ensures
        match r {
            Some(rule) => rule_of(line@) == Some(rule@),
            None => rule_of(line@) is None,
        },
{
    let mut words = split_text(line, ' ');
    proof {
        lemma_split_nonempty(line@, ' ');
        assert(texts(words@)[0] == words@[0]@);
    }
    if words[0].len() > 0 && words[0][0] == '@' {
        if words.len() > 1 {
            proof {
                assert(texts(words@)[1] == words@[1]@);
            }
            Some(words.swap_remove(1))
        } else {
            None
        }
    } else {
        Some(words.swap_remove(0))
    }
}

/// The constraint family that an assertion line names.
pub fn family_of_line(line: &Vec<char>) -> (r: Option<Vec<char>>)
    ensures
        match r {
            Some(name) => family_of(line@) == Some(name@),
            None => family_of(line@) is None,
        },
{
    let fields = split_text(line, ':');
    if fields.len() > 2 {
        proof {
            assert(texts(fields@)[2] == fields@[2]@);
        }
        let trimmed = trim_text(&fields[2]);
        let without_end = strip_end_text(&trimmed, ';');
        Some(strip_start_text(&without_end, ';'))
    } else {
        None
    }
}

/// Counts one more assertion of the family `name`.
pub fn count_family(entries: &mut Vec<(String, u64)>, name: &Vec<char>)
    ensures
        entries_of(final(entries)@) == count_name(entries_of(old(entries)@), name@),
{
    let mut i: usize = 0;
    let ghost all = entries_of(entries@);
    proof {
        assert(all.skip(0) == all);
    }
    while i < entries.len()
        invariant
            i <= entries.len(),
            entries@ == old(entries)@,
            all == entries_of(entries@),
            position_of(all, name@) == i + position_of(all.skip(i as int), name@),
        decreases entries.len() - i,
    {
        let found = is_str(name, entries[i].0.as_str());
        proof {
            assert(all.skip(i as int)[0] == all[i as int]);
            assert(all[i as int].0 == entries@[i as int].0@);
            assert(all.skip(i as int).skip(1) == all.skip(i + 1));
        }
        if found {
            let n: u64 = bumped(entries[i].1);
            entries.set(i, (string_of(name), n));
            proof {
                assert(entries_of(entries@) =~= all.update(i as int, (name@, n as int)));
            }
            return ;
        }
        i += 1;
    }
    entries.push((string_of(name), 1));
    proof {
        assert(entries_of(entries@) =~= all.push((name@, 1int)));
    }
}

} // verus!
