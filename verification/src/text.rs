//! Text as sequences of characters: the primitives that the proof-log
//! grammar is read and written with.
//!
//! Every executable function here works on `Vec<char>` and is specified by a
//! spec function of the same purpose on `Seq<char>`.

use vstd::prelude::*;

verus! {

/// The views of a vector of texts.
pub open spec fn texts(v: Seq<Vec<char>>) -> Seq<Seq<char>> {
    v.map_values(|t: Vec<char>| t@)
}

/// The views of a vector of strings.
pub open spec fn lines_of(v: Seq<String>) -> Seq<Seq<char>> {
    v.map_values(|t: String| t@)
}

/// The characters of `s`, in order.
pub fn chars_of(s: &str) -> (v: Vec<char>)
    ensures
        v@ == s@,
{
    let mut v: Vec<char> = Vec::new();
    for c in it: s.chars()
        invariant
            v@ == it.seq().take(it.index()),
            it.seq() == s@,
    {
        v.push(c);
    }
    v
}

/// `String::from_iter` over the characters of `v`: the string that holds
/// exactly these characters, in this order.
#[verifier::external_body]
pub(crate) fn string_of(v: &Vec<char>) -> (s: String)
    ensures
        s@ == v@,
{
    String::from_iter(v.iter())
}

/// The strings that hold the characters of the texts `v`.
pub fn strings_of(v: &Vec<Vec<char>>) -> (r: Vec<String>)
    ensures
        lines_of(r@) == texts(v@),
{
    let mut r: Vec<String> = Vec::new();
    let mut i: usize = 0;
    proof {
        assert(lines_of(r@) =~= texts(v@).take(0));
    }
    while i < v.len()
        invariant
            i <= v.len(),
            lines_of(r@) == texts(v@).take(i as int),
        decreases v.len() - i,
    {
        let ghost before = r@;
        let s = string_of(&v[i]);
        r.push(s);
        proof {
            assert(lines_of(r@) =~= lines_of(before).push(v@[i as int]@));
            assert(texts(v@).take(i + 1) =~= texts(v@).take(i as int).push(v@[i as int]@));
        }
        i += 1;
    }
    proof {
        assert(texts(v@).take(i as int) == texts(v@));
    }
    r
}

/// Whether two texts hold the same characters.
pub fn same_text(a: &Vec<char>, b: &Vec<char>) -> (r: bool)
    ensures
        r == (a@ == b@),
{
    if a.len() != b.len() {
        return false;
    }
    let mut i: usize = 0;
    while i < a.len()
        invariant
            a.len() == b.len(),
            i <= a.len(),
            a@.take(i as int) == b@.take(i as int),
        decreases a.len() - i,
    {
        if a[i] != b[i] {
            return false;
        }
        assert(a@.take(i + 1) == a@.take(i as int).push(a@[i as int]));
        assert(b@.take(i + 1) == b@.take(i as int).push(b@[i as int]));
        i += 1;
    }
    assert(a@ == a@.take(a.len() as int));
    assert(b@ == b@.take(b.len() as int));
    true
}

/// Whether `t` holds the characters of the string `s`.
pub fn is_str(t: &Vec<char>, s: &str) -> (r: bool)
    ensures
        r == (t@ == s@),
{
    let other = chars_of(s);
    same_text(t, &other)
}

/// Appends the characters of `tail` to `t`.
pub fn push_text(t: &mut Vec<char>, tail: &Vec<char>)
    ensures
        final(t)@ == old(t)@ + tail@,
{
    let mut i: usize = 0;
    while i < tail.len()
        invariant
            i <= tail.len(),
            t@ == old(t)@ + tail@.take(i as int),
        decreases tail.len() - i,
    {
        t.push(tail[i]);
        assert(tail@.take(i + 1) == tail@.take(i as int).push(tail@[i as int]));
        i += 1;
    }
    assert(tail@ == tail@.take(tail.len() as int));
}

/// Appends the characters of the string `tail` to `t`.
pub fn push_str(t: &mut Vec<char>, tail: &str)
    ensures
        final(t)@ == old(t)@ + tail@,
{
    let other = chars_of(tail);
    push_text(t, &other);
}

/// The characters of `t` from index `from` up to, not including, `to`.
pub fn slice_text(t: &Vec<char>, from: usize, to: usize) -> (r: Vec<char>)
    requires
        from <= to <= t.len(),
    ensures
        r@ == t@.subrange(from as int, to as int),
{
    let mut r: Vec<char> = Vec::new();
    let mut i: usize = from;
    while i < to
        invariant
            from <= i <= to <= t.len(),
            r@ == t@.subrange(from as int, i as int),
        decreases to - i,
    {
        r.push(t[i]);
        assert(t@.subrange(from as int, i + 1) == t@.subrange(from as int, i as int).push(
            t@[i as int],
        ));
        i += 1;
    }
    r
}

/// Whether `s` begins with `p`.
pub open spec fn has_prefix(s: Seq<char>, p: Seq<char>) -> bool {
    p.len() <= s.len() && s.subrange(0, p.len() as int) == p
}

/// Whether `t` begins with `p`.
pub fn starts_with(t: &Vec<char>, p: &Vec<char>) -> (r: bool)
    ensures
        r == has_prefix(t@, p@),
{
    if p.len() > t.len() {
        return false;
    }
    let mut i: usize = 0;
    while i < p.len()
        invariant
            p.len() <= t.len(),
            i <= p.len(),
            t@.subrange(0, i as int) == p@.take(i as int),
        decreases p.len() - i,
    {
        if t[i] != p[i] {
            assert(t@.subrange(0, p.len() as int)[i as int] != p@[i as int]);
            return false;
        }
        assert(t@.subrange(0, i + 1) == t@.subrange(0, i as int).push(t@[i as int]));
        assert(p@.take(i + 1) == p@.take(i as int).push(p@[i as int]));
        i += 1;
    }
    assert(p@ == p@.take(p.len() as int));
    true
}

/// Whether `t` begins with the characters of the string `p`.
pub fn starts_with_str(t: &Vec<char>, p: &str) -> (r: bool)
    ensures
        r == has_prefix(t@, p@),
{
    let other = chars_of(p);
    starts_with(t, &other)
}

/// The index of the first `c` in `s`, or the length of `s` where it holds
/// none.
pub open spec fn find_char(s: Seq<char>, c: char) -> int
    decreases s.len(),
{
    if s.len() == 0 {
        0
    } else if s[0] == c {
        0
    } else {
        1 + find_char(s.skip(1), c)
    }
}

/// `find_char` stays within the text, names a `c` where it stops short of
/// the end, and passes over no `c`.
pub proof fn lemma_find_char(s: Seq<char>, c: char)
    ensures
        0 <= find_char(s, c) <= s.len(),
        find_char(s, c) < s.len() ==> s[find_char(s, c)] == c,
        forall|i: int| 0 <= i < find_char(s, c) ==> s[i] != c,
    decreases s.len(),
{
    if s.len() > 0 && s[0] != c {
        lemma_find_char(s.skip(1), c);
        assert forall|i: int| 0 <= i < find_char(s, c) implies s[i] != c by {
            if i > 0 {
                assert(s.skip(1)[i - 1] == s[i]);
            }
        }
    }
}

/// An index that names the first `c` at or after `from` is what `find_char`
/// gives on the rest of the text.
pub proof fn lemma_find_char_is(s: Seq<char>, c: char, k: int)
    requires
        0 <= k <= s.len(),
        forall|i: int| 0 <= i < k ==> s[i] != c,
        k < s.len() ==> s[k] == c,
    ensures
        find_char(s, c) == k,
{
    lemma_find_char(s, c);
    let f = find_char(s, c);
    if f < k {
        assert(s[f] == c);
    } else if f > k {
        assert(s[k] != c);
    }
}

/// The index of the first `c` in `t` at or after `from`, or the length of
/// `t`.
pub fn find_from(t: &Vec<char>, from: usize, c: char) -> (k: usize)
    requires
        from <= t.len(),
    ensures
        from <= k <= t.len(),
        k == from + find_char(t@.skip(from as int), c),
{
    let mut k: usize = from;
    while k < t.len() && t[k] != c
        invariant
            from <= k <= t.len(),
            forall|i: int| from <= i < k ==> t@[i] != c,
        decreases t.len() - k,
    {
        k += 1;
    }
    proof {
        let rest = t@.skip(from as int);
        assert forall|i: int| 0 <= i < k - from implies rest[i] != c by {
            assert(rest[i] == t@[from + i]);
        }
        lemma_find_char_is(rest, c, k - from);
    }
    k
}

/// The pieces of `s` between the occurrences of `c`: one more piece than
/// there are occurrences, empty pieces included.
pub open spec fn split(s: Seq<char>, c: char) -> Seq<Seq<char>>
    decreases s.len(),
{
    let k = find_char(s, c);
    if 0 <= k < s.len() {
        seq![s.take(k)] + split(s.skip(k + 1), c)
    } else {
        seq![s]
    }
}

/// A split has at least one piece.
pub proof fn lemma_split_nonempty(s: Seq<char>, c: char)
    ensures
        split(s, c).len() >= 1,
        split(s, c)[0] == s.take(find_char(s, c)),
    decreases s.len(),
{
    lemma_find_char(s, c);
    let k = find_char(s, c);
    if 0 <= k < s.len() {
        lemma_split_nonempty(s.skip(k + 1), c);
    } else {
        assert(s.take(k) == s);
    }
}

/// The pieces of `t` between the occurrences of `c`.
pub fn split_text(t: &Vec<char>, c: char) -> (r: Vec<Vec<char>>)
    ensures
        texts(r@) == split(t@, c),
{
    let mut r: Vec<Vec<char>> = Vec::new();
    let mut start: usize = 0;
    proof {
        assert(t@.skip(0) == t@);
        assert(texts(r@) + split(t@, c) == split(t@, c));
    }
    loop
        invariant_except_break
            start <= t.len(),
            split(t@, c) == texts(r@) + split(t@.skip(start as int), c),
        ensures
            texts(r@) == split(t@, c),
        decreases t.len() - start,
    {
        let k = find_from(t, start, c);
        let piece = slice_text(t, start, k);
        let ghost before = r@;
        let ghost rest = t@.skip(start as int);
        r.push(piece);
        proof {
            lemma_find_char(rest, c);
            assert(rest.take(k - start) == t@.subrange(start as int, k as int));
            assert(texts(r@) == texts(before).push(piece@));
        }
        if k == t.len() {
            proof {
                assert(split(rest, c) == seq![rest]);
                assert(rest == rest.take(k - start));
            }
            break ;
        }
        proof {
            assert(rest.skip(k - start + 1) == t@.skip(k + 1));
            assert(split(rest, c) == seq![rest.take(k - start)] + split(
                rest.skip(k - start + 1),
                c,
            ));
        }
        start = k + 1;
    }
    r
}

/// Whether `c` is white space: a character with the Unicode property
/// `White_Space`.
pub open spec fn is_white(c: char) -> bool {
    c == '\u{9}' || c == '\u{a}' || c == '\u{b}' || c == '\u{c}' || c == '\u{d}' || c == ' '
        || c == '\u{85}' || c == '\u{a0}' || c == '\u{1680}' || c == '\u{2000}' || c == '\u{2001}'
        || c == '\u{2002}' || c == '\u{2003}' || c == '\u{2004}' || c == '\u{2005}' || c
        == '\u{2006}' || c == '\u{2007}' || c == '\u{2008}' || c == '\u{2009}' || c == '\u{200a}'
        || c == '\u{2028}' || c == '\u{2029}' || c == '\u{202f}' || c == '\u{205f}' || c
        == '\u{3000}'
}

/// Whether `c` is white space.
pub fn white(c: char) -> (r: bool)
    ensures
        r == is_white(c),
{
    c == '\u{9}' || c == '\u{a}' || c == '\u{b}' || c == '\u{c}' || c == '\u{d}' || c == ' '
        || c == '\u{85}' || c == '\u{a0}' || c == '\u{1680}' || c == '\u{2000}' || c == '\u{2001}'
        || c == '\u{2002}' || c == '\u{2003}' || c == '\u{2004}' || c == '\u{2005}' || c
        == '\u{2006}' || c == '\u{2007}' || c == '\u{2008}' || c == '\u{2009}' || c == '\u{200a}'
        || c == '\u{2028}' || c == '\u{2029}' || c == '\u{202f}' || c == '\u{205f}' || c
        == '\u{3000}'
}

/// `s` without the white space at its start.
pub open spec fn trim_start(s: Seq<char>) -> Seq<char>
    decreases s.len(),
{
    if s.len() > 0 && is_white(s[0]) {
        trim_start(s.skip(1))
    } else {
        s
    }
}

/// `s` without the white space at its end.
pub open spec fn trim_end(s: Seq<char>) -> Seq<char>
    decreases s.len(),
{
    if s.len() > 0 && is_white(s.last()) {
        trim_end(s.drop_last())
    } else {
        s
    }
}

/// `s` without the white space at either end.
pub open spec fn trim(s: Seq<char>) -> Seq<char> {
    trim_start(trim_end(s))
}

/// `s` without the run of `c` at its end.
pub open spec fn strip_end(s: Seq<char>, c: char) -> Seq<char>
    decreases s.len(),
{
    if s.len() > 0 && s.last() == c {
        strip_end(s.drop_last(), c)
    } else {
        s
    }
}

/// `s` without the run of `c` at its start.
pub open spec fn strip_start(s: Seq<char>, c: char) -> Seq<char>
    decreases s.len(),
{
    if s.len() > 0 && s[0] == c {
        strip_start(s.skip(1), c)
    } else {
        s
    }
}

/// `s` without the repetitions of the non-empty `p` at its start.
pub open spec fn strip_prefixes(s: Seq<char>, p: Seq<char>) -> Seq<char>
    decreases s.len(),
{
    if p.len() > 0 && has_prefix(s, p) {
        strip_prefixes(s.skip(p.len() as int), p)
    } else {
        s
    }
}

/// The index at which the white space at the start of `t` ends.
fn white_prefix_end(t: &Vec<char>, to: usize) -> (k: usize)
    requires
        to <= t.len(),
    ensures
        k <= to,
        trim_start(t@.take(to as int)) == t@.subrange(k as int, to as int),
{
    let mut k: usize = 0;
    proof {
        assert(t@.take(to as int) == t@.subrange(0, to as int));
    }
    while k < to && white(t[k])
        invariant
            k <= to <= t.len(),
            trim_start(t@.take(to as int)) == trim_start(t@.subrange(k as int, to as int)),
        decreases to - k,
    {
        proof {
            let cur = t@.subrange(k as int, to as int);
            assert(cur[0] == t@[k as int]);
            assert(cur.skip(1) == t@.subrange(k + 1, to as int));
        }
        k += 1;
    }
    proof {
        let cur = t@.subrange(k as int, to as int);
        if k < to {
            assert(cur[0] == t@[k as int]);
        }
    }
    k
}

/// The index at which the white space at the end of `t` begins.
fn white_suffix_start(t: &Vec<char>) -> (k: usize)
    ensures
        k <= t.len(),
        trim_end(t@) == t@.take(k as int),
{
    let mut k: usize = t.len();
    proof {
        assert(t@ == t@.take(k as int));
    }
    while k > 0 && white(t[k - 1])
        invariant
            k <= t.len(),
            trim_end(t@) == trim_end(t@.take(k as int)),
        decreases k,
    {
        proof {
            let cur = t@.take(k as int);
            assert(cur.last() == t@[k - 1]);
            assert(cur.drop_last() == t@.take(k - 1));
        }
        k -= 1;
    }
    proof {
        let cur = t@.take(k as int);
        if k > 0 {
            assert(cur.last() == t@[k - 1]);
        }
    }
    k
}

/// `t` without the white space at either end.
pub fn trim_text(t: &Vec<char>) -> (r: Vec<char>)
    ensures
        r@ == trim(t@),
{
    let to = white_suffix_start(t);
    let from = white_prefix_end(t, to);
    slice_text(t, from, to)
}

/// What is left after the run of `c` at the end is a start of the text.
pub proof fn lemma_strip_end_prefix(s: Seq<char>, c: char)
    ensures
        strip_end(s, c).len() <= s.len(),
        strip_end(s, c) == s.subrange(0, strip_end(s, c).len() as int),
    decreases s.len(),
{
    if s.len() > 0 && s.last() == c {
        lemma_strip_end_prefix(s.drop_last(), c);
        let k = strip_end(s, c).len() as int;
        assert(s.drop_last().subrange(0, k) == s.subrange(0, k));
    } else {
        assert(s == s.subrange(0, s.len() as int));
    }
}

/// `t` without the run of `c` at its end.
pub fn strip_end_text(t: &Vec<char>, c: char) -> (r: Vec<char>)
    ensures
        r@ == strip_end(t@, c),
{
    let mut k: usize = t.len();
    proof {
        assert(t@ == t@.take(k as int));
    }
    while k > 0 && t[k - 1] == c
        invariant
            k <= t.len(),
            strip_end(t@, c) == strip_end(t@.take(k as int), c),
        decreases k,
    {
        proof {
            let cur = t@.take(k as int);
            assert(cur.last() == t@[k - 1]);
            assert(cur.drop_last() == t@.take(k - 1));
        }
        k -= 1;
    }
    proof {
        let cur = t@.take(k as int);
        if k > 0 {
            assert(cur.last() == t@[k - 1]);
        }
        assert(cur == t@.subrange(0, k as int));
    }
    slice_text(t, 0, k)
}

/// `t` without the run of `c` at its start.
pub fn strip_start_text(t: &Vec<char>, c: char) -> (r: Vec<char>)
    ensures
        r@ == strip_start(t@, c),
{
    let mut k: usize = 0;
    proof {
        assert(t@ == t@.skip(0));
    }
    while k < t.len() && t[k] == c
        invariant
            k <= t.len(),
            strip_start(t@, c) == strip_start(t@.skip(k as int), c),
        decreases t.len() - k,
    {
        proof {
            let cur = t@.skip(k as int);
            assert(cur[0] == t@[k as int]);
            assert(cur.skip(1) == t@.skip(k + 1));
        }
        k += 1;
    }
    proof {
        let cur = t@.skip(k as int);
        if k < t.len() {
            assert(cur[0] == t@[k as int]);
        }
        assert(cur == t@.subrange(k as int, t.len() as int));
    }
    slice_text(t, k, t.len())
}

/// `t` without the repetitions of the non-empty `p` at its start.
pub fn strip_prefixes_text(t: &Vec<char>, p: &Vec<char>) -> (r: Vec<char>)
    ensures
        r@ == strip_prefixes(t@, p@),
{
    let mut cur: Vec<char> = slice_text(t, 0, t.len());
    assert(cur@ == t@);
    if p.len() == 0 {
        return cur;
    }
    while starts_with(&cur, p)
        invariant
            p.len() > 0,
            strip_prefixes(t@, p@) == strip_prefixes(cur@, p@),
        decreases cur.len(),
    {
        let next = slice_text(&cur, p.len(), cur.len());
        assert(next@ == cur@.skip(p.len() as int));
        cur = next;
    }
    cur
}

/// The index of the first occurrence of `p` in `s`, or the length of `s`
/// where there is none.
pub open spec fn find_sub(s: Seq<char>, p: Seq<char>) -> int
    decreases s.len(),
{
    if has_prefix(s, p) || s.len() == 0 {
        0
    } else {
        1 + find_sub(s.skip(1), p)
    }
}

/// `find_sub` stays within the text, names an occurrence of `p` where it
/// stops short of the end, and passes over none.
pub proof fn lemma_find_sub(s: Seq<char>, p: Seq<char>)
    ensures
        0 <= find_sub(s, p) <= s.len(),
        find_sub(s, p) < s.len() ==> has_prefix(s.skip(find_sub(s, p)), p),
        forall|i: int| 0 <= i < find_sub(s, p) ==> !has_prefix(#[trigger] s.skip(i), p),
    decreases s.len(),
{
    if has_prefix(s, p) || s.len() == 0 {
        assert(s.skip(0) == s);
    } else {
        lemma_find_sub(s.skip(1), p);
        let k = find_sub(s.skip(1), p);
        assert(s.skip(1).skip(k) == s.skip(k + 1));
        assert forall|i: int| 0 <= i < find_sub(s, p) implies !has_prefix(
            #[trigger] s.skip(i),
            p,
        ) by {
            if i == 0 {
                assert(s.skip(0) == s);
            } else {
                assert(s.skip(1).skip(i - 1) == s.skip(i));
            }
        }
    }
}

/// Whether `p` stands in `t` at index `k`.
pub fn matches_at(t: &Vec<char>, k: usize, p: &Vec<char>) -> (r: bool)
    requires
        k <= t.len(),
    ensures
        r == has_prefix(t@.skip(k as int), p@),
{
    if p.len() > t.len() - k {
        return false;
    }
    let ghost rest = t@.skip(k as int);
    let mut i: usize = 0;
    while i < p.len()
        invariant
            k <= t.len(),
            p.len() <= t.len() - k,
            i <= p.len(),
            rest == t@.skip(k as int),
            rest.subrange(0, i as int) == p@.take(i as int),
        decreases p.len() - i,
    {
        if t[k + i] != p[i] {
            assert(rest.subrange(0, p.len() as int)[i as int] != p@[i as int]);
            return false;
        }
        assert(rest.subrange(0, i + 1) == rest.subrange(0, i as int).push(rest[i as int]));
        assert(p@.take(i + 1) == p@.take(i as int).push(p@[i as int]));
        i += 1;
    }
    assert(p@ == p@.take(p.len() as int));
    true
}

/// The index of the first occurrence of `p` in `t`, or the length of `t`.
pub fn find_sub_text(t: &Vec<char>, p: &Vec<char>) -> (k: usize)
    ensures
        k <= t.len(),
        k == find_sub(t@, p@),
        k < t.len() ==> has_prefix(t@.skip(k as int), p@),
{
    let mut k: usize = 0;
    proof {
        assert(t@ == t@.skip(0));
    }
    while k < t.len()
        invariant
            k <= t.len(),
            find_sub(t@, p@) == k + find_sub(t@.skip(k as int), p@),
        decreases t.len() - k,
    {
        if matches_at(t, k, p) {
            return k;
        }
        proof {
            assert(t@.skip(k as int).skip(1) == t@.skip(k + 1));
        }
        k += 1;
    }
    k
}

} // verus!
