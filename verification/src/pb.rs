//! Pseudo-Boolean constraints: a weighted sum of literals that is to reach
//! a right-hand side, or to equal it, as the proof log writes it.

use crate::decimal::{decimal, parse_i64, parse_int, push_decimal};
use crate::text::{
    chars_of,
    is_str,
    push_str,
    slice_text,
    split,
    split_text,
    string_of,
    strip_end,
    strip_end_text,
    texts,
    trim,
    trim_text,
};
use crate::{Failure, PBarberError};
use vstd::prelude::*;

verus! {

/// A literal: a variable, by its name, or its negation.
#[derive(Debug)]
pub struct PBLiteral {
    pub name: String,
    pub negated: bool,
}

/// A literal with its name as a sequence of characters.
pub struct Lit {
    pub name: Seq<char>,
    pub negated: bool,
}

impl View for PBLiteral {
    type V = Lit;

    open spec fn view(&self) -> Lit {
        Lit { name: self.name@, negated: self.negated }
    }
}

impl Lit {
    /// The literal as it is written: its name, after a `~` where it is
    /// negated.
    pub open spec fn text(self) -> Seq<char> {
        if self.negated {
            seq!['~'] + self.name
        } else {
            self.name
        }
    }

    /// The literal of the same variable with the other sign.
    pub open spec fn negation(self) -> Lit {
        Lit { name: self.name, negated: !self.negated }
    }
}

impl PBLiteral {
    /// The literal of the variable `name`, negated or not.
    pub fn new(name: String, negated: bool) -> (r: Self)
        ensures
            r@ == (Lit { name: name@, negated }),
    {
        PBLiteral { name, negated }
    }

    /// Whether the literal is a negated variable.
    pub fn is_negated(&self) -> (r: bool)
        ensures
            r == self@.negated,
    {
        self.negated
    }

    /// The name of the literal's variable.
    pub fn var_name(&self) -> (r: &str)
        ensures
            r@ == self@.name,
    {
        self.name.as_str()
    }

    /// Turns the literal into the one of the same variable with the other
    /// sign.
    pub fn negate(&mut self)
        ensures
            final(self)@ == old(self)@.negation(),
    {
        self.negated = !self.negated;
    }

    /// A copy of the literal.
    pub fn duplicate(&self) -> (r: Self)
        ensures
            r@ == self@,
    {
        PBLiteral { name: self.name.clone(), negated: self.negated }
    }

    /// Whether two literals are the same variable with the same sign.
    pub fn same(&self, other: &PBLiteral) -> (r: bool)
        ensures
            r == (self@ == other@),
    {
        self.negated == other.negated && self.name == other.name
    }

    /// The literal as it is written.
    pub fn to_pretty_string(&self) -> (r: String)
        ensures
            r@ == self@.text(),
    {
        let mut t: Vec<char> = Vec::new();
        if self.negated {
            t.push('~');
        }
        push_str(&mut t, self.name.as_str());
        string_of(&t)
    }
}

/// A weighted literal.
#[derive(Debug)]
pub struct PBTerm {
    pub coeff: i64,
    pub lit: PBLiteral,
}

/// A weighted literal with its name as a sequence of characters.
pub struct Term {
    pub coeff: int,
    pub lit: Lit,
}

impl View for PBTerm {
    type V = Term;

    open spec fn view(&self) -> Term {
        Term { coeff: self.coeff as int, lit: self.lit@ }
    }
}

/// A constraint: the sum of its terms is to be at least `rhs`, or, for an
/// equation, to be `rhs`.
#[derive(Debug)]
pub struct PBConstraint {
    pub terms: Vec<PBTerm>,
    pub rhs: i64,
    /// Whether the constraint is an equation.
    pub equation: bool,
}

/// A constraint with its names as sequences of characters.
pub struct Constraint {
    pub terms: Seq<Term>,
    pub rhs: int,
    pub equation: bool,
}

/// The views of a vector of terms.
pub open spec fn terms_of(v: Seq<PBTerm>) -> Seq<Term> {
    v.map_values(|t: PBTerm| t@)
}

/// The views of a vector of literals.
pub open spec fn lits_of(v: Seq<PBLiteral>) -> Seq<Lit> {
    v.map_values(|l: PBLiteral| l@)
}

impl View for PBConstraint {
    type V = Constraint;

    open spec fn view(&self) -> Constraint {
        Constraint {
            terms: terms_of(self.terms@),
            rhs: self.rhs as int,
            equation: self.equation,
        }
    }
}

/// The words of `pieces` that are not empty.
pub open spec fn nonempty(pieces: Seq<Seq<char>>) -> Seq<Seq<char>>
    decreases pieces.len(),
{
    if pieces.len() == 0 {
        Seq::empty()
    } else if pieces.last().len() > 0 {
        nonempty(pieces.drop_last()).push(pieces.last())
    } else {
        nonempty(pieces.drop_last())
    }
}

/// The words of `s`: what stands between its spaces.
pub open spec fn words(s: Seq<char>) -> Seq<Seq<char>> {
    nonempty(split(s, ' '))
}

/// Whether `c` can begin the name of a variable: neither a digit, nor a
/// sign, nor a character of an operator, nor `~` or `;`.
pub open spec fn begins_name(c: char) -> bool {
    crate::decimal::digit_value(c) is None && c != '+' && c != '-' && c != '~' && c != '<' && c
        != '>' && c != '=' && c != ';'
}

/// The literal that the word `w` writes.
pub open spec fn parse_lit(w: Seq<char>) -> Option<Lit> {
    if w.len() > 1 && w[0] == '~' && begins_name(w[1]) {
        Some(Lit { name: w.skip(1), negated: true })
    } else if w.len() > 0 && begins_name(w[0]) {
        Some(Lit { name: w, negated: false })
    } else {
        None
    }
}

/// The number that the word `w` writes: an integer whose negation 64 bits
/// hold as well.
pub open spec fn parse_number(w: Seq<char>) -> Option<int> {
    match parse_int(w) {
        Some(v) => if -i64::MAX <= v <= i64::MAX {
            Some(v)
        } else {
            None
        },
        None => None,
    }
}

/// The terms that the words `ws` write: a number and a literal for each.
pub open spec fn parse_terms(ws: Seq<Seq<char>>) -> Option<Seq<Term>>
    decreases ws.len(),
{
    if ws.len() == 0 {
        Some(Seq::empty())
    } else if ws.len() == 1 {
        None
    } else {
        match (
            parse_terms(ws.take(ws.len() - 2)),
            parse_number(ws[ws.len() - 2]),
            parse_lit(ws[ws.len() - 1]),
        ) {
            (Some(head), Some(coeff), Some(lit)) => Some(head.push(Term { coeff, lit })),
            _ => None,
        }
    }
}

/// Whether the word `w` is the operator of an equation.
pub open spec fn writes_equation(w: Seq<char>) -> bool {
    w == "="@
}

/// Whether the word `w` is an operator, and whether it is the one that
/// turns the constraint round: `>=` and `=` do not, `<=` does.
pub open spec fn parse_operator(w: Seq<char>) -> Option<bool> {
    if w == ">="@ || w == "="@ {
        Some(false)
    } else if w == "<="@ {
        Some(true)
    } else {
        None
    }
}

/// The terms with their weights negated.
pub open spec fn negated_terms(terms: Seq<Term>) -> Seq<Term> {
    terms.map_values(|t: Term| Term { coeff: -t.coeff, lit: t.lit })
}

/// The text of a constraint without the white space and the semicolons at
/// its end.
pub open spec fn constraint_body(s: Seq<char>) -> Seq<char> {
    strip_end(trim(s), ';')
}

/// The constraint that `s` writes: terms, each a weight and a literal, then
/// an operator and a right-hand side, with spaces between them and, at the
/// end, semicolons or none.
///
/// A constraint with `>=` and an equation are kept as they are written,
/// and one with `<=` as the constraint with `>=` that says the same: all
/// weights and the right-hand side negated.
pub open spec fn parse(s: Seq<char>) -> Option<Constraint> {
    let ws = words(constraint_body(s));
    if ws.len() < 2 {
        None
    } else {
        match (
            parse_terms(ws.take(ws.len() - 2)),
            parse_operator(ws[ws.len() - 2]),
            parse_number(ws[ws.len() - 1]),
        ) {
            (Some(terms), Some(turned), Some(rhs)) => if turned {
                Some(Constraint { terms: negated_terms(terms), rhs: -rhs, equation: false })
            } else {
                Some(Constraint { terms, rhs, equation: writes_equation(ws[ws.len() - 2]) })
            },
            _ => None,
        }
    }
}

/// What is reported for a text that writes no constraint.
pub open spec fn parse_failure(s: Seq<char>) -> Failure {
    Failure::ParseError { expected: "a pseudo-Boolean constraint"@, found: s }
}

/// The literals without those that stand earlier in the sequence already.
pub open spec fn distinct(lits: Seq<Lit>) -> Seq<Lit>
    decreases lits.len(),
{
    if lits.len() == 0 {
        Seq::empty()
    } else if distinct(lits.drop_last()).contains(lits.last()) {
        distinct(lits.drop_last())
    } else {
        distinct(lits.drop_last()).push(lits.last())
    }
}

/// The text of the terms: for each its weight, a space, its literal and a
/// space.
pub open spec fn terms_text(terms: Seq<Term>) -> Seq<char>
    decreases terms.len(),
{
    if terms.len() == 0 {
        Seq::empty()
    } else {
        terms_text(terms.drop_last()) + decimal(terms.last().coeff) + seq![' ']
            + terms.last().lit.text() + seq![' ']
    }
}

impl Constraint {
    /// The literals of the constraint, each once, in the order of their
    /// first term.
    pub open spec fn lits(self) -> Seq<Lit> {
        distinct(self.terms.map_values(|t: Term| t.lit))
    }

    /// The operator of the constraint as it is written, with the space
    /// after it.
    pub open spec fn operator_text(self) -> Seq<char> {
        if self.equation {
            "= "@
        } else {
            ">= "@
        }
    }

    /// The constraint as it is written: its terms, its operator and its
    /// right-hand side.
    pub open spec fn pretty(self) -> Seq<char> {
        terms_text(self.terms) + self.operator_text() + decimal(self.rhs)
    }
}

fn begins_name_char(c: char) -> (r: bool)
    ensures
        r == begins_name(c),
{
    !(c == '0' || c == '1' || c == '2' || c == '3' || c == '4' || c == '5' || c == '6' || c == '7'
        || c == '8' || c == '9' || c == '+' || c == '-' || c == '~' || c == '<' || c == '>' || c
        == '=' || c == ';')
}

fn parse_lit_word(w: &Vec<char>) -> (r: Option<PBLiteral>)
    ensures
        match r {
            Some(l) => parse_lit(w@) == Some(l@),
            None => parse_lit(w@) is None,
        },
{
    if w.len() > 1 && w[0] == '~' && begins_name_char(w[1]) {
        let name = slice_text(w, 1, w.len());
        assert(name@ == w@.skip(1));
        Some(PBLiteral { name: string_of(&name), negated: true })
    } else if w.len() > 0 && begins_name_char(w[0]) {
        Some(PBLiteral { name: string_of(w), negated: false })
    } else {
        None
    }
}

fn parse_number_word(w: &Vec<char>) -> (r: Option<i64>)
    ensures
        match r {
            Some(v) => parse_number(w@) == Some(v as int),
            None => parse_number(w@) is None,
        },
{
    match parse_i64(w) {
        Some(v) => if v == i64::MIN {
            None
        } else {
            Some(v)
        },
        None => None,
    }
}

fn parse_operator_word(w: &Vec<char>) -> (r: Option<bool>)
    ensures
        r == parse_operator(w@),
{
    if is_str(w, ">=") || is_str(w, "=") {
        Some(false)
    } else if is_str(w, "<=") {
        Some(true)
    } else {
        None
    }
}

/// The words of `t`.
pub fn words_of(t: &Vec<char>) -> (r: Vec<Vec<char>>)
    ensures
        texts(r@) == words(t@),
{
    let pieces = split_text(t, ' ');
    let mut r: Vec<Vec<char>> = Vec::new();
    let mut i: usize = 0;
    proof {
        assert(texts(r@) =~= nonempty(texts(pieces@).take(0)));
    }
    while i < pieces.len()
        invariant
            i <= pieces.len(),
            texts(pieces@) == split(t@, ' '),
            texts(r@) == nonempty(texts(pieces@).take(i as int)),
        decreases pieces.len() - i,
    {
        proof {
            let upto = texts(pieces@).take(i + 1);
            assert(upto.drop_last() == texts(pieces@).take(i as int));
            assert(upto.last() == pieces@[i as int]@);
        }
        if pieces[i].len() > 0 {
            let ghost before = r@;
            let piece = slice_text(&pieces[i], 0, pieces[i].len());
            assert(piece@ == pieces@[i as int]@);
            r.push(piece);
            assert(texts(r@) =~= texts(before).push(piece@));
        }
        i += 1;
    }
    proof {
        assert(texts(pieces@).take(i as int) == texts(pieces@));
    }
    r
}

/// The error for a text that writes no constraint.
fn parse_error(text: &Vec<char>) -> (e: PBarberError)
    ensures
        e@ == parse_failure(text@),
{
    PBarberError::ParseError {
        expected: string_of(&chars_of("a pseudo-Boolean constraint")),
        found: string_of(text),
    }
}

impl PBConstraint {
    /// The constraint that `text` writes.
    pub fn parse(text: &Vec<char>) -> (r: Result<PBConstraint, PBarberError>)
        ensures
            match r {
                Ok(c) => parse(text@) == Some(c@),
                Err(e) => parse(text@) is None && e@ == parse_failure(text@),
            },
    {
        let trimmed = trim_text(text);
        let body = strip_end_text(&trimmed, ';');
        let ws = words_of(&body);
        if ws.len() < 2 {
            return Err(parse_error(text));
        }
        let n: usize = ws.len() - 2;
        proof {
            assert(texts(ws@)[n as int] == ws@[n as int]@);
            assert(texts(ws@)[n + 1] == ws@[n + 1]@);
        }
        let turned = match parse_operator_word(&ws[n]) {
            Some(t) => t,
            None => {
                return Err(parse_error(text));
            },
        };
        let rhs: i64 = match parse_number_word(&ws[n + 1]) {
            Some(v) => v,
            None => {
                return Err(parse_error(text));
            },
        };
        if n % 2 != 0 {
            proof {
                lemma_odd_words(texts(ws@).take(n as int));
            }
            return Err(parse_error(text));
        }
        let mut terms: Vec<PBTerm> = Vec::new();
        let mut i: usize = 0;
        let ghost head = texts(ws@).take(n as int);
        proof {
            assert(head.take(0) =~= Seq::<Seq<char>>::empty());
            assert(terms_of(terms@) =~= Seq::<Term>::empty());
        }
        while i < n
            invariant
                i <= n,
                n + 2 == ws.len(),
                i % 2 == 0,
                n % 2 == 0,
                head == texts(ws@).take(n as int),
                texts(ws@) == words(constraint_body(text@)),
                turned ==> parse_terms(head.take(i as int)) == Some(negated_terms(terms_of(terms@))),
                !turned ==> parse_terms(head.take(i as int)) == Some(terms_of(terms@)),
            decreases n - i,
        {
            proof {
                let upto = head.take(i + 2);
                assert(upto.take(upto.len() - 2) == head.take(i as int));
                assert(upto[upto.len() - 2] == ws@[i as int]@);
                assert(upto[upto.len() - 1] == ws@[i + 1]@);
            }
            let coeff: i64 = match parse_number_word(&ws[i]) {
                Some(v) => v,
                None => {
                    proof {
                        if parse_terms(head) is Some {
                            lemma_terms_prefix(head, i + 2);
                        }
                    }
                    return Err(parse_error(text));
                },
            };
            let lit = match parse_lit_word(&ws[i + 1]) {
                Some(l) => l,
                None => {
                    proof {
                        if parse_terms(head) is Some {
                            lemma_terms_prefix(head, i + 2);
                        }
                    }
                    return Err(parse_error(text));
                },
            };
            let ghost before = terms_of(terms@);
            let weight: i64 = if turned {
                -coeff
            } else {
                coeff
            };
            terms.push(PBTerm { coeff: weight, lit });
            proof {
                let term = Term { coeff: weight as int, lit: lit@ };
                assert(terms_of(terms@) =~= before.push(term));
                if turned {
                    assert(negated_terms(terms_of(terms@)) =~= negated_terms(before).push(
                        Term { coeff: coeff as int, lit: lit@ },
                    ));
                }
            }
            i += 2;
        }
        proof {
            assert(head.take(n as int) == head);
            if turned {
                let got = terms_of(terms@);
                assert(negated_terms(negated_terms(got)) =~= got);
            }
        }
        let bound: i64 = if turned {
            -rhs
        } else {
            rhs
        };
        let equation = is_str(&ws[n], "=");
        proof {
            if turned {
                reveal_strlit("=");
                reveal_strlit("<=");
            }
        }
        Ok(PBConstraint { terms, rhs: bound, equation })
    }

    /// The literals of the constraint, each once, in the order of their
    /// first term.
    pub fn get_constraint_lits(&self) -> (r: Vec<PBLiteral>)
        ensures
            lits_of(r@) == self@.lits(),
    {
        let mut r: Vec<PBLiteral> = Vec::new();
        let mut i: usize = 0;
        let ghost all = self@.terms.map_values(|t: Term| t.lit);
        proof {
            assert(all.take(0) =~= Seq::<Lit>::empty());
            assert(lits_of(r@) =~= Seq::<Lit>::empty());
        }
        while i < self.terms.len()
            invariant
                i <= self.terms.len(),
                all == self@.terms.map_values(|t: Term| t.lit),
                lits_of(r@) == distinct(all.take(i as int)),
            decreases self.terms.len() - i,
        {
            proof {
                let upto = all.take(i + 1);
                assert(upto.drop_last() == all.take(i as int));
                assert(upto.last() == self.terms@[i as int].lit@);
            }
            let lit = &self.terms[i].lit;
            let mut j: usize = 0;
            let mut found = false;
            while j < r.len() && !found
                invariant
                    j <= r.len(),
                    found ==> lits_of(r@).contains(lit@),
                    !found ==> forall|k: int| 0 <= k < j ==> lits_of(r@)[k] != lit@,
                decreases r.len() - j + if found { 0int } else { 1int },
            {
                if r[j].same(lit) {
                    found = true;
                    proof {
                        assert(lits_of(r@)[j as int] == lit@);
                    }
                } else {
                    proof {
                        assert(lits_of(r@)[j as int] == r@[j as int]@);
                    }
                    j += 1;
                }
            }
            if !found {
                let ghost before = r@;
                r.push(lit.duplicate());
                proof {
                    assert(lits_of(r@) =~= lits_of(before).push(lit@));
                }
            }
            i += 1;
        }
        proof {
            assert(all.take(i as int) == all);
        }
        r
    }

    /// The constraint as it is written.
    pub fn to_pretty_string(&self) -> (r: String)
        ensures
            r@ == self@.pretty(),
    {
        let t = self.pretty_text();
        string_of(&t)
    }

    /// The constraint as it is written.
    pub fn pretty_text(&self) -> (t: Vec<char>)
        ensures
            t@ == self@.pretty(),
    {
        let mut t: Vec<char> = Vec::new();
        let mut i: usize = 0;
        let ghost all = terms_of(self.terms@);
        proof {
            assert(all.take(0) =~= Seq::<Term>::empty());
        }
        while i < self.terms.len()
            invariant
                i <= self.terms.len(),
                all == terms_of(self.terms@),
                t@ == terms_text(all.take(i as int)),
            decreases self.terms.len() - i,
        {
            proof {
                let upto = all.take(i + 1);
                assert(upto.drop_last() == all.take(i as int));
                assert(upto.last() == self.terms@[i as int]@);
            }
            push_decimal(&mut t, self.terms[i].coeff as i128);
            t.push(' ');
            if self.terms[i].lit.negated {
                t.push('~');
            }
            push_str(&mut t, self.terms[i].lit.name.as_str());
            t.push(' ');
            proof {
                let term = self.terms@[i as int]@;
                assert(t@ =~= terms_text(all.take(i as int)) + decimal(term.coeff) + seq![' ']
                    + term.lit.text() + seq![' ']);
            }
            i += 1;
        }
        proof {
            assert(all.take(i as int) == all);
        }
        if self.equation {
            push_str(&mut t, "= ");
        } else {
            push_str(&mut t, ">= ");
        }
        push_decimal(&mut t, self.rhs as i128);
        t
    }
}

/// An odd number of words writes no terms.
proof fn lemma_odd_words(ws: Seq<Seq<char>>)
    requires
        ws.len() % 2 == 1,
    ensures
        parse_terms(ws) is None,
    decreases ws.len(),
{
    if ws.len() > 1 {
        lemma_odd_words(ws.take(ws.len() - 2));
    }
}

/// Words that write terms do so up to every even place.
proof fn lemma_terms_prefix(ws: Seq<Seq<char>>, k: int)
    requires
        0 <= k <= ws.len(),
        k % 2 == 0,
        ws.len() % 2 == 0,
        parse_terms(ws) is Some,
    ensures
        parse_terms(ws.take(k)) is Some,
    decreases ws.len(),
{
    if k == ws.len() {
        assert(ws.take(k) == ws);
    } else {
        let head = ws.take(ws.len() - 2);
        lemma_terms_prefix(head, k);
        assert(head.take(k) == ws.take(k));
    }
}

} // verus!
