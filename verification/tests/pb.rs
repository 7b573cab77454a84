use pbarber::justifier::{trim_sc, PolBuilder};
use pbarber::pb::{words_of, PBConstraint, PBLiteral};
use pbarber::PBarberError;

fn chars(s: &str) -> Vec<char> {
    s.chars().collect()
}

fn parsed(s: &str) -> PBConstraint {
    PBConstraint::parse(&chars(s)).unwrap()
}

fn lits(c: &PBConstraint) -> Vec<String> {
    c.get_constraint_lits().iter().map(|l| l.to_pretty_string()).collect()
}

#[test]
fn a_constraint_is_parsed_and_written() {
    let c = parsed("1 ~x1 1 ~x2 >= 1");
    assert_eq!(c.rhs, 1);
    assert_eq!(c.terms.len(), 2);
    assert_eq!(c.terms[0].coeff, 1);
    assert_eq!(c.terms[0].lit.name, "x1");
    assert!(c.terms[0].lit.negated);
    assert_eq!(lits(&c), vec!["~x1", "~x2"]);
    assert_eq!(c.to_pretty_string(), "1 ~x1 1 ~x2 >= 1");
}

#[test]
fn white_space_and_semicolons_around_a_constraint_are_passed_over() {
    assert_eq!(parsed("  +2 x1   -3 ~y  >=  -4 ; ").to_pretty_string(), "2 x1 -3 ~y >= -4");
    assert_eq!(parsed("1 x1 >= 1;").to_pretty_string(), "1 x1 >= 1");
    assert_eq!(parsed(">= 0").to_pretty_string(), ">= 0");
}

#[test]
fn a_constraint_with_at_most_is_turned_round() {
    assert_eq!(parsed("2 x1 -1 x2 <= 3").to_pretty_string(), "-2 x1 1 x2 >= -3");
    assert!(!parsed("2 x1 -1 x2 <= 3").equation);
    assert!(!parsed("2 x1 -1 x2 >= 3").equation);
}

#[test]
fn an_equation_is_kept_as_it_is_written() {
    let c = parsed("2 x1 -1 ~x2 = 3 ;");
    assert!(c.equation);
    assert_eq!(c.rhs, 3);
    assert_eq!(c.terms[1].coeff, -1);
    assert_eq!(c.to_pretty_string(), "2 x1 -1 ~x2 = 3");
    assert_eq!(lits(&c), vec!["x1", "~x2"]);
    assert_eq!(parsed("= 0").to_pretty_string(), "= 0");
}

#[test]
fn literals_are_listed_once() {
    assert_eq!(lits(&parsed("1 x1 2 ~x1 3 x1 1 x2 >= 1")), vec!["x1", "~x1", "x2"]);
    assert_eq!(lits(&parsed(">= 1")), Vec::<String>::new());
}

#[test]
fn what_is_no_constraint_is_refused() {
    for s in [
        "",
        "1 x1",
        "x1 >= 1",
        "1 x1 >= x2",
        "1 x1 > 1",
        "1 x1 1 >= 1",
        "1 ~ >= 1",
        "1 1 >= 1",
        "1 x1 >= 1 2",
        "9223372036854775808 x1 >= 1",
        "-9223372036854775808 x1 >= 1",
        "1 x1 >= 1 : @f0",
    ] {
        match PBConstraint::parse(&chars(s)) {
            Err(PBarberError::ParseError { expected, found }) => {
                assert_eq!(expected, "a pseudo-Boolean constraint");
                assert_eq!(found, s);
            }
            other => panic!("{:?}", other),
        }
    }
}

#[test]
fn literals_are_negated_and_compared() {
    let mut l = PBLiteral::new("x1".to_string(), false);
    assert!(!l.is_negated());
    assert_eq!(l.var_name(), "x1");
    assert_eq!(l.to_pretty_string(), "x1");
    let copy = l.duplicate();
    assert!(l.same(&copy));
    l.negate();
    assert!(l.is_negated());
    assert_eq!(l.to_pretty_string(), "~x1");
    assert!(!l.same(&copy));
    assert!(!l.same(&PBLiteral::new("x2".to_string(), true)));
    l.negate();
    assert!(l.same(&copy));
}

#[test]
fn words_are_what_stands_between_spaces() {
    let words: Vec<String> =
        words_of(&chars("  1 x1   >= 1 ")).iter().map(|w| w.iter().collect()).collect();
    assert_eq!(words, vec!["1", "x1", ">=", "1"]);
    assert!(words_of(&chars("   ")).is_empty());
}

#[test]
fn a_pol_line_is_built() {
    let mut pol = PolBuilder::new();
    assert_eq!(pol.done(), "pol ;");
    let mut pol = PolBuilder::new();
    pol.add(&"@1".to_string());
    assert_eq!(pol.done(), "pol @1 ;");
    let mut pol = PolBuilder::new();
    pol.add_all(&vec!["@lrx1".to_string(), "@lrx2".to_string()]);
    assert_eq!(pol.done(), "pol @lrx1  + @lrx2 ;");
    let mut pol = PolBuilder::new();
    pol.add_weighted(&"@lbA".to_string(), 3);
    pol.add(&"@2".to_string());
    pol.add_weighted(&"@ubB".to_string(), u64::MAX);
    assert_eq!(pol.done(), "pol @lbA 3 *  + @2  + @ubB 18446744073709551615 * ;");
}

#[test]
fn semicolons_at_the_end_are_trimmed() {
    assert_eq!(trim_sc("IntVarDef;"), "IntVarDef");
    assert_eq!(trim_sc("IntVarDef ;;"), "IntVarDef ");
    assert_eq!(trim_sc(";"), "");
    assert_eq!(trim_sc("a;b"), "a;b");
    assert_eq!(trim_sc("\u{221f};"), "\u{221f}");
}
