use pbarber::decimal::{decimal_text, parse_i64, parse_u64, push_decimal, push_digits};
use pbarber::text::{
    chars_of, find_from, find_sub_text, is_str, matches_at, push_str, push_text, same_text, slice_text,
    split_text, starts_with, starts_with_str, strings_of, strip_end_text, strip_prefixes_text,
    strip_start_text, trim_text, white,
};

fn chars(s: &str) -> Vec<char> {
    s.chars().collect()
}

fn text(v: &Vec<char>) -> String {
    v.iter().collect()
}

fn texts(v: &Vec<Vec<char>>) -> Vec<String> {
    v.iter().map(text).collect()
}

#[test]
fn chars_of_gives_the_characters() {
    assert_eq!(chars_of("a\u{221f}b"), vec!['a', '\u{221f}', 'b']);
    assert_eq!(chars_of(""), Vec::<char>::new());
}

#[test]
fn strings_of_gives_the_strings() {
    assert_eq!(strings_of(&vec![chars("@lfx1"), chars("")]), vec!["@lfx1".to_string(), String::new()]);
}

#[test]
fn texts_are_compared_by_their_characters() {
    assert!(same_text(&chars("pol"), &chars("pol")));
    assert!(!same_text(&chars("pol"), &chars("p")));
    assert!(!same_text(&chars("pol"), &chars("pot")));
    assert!(is_str(&chars("a"), "a"));
    assert!(!is_str(&chars("a"), "red"));
}

#[test]
fn pushing_appends() {
    let mut t = chars("del");
    push_str(&mut t, " id ");
    push_text(&mut t, &chars("@1"));
    assert_eq!(text(&t), "del id @1");
}

#[test]
fn slices_and_prefixes() {
    let t = chars("conclusion UNSAT : @3 ;");
    assert_eq!(text(&slice_text(&t, 11, 16)), "UNSAT");
    assert!(starts_with_str(&t, "conclusion UNSAT"));
    assert!(!starts_with_str(&t, "conclusion SAT"));
    assert!(starts_with(&t, &chars("")));
    assert!(!starts_with(&chars("ab"), &chars("abc")));
}

#[test]
fn find_from_gives_the_first_occurrence() {
    let t = chars("a:b:c");
    assert_eq!(find_from(&t, 0, ':'), 1);
    assert_eq!(find_from(&t, 2, ':'), 3);
    assert_eq!(find_from(&t, 4, ':'), 5);
}

#[test]
fn split_keeps_empty_pieces() {
    assert_eq!(texts(&split_text(&chars("@1 pol @2  + ;"), ' ')), vec!["@1", "pol", "@2", "", "+", ";"]);
    assert_eq!(texts(&split_text(&chars(""), ' ')), vec![""]);
    assert_eq!(texts(&split_text(&chars(":a:"), ':')), vec!["", "a", ""]);
    let line = "@7 a 1 ~x1 1 ~x2 >= 1 : @f0 : IntVarDef :";
    let expected: Vec<String> = line.split(':').map(|s| s.to_string()).collect();
    assert_eq!(texts(&split_text(&chars(line), ':')), expected);
}

#[test]
fn trim_removes_white_space_at_both_ends() {
    for s in ["  IntVarDef \t", "", "   ", "a", " a b ", "\u{a0}x\u{3000}\n", "\r\n@f0"] {
        assert_eq!(text(&trim_text(&chars(s))), s.trim());
    }
    assert!(white(' '));
    assert!(white('\u{2028}'));
    assert!(!white('x'));
    assert!(!white('\u{200b}'));
}

#[test]
fn stripping_removes_runs() {
    assert_eq!(text(&strip_end_text(&chars("name;;"), ';')), "name");
    assert_eq!(text(&strip_end_text(&chars(";;"), ';')), "");
    assert_eq!(text(&strip_end_text(&chars("a;b"), ';')), "a;b");
    assert_eq!(text(&strip_start_text(&chars(";;a;"), ';')), "a;");
    assert_eq!(text(&strip_prefixes_text(&chars("@f@f12"), &chars("@f"))), "12");
    assert_eq!(text(&strip_prefixes_text(&chars("12"), &chars("@f"))), "12");
    assert_eq!(text(&strip_prefixes_text(&chars("@f"), &chars(""))), "@f");
}

#[test]
fn matches_at_looks_at_one_place() {
    let t = chars("@7 a 1 x1");
    assert!(matches_at(&t, 2, &chars(" a ")));
    assert!(!matches_at(&t, 3, &chars(" a ")));
    assert!(!matches_at(&t, 7, &chars("x1 ")));
    assert!(matches_at(&t, 7, &chars("x1")));
    assert!(matches_at(&t, 9, &chars("")));
    assert!(!matches_at(&t, 9, &chars("x")));
}

#[test]
fn find_sub_gives_the_first_occurrence() {
    assert_eq!(find_sub_text(&chars("@7 a 1 x1 a >= 1"), &chars(" a ")), 2);
    assert_eq!(find_sub_text(&chars("@7 pol @1"), &chars(" a ")), 9);
    assert_eq!(find_sub_text(&chars(""), &chars(" a ")), 0);
}

#[test]
fn decimal_text_of_integers() {
    assert_eq!(text(&decimal_text(0)), "0");
    assert_eq!(text(&decimal_text(7)), "7");
    assert_eq!(text(&decimal_text(-1)), "-1");
    assert_eq!(text(&decimal_text(1234567890)), "1234567890");
    assert_eq!(text(&decimal_text(i64::MIN as i128 - 1)), "-9223372036854775809");
    assert_eq!(text(&decimal_text(i128::MIN)), i128::MIN.to_string());
    assert_eq!(text(&decimal_text(i128::MAX)), i128::MAX.to_string());
    let mut t = chars("x");
    push_digits(&mut t, 120);
    push_decimal(&mut t, -5);
    assert_eq!(text(&t), "x120-5");
}

#[test]
fn parsing_integers() {
    assert_eq!(parse_i64(&chars("5")), Some(5));
    assert_eq!(parse_i64(&chars("-0")), Some(0));
    assert_eq!(parse_i64(&chars("+17")), Some(17));
    assert_eq!(parse_i64(&chars("007")), Some(7));
    assert_eq!(parse_i64(&chars("9223372036854775807")), Some(i64::MAX));
    assert_eq!(parse_i64(&chars("-9223372036854775808")), Some(i64::MIN));
    assert_eq!(parse_i64(&chars("9223372036854775808")), None);
    assert_eq!(parse_i64(&chars("-9223372036854775809")), None);
    assert_eq!(parse_i64(&chars("")), None);
    assert_eq!(parse_i64(&chars("-")), None);
    assert_eq!(parse_i64(&chars("+")), None);
    assert_eq!(parse_i64(&chars("12a")), None);
    assert_eq!(parse_i64(&chars(" 1")), None);
    assert_eq!(parse_i64(&chars("1 ")), None);
    assert_eq!(parse_i64(&chars("--1")), None);
    assert_eq!(parse_i64(&chars("99999999999999999999999999999999999999999999")), None);
    for s in ["5", "-0", "+17", "", "-", "12a", "18446744073709551615", "18446744073709551616", "-1"] {
        assert_eq!(parse_i64(&chars(s)), s.parse::<i64>().ok());
        assert_eq!(parse_u64(&chars(s)), s.parse::<u64>().ok());
    }
}
