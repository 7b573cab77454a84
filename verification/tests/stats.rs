use pbarber::ProofFileStats;

fn counted(lines: &[&str]) -> ProofFileStats {
    let mut stats = ProofFileStats::default();
    for line in lines {
        stats.record_line(line);
    }
    stats
}

#[test]
fn lines_are_counted_by_rule() {
    let stats = counted(&[
        "pseudo-Boolean proof version 2.0",
        "@1 a 1 x1 >= 1 : @f0 : IntVarDef :",
        "@2 a 1 x2 >= 1 :: IntLinear;",
        "@3 a 1 x3 >= 1 : @f1 : IntVarDef; ",
        "@4 a 1 x3 >= 1",
        "@lfx1 red  x1 ==> 1 V_b0 >= 1 : x1 -> 0 ;",
        "@5 pol @1 @2 +",
        "@6 p @1",
        "pol @1",
        "del id @1 ;",
        "@7",
        "",
        "a",
    ]);
    assert_eq!(stats.total_lines, 13);
    assert_eq!(stats.a_lines, 5);
    assert_eq!(stats.red_lines, 1);
    assert_eq!(stats.pol_lines, 3);
    assert_eq!(stats.del_lines, 1);
    assert_eq!(
        stats.a_lines_by_name,
        vec![("IntVarDef".to_string(), 2), ("IntLinear".to_string(), 1)]
    );
}

#[test]
fn assertions_are_counted_by_family() {
    let mut stats = ProofFileStats::default();
    stats.record_assertion("@1 a 1 x1 >= 1 : @f0 :  ;IntVarDef;; :");
    stats.record_assertion("@1 a 1 x1 >= 1 : @f0");
    stats.record_assertion("@1 a 1 x1 >= 1 : @f0 :");
    assert_eq!(stats.total_lines, 0);
    assert_eq!(stats.a_lines, 3);
    assert_eq!(stats.a_lines_by_name, vec![("IntVarDef".to_string(), 1), (String::new(), 1)]);
}

#[test]
fn counters_stay_at_their_largest_value() {
    let mut stats = ProofFileStats::default();
    stats.total_lines = u64::MAX;
    stats.pol_lines = u64::MAX - 1;
    stats.record_line("@1 pol @2");
    stats.record_line("@1 pol @2");
    assert_eq!(stats.total_lines, u64::MAX);
    assert_eq!(stats.pol_lines, u64::MAX);
}

#[test]
fn counts_are_rendered() {
    let stats = counted(&["@1 a 1 x1 >= 1 : @f0 : IntVarDef :", "@5 pol @1 @2 +"]);
    assert_eq!(
        stats.render(),
        "Total lines: 2\nAssertion lines: 1\nPol lines: 1\nRed lines: 0\nDel lines: 0\nAssertion lines by name:\n \u{221f} `IntVarDef`: 1\n"
    );
    assert_eq!(
        ProofFileStats::default().render(),
        "Total lines: 0\nAssertion lines: 0\nPol lines: 0\nRed lines: 0\nDel lines: 0\nAssertion lines by name:\n"
    );
}

#[test]
fn counts_are_copied_and_compared() {
    let current = counted(&["@5 pol @1 @2 +"]);
    let reference = counted(&["@5 pol @1 @2 +", "del id @1 ;"]);
    let copy = current.clone();
    assert_eq!(copy.total_lines, 1);
    assert_eq!(copy.a_lines_by_name, current.a_lines_by_name);
    let comparison = current.compared_to(&reference);
    assert_eq!(comparison.current_stats().total_lines, 1);
    assert_eq!(comparison.reference_stats().total_lines, 2);
    assert_eq!(comparison.reference_stats().del_lines, 1);
}
