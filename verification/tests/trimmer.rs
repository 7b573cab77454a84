use pbarber::trimmer::Trimmer;
use pbarber::{PBarberError, TrimmerConfig};

fn reversed(lines: &[&str]) -> Vec<String> {
    lines.iter().rev().map(|l| l.to_string()).collect()
}

fn forward(out: &Vec<String>) -> Vec<String> {
    out.iter().rev().cloned().collect()
}

const PROOF: [&str; 8] = [
    "pseudo-Boolean proof version 2.0",
    "f 3",
    "@1 a 1 x1 >= 1 : @f0 : IntVarDef :",
    "@2 a 1 x2 >= 1 : @f0 : IntVarDef :",
    "@3 pol @1 ;",
    "output NONE",
    "conclusion UNSAT : @3 ;",
    "end pseudo-Boolean proof",
];

#[test]
fn minimal_unsat_trim() {
    let mut trimmer = Trimmer::new(reversed(&PROOF));
    assert!(trimmer.trim().unwrap().is_none());
    assert_eq!(
        forward(trimmer.output()),
        vec![
            "pseudo-Boolean proof version 2.0",
            "f 3",
            "@1 a 1 x1 >= 1 : @f0 : IntVarDef :",
            "@3 pol @1 ;",
            "output NONE",
            "conclusion UNSAT : @3 ;",
            "end pseudo-Boolean proof",
        ]
    );
}

#[test]
fn eager_deletion_deletes_after_last_use() {
    let config = TrimmerConfig { eager_deletion: true, stats: false, lit_deletion: false };
    let mut trimmer = Trimmer::with_config(reversed(&PROOF), config);
    trimmer.trim().unwrap();
    assert_eq!(
        forward(trimmer.output()),
        vec![
            "pseudo-Boolean proof version 2.0",
            "f 3",
            "@1 a 1 x1 >= 1 : @f0 : IntVarDef :",
            "@3 pol @1 ;",
            "del id @1 ;",
            "output NONE",
            "conclusion UNSAT : @3 ;",
            "end pseudo-Boolean proof",
        ]
    );
}

#[test]
fn missing_conclusion_is_reported() {
    let mut trimmer = Trimmer::new(reversed(&PROOF[..5]));
    assert!(matches!(trimmer.trim(), Err(PBarberError::MissingConclusion)));
    let mut empty = Trimmer::new(Vec::new());
    assert!(matches!(empty.trim(), Err(PBarberError::MissingConclusion)));
}

#[test]
fn trimming_counts_lines() {
    let config = TrimmerConfig { eager_deletion: false, stats: true, lit_deletion: false };
    let mut trimmer = Trimmer::with_config(reversed(&PROOF), config);
    let (read, written) = trimmer.trim().unwrap().unwrap();
    assert_eq!(read.total_lines, 8);
    assert_eq!(read.a_lines, 2);
    assert_eq!(read.pol_lines, 1);
    assert_eq!(written.total_lines, 7);
    assert_eq!(written.a_lines, 1);
    assert_eq!(written.a_lines_by_name, vec![("IntVarDef".to_string(), 1)]);
}

fn trimmed(lines: &[&str], config: TrimmerConfig) -> (Result<(), PBarberError>, Vec<String>) {
    let mut trimmer = Trimmer::with_config(reversed(lines), config);
    let r = trimmer.trim().map(|_| ());
    (r, forward(&trimmer.into_output()))
}

fn settings(eager_deletion: bool, lit_deletion: bool) -> TrimmerConfig {
    TrimmerConfig { eager_deletion, stats: false, lit_deletion }
}

#[test]
fn a_deletion_of_the_proof_is_moved_to_the_last_use() {
    let proof = [
        "pseudo-Boolean proof version 2.0",
        "@1 a 1 x1 >= 1 : @f0 : IntVarDef :",
        "@2 a 1 x2 >= 1 : @f0 : IntVarDef :",
        "@3 pol @1 @2 + ;",
        "@4 pol @1 @3 + ;",
        "del id @1 ;",
        "del id",
        "@5 pol @4 @9 + ;",
        "del id @9;;",
        "output NONE",
        "conclusion UNSAT : @5 ;",
        "end pseudo-Boolean proof",
    ];
    let (r, out) = trimmed(&proof, settings(false, false));
    r.unwrap();
    assert_eq!(
        out,
        vec![
            "pseudo-Boolean proof version 2.0",
            "@1 a 1 x1 >= 1 : @f0 : IntVarDef :",
            "@2 a 1 x2 >= 1 : @f0 : IntVarDef :",
            "@3 pol @1 @2 + ;",
            "@4 pol @1 @3 + ;",
            "del id @1 ;",
            "del id",
            "@5 pol @4 @9 + ;",
            "del id @9 ;",
            "output NONE",
            "conclusion UNSAT : @5 ;",
            "end pseudo-Boolean proof",
        ]
    );
    let (r, out) = trimmed(&proof, settings(true, false));
    r.unwrap();
    assert_eq!(
        out,
        vec![
            "pseudo-Boolean proof version 2.0",
            "@1 a 1 x1 >= 1 : @f0 : IntVarDef :",
            "@2 a 1 x2 >= 1 : @f0 : IntVarDef :",
            "@3 pol @1 @2 + ;",
            "del id @2 ;",
            "@4 pol @1 @3 + ;",
            "del id @3 ;",
            "del id @1 ;",
            "@5 pol @4 @9 + ;",
            "del id @9 ;",
            "del id @4 ;",
            "output NONE",
            "conclusion UNSAT : @5 ;",
            "end pseudo-Boolean proof",
        ]
    );
}

#[test]
fn the_definitions_of_literals_are_deleted() {
    let proof = [
        "@1 a 1 x1 1 ~x2 1 y3 >= 1 : x4 : IntVarDef :",
        "@2 a 1 ~x1 1 x5 >= 2 ;",
        "@3 p @1 @2 + ;",
        "output NONE",
        "conclusion UNSAT : @3 ;",
        "end pseudo-Boolean proof",
    ];
    let (r, out) = trimmed(&proof, settings(false, true));
    r.unwrap();
    assert_eq!(
        out,
        vec![
            "@1 a 1 x1 1 ~x2 1 y3 >= 1 : x4 : IntVarDef :",
            "del id @lrx2 ;",
            "del id @lfx2 ;",
            "@2 a 1 ~x1 1 x5 >= 2 ;",
            "del id @lrx5 ;",
            "del id @lfx5 ;",
            "del id @lrx1 ;",
            "del id @lfx1 ;",
            "@3 p @1 @2 + ;",
            "output NONE",
            "conclusion UNSAT : @3 ;",
            "end pseudo-Boolean proof",
        ]
    );
}

#[test]
fn lines_that_are_neither_kept_nor_noted_pass_through() {
    let proof = [
        "pseudo-Boolean proof version 2.0",
        "f 3",
        "* a comment",
        "",
        "@1 a 1 x1 >= 1 ;",
        "@9 red 1 x1 >= 1 ;",
        "@2 pol @1 ;",
        "output NONE",
        "conclusion UNSAT : @2 ;",
        "end pseudo-Boolean proof",
    ];
    let (r, out) = trimmed(&proof, settings(false, false));
    r.unwrap();
    assert_eq!(
        out,
        vec![
            "pseudo-Boolean proof version 2.0",
            "f 3",
            "* a comment",
            "",
            "@1 a 1 x1 >= 1 ;",
            "@2 pol @1 ;",
            "output NONE",
            "conclusion UNSAT : @2 ;",
            "end pseudo-Boolean proof",
        ]
    );
}

#[test]
fn proofs_that_end_the_trimming() {
    let end = ["output NONE", "conclusion UNSAT : @2 ;", "end pseudo-Boolean proof"];
    let with = |lines: &[&'static str]| -> Vec<&'static str> {
        lines.iter().cloned().chain(end.iter().cloned()).collect()
    };
    let (r, out) = trimmed(&with(&["@2 red 1 x1 >= 1 ;"]), settings(false, false));
    assert!(matches!(r, Err(PBarberError::UnknownRule(rule)) if rule == "red"));
    assert_eq!(out, end);
    let (r, _) = trimmed(&with(&["@2"]), settings(false, false));
    assert!(matches!(r, Err(PBarberError::UnknownRule(rule)) if rule.is_empty()));
    let (r, out) = trimmed(&with(&["@2 pol @1 2 * ;"]), settings(true, false));
    match r {
        Err(PBarberError::UnexpectedLineStart { expected, found }) => {
            assert_eq!(expected, "@");
            assert_eq!(found, "2");
        }
        other => panic!("{:?}", other),
    }
    assert_eq!(out, vec!["del id @1 ;", "output NONE", "conclusion UNSAT : @2 ;", "end pseudo-Boolean proof"]);
    let (r, out) = trimmed(&["output NONE", "conclusion SAT : ;", "end pseudo-Boolean proof"], settings(false, false));
    match r {
        Err(PBarberError::UnexpectedLineStart { expected, found }) => {
            assert_eq!(expected, "conclusion UNSAT");
            assert_eq!(found, "conclusion SAT : ;");
        }
        other => panic!("{:?}", other),
    }
    assert_eq!(out, vec!["end pseudo-Boolean proof"]);
    let (r, out) = trimmed(&["f 1", "conclusion UNSAT : @2 ;", "end pseudo-Boolean proof"], settings(false, false));
    match r {
        Err(PBarberError::UnexpectedLineStart { expected, found }) => {
            assert_eq!(expected, "output");
            assert_eq!(found, "f 1");
        }
        other => panic!("{:?}", other),
    }
    assert_eq!(out, vec!["conclusion UNSAT : @2 ;", "end pseudo-Boolean proof"]);
    let (r, _) = trimmed(&["output NONE", "conclusion UNSAT", "end pseudo-Boolean proof"], settings(false, false));
    assert!(matches!(r, Err(PBarberError::MalformedConstraintId(line)) if line == "conclusion UNSAT"));
    let (r, _) = trimmed(&["conclusion UNSAT : @2 ;", "end pseudo-Boolean proof"], settings(false, false));
    assert!(matches!(r, Err(PBarberError::MissingConclusion)));
    let (r, _) = trimmed(&["end pseudo-Boolean proof"], settings(false, false));
    assert!(matches!(r, Err(PBarberError::MissingConclusion)));
}

#[test]
fn the_conclusion_names_the_contradiction() {
    let proof = [
        "@1 a 1 x1 >= 1 ;",
        "@2 a 1 x2 >= 1 ;",
        "output NONE",
        "conclusion UNSAT :  @2 ; @1 : ;",
        "end pseudo-Boolean proof",
    ];
    let (r, out) = trimmed(&proof, settings(false, false));
    r.unwrap();
    assert_eq!(out, proof[1..]);
}
