use pbarber::cp_lit_map::{CPLitData, CPLitMap, CPOperator, CPVarType};
use pbarber::fzn::{FznDomain, FznModel, FznVariable};
use pbarber::justifier::Justifier;
use pbarber::pipeline::{reverse_lines, trim_and_style};
use pbarber::trimmer::Trimmer;
use pbarber::{JustifierConfig, PBarberError, ProofReader, TrimmerConfig};
use rangelist::RangeList;

fn model() -> (FznModel, CPLitMap) {
    let mut fzn = FznModel::new();
    fzn.add_variable(
        "V".to_string(),
        FznVariable { domain: Some(FznDomain::Int(RangeList::from(0..=10))) },
    );
    let mut lits = CPLitMap::new();
    lits.insert(
        "x1".to_string(),
        CPLitData::Condition {
            cpvartype: CPVarType::IntVar,
            name: "V".to_string(),
            operator: CPOperator::Less,
            value: "5".to_string(),
        },
    );
    (fzn, lits)
}

fn sample() -> Vec<String> {
    [
        "end pseudo-Boolean proof",
        "conclusion UNSAT : @3 ;",
        "output NONE",
        "@3 pol @1 ;",
        "@2 a 1 x1 >= 1 : @f0 : IntVarDef :",
        "@1 a 1 ~x1 >= 1 : @f0 : IntVarDef :",
        "f 3",
        "pseudo-Boolean proof version 2.0",
    ]
    .iter()
    .map(|l| l.to_string())
    .collect()
}

fn settings() -> (TrimmerConfig, JustifierConfig) {
    (
        TrimmerConfig { eager_deletion: true, stats: false, lit_deletion: false },
        JustifierConfig { read_forwards: false, justifier_stats: true, max_line_cache: 100 },
    )
}

#[test]
fn lines_are_reversed() {
    let lines = sample();
    let back = reverse_lines(&lines);
    assert_eq!(back.first(), lines.last());
    assert_eq!(back.len(), lines.len());
    assert_eq!(reverse_lines(&back), lines);
    assert!(reverse_lines(&Vec::new()).is_empty());
}

#[test]
fn trimming_and_justifying_in_one_go() {
    let (fzn, lits) = model();
    let (trimmer_config, justifier_config) = settings();
    let mut out = vec!["left over".to_string()];
    let counts =
        trim_and_style(sample(), trimmer_config, fzn, lits, justifier_config, &mut out).unwrap();
    assert_eq!(
        out,
        vec![
            "pseudo-Boolean proof version 2.0",
            "f 3",
            "@lrx1 red ~x1 ==> 8 V_b3 4 V_b2 2 V_b1 1 V_b0 >= 5 : x1 -> 1 ;",
            "@lfx1 red  x1 ==> 8 V_b3 4 V_b2 2 V_b1 1 V_b0 <= 4 : x1 -> 0 ;",
            "pol @lrx1 ;",
            "@1 ia 1 ~x1 >= 1 : -1;",
            "@3 pol @1 ;",
            "del id @1 ;",
            "output NONE",
            "conclusion UNSAT : @3 ;",
            "end pseudo-Boolean proof",
        ]
    );
    let (read, written) = counts.unwrap();
    assert_eq!(read.total_lines, 8);
    assert_eq!(written.total_lines, 11);
}

#[test]
fn one_go_is_trimming_and_then_justifying() {
    let (fzn, lits) = model();
    let (trimmer_config, justifier_config) = settings();
    let mut fused = Vec::new();
    trim_and_style(sample(), trimmer_config, fzn, lits, justifier_config, &mut fused).unwrap();

    let (fzn, lits) = model();
    let (trimmer_config, justifier_config) = settings();
    let mut trimmer = Trimmer::with_config(sample(), trimmer_config);
    trimmer.trim().unwrap();
    let kept = reverse_lines(trimmer.output());
    let mut justifier = Justifier::with_config(kept, fzn, lits, justifier_config);
    justifier.style().unwrap();
    assert_eq!(&fused, justifier.output());
}

#[test]
fn a_failure_of_the_trimmer_ends_the_go() {
    let (fzn, lits) = model();
    let (trimmer_config, justifier_config) = settings();
    let mut out = Vec::new();
    let lines = vec!["end pseudo-Boolean proof".to_string(), "f 3".to_string()];
    let r = trim_and_style(lines, trimmer_config, fzn, lits, justifier_config, &mut out);
    assert!(matches!(r, Err(PBarberError::UnexpectedLineStart { .. })));
    assert_eq!(out, vec!["end pseudo-Boolean proof"]);
}

#[test]
fn a_failure_of_the_justifier_ends_the_go() {
    let (fzn, lits) = model();
    let (trimmer_config, justifier_config) = settings();
    let mut out = Vec::new();
    let lines = [
        "end pseudo-Boolean proof",
        "conclusion UNSAT : @3 ;",
        "output NONE",
        "@3 pol @1 ;",
        "@1 a x1 >= 1 : @f0 : IntVarDef :",
        "f 3",
    ]
    .iter()
    .map(|l| l.to_string())
    .collect();
    let r = trim_and_style(lines, trimmer_config, fzn, lits, justifier_config, &mut out);
    assert!(matches!(r, Err(PBarberError::ParseError { .. })));
    assert_eq!(out, vec!["f 3"]);
}

#[test]
fn a_pass_reads_and_writes_lines() {
    let mut trimmer = Trimmer::new(vec!["a".to_string(), "b".to_string()]);
    assert!(!trimmer.has_stats());
    assert_eq!(ProofReader::next_line(&mut trimmer), Some("a".to_string()));
    ProofReader::write_line(&mut trimmer, "c");
    assert_eq!(ProofReader::next_line(&mut trimmer), Some("b".to_string()));
    assert_eq!(ProofReader::next_line(&mut trimmer), None);
    assert_eq!(trimmer.output(), &vec!["c".to_string()]);
    assert!(trimmer.assert_starts_with(&"output NONE".to_string(), "output").is_ok());
    match trimmer.assert_starts_with(&"f 3".to_string(), "output") {
        Err(PBarberError::UnexpectedLineStart { expected, found }) => {
            assert_eq!(expected, "output");
            assert_eq!(found, "f 3");
        }
        other => panic!("{:?}", other),
    }

    let (fzn, lits) = model();
    let (_, justifier_config) = settings();
    let mut justifier = Justifier::with_config(vec!["f 3".to_string()], fzn, lits, justifier_config);
    assert!(justifier.has_stats());
    ProofReader::write_line(&mut justifier, "* first");
    let (read, written) = justifier.style().unwrap().unwrap();
    assert_eq!(justifier.output(), &vec!["* first".to_string(), "f 3".to_string()]);
    assert_eq!(read.total_lines, 1);
    assert_eq!(written.total_lines, 2);
    assert_eq!(ProofReader::next_line(&mut justifier), None);
}
