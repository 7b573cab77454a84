use pbarber::cp_lit_map::{CPLitData, CPLitMap, CPOperator, CPVarType};
use pbarber::fzn::{FznArgument, FznConstraint, FznDomain, FznLiteral, FznModel, FznVariable};
use pbarber::justifier::actions::JustifierActions;
use pbarber::justifier::int_linear::IntLinearJustifier;
use pbarber::justifier::int_var_def::IntVarDefJustifier;
use pbarber::justifier::Justifier;
use pbarber::pb::{PBConstraint, PBLiteral};
use pbarber::{JustifierConfig, PBarberError};
use rangelist::RangeList;

fn text(v: &Vec<char>) -> String {
    v.iter().collect()
}

fn chars(s: &str) -> Vec<char> {
    s.chars().collect()
}

fn int_var(min: i64, max: i64) -> FznVariable {
    FznVariable { domain: Some(FznDomain::Int(RangeList::from(min..=max))) }
}

fn condition(name: &str, operator: CPOperator, value: &str) -> CPLitData {
    CPLitData::Condition {
        cpvartype: CPVarType::IntVar,
        name: name.to_string(),
        operator,
        value: value.to_string(),
    }
}

fn model_v() -> (FznModel, CPLitMap) {
    let mut fzn = FznModel::new();
    fzn.add_variable("V".to_string(), int_var(0, 10));
    let mut lits = CPLitMap::new();
    lits.insert("x1".to_string(), condition("V", CPOperator::Less, "5"));
    lits.insert("x2".to_string(), condition("V", CPOperator::GreaterEqual, "7"));
    (fzn, lits)
}

#[test]
fn condition_literal_definition() {
    let (fzn, lits) = model_v();
    let mut actions = JustifierActions::new(fzn, lits, false);
    let id = actions.ensure_lit_defined(&PBLiteral::new("x1".to_string(), false)).unwrap();
    assert_eq!(text(&id), "@lfx1");
    assert_eq!(
        actions.output(),
        &vec!["@lfx1 red  x1 ==> 8 V_b3 4 V_b2 2 V_b1 1 V_b0 <= 4 : x1 -> 0 ;".to_string()]
    );
}

#[test]
fn negated_literal_definition() {
    let (fzn, lits) = model_v();
    let mut actions = JustifierActions::new(fzn, lits, false);
    let id = actions.ensure_lit_defined(&PBLiteral::new("x1".to_string(), true)).unwrap();
    assert_eq!(text(&id), "@lrx1");
    assert_eq!(
        actions.output(),
        &vec!["@lrx1 red ~x1 ==> 8 V_b3 4 V_b2 2 V_b1 1 V_b0 >= 5 : x1 -> 1 ;".to_string()]
    );
}

#[test]
fn literal_definition_is_written_once() {
    let (fzn, lits) = model_v();
    let mut actions = JustifierActions::new(fzn, lits, false);
    let lit = PBLiteral::new("x1".to_string(), false);
    let first = actions.ensure_lit_defined(&lit).unwrap();
    let second = actions.ensure_lit_defined(&lit).unwrap();
    assert_eq!(first, second);
    assert_eq!(actions.output().len(), 1);
}

#[test]
fn bounds_are_written_once() {
    let (fzn, lits) = model_v();
    let mut actions = JustifierActions::new(fzn, lits, false);
    let (lb, ub) = actions.ensure_bounds_defined(&chars("V")).unwrap();
    assert_eq!(text(&lb), "@lbV");
    assert_eq!(text(&ub), "@ubV");
    let again = actions.ensure_bounds_defined(&chars("V")).unwrap();
    assert_eq!(text(&again.0), "@lbV");
    assert_eq!(
        actions.output(),
        &vec![
            "@lbV a 8 V_b3 4 V_b2 2 V_b1 1 V_b0 >=0 :: bits_lower_bound ;".to_string(),
            "@ubV a 8 V_b3 4 V_b2 2 V_b1 1 V_b0 <=10 :: bits_upper_bound ;".to_string(),
        ]
    );
}

#[test]
fn int_var_def_two_literal_expansion() {
    let (fzn, lits) = model_v();
    let config = JustifierConfig { read_forwards: false, justifier_stats: false, max_line_cache: 10 };
    let input = vec![
        "@7 a 1 ~x1 1 ~x2 >= 1 : @f0 : IntVarDef :".to_string(),
        "@8 pol @7 ;".to_string(),
    ];
    let mut justifier = Justifier::with_config(input, fzn, lits, config);
    assert!(justifier.style().unwrap().is_none());
    let out = justifier.output();
    let n = out.len();
    assert_eq!(out[n - 3], "pol @lrx1  + @lrx2 ;");
    assert_eq!(out[n - 2], "@7 ia 1 ~x1 1 ~x2 >= 1 : -1;");
    assert_eq!(out[n - 1], "@8 pol @7 ;");
    assert_eq!(
        out[..n - 3].to_vec(),
        vec![
            "@lrx1 red ~x1 ==> 8 V_b3 4 V_b2 2 V_b1 1 V_b0 >= 5 : x1 -> 1 ;".to_string(),
            "@lfx1 red  x1 ==> 8 V_b3 4 V_b2 2 V_b1 1 V_b0 <= 4 : x1 -> 0 ;".to_string(),
            "@lrx2 red ~x2 ==> 8 V_b3 4 V_b2 2 V_b1 1 V_b0 <= 6 : x2 -> 1 ;".to_string(),
            "@lfx2 red  x2 ==> 8 V_b3 4 V_b2 2 V_b1 1 V_b0 >= 7 : x2 -> 0 ;".to_string(),
        ]
    );
}

fn linear_model(family: &str) -> (FznModel, CPLitMap) {
    let mut fzn = FznModel::new();
    fzn.add_variable("A".to_string(), int_var(0, 7));
    fzn.add_variable("B".to_string(), int_var(0, 3));
    fzn.add_constraint(FznConstraint {
        id: family.to_string(),
        args: vec![
            FznArgument::Array(vec![FznLiteral::Int(2), FznLiteral::Int(-1)]),
            FznArgument::Array(vec![
                FznLiteral::Identifier("A".to_string()),
                FznLiteral::Identifier("B".to_string()),
            ]),
            FznArgument::Literal(FznLiteral::Int(3)),
        ],
    });
    let mut lits = CPLitMap::new();
    lits.insert("x1".to_string(), condition("A", CPOperator::GreaterEqual, "4"));
    (fzn, lits)
}

#[test]
fn int_linear_le_over_two_variables() {
    let (fzn, lits) = linear_model("int_lin_le");
    let config = JustifierConfig { read_forwards: false, justifier_stats: false, max_line_cache: 10 };
    let input = vec![
        "@5 a 1 ~x1 >= 1 : @f0 : IntLinear :".to_string(),
        "@6 pol @5 ;".to_string(),
    ];
    let mut justifier = Justifier::with_config(input, fzn, lits, config);
    justifier.style().unwrap();
    assert_eq!(
        justifier.output(),
        &vec![
            "@f0_le a 8 A_b2 4 A_b1 2 A_b0 -2 B_b1 -1 B_b0 <= 3 :: int_lin_le ;".to_string(),
            "@lrx1 red ~x1 ==> 4 A_b2 2 A_b1 1 A_b0 <= 3 : x1 -> 1 ;".to_string(),
            "@lfx1 red  x1 ==> 4 A_b2 2 A_b1 1 A_b0 >= 4 : x1 -> 0 ;".to_string(),
            "@lbB a 2 B_b1 1 B_b0 >=0 :: bits_lower_bound ;".to_string(),
            "@ubB a 2 B_b1 1 B_b0 <=3 :: bits_upper_bound ;".to_string(),
            "pol @f0_le  + @lfx1 2 *  + @ubB 1 * ;".to_string(),
            "@5 rup 1 ~x1 >= 1;".to_string(),
            "@6 pol @5 ;".to_string(),
        ]
    );
}

#[test]
fn int_linear_eq_expansion() {
    let (fzn, lits) = linear_model("int_lin_eq");
    let config = JustifierConfig { read_forwards: false, justifier_stats: false, max_line_cache: 10 };
    let input = vec![
        "@5 a 1 ~x1 >= 1 : @f0 : IntLinear :".to_string(),
        "@6 pol @5 ;".to_string(),
    ];
    let mut justifier = Justifier::with_config(input, fzn, lits, config);
    justifier.style().unwrap();
    assert_eq!(
        justifier.output(),
        &vec![
            "@f0_le a 8 A_b2 4 A_b1 2 A_b0 -2 B_b1 -1 B_b0 <= 3 :: int_lin_eq ;".to_string(),
            "@f0_ge a 8 A_b2 4 A_b1 2 A_b0 -2 B_b1 -1 B_b0 >= 3 :: int_lin_eq ;".to_string(),
            "@lrx1 red ~x1 ==> 4 A_b2 2 A_b1 1 A_b0 <= 3 : x1 -> 1 ;".to_string(),
            "@lfx1 red  x1 ==> 4 A_b2 2 A_b1 1 A_b0 >= 4 : x1 -> 0 ;".to_string(),
            "@lbB a 2 B_b1 1 B_b0 >=0 :: bits_lower_bound ;".to_string(),
            "@ubB a 2 B_b1 1 B_b0 <=3 :: bits_upper_bound ;".to_string(),
            "pol @f0_le  + @lfx1 2 *  + @ubB 1 * ;".to_string(),
            "pol @f0_ge  + @lfx1 2 *  + @lbB 1 * ;".to_string(),
            "@5 rup 1 ~x1 >= 1;".to_string(),
            "@6 pol @5 ;".to_string(),
        ]
    );
}

fn boolvar(name: &str) -> CPLitData {
    CPLitData::Boolvar { cpvartype: CPVarType::BoolVar, name: name.to_string() }
}

fn model_w() -> (FznModel, CPLitMap) {
    let mut fzn = FznModel::new();
    fzn.add_variable("W".to_string(), int_var(0, 1));
    fzn.add_variable("V".to_string(), int_var(0, 10));
    fzn.add_variable("N".to_string(), int_var(-5, 3));
    fzn.add_variable("F".to_string(), FznVariable { domain: Some(FznDomain::Float) });
    fzn.add_variable("U".to_string(), FznVariable { domain: None });
    fzn.add_variable(
        "E".to_string(),
        FznVariable { domain: Some(FznDomain::Int(RangeList::default())) },
    );
    let mut lits = CPLitMap::new();
    lits.insert("b0".to_string(), boolvar("W=0"));
    lits.insert("b1".to_string(), boolvar("W=1"));
    lits.insert("mid".to_string(), boolvar("V=5"));
    lits.insert("bare".to_string(), boolvar("W"));
    lits.insert("bad".to_string(), boolvar("W=one"));
    lits.insert("eq".to_string(), condition("V", CPOperator::Equal, "5"));
    lits.insert("ne".to_string(), condition("V", CPOperator::NotEqual, "5"));
    lits.insert("neg".to_string(), condition("N", CPOperator::GreaterEqual, "-2"));
    lits.insert("nan".to_string(), condition("V", CPOperator::Less, "five"));
    lits.insert("float".to_string(), condition("F", CPOperator::Less, "5"));
    lits.insert("unbounded".to_string(), condition("U", CPOperator::Less, "5"));
    lits.insert("empty".to_string(), condition("E", CPOperator::Less, "5"));
    lits.insert("ghost".to_string(), condition("G", CPOperator::Less, "5"));
    (fzn, lits)
}

fn define(actions: &mut JustifierActions, name: &str, negated: bool) -> Result<String, PBarberError> {
    actions.ensure_lit_defined(&PBLiteral::new(name.to_string(), negated)).map(|id| text(&id))
}

fn justification_error(r: Result<String, PBarberError>) -> String {
    match r {
        Err(PBarberError::JustificationError(m)) => m,
        other => panic!("{:?}", other),
    }
}

#[test]
fn boolvar_literal_definitions() {
    let (fzn, lits) = model_w();
    let mut actions = JustifierActions::new(fzn, lits, false);
    assert_eq!(define(&mut actions, "b0", false).unwrap(), "@lfb0");
    assert_eq!(define(&mut actions, "b0", true).unwrap(), "@lrb0");
    assert_eq!(define(&mut actions, "b1", false).unwrap(), "@lfb1");
    assert_eq!(define(&mut actions, "b1", true).unwrap(), "@lrb1");
    assert_eq!(define(&mut actions, "b1", true).unwrap(), "@lrb1");
    assert_eq!(define(&mut actions, "b0", false).unwrap(), "@lfb0");
    assert_eq!(
        actions.output(),
        &vec![
            "@lbW a 1 W_b0 >=0 :: bits_lower_bound ;".to_string(),
            "@ubW a 1 W_b0 <=1 :: bits_upper_bound ;".to_string(),
            "@lfb0 red  b0 ==> 1 W_b0 <= 0 : b0 -> 0 ;".to_string(),
            "@lrb0 red ~b0 ==> 1 W_b0 >= 1 : b0 -> 1 ;".to_string(),
            "@lfb1 red  b1 ==> 1 W_b0 >= 1 : b1 -> 0 ;".to_string(),
            "@lrb1 red ~b1 ==> 1 W_b0 <= 0 : b1 -> 1 ;".to_string(),
        ]
    );
}

#[test]
fn definitions_over_a_domain_with_negative_values() {
    let (fzn, lits) = model_w();
    let mut actions = JustifierActions::new(fzn, lits, false);
    assert_eq!(define(&mut actions, "neg", false).unwrap(), "@lfneg");
    assert_eq!(define(&mut actions, "neg", true).unwrap(), "@lrneg");
    assert_eq!(
        actions.output(),
        &vec![
            "@lfneg red  neg ==> -16 N_b4 8 N_b3 4 N_b2 2 N_b1 1 N_b0 >= -2 : neg -> 0 ;"
                .to_string(),
            "@lrneg red ~neg ==> -16 N_b4 8 N_b3 4 N_b2 2 N_b1 1 N_b0 <= -3 : neg -> 1 ;"
                .to_string(),
        ]
    );
}

#[test]
fn definitions_that_fail() {
    let (fzn, lits) = model_w();
    let mut actions = JustifierActions::new(fzn, lits, false);
    assert_eq!(
        justification_error(define(&mut actions, "eq", false)),
        "Can't handle equality literals yet."
    );
    assert_eq!(
        justification_error(define(&mut actions, "ne", true)),
        "Can't handle equality literals yet."
    );
    assert_eq!(
        justification_error(define(&mut actions, "nan", false)),
        "Couldn't parse the value five of the condition on V"
    );
    assert_eq!(
        justification_error(define(&mut actions, "float", false)),
        "Expected Int domain for F but found Float (unsupported)."
    );
    assert_eq!(
        justification_error(define(&mut actions, "unbounded", false)),
        "No domain found for U in the fzn file (unsupported)."
    );
    assert_eq!(
        justification_error(define(&mut actions, "empty", false)),
        "Couldn't get the min and max domain values for E"
    );
    assert_eq!(
        justification_error(define(&mut actions, "ghost", false)),
        "Expected variable, but got G"
    );
    assert_eq!(
        justification_error(define(&mut actions, "bare", false)),
        "Found Boolvar W with '=' in name, but couldn't parse value"
    );
    assert_eq!(
        justification_error(define(&mut actions, "bad", false)),
        "Found Boolvar W=one with '=' in name, but couldn't parse value"
    );
    assert!(actions.output().is_empty());
    assert_eq!(
        justification_error(define(&mut actions, "mid", false)),
        "Found Boolvar V=5 with more than two values in its domain."
    );
    assert_eq!(actions.output().len(), 2);
    match define(&mut actions, "x9", true) {
        Err(PBarberError::LiteralLookupError(m)) => {
            assert_eq!(m, "Couldn't find CP definition for literal x9")
        }
        other => panic!("{:?}", other),
    }
    assert!(actions.ensure_bounds_defined(&chars("F")).is_err());
    assert_eq!(actions.output().len(), 2);
}

#[test]
fn all_literals_are_defined_with_their_negations() {
    let (fzn, lits) = model_v();
    let mut actions = JustifierActions::new(fzn, lits, false);
    let wanted = vec![
        PBLiteral::new("x1".to_string(), true),
        PBLiteral::new("x9".to_string(), false),
        PBLiteral::new("x2".to_string(), false),
    ];
    let (pos, neg) = actions.ensure_all_lits_defined(&wanted, false).unwrap();
    assert_eq!(pos.iter().map(text).collect::<Vec<_>>(), vec!["@lrx1", "@lfx2"]);
    assert_eq!(neg.iter().map(text).collect::<Vec<_>>(), vec!["@lfx1", "@lrx2"]);
    assert_eq!(actions.output().len(), 4);
    assert!(matches!(
        actions.ensure_all_lits_defined(&wanted, true),
        Err(PBarberError::LiteralLookupError(_))
    ));
    assert_eq!(actions.output().len(), 4);
}

fn styled(
    input: &[&str],
    model: (FznModel, CPLitMap),
    cache: usize,
) -> (Result<Option<(pbarber::ProofFileStats, pbarber::ProofFileStats)>, PBarberError>, Vec<String>)
{
    let config =
        JustifierConfig { read_forwards: false, justifier_stats: false, max_line_cache: cache };
    let lines = input.iter().map(|l| l.to_string()).collect();
    let mut justifier = Justifier::with_config(lines, model.0, model.1, config);
    let r = justifier.style();
    (r, justifier.into_output())
}

#[test]
fn lines_without_an_id_pass_through() {
    let input = ["pseudo-Boolean proof version 2.0", "f 3", "* a comment", "", "output NONE"];
    let (r, out) = styled(&input, model_v(), 10);
    assert!(r.unwrap().is_none());
    assert_eq!(out, input);
}

#[test]
fn an_assertion_that_is_not_used_is_dropped() {
    let input = ["@7 a 1 ~x1 1 ~x2 >= 1 : @f0 : IntVarDef :", "@8 pol @6 ;"];
    let (r, out) = styled(&input, model_v(), 10);
    r.unwrap();
    assert_eq!(out, vec!["@8 pol @6 ;"]);
}

#[test]
fn an_assertion_is_justified_at_once_when_no_more_can_be_held() {
    let input = [
        "@1 a 1 x1 >= 1 : @f0",
        "@2 a 1 x2 >= 1 : @f0",
        "@3 pol @1 @2 + ;",
    ];
    let (r, out) = styled(&input, model_v(), 1);
    r.unwrap();
    assert_eq!(out, vec!["@2 a 1 x2 >= 1 : @f0", "@1 a 1 x1 >= 1 : @f0", "@3 pol @1 @2 + ;"]);
    let (r, out) = styled(&input, model_v(), 0);
    r.unwrap();
    assert_eq!(out, input);
    let (fzn, lits) = model_v();
    let mut justifier = Justifier::new(input.iter().map(|l| l.to_string()).collect(), fzn, lits);
    justifier.style().unwrap();
    assert_eq!(justifier.output(), &input);
}

#[test]
fn a_family_that_is_not_known() {
    let input = ["@5 a 1 x1 1 x9 >= 1 : @f0 : AllDifferent :", "@6 p @5 ;"];
    let (r, out) = styled(&input, model_v(), 10);
    r.unwrap();
    assert_eq!(
        out,
        vec![
            "@lfx1 red  x1 ==> 8 V_b3 4 V_b2 2 V_b1 1 V_b0 <= 4 : x1 -> 0 ;",
            "@lrx1 red ~x1 ==> 8 V_b3 4 V_b2 2 V_b1 1 V_b0 >= 5 : x1 -> 1 ;",
            "% PBarber Justifier didn't know how to justify the following:",
            "@5 a 1 x1 1 x9 >= 1 :: AllDifferent ;",
            "@6 p @5 ;",
        ]
    );
}

#[test]
fn a_justification_that_fails_leaves_the_bare_assertion() {
    let input = ["@5 a 1 x1 1 x2 1 ~x1 >= 1 : @f0 : IntVarDef :", "@6 pol @5 ;"];
    let (r, out) = styled(&input, model_v(), 10);
    r.unwrap();
    assert_eq!(out.len(), 7);
    assert_eq!(
        out[4..],
        [
            "% PBarber Justifier failed to justify the following: (error msg: IntVarDef with more than 2 lits)",
            "@5 a 1 x1 1 x2 1 ~x1 >= 1 :: IntVarDef ;",
            "@6 pol @5 ;",
        ]
    );
    let input = ["@5 a 1 x9 >= 1 : @f0 : IntVarDef :", "@6 pol @5 ;"];
    let (r, out) = styled(&input, model_v(), 10);
    r.unwrap();
    assert_eq!(
        out,
        vec![
            "% PBarber Justifier failed to justify the following: (error msg: Couldn't find CP definition for literal x9)",
            "@5 a 1 x9 >= 1 :: IntVarDef ;",
            "@6 pol @5 ;",
        ]
    );
}

#[test]
fn a_linear_constraint_that_cannot_be_read() {
    let cases = [
        ("@g0", "Failed to get line number from fzn_id `@g0`"),
        ("@f11", "Couldn't find fzn constraint for id @f11"),
        ("@f1", "Don't know how to encode constraint int_times"),
        ("@f2", "IntLinear: expected three arguments"),
        ("@f3", "IntLinear: coeff should be integer but got A"),
        ("@f4", "Expected array, but got nowhere"),
        ("@f5", "IntLinear: coeff should be array, or array identifier"),
        ("@f6", "IntLinear: vars should be array"),
        ("@f8", "IntLinear: var should be identifier but got 3"),
        ("@f9", "IntLinear: rhs should be Int"),
        ("@f10", "Expected variable, but got C"),
    ];
    for (antecedent, message) in cases {
        let (mut fzn, lits) = linear_model("int_lin_le");
        let ints = || FznArgument::Array(vec![FznLiteral::Int(2)]);
        let vars = || FznArgument::Array(vec![FznLiteral::Identifier("A".to_string())]);
        let three = || FznArgument::Literal(FznLiteral::Int(3));
        let constraint = |id: &str, args: Vec<FznArgument>| FznConstraint { id: id.to_string(), args };
        fzn.add_constraint(constraint("int_times", vec![ints(), vars(), three()]));
        fzn.add_constraint(constraint("int_lin_le", vec![ints(), vars()]));
        fzn.add_constraint(constraint("int_lin_le", vec![vars(), vars(), three()]));
        fzn.add_constraint(constraint(
            "int_lin_le",
            vec![
                FznArgument::Literal(FznLiteral::Identifier("nowhere".to_string())),
                vars(),
                three(),
            ],
        ));
        fzn.add_constraint(constraint("int_lin_le", vec![three(), vars(), three()]));
        fzn.add_constraint(constraint("int_lin_le", vec![ints(), three(), three()]));
        fzn.add_constraint(constraint("int_lin_le", vec![ints(), vars(), three()]));
        fzn.add_constraint(constraint("int_lin_le", vec![ints(), ints().into_vars(), three()]));
        fzn.add_constraint(constraint("int_lin_le", vec![ints(), vars(), vars()]));
        fzn.add_constraint(constraint(
            "int_lin_le",
            vec![
                ints(),
                FznArgument::Array(vec![FznLiteral::Identifier("C".to_string())]),
                three(),
            ],
        ));
        let line = format!("@5 a 1 ~x1 >= 1 : {} : IntLinear :", antecedent);
        let (r, out) = styled(&[&line], (fzn, lits), 0);
        r.unwrap();
        assert_eq!(
            out,
            vec![
                "@lrx1 red ~x1 ==> 4 A_b2 2 A_b1 1 A_b0 <= 3 : x1 -> 1 ;".to_string(),
                "@lfx1 red  x1 ==> 4 A_b2 2 A_b1 1 A_b0 >= 4 : x1 -> 0 ;".to_string(),
                format!(
                    "% PBarber Justifier failed to justify the following: (error msg: {})",
                    message
                ),
                "@5 a 1 ~x1 >= 1 :: IntLinear ;".to_string(),
            ]
        );
    }
}

trait IntoVars {
    fn into_vars(self) -> FznArgument;
}

impl IntoVars for FznArgument {
    fn into_vars(self) -> FznArgument {
        match self {
            FznArgument::Array(ls) => FznArgument::Array(
                ls.into_iter().map(|_| FznLiteral::Int(3)).collect(),
            ),
            other => other,
        }
    }
}

#[test]
fn the_encoding_of_a_linear_constraint_is_written_once() {
    let (mut fzn, lits) = linear_model("int_lin_le");
    fzn.add_array(
        "w".to_string(),
        pbarber::fzn::FznArray { contents: vec![FznLiteral::Int(-3), FznLiteral::Int(0)] },
    );
    fzn.add_constraint(FznConstraint {
        id: "int_lin_le".to_string(),
        args: vec![
            FznArgument::Literal(FznLiteral::Identifier("w".to_string())),
            FznArgument::Array(vec![
                FznLiteral::Identifier("B".to_string()),
                FznLiteral::Identifier("A".to_string()),
            ]),
            FznArgument::Literal(FznLiteral::Int(-1)),
        ],
    });
    let input = [
        "@5 a 1 ~x1 >= 1 : @f0 : IntLinear :",
        "@6 a 1 x1 >= 1 :  @f0 @f1 : IntLinear; : hints",
        "@7 a >= 0 : @f1 : IntLinear :",
    ];
    let (r, out) = styled(&input, (fzn, lits), 0);
    r.unwrap();
    assert_eq!(
        out,
        vec![
            "@f0_le a 8 A_b2 4 A_b1 2 A_b0 -2 B_b1 -1 B_b0 <= 3 :: int_lin_le ;",
            "@lrx1 red ~x1 ==> 4 A_b2 2 A_b1 1 A_b0 <= 3 : x1 -> 1 ;",
            "@lfx1 red  x1 ==> 4 A_b2 2 A_b1 1 A_b0 >= 4 : x1 -> 0 ;",
            "@lbB a 2 B_b1 1 B_b0 >=0 :: bits_lower_bound ;",
            "@ubB a 2 B_b1 1 B_b0 <=3 :: bits_upper_bound ;",
            "pol @f0_le  + @lfx1 2 *  + @ubB 1 * ;",
            "@5 rup 1 ~x1 >= 1;",
            "pol @f0_le  + @lrx1 2 *  + @ubB 1 * ;",
            "@6 rup 1 x1 >= 1;",
            "@f1_le a -6 B_b1 -3 B_b0 0 A_b2 0 A_b1 0 A_b0 <= -1 :: int_lin_le ;",
            "@lbA a 4 A_b2 2 A_b1 1 A_b0 >=0 :: bits_lower_bound ;",
            "@ubA a 4 A_b2 2 A_b1 1 A_b0 <=7 :: bits_upper_bound ;",
            "pol @f1_le  + @ubB 3 * ;",
            "@7 rup >= 0;",
        ]
    );
}

#[test]
fn a_pol_line_with_a_term_that_is_no_id() {
    let input = ["@1 a 1 x1 >= 1 : @f0", "@2 a 1 x2 >= 1 : @f0", "@3 pol @1 2 * @2 + ;"];
    let (r, out) = styled(&input, model_v(), 10);
    r.unwrap();
    assert_eq!(
        out,
        vec![
            "@1 a 1 x1 >= 1 : @f0",
            "% PBarber Justifier failed to justify the following: (error msg: Expected line to start with `@`, got `2`)",
            "@3 pol @1 2 * @2 + ;",
        ]
    );
}

#[test]
fn lines_that_end_the_justification() {
    let (r, out) = styled(&["f 1", "@5 red x", "f 2"], model_v(), 10);
    assert!(matches!(r, Err(PBarberError::UnknownRule(rule)) if rule == "red"));
    assert_eq!(out, vec!["f 1"]);
    let (r, _) = styled(&["@5"], model_v(), 10);
    assert!(matches!(r, Err(PBarberError::UnknownRule(rule)) if rule.is_empty()));
    let (r, _) = styled(&["@5 a nonsense : @f0 : IntVarDef :"], model_v(), 0);
    match r {
        Err(PBarberError::ParseError { expected, found }) => {
            assert_eq!(expected, "a pseudo-Boolean constraint");
            assert_eq!(found, "nonsense ");
        }
        other => panic!("{:?}", other.err()),
    }
    let (r, _) = styled(&["@5 a"], model_v(), 0);
    match r {
        Err(PBarberError::ParseError { expected, found }) => {
            assert_eq!(expected, " a ");
            assert_eq!(found, "@5 a");
        }
        other => panic!("{:?}", other.err()),
    }
    let (r, _) = styled(&["@5 a 1 x1 >= 1"], model_v(), 0);
    match r {
        Err(PBarberError::ParseError { expected, found }) => {
            assert_eq!(expected, ":");
            assert_eq!(found, "@5 a 1 x1 >= 1");
        }
        other => panic!("{:?}", other.err()),
    }
    let (r, out) = styled(&["@5 a nonsense : @f0 : IntVarDef :", "f 1", "@6 pol @5"], model_v(), 5);
    assert!(matches!(r, Err(PBarberError::ParseError { .. })));
    assert_eq!(out, vec!["f 1"]);
}

#[test]
fn justifying_counts_lines() {
    let (fzn, lits) = model_v();
    let config = JustifierConfig { read_forwards: true, justifier_stats: true, max_line_cache: 10 };
    let input = vec![
        "f 3".to_string(),
        "@7 a 1 ~x1 1 ~x2 >= 1 : @f0 : IntVarDef :".to_string(),
        "@8 pol @7 ;".to_string(),
    ];
    let mut justifier = Justifier::with_config(input, fzn, lits, config);
    let (read, written) = justifier.style().unwrap().unwrap();
    assert_eq!(read.total_lines, 3);
    assert_eq!(read.a_lines, 1);
    assert_eq!(read.pol_lines, 1);
    assert_eq!(read.red_lines, 0);
    assert_eq!(written.total_lines, 8);
    assert_eq!(written.red_lines, 4);
    assert_eq!(written.pol_lines, 2);
    assert_eq!(written.a_lines, 0);
    assert!(matches!(justifier.style(), Ok(Some(_))));
    assert_eq!(justifier.output().len(), 8);
}

#[test]
fn int_var_def_with_literals_defined_before() {
    let (fzn, lits) = model_v();
    let mut actions = JustifierActions::new(fzn, lits, false);
    for name in ["x1", "x2"] {
        for negated in [true, false] {
            actions.ensure_lit_defined(&PBLiteral::new(name.to_string(), negated)).unwrap();
        }
    }
    let before = actions.output().len();
    assert_eq!(before, 4);
    let constraint = PBConstraint::parse(&chars("1 ~x1 1 ~x2 >= 1 ")).unwrap();
    IntVarDefJustifier {}.justify(&mut actions, &constraint, "@7").unwrap();
    assert_eq!(
        actions.output()[before..],
        ["pol @lrx1  + @lrx2 ;".to_string(), "@7 ia 1 ~x1 1 ~x2 >= 1 : -1;".to_string()]
    );
}

#[test]
fn int_var_def_with_one_literal() {
    let (fzn, lits) = model_v();
    let mut actions = JustifierActions::new(fzn, lits, false);
    let constraint = PBConstraint::parse(&chars("3 x2 >= 2")).unwrap();
    IntVarDefJustifier {}.justify(&mut actions, &constraint, "@9").unwrap();
    assert_eq!(
        actions.output()[2..],
        ["pol @lfx2 ;".to_string(), "@9 ia 3 x2 >= 2 : -1;".to_string()]
    );
    let constraint = PBConstraint::parse(&chars(">= 0")).unwrap();
    IntVarDefJustifier {}.justify(&mut actions, &constraint, "@10").unwrap();
    assert_eq!(actions.output()[4..], ["pol ;".to_string(), "@10 ia >= 0 : -1;".to_string()]);
}

#[test]
fn int_linear_justifier_is_built_from_the_antecedents() {
    let (fzn, lits) = linear_model("int_lin_eq");
    let mut actions = JustifierActions::new(fzn, lits, false);
    let first = IntLinearJustifier::new(&mut actions, "  @f0 @f3 ").unwrap();
    assert_eq!(actions.output().len(), 2);
    let _second = IntLinearJustifier::new(&mut actions, "@f0").unwrap();
    assert_eq!(actions.output().len(), 2);
    assert!(matches!(
        IntLinearJustifier::new(&mut actions, ""),
        Err(PBarberError::JustificationError(m)) if m == "Failed to get line number from fzn_id ``"
    ));
    let constraint = PBConstraint::parse(&chars(">= -7")).unwrap();
    first.justify(&mut actions, &constraint, "@4").unwrap();
    assert_eq!(
        actions.output()[2..],
        [
            "@lbA a 4 A_b2 2 A_b1 1 A_b0 >=0 :: bits_lower_bound ;".to_string(),
            "@ubA a 4 A_b2 2 A_b1 1 A_b0 <=7 :: bits_upper_bound ;".to_string(),
            "@lbB a 2 B_b1 1 B_b0 >=0 :: bits_lower_bound ;".to_string(),
            "@ubB a 2 B_b1 1 B_b0 <=3 :: bits_upper_bound ;".to_string(),
            "pol @f0_le  + @lbA 2 *  + @ubB 1 * ;".to_string(),
            "pol @f0_ge  + @ubA 2 *  + @lbB 1 * ;".to_string(),
            "@4 rup >= -7;".to_string(),
        ]
    );
}

#[test]
fn int_var_def_over_boolvar_literals() {
    let input = ["@3 a 1 b0 1 b1 >= 1 : @f0 : IntVarDef :", "@4 pol @3 ;"];
    let (r, out) = styled(&input, model_w(), 10);
    r.unwrap();
    assert_eq!(
        out,
        vec![
            "@lbW a 1 W_b0 >=0 :: bits_lower_bound ;",
            "@ubW a 1 W_b0 <=1 :: bits_upper_bound ;",
            "@lfb0 red  b0 ==> 1 W_b0 <= 0 : b0 -> 0 ;",
            "@lrb0 red ~b0 ==> 1 W_b0 >= 1 : b0 -> 1 ;",
            "@lfb1 red  b1 ==> 1 W_b0 >= 1 : b1 -> 0 ;",
            "@lrb1 red ~b1 ==> 1 W_b0 <= 0 : b1 -> 1 ;",
            "pol @lfb0  + @lfb1 ;",
            "@3 ia 1 b0 1 b1 >= 1 : -1;",
            "@4 pol @3 ;",
        ]
    );
}

#[test]
fn int_linear_over_a_boolvar_literal() {
    let (mut fzn, lits) = model_w();
    fzn.add_constraint(FznConstraint {
        id: "int_lin_le".to_string(),
        args: vec![
            FznArgument::Array(vec![FznLiteral::Int(3)]),
            FznArgument::Array(vec![FznLiteral::Identifier("W".to_string())]),
            FznArgument::Literal(FznLiteral::Int(0)),
        ],
    });
    let (r, out) = styled(&["@5 a 1 ~b1 >= 1 : @f0 : IntLinear :"], (fzn, lits), 0);
    r.unwrap();
    assert_eq!(
        out,
        vec![
            "@f0_le a 3 W_b0 <= 0 :: int_lin_le ;",
            "@lbW a 1 W_b0 >=0 :: bits_lower_bound ;",
            "@ubW a 1 W_b0 <=1 :: bits_upper_bound ;",
            "@lrb1 red ~b1 ==> 1 W_b0 <= 0 : b1 -> 1 ;",
            "@lfb1 red  b1 ==> 1 W_b0 >= 1 : b1 -> 0 ;",
            "pol @f0_le  + @lfb1 3 * ;",
            "@5 rup 1 ~b1 >= 1;",
        ]
    );
}

#[test]
fn an_asserted_equation_is_written_back_as_an_equation() {
    let input = [
        "@5 a 1 x1 1 x2 = 1 : @f0 : IntVarDef :",
        "@6 a 2 x1 = 2 : @f0 : Unheard :",
        "@7 a 1 x1 <= 0 : @f0 : Unheard :",
    ];
    let (r, out) = styled(&input, model_v(), 0);
    r.unwrap();
    assert_eq!(
        out[4..],
        [
            "pol @lfx1  + @lfx2 ;",
            "@5 ia 1 x1 1 x2 = 1 : -1;",
            "% PBarber Justifier didn't know how to justify the following:",
            "@6 a 2 x1 = 2 :: Unheard ;",
            "% PBarber Justifier didn't know how to justify the following:",
            "@7 a -1 x1 >= 0 :: Unheard ;",
        ]
    );
}
