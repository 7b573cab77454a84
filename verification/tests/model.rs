use pbarber::cp_lit_map::{CPLitData, CPLitMap, CPOperator, CPVarType};
use pbarber::fzn::{
    min_max, FznArgument, FznArray, FznConstraint, FznDomain, FznLiteral, FznModel, FznVariable,
};
use pbarber::{JustifierConfig, PBarberError, TrimmerConfig};
use rangelist::RangeList;

#[test]
fn operators_are_negated() {
    assert_eq!(CPOperator::Less.negated(), CPOperator::GreaterEqual);
    assert_eq!(CPOperator::GreaterEqual.negated(), CPOperator::Less);
    assert_eq!(CPOperator::Equal.negated(), CPOperator::NotEqual);
    assert_eq!(CPOperator::NotEqual.negated(), CPOperator::Equal);
    for op in [CPOperator::Less, CPOperator::GreaterEqual, CPOperator::Equal, CPOperator::NotEqual] {
        assert_eq!(op.negated().negated(), op);
    }
    assert_eq!(CPOperator::Less.as_str(), "<");
    assert_eq!(CPOperator::GreaterEqual.as_str(), ">=");
    assert_eq!(CPOperator::Equal.as_str(), "==");
    assert_eq!(CPOperator::NotEqual.as_str(), "!=");
}

#[test]
fn the_literal_map_gives_what_was_entered() {
    let mut map = CPLitMap::new();
    assert!(map.get(&"x1".to_string()).is_none());
    map.insert(
        "x1".to_string(),
        CPLitData::Condition {
            cpvartype: CPVarType::IntVar,
            name: "V".to_string(),
            operator: CPOperator::Less,
            value: "5".to_string(),
        },
    );
    map.insert(
        "b".to_string(),
        CPLitData::Boolvar { cpvartype: CPVarType::BoolVar, name: "W=1".to_string() },
    );
    match map.get(&"x1".to_string()) {
        Some(CPLitData::Condition { name, operator, value, .. }) => {
            assert_eq!(name, "V");
            assert_eq!(operator, CPOperator::Less);
            assert_eq!(value, "5");
        }
        other => panic!("{:?}", other),
    }
    let boolvar = map.get(&"b".to_string()).unwrap();
    assert_eq!(boolvar.get_name().iter().collect::<String>(), "W");
    assert!(matches!(boolvar.duplicate(), CPLitData::Boolvar { name, .. } if name == "W=1"));
    assert_eq!(map.get(&"x1".to_string()).unwrap().get_name().iter().collect::<String>(), "V");
    assert!(map.get(&"x2".to_string()).is_none());
    map.insert(
        "x1".to_string(),
        CPLitData::Boolvar { cpvartype: CPVarType::BoolVar, name: "noequals".to_string() },
    );
    assert_eq!(
        map.get(&"x1".to_string()).unwrap().get_name().iter().collect::<String>(),
        "noequals"
    );
}

#[test]
fn the_bounds_of_a_range_list() {
    assert_eq!(min_max(&RangeList::from(0..=10)), Some((0, 10)));
    assert_eq!(min_max(&RangeList::from_iter([1..=4, 6..=8])), Some((1, 8)));
    assert_eq!(min_max(&RangeList::from_iter([6..=8, -3..=-1, 20..=20])), Some((-3, 20)));
    assert_eq!(min_max(&RangeList::<i64>::default()), None);
    assert_eq!(min_max(&RangeList::from(i64::MIN..=i64::MAX)), Some((i64::MIN, i64::MAX)));
}

#[test]
fn the_model_gives_what_was_entered() {
    let mut model = FznModel::new();
    assert!(model.variable("A").is_none());
    assert!(model.array("w").is_none());
    assert!(model.constraint(0).is_none());
    model.add_variable("A".to_string(), FznVariable { domain: None });
    model.add_variable("F".to_string(), FznVariable { domain: Some(FznDomain::Float) });
    model.add_variable(
        "B".to_string(),
        FznVariable { domain: Some(FznDomain::Int(RangeList::from(2..=3))) },
    );
    model.add_array("w".to_string(), FznArray { contents: vec![FznLiteral::Int(4)] });
    model.add_constraint(FznConstraint { id: "int_lin_le".to_string(), args: Vec::new() });
    model.add_constraint(FznConstraint {
        id: "int_lin_eq".to_string(),
        args: vec![FznArgument::Literal(FznLiteral::Other("true".to_string()))],
    });
    assert!(model.variable("A").unwrap().domain.is_none());
    assert!(matches!(model.variable("F").unwrap().domain, Some(FznDomain::Float)));
    match &model.variable("B").unwrap().domain {
        Some(FznDomain::Int(ranges)) => assert_eq!(min_max(ranges), Some((2, 3))),
        _ => panic!(),
    }
    assert!(model.variable("C").is_none());
    assert!(matches!(model.array("w").unwrap().contents[0], FznLiteral::Int(4)));
    assert_eq!(model.constraint(0).unwrap().id, "int_lin_le");
    assert_eq!(model.constraint(1).unwrap().id, "int_lin_eq");
    assert!(model.constraint(2).is_none());
    assert!(model.constraint(u64::MAX).is_none());
}

#[test]
fn the_default_settings() {
    let t = TrimmerConfig::default();
    assert!(!t.eager_deletion && !t.stats && !t.lit_deletion);
    let j = JustifierConfig::default();
    assert!(!j.read_forwards && !j.justifier_stats);
    assert_eq!(j.max_line_cache, 0);
    let t = TrimmerConfig { eager_deletion: true, stats: true, lit_deletion: true };
    let t = t.without_lit_deletion();
    assert!(t.eager_deletion && t.stats && !t.lit_deletion);
}

#[test]
fn errors_describe_themselves() {
    let s = |t: &str| t.to_string();
    assert_eq!(PBarberError::Io(s("disk full")).message(), "IO error: disk full");
    assert_eq!(
        PBarberError::UnexpectedLineStart { expected: s("output"), found: s("f 3") }.message(),
        "Expected line to start with `output`, got `f 3`"
    );
    assert_eq!(
        PBarberError::MalformedConstraintId(s("conclusion UNSAT")).message(),
        "Missing or malformed constraint ID in line: conclusion UNSAT"
    );
    assert_eq!(PBarberError::UnknownRule(s("red")).message(), "Unknown rule encountered: red");
    assert_eq!(PBarberError::Internal(s("oops")).message(), "Internal logic error: oops");
    assert_eq!(PBarberError::MissingConclusion.message(), "Missing proof conclusion");
    assert_eq!(
        PBarberError::ParseError { expected: s(":"), found: s("@1 a") }.message(),
        "Parse error: expected `:`, got `@1 a`"
    );
    assert_eq!(
        PBarberError::JustificationError(s("no")).message(),
        "Justification error: no"
    );
    assert_eq!(
        PBarberError::LiteralLookupError(s("x9")).message(),
        "Justification error: x9"
    );
}
