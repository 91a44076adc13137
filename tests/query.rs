use crate_graph::bikey::{BiKeyedIndex, KeyConflict};
use crate_graph::conditions::{Conjunction, Operator, PanelValue, ParseType, SubCondition, WhereClause};
use crate_graph::ingest::ingest_tables;
use crate_graph::joystick::{Button, Panel, Query, QueryAccumulator};
use crate_graph::lookup::Lookup;
use crate_graph::order::compare_names;
use crate_graph::store::Skid;
use crate_graph::tables::parse_u32;
use std::collections::BTreeMap;

fn words(p: &Panel) -> Vec<String> {
    match p {
        Panel::TokenValue(w) => w.clone(),
        Panel::Button(_) => panic!("a keyword"),
    }
}

#[test]
fn predicate_prunes_other_requirement() {
    let crates = "id,name\n1,A\n2,B\n3,C\n";
    let versions = "id,crate_id\n10,2\n30,3\n";
    let deps = "crate_id,req,version_id\n1,^2.0,10\n1,^1.0,30\n";
    let (c, _) = ingest_tables(crates.as_bytes(), versions.as_bytes(), deps.as_bytes(), 0).unwrap();
    let clause = WhereClause::new(SubCondition::Version, Some(Operator::Equals), PanelValue::try_from_token("^1.0"));
    let q = Query { package: "A".to_string(), conditions: Some(clause) };
    let tree = c.query(&q).unwrap();
    assert_eq!(tree.dependents.len(), 1);
    assert_eq!(tree.dependents[0].name, "C");
    let none = WhereClause::new(SubCondition::Version, Some(Operator::Equals), PanelValue::try_from_token("^3.0"));
    let q = Query { package: "A".to_string(), conditions: Some(none) };
    assert!(c.query(&q).unwrap().dependents.is_empty());
}

#[test]
fn clause_compares_requirements_as_semver_reads_them() {
    let clause = WhereClause::new(SubCondition::Version, None, PanelValue::try_from_token("1.0"));
    assert!(clause.admits(&Some("^1.0".to_string())));
    assert!(clause.admits(&Some(" ^1.0".to_string())));
    assert!(!clause.admits(&Some("^2.0".to_string())));
    assert!(!clause.admits(&None));
    assert!(clause.matches_requirement("whatever", Some("^1.0")));
    assert!(!clause.matches_requirement("^1.0", None));
    let text = WhereClause::new(SubCondition::Version, None, PanelValue::Crate("not a req".to_string()));
    assert!(text.admits(&Some("not a req".to_string())));
    assert!(!text.admits(&Some("^1.0".to_string())));
}

#[test]
fn requirement_tokens_are_written_as_semver_writes_them() {
    match PanelValue::try_from_token("1.0") {
        PanelValue::Semver(c) => assert_eq!(c, "^1.0"),
        PanelValue::Crate(_) => panic!("a requirement"),
    }
    match PanelValue::try_from_token(">=1.2, <2") {
        PanelValue::Semver(c) => assert_eq!(c, ">=1.2, <2"),
        PanelValue::Crate(_) => panic!("a requirement"),
    }
    match PanelValue::try_from_token("serde") {
        PanelValue::Crate(c) => assert_eq!(c, "serde"),
        PanelValue::Semver(_) => panic!("no requirement"),
    }
}

#[test]
fn query_text_is_grouped_by_keyword() {
    let acc = QueryAccumulator::from_input("lift  serde\twhere version ^1.0");
    assert_eq!(words(acc.try_get(Button::Lift).unwrap()), vec!["serde"]);
    assert_eq!(words(acc.try_get(Button::Where).unwrap()), vec!["version", "^1.0"]);
    let acc = QueryAccumulator::from_input("LIFT serde");
    assert_eq!(words(acc.try_get(Button::Lift).unwrap()), vec!["serde"]);
    assert!(acc.try_get(Button::Where).is_err());
    let acc = QueryAccumulator::from_input("serde tokio");
    assert!(acc.try_get(Button::Lift).is_err());
}

#[test]
fn query_text_is_parsed() {
    let q = Query::parse("lift serde where version 1.0").unwrap();
    assert_eq!(q.package, "serde");
    let c = q.conditions.unwrap();
    assert_eq!(c.sub_condition, SubCondition::Version);
    assert!(c.operator.is_none());
    match c.parameter {
        PanelValue::Semver(v) => assert_eq!(v, "^1.0"),
        PanelValue::Crate(_) => panic!("a requirement"),
    }
    let q = Query::parse("lift serde").unwrap();
    assert!(q.conditions.is_none());
    assert!(Query::parse("lift serde tokio").is_err());
    assert!(Query::parse("where version 1.0").is_err());
    assert!(Query::parse("lift serde where colour 1.0").is_err());
    assert!(Query::parse("").is_err());
}

#[test]
fn keywords_and_conjunctions() {
    assert_eq!(Button::try_from_keyword("where"), Some(Button::Where));
    assert_eq!(Button::try_from_keyword("Lift"), None);
    assert!(matches!(Panel::try_from_keyword("LIFT"), Some(Panel::Button(Button::Lift))));
    assert_eq!(SubCondition::try_from_token("version"), Some(SubCondition::Version));
    assert_eq!(SubCondition::try_from_token("name"), None);
    assert!(Conjunction::is_valid("and"));
    assert!(Conjunction::is_valid("OR"));
    assert!(!Conjunction::is_valid("xor"));
}

#[test]
fn bi_keyed_index_keeps_both_keys() {
    let mut idx: BiKeyedIndex<u8> = BiKeyedIndex::new();
    assert_eq!(idx.insert_with_both_keys("b".to_string(), 2, 20), Ok(()));
    assert_eq!(idx.insert_with_both_keys("a".to_string(), 1, 10), Ok(()));
    assert_eq!(idx.insert_with_both_keys("c".to_string(), 3, 30), Ok(()));
    assert_eq!(idx.len(), 3);
    assert_eq!(idx.slot_at(0).primary, "a");
    assert_eq!(idx.slot_at(2).secondary, 3);
    assert_eq!(idx.get_with_primary_key("b"), Some(&20));
    assert_eq!(idx.get_with_secondary_key(3), Some(&30));
    assert_eq!(idx.get_with_both_keys("a", 1), Some(&10));
    assert_eq!(idx.get_with_both_keys("a", 2), None);
    assert!(idx.contains_both_keys("c", 3));
    assert!(!idx.contains_both_keys("c", 1));
    assert_eq!(idx.insert_with_both_keys("b".to_string(), 2, 21), Ok(()));
    assert_eq!(idx.get_with_secondary_key(2), Some(&21));
    assert_eq!(idx.len(), 3);
    assert_eq!(idx.insert_with_both_keys("z".to_string(), 2, 0), Err(KeyConflict::InconsistentKey));
    assert_eq!(idx.insert_with_both_keys("a".to_string(), 9, 0), Err(KeyConflict::InconsistentKey));
    assert_eq!(idx.len(), 3);
    assert_eq!(idx.get_with_primary_key("z"), None);
}

#[test]
fn names_compare_as_str() {
    assert!(compare_names("a", "b") < 0);
    assert!(compare_names("ab", "a") > 0);
    assert_eq!(compare_names("", ""), 0);
    assert!(compare_names("Z", "a") < 0);
    assert!(compare_names("z", "\u{e9}") < 0);
}

#[test]
fn decimal_fields() {
    assert_eq!(parse_u32("42"), Some(42));
    assert_eq!(parse_u32("0"), Some(0));
    assert_eq!(parse_u32("4294967295"), Some(4294967295));
    assert_eq!(parse_u32("4294967296"), None);
    assert_eq!(parse_u32("99999999999999999999"), None);
    assert_eq!(parse_u32(""), None);
    assert_eq!(parse_u32("12a"), None);
    assert_eq!(parse_u32("-1"), None);
}

#[test]
fn lookup_tables() {
    let mut names = BTreeMap::new();
    names.insert(1u32, "A".to_string());
    let mut lk = Lookup::with_krate(names);
    assert_eq!(lk.get_crate_name(1), Some("A"));
    assert_eq!(lk.get_crate_name(2), None);
    lk.insert_dependency_relation(1, 10);
    assert_eq!(lk.get_dependency_relation_for_version(10), Some(&1));
    assert_eq!(lk.get_dependency_relation_for_version(1), None);
    lk.insert_dependency(1, 2);
    assert_eq!(lk.get_dependency(1), Some(&2));
    lk.insert_crate_name(2, "B".to_string());
    assert_eq!(lk.get_crate_name(2), Some("B"));
}

#[test]
fn edges_name_their_target() {
    let s = Skid::new(7, "^1".to_string());
    assert_eq!(s.dependency, 7);
    assert_eq!(s.version.as_deref(), Some("^1"));
    let s = Skid::new_with_dependency(8);
    assert_eq!(s.dependency, 8);
    assert!(s.version.is_none());
}

#[test]
fn clause_words_in_their_places() {
    let value = || ParseType::Value(PanelValue::Semver("^1.0".to_string()));
    let c = WhereClause::from_parse_types(ParseType::SubCondition(SubCondition::Version), None, value()).unwrap();
    assert!(c.operator.is_none());
    let c = WhereClause::from_parse_types(
        ParseType::SubCondition(SubCondition::Version),
        Some(ParseType::Operator(Operator::Equals)),
        value(),
    )
    .unwrap();
    assert_eq!(c.operator, Some(Operator::Equals));
    assert!(WhereClause::from_parse_types(value(), None, value()).is_none());
    assert!(WhereClause::from_parse_types(ParseType::SubCondition(SubCondition::Version), Some(value()), value()).is_none());
}
