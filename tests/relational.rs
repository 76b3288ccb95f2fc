use reldb::{Cmp, Comparator, Error, Join, LabeledTypedTuple, Project, Value};

fn row(cells: &[(&str, i64)]) -> LabeledTypedTuple {
    LabeledTypedTuple(cells.iter().map(|(l, v)| (l.to_string(), Value::Int(*v))).collect())
}

fn labels(t: &LabeledTypedTuple) -> Vec<String> {
    t.0.iter().map(|(l, _)| l.clone()).collect()
}

fn values(t: &LabeledTypedTuple) -> Vec<Value> {
    t.0.iter().map(|(_, v)| v.clone()).collect()
}

#[test]
fn project_keeps_requested_order() {
    let p = Project {
        input: vec![row(&[("a", 1), ("b", 2), ("c", 3)])],
        columns: vec!["b".to_string(), "a".to_string()],
    };
    let out = p.run().unwrap();
    assert_eq!(out.len(), 1);
    assert_eq!(labels(&out[0]), vec!["b".to_string(), "a".to_string()]);
    assert_eq!(values(&out[0]), vec![Value::Int(2), Value::Int(1)]);
}

#[test]
fn project_missing_column_fails_whole_call() {
    let p = Project {
        input: vec![row(&[("a", 1), ("b", 2), ("c", 3)]), row(&[("a", 4), ("c", 6)])],
        columns: vec!["b".to_string(), "a".to_string()],
    };
    assert!(matches!(p.run(), Err(Error::MissingCatalogueEntry)));
    let q = Project {
        input: vec![row(&[("a", 1)])],
        columns: vec!["nope".to_string()],
    };
    assert!(matches!(q.run(), Err(Error::MissingCatalogueEntry)));
}

#[test]
fn project_of_no_rows_is_empty() {
    let p = Project { input: vec![], columns: vec!["a".to_string()] };
    assert_eq!(p.run().unwrap().len(), 0);
}

#[test]
fn join_resolves_shared_name_to_left_input() {
    let j = Join {
        input_1: vec![row(&[("a", 1), ("b", 2)])],
        input_2: vec![row(&[("b", 2), ("c", 3)]), row(&[("b", 9), ("c", 3)])],
        cond: Cmp::Eq(Comparator::Col("b".to_string()), Comparator::Col("b".to_string())),
    };
    let out = j.run().unwrap();
    // Both references read input_1's `b`, so the condition holds of every pair.
    assert_eq!(out.len(), 2);
    assert_eq!(values(&out[0]), vec![Value::Int(1), Value::Int(2), Value::Int(2), Value::Int(3)]);
    assert_eq!(values(&out[1]), vec![Value::Int(1), Value::Int(2), Value::Int(9), Value::Int(3)]);
    assert_eq!(labels(&out[0]), vec!["a", "b", "b", "c"].iter().map(|s| s.to_string()).collect::<Vec<_>>());
}

#[test]
fn join_filters_pairs_by_condition() {
    let j = Join {
        input_1: vec![row(&[("a", 1), ("b", 2)]), row(&[("a", 5), ("b", 7)])],
        input_2: vec![row(&[("c", 2)]), row(&[("c", 7)]), row(&[("c", 8)])],
        cond: Cmp::Eq(Comparator::Col("b".to_string()), Comparator::Col("c".to_string())),
    };
    let out = j.run().unwrap();
    assert_eq!(out.len(), 2);
    assert_eq!(values(&out[0]), vec![Value::Int(1), Value::Int(2), Value::Int(2)]);
    assert_eq!(values(&out[1]), vec![Value::Int(5), Value::Int(7), Value::Int(7)]);
}

#[test]
fn join_with_empty_side_is_empty() {
    let j = Join {
        input_1: vec![row(&[("a", 1)])],
        input_2: vec![],
        cond: Cmp::Eq(Comparator::Col("a".to_string()), Comparator::Col("a".to_string())),
    };
    assert_eq!(j.run().unwrap().len(), 0);
}

#[test]
fn error_codes_are_stable() {
    assert_eq!(Error::XdgError(String::new()).code(), 0);
    assert_eq!(Error::MailboxError(String::new()).code(), 2);
    assert_eq!(Error::PageOutOfBounds.code(), 3);
    assert_eq!(Error::InvalidKey.code(), 11);
    assert_eq!(Error::MissingCatalogueEntry.code(), 13);
    assert_eq!(Error::JoinColumnNotFound.code(), 15);
    assert_eq!(Error::Unimplemented(None).code(), 17);
    assert!(Error::IoError("disk".to_string()).source().is_some());
    assert!(Error::InvalidKey.source().is_none());
}
