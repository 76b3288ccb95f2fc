use reldb::{Cmp, Comparator, LabeledTypedTuple, Value};

fn row(cells: &[(&str, Value)]) -> LabeledTypedTuple {
    LabeledTypedTuple(cells.iter().map(|(l, v)| (l.to_string(), v.clone())).collect())
}

fn names(ns: &[&str]) -> Vec<String> {
    ns.iter().map(|n| n.to_string()).collect()
}

fn col(n: &str) -> Comparator {
    Comparator::Col(n.to_string())
}

#[test]
fn eq_on_resolved_column_and_literal() {
    let t = row(&[("a", Value::Int(1)), ("b", Value::Int(2))]);
    let attrs = names(&["a", "b"]);
    assert!(Cmp::Eq(col("b"), Comparator::Val(Value::Int(2))).has_value(&t, &attrs));
    assert!(!Cmp::Eq(col("a"), Comparator::Val(Value::Int(2))).has_value(&t, &attrs));
}

#[test]
fn lt_and_gt_on_integers() {
    let t = row(&[("a", Value::Int(1)), ("b", Value::Int(2))]);
    let attrs = names(&["a", "b"]);
    assert!(Cmp::Lt(col("a"), col("b")).has_value(&t, &attrs));
    assert!(!Cmp::Gt(col("a"), col("b")).has_value(&t, &attrs));
    assert!(Cmp::Gt(col("b"), col("a")).has_value(&t, &attrs));
    assert!(!Cmp::Lt(col("a"), col("a")).has_value(&t, &attrs));
}

#[test]
fn text_compares_lexicographically() {
    let t = row(&[("s", Value::Text("apple".to_string()))]);
    let attrs = names(&["s"]);
    assert!(Cmp::Lt(col("s"), Comparator::Val(Value::Text("apples".to_string()))).has_value(&t, &attrs));
    assert!(Cmp::Lt(col("s"), Comparator::Val(Value::Text("b".to_string()))).has_value(&t, &attrs));
    assert!(Cmp::Gt(col("s"), Comparator::Val(Value::Text("app".to_string()))).has_value(&t, &attrs));
    assert!(Cmp::Eq(col("s"), Comparator::Val(Value::Text("apple".to_string()))).has_value(&t, &attrs));
}

#[test]
fn absent_column_fails_closed() {
    let t = row(&[("a", Value::Int(1)), ("b", Value::Int(2))]);
    let attrs = names(&["a", "b"]);
    for c in [
        Cmp::Eq(col("z"), Comparator::Val(Value::Int(1))),
        Cmp::Ne(col("z"), Comparator::Val(Value::Int(1))),
        Cmp::Lt(Comparator::Val(Value::Int(0)), col("z")),
        Cmp::Gt(col("a"), col("z")),
    ] {
        assert!(!c.has_value(&t, &attrs));
    }
}

#[test]
fn position_beyond_row_does_not_resolve() {
    let t = row(&[("a", Value::Int(1))]);
    let attrs = names(&["a", "b"]);
    assert!(!Cmp::Eq(col("b"), col("b")).has_value(&t, &attrs));
}

#[test]
fn eq_and_ne_are_exclusive() {
    let t = row(&[("a", Value::Int(1)), ("b", Value::Int(2)), ("c", Value::Int(1))]);
    let attrs = names(&["a", "b", "c"]);
    for (x, y) in [("a", "b"), ("a", "c"), ("b", "b")] {
        let eq = Cmp::Eq(col(x), col(y)).has_value(&t, &attrs);
        let ne = Cmp::Ne(col(x), col(y)).has_value(&t, &attrs);
        assert!(eq != ne);
    }
    assert!(!Cmp::Eq(col("a"), col("q")).has_value(&t, &attrs));
    assert!(!Cmp::Ne(col("a"), col("q")).has_value(&t, &attrs));
}

#[test]
fn values_of_different_kinds_never_match() {
    let t = row(&[("a", Value::Int(1)), ("b", Value::Text("1".to_string()))]);
    let attrs = names(&["a", "b"]);
    assert!(!Cmp::Eq(col("a"), col("b")).has_value(&t, &attrs));
    assert!(!Cmp::Ne(col("a"), col("b")).has_value(&t, &attrs));
    assert!(!Cmp::Lt(col("a"), col("b")).has_value(&t, &attrs));
    assert!(!Cmp::Gt(col("a"), col("b")).has_value(&t, &attrs));
}

#[test]
fn supplied_names_override_row_labels() {
    let t = row(&[("x", Value::Int(5)), ("y", Value::Int(6))]);
    let attrs = names(&["y", "x"]);
    assert!(Cmp::Eq(col("y"), Comparator::Val(Value::Int(5))).has_value(&t, &attrs));
}

#[test]
fn first_matching_name_wins() {
    let t = row(&[("b", Value::Int(2)), ("b", Value::Int(9))]);
    let attrs = names(&["b", "b"]);
    assert!(Cmp::Eq(col("b"), Comparator::Val(Value::Int(2))).has_value(&t, &attrs));
    assert!(!Cmp::Eq(col("b"), Comparator::Val(Value::Int(9))).has_value(&t, &attrs));
}

#[test]
fn nulls_and_booleans_compare() {
    let t = row(&[("n", Value::Null), ("f", Value::Bool(false)), ("t", Value::Bool(true))]);
    let attrs = names(&["n", "f", "t"]);
    assert!(Cmp::Eq(col("n"), Comparator::Val(Value::Null)).has_value(&t, &attrs));
    assert!(Cmp::Lt(col("f"), col("t")).has_value(&t, &attrs));
    assert!(Cmp::Ne(col("f"), col("t")).has_value(&t, &attrs));
}

#[test]
fn value_equality_follows_content() {
    assert_eq!(Value::Text("a".to_string()), Value::Text("a".to_string()));
    assert_ne!(Value::Int(1), Value::Bool(true));
    assert_eq!(Value::Null, Value::Null);
}
