use reldb::{Cmp, ColType, Comparator, DbName, Engine, Error, Insert, LabeledTypedTuple, Select, TableName, Value};

fn enc_int(out: &mut Vec<u8>, v: i64) {
    out.push(1);
    out.extend_from_slice(&v.to_le_bytes());
}

fn enc_text(out: &mut Vec<u8>, s: &str) {
    out.push(3);
    out.extend_from_slice(&(s.len() as u64).to_le_bytes());
    out.extend_from_slice(s.as_bytes());
}

fn person(id: i64, name: &str) -> Vec<u8> {
    let mut out = Vec::new();
    enc_int(&mut out, id);
    enc_text(&mut out, name);
    out
}

fn engine_with(pk: &[&str]) -> Engine {
    let mut e = Engine::new();
    e.create_database(DbName("db".to_string())).unwrap();
    e.create_table(
        &DbName("db".to_string()),
        TableName("people".to_string()),
        vec![("id".to_string(), ColType::Int), ("name".to_string(), ColType::Text)],
        pk.iter().map(|s| s.to_string()).collect(),
    )
    .unwrap();
    e
}

fn insert(e: &mut Engine, db: &str, recs: Vec<Vec<u8>>) -> Result<(), Error> {
    e.insert(&Insert {
        db_name: DbName(db.to_string()),
        table_name: TableName("people".to_string()),
        values: recs,
    })
}

fn select(e: &Engine, db: &str, filter: Option<Cmp>) -> Result<Vec<LabeledTypedTuple>, Error> {
    e.select(&Select { db_name: DbName(db.to_string()), table_name: TableName("people".to_string()), filter })
}

fn ids(rows: &[LabeledTypedTuple]) -> Vec<Value> {
    rows.iter().map(|r| r.0[0].1.clone()).collect()
}

#[test]
fn insert_then_select_returns_the_record() {
    let mut e = engine_with(&["id"]);
    insert(&mut e, "db", vec![person(7, "ada")]).unwrap();
    let rows = select(&e, "db", None).unwrap();
    assert_eq!(rows.len(), 1);
    assert_eq!(rows[0].0[0], ("id".to_string(), Value::Int(7)));
    assert_eq!(rows[0].0[1], ("name".to_string(), Value::Text("ada".to_string())));
}

#[test]
fn duplicate_key_is_rejected_and_nothing_changes() {
    let mut e = engine_with(&["id"]);
    insert(&mut e, "db", vec![person(1, "a")]).unwrap();
    assert!(matches!(insert(&mut e, "db", vec![person(1, "b")]), Err(Error::InvalidKey)));
    let rows = select(&e, "db", None).unwrap();
    assert_eq!(rows.len(), 1);
    assert_eq!(rows[0].0[1].1, Value::Text("a".to_string()));
}

#[test]
fn duplicate_within_one_batch_rejects_the_batch() {
    let mut e = engine_with(&["id"]);
    assert!(matches!(insert(&mut e, "db", vec![person(2, "a"), person(2, "b")]), Err(Error::InvalidKey)));
    assert_eq!(select(&e, "db", None).unwrap().len(), 0);
}

#[test]
fn null_key_is_invalid() {
    let mut e = engine_with(&["id"]);
    let mut rec = vec![0u8];
    enc_text(&mut rec, "x");
    assert!(matches!(insert(&mut e, "db", vec![rec]), Err(Error::InvalidKey)));
}

#[test]
fn rows_come_back_in_key_order() {
    let mut e = engine_with(&["id"]);
    insert(&mut e, "db", vec![person(3, "c"), person(1, "a")]).unwrap();
    insert(&mut e, "db", vec![person(2, "b"), person(-5, "z")]).unwrap();
    let rows = select(&e, "db", None).unwrap();
    assert_eq!(ids(&rows), vec![Value::Int(-5), Value::Int(1), Value::Int(2), Value::Int(3)]);
}

#[test]
fn without_primary_key_rows_keep_insertion_order() {
    let mut e = engine_with(&[]);
    insert(&mut e, "db", vec![person(3, "c"), person(1, "a"), person(3, "c")]).unwrap();
    let rows = select(&e, "db", None).unwrap();
    assert_eq!(ids(&rows), vec![Value::Int(3), Value::Int(1), Value::Int(3)]);
}

#[test]
fn select_applies_filter_with_column_names() {
    let mut e = engine_with(&["id"]);
    insert(&mut e, "db", vec![person(1, "a"), person(2, "b"), person(3, "c")]).unwrap();
    let f = Cmp::Gt(Comparator::Col("id".to_string()), Comparator::Val(Value::Int(1)));
    let rows = select(&e, "db", Some(f)).unwrap();
    assert_eq!(ids(&rows), vec![Value::Int(2), Value::Int(3)]);
    let none = Cmp::Eq(Comparator::Col("missing".to_string()), Comparator::Val(Value::Int(1)));
    assert_eq!(select(&e, "db", Some(none)).unwrap().len(), 0);
}

#[test]
fn select_from_missing_table_fails() {
    let e = engine_with(&["id"]);
    let r = e.select(&Select { db_name: DbName("db".to_string()), table_name: TableName("nope".to_string()), filter: None });
    assert!(matches!(r, Err(Error::MissingCatalogueEntry)));
    assert!(matches!(select(&e, "other", None), Err(Error::MissingCatalogueEntry)));
}

#[test]
fn insert_into_missing_table_fails() {
    let mut e = engine_with(&["id"]);
    assert!(matches!(insert(&mut e, "other", vec![person(1, "a")]), Err(Error::MissingCatalogueEntry)));
}

#[test]
fn malformed_record_is_a_decode_error() {
    let mut e = engine_with(&["id"]);
    let mut wrong_type = Vec::new();
    enc_text(&mut wrong_type, "x");
    enc_text(&mut wrong_type, "y");
    assert!(matches!(insert(&mut e, "db", vec![wrong_type]), Err(Error::MiscDecodeError)));
    let mut trailing = person(1, "a");
    trailing.push(0);
    assert!(matches!(insert(&mut e, "db", vec![trailing]), Err(Error::MiscDecodeError)));
    let mut bad_utf8 = Vec::new();
    enc_int(&mut bad_utf8, 1);
    bad_utf8.push(3);
    bad_utf8.extend_from_slice(&1u64.to_le_bytes());
    bad_utf8.push(0xff);
    assert!(matches!(insert(&mut e, "db", vec![bad_utf8]), Err(Error::MiscDecodeError)));
    let short = vec![1u8, 0, 0];
    assert!(matches!(insert(&mut e, "db", vec![person(9, "ok"), short]), Err(Error::MiscDecodeError)));
    assert_eq!(select(&e, "db", None).unwrap().len(), 0);
}

#[test]
fn record_larger_than_a_page_is_out_of_bounds() {
    let mut e = engine_with(&["id"]);
    let big = "x".repeat(5000);
    assert!(matches!(insert(&mut e, "db", vec![person(1, &big)]), Err(Error::PageOutOfBounds)));
    assert_eq!(select(&e, "db", None).unwrap().len(), 0);
}

#[test]
fn records_spill_onto_new_pages() {
    let mut e = engine_with(&["id"]);
    let chunk = "y".repeat(3000);
    for i in 0..4 {
        insert(&mut e, "db", vec![person(10 - i, &chunk)]).unwrap();
    }
    let rows = select(&e, "db", None).unwrap();
    assert_eq!(ids(&rows), vec![Value::Int(7), Value::Int(8), Value::Int(9), Value::Int(10)]);
    assert_eq!(rows[0].0[1].1, Value::Text(chunk.clone()));
}

#[test]
fn negative_integers_and_unicode_text_round_trip() {
    let mut e = engine_with(&["id"]);
    insert(&mut e, "db", vec![person(i64::MIN, "größe"), person(i64::MAX, "日本")]).unwrap();
    let rows = select(&e, "db", None).unwrap();
    assert_eq!(rows[0].0[0].1, Value::Int(i64::MIN));
    assert_eq!(rows[0].0[1].1, Value::Text("größe".to_string()));
    assert_eq!(rows[1].0[1].1, Value::Text("日本".to_string()));
}

#[test]
fn catalogue_rejects_bad_definitions() {
    let mut e = Engine::new();
    e.create_database(DbName("db".to_string())).unwrap();
    assert!(matches!(e.create_database(DbName("db".to_string())), Err(Error::InvalidCondition)));
    let db = DbName("db".to_string());
    let cols = || vec![("id".to_string(), ColType::Int), ("ok".to_string(), ColType::Bool)];
    assert!(matches!(
        e.create_table(&db, TableName("t".to_string()), cols(), vec!["id".to_string(), "ok".to_string()]),
        Err(Error::MultiplePrimaryKeyClauses)
    ));
    assert!(matches!(
        e.create_table(&DbName("zz".to_string()), TableName("t".to_string()), cols(), vec![]),
        Err(Error::MissingCatalogueEntry)
    ));
    assert!(matches!(
        e.create_table(&db, TableName("t".to_string()), cols(), vec!["nope".to_string()]),
        Err(Error::InvalidKey)
    ));
    e.create_table(&db, TableName("t".to_string()), cols(), vec!["id".to_string()]).unwrap();
    assert!(matches!(
        e.create_table(&db, TableName("t".to_string()), cols(), vec![]),
        Err(Error::InvalidCondition)
    ));
}

#[test]
fn booleans_decode() {
    let mut e = Engine::new();
    e.create_database(DbName("db".to_string())).unwrap();
    let db = DbName("db".to_string());
    e.create_table(&db, TableName("people".to_string()), vec![("ok".to_string(), ColType::Bool)], vec![]).unwrap();
    insert(&mut e, "db", vec![vec![2, 1], vec![2, 0], vec![0]]).unwrap();
    assert!(matches!(insert(&mut e, "db", vec![vec![2, 7]]), Err(Error::MiscDecodeError)));
    let rows = select(&e, "db", None).unwrap();
    assert_eq!(ids(&rows), vec![Value::Bool(true), Value::Bool(false), Value::Null]);
}

#[test]
fn databases_are_independent() {
    let mut e = Engine::new();
    for name in ["one", "two"] {
        e.create_database(DbName(name.to_string())).unwrap();
        e.create_table(
            &DbName(name.to_string()),
            TableName("people".to_string()),
            vec![("id".to_string(), ColType::Int), ("name".to_string(), ColType::Text)],
            vec!["id".to_string()],
        )
        .unwrap();
    }
    insert(&mut e, "one", vec![person(1, "a")]).unwrap();
    insert(&mut e, "two", vec![person(1, "b")]).unwrap();
    assert!(matches!(insert(&mut e, "one", vec![person(1, "c")]), Err(Error::InvalidKey)));
    assert_eq!(select(&e, "one", None).unwrap()[0].0[1].1, Value::Text("a".to_string()));
    assert_eq!(select(&e, "two", None).unwrap()[0].0[1].1, Value::Text("b".to_string()));
}
