use atolldb::create;
use atolldb::delete;
use atolldb::filter_match;
use atolldb::insert;
use atolldb::query;
use atolldb::set_schema;
use atolldb::update;
use atolldb::value_eq;
use atolldb::Db;
use atolldb::DbError;
use atolldb::JsonValue;

fn key(s: &str) -> Vec<u8> {
    s.as_bytes().to_vec()
}

fn jstr(s: &str) -> JsonValue {
    JsonValue::Str(s.as_bytes().to_vec())
}

fn obj(pairs: Vec<(&str, JsonValue)>) -> JsonValue {
    let mut out: Vec<(Vec<u8>, JsonValue)> = Vec::new();
    for (k, v) in pairs {
        out.push((key(k), v));
    }
    JsonValue::Obj(out)
}

fn assert_doc_eq(a: &JsonValue, b: &JsonValue) {
    assert!(value_eq(a, b));
}

#[test]
fn scenario_insert_query_update_delete() {
    let mut db = create(None);
    let users = key("users");

    let doc_a = obj(vec![("name", jstr("a")), ("age", JsonValue::Int(1))]);
    let doc_b = obj(vec![("name", jstr("b")), ("age", JsonValue::Int(2))]);
    insert(&mut db, &users, &doc_a).unwrap();
    insert(&mut db, &users, &doc_b).unwrap();

    let by_a = obj(vec![("name", jstr("a"))]);
    let found = query(&db, &users, &by_a).unwrap();
    assert_eq!(found.len(), 1);
    assert_doc_eq(&found[0], &doc_a);

    let doc_a99 = obj(vec![("name", jstr("a")), ("age", JsonValue::Int(99))]);
    let count = update(&mut db, &users, &by_a, &doc_a99).unwrap();
    assert_eq!(count, 1);
    let found = query(&db, &users, &by_a).unwrap();
    assert_eq!(found.len(), 1);
    assert_doc_eq(&found[0], &doc_a99);

    let by_b = obj(vec![("name", jstr("b"))]);
    let removed = delete(&mut db, &users, &by_b).unwrap();
    assert_eq!(removed, 1);

    let all = query(&db, &users, &obj(vec![])).unwrap();
    assert_eq!(all.len(), 1);
    assert_doc_eq(&all[0], &doc_a99);
}

#[test]
fn create_is_idempotent() {
    let db = create(None);
    let first = db.into_bytes();
    let again = create(Some(Db::from_bytes(first.clone())));
    assert_eq!(again.into_bytes(), first);
}

#[test]
fn query_returns_inserted_in_order() {
    let mut db = create(None);
    let coll = key("logs");
    let docs = vec![
        obj(vec![("n", JsonValue::Int(1))]),
        obj(vec![("n", JsonValue::Int(2))]),
        obj(vec![("n", JsonValue::Int(3))]),
    ];
    for d in &docs {
        insert(&mut db, &coll, d).unwrap();
    }
    let all = query(&db, &coll, &obj(vec![])).unwrap();
    assert_eq!(all.len(), 3);
    for (got, want) in all.iter().zip(docs.iter()) {
        assert_doc_eq(got, want);
    }
}

#[test]
fn untouched_collection_is_empty_not_an_error() {
    let mut db = create(None);
    let coll = key("ghost");
    let everything = obj(vec![]);
    assert_eq!(query(&db, &coll, &everything).unwrap().len(), 0);
    assert_eq!(update(&mut db, &coll, &everything, &obj(vec![])).unwrap(), 0);
    assert_eq!(delete(&mut db, &coll, &everything).unwrap(), 0);
}

#[test]
fn update_then_query_finds_no_match() {
    let mut db = create(None);
    let coll = key("users");
    insert(&mut db, &coll, &obj(vec![("x", JsonValue::Int(1))])).unwrap();
    insert(&mut db, &coll, &obj(vec![("x", JsonValue::Int(1))])).unwrap();
    insert(&mut db, &coll, &obj(vec![("x", JsonValue::Int(2))])).unwrap();
    let by_x1 = obj(vec![("x", JsonValue::Int(1))]);
    let replacement = obj(vec![("x", JsonValue::Int(7))]);
    let count = update(&mut db, &coll, &by_x1, &replacement).unwrap();
    assert_eq!(count, 2);
    assert_eq!(query(&db, &coll, &by_x1).unwrap().len(), 0);
    assert_eq!(query(&db, &coll, &obj(vec![])).unwrap().len(), 3);
}

#[test]
fn delete_preserves_order_and_second_delete_counts_zero() {
    let mut db = create(None);
    let coll = key("users");
    let keep1 = obj(vec![("k", JsonValue::Int(1)), ("tag", jstr("keep"))]);
    let drop1 = obj(vec![("k", JsonValue::Int(2)), ("tag", jstr("drop"))]);
    let keep2 = obj(vec![("k", JsonValue::Int(3)), ("tag", jstr("keep"))]);
    insert(&mut db, &coll, &keep1).unwrap();
    insert(&mut db, &coll, &drop1).unwrap();
    insert(&mut db, &coll, &keep2).unwrap();
    let by_drop = obj(vec![("tag", jstr("drop"))]);
    assert_eq!(delete(&mut db, &coll, &by_drop).unwrap(), 1);
    let rest = query(&db, &coll, &obj(vec![])).unwrap();
    assert_eq!(rest.len(), 2);
    assert_doc_eq(&rest[0], &keep1);
    assert_doc_eq(&rest[1], &keep2);
    assert_eq!(delete(&mut db, &coll, &by_drop).unwrap(), 0);
}

#[test]
fn schema_rejects_missing_required_key() {
    let mut db = create(None);
    let coll = key("users");
    let schema = obj(vec![("required_field", JsonValue::Int(1))]);
    set_schema(&mut db, &coll, &schema).unwrap();
    let missing = obj(vec![("name", jstr("x"))]);
    assert_eq!(insert(&mut db, &coll, &missing), Err(DbError::SchemaMismatch));
    let present = obj(vec![("name", jstr("x")), ("required_field", JsonValue::Int(1))]);
    assert!(insert(&mut db, &coll, &present).is_ok());
    let found = query(&db, &coll, &obj(vec![])).unwrap();
    assert_eq!(found.len(), 1);
    assert_doc_eq(&found[0], &present);
}

#[test]
fn schema_set_after_documents_checks_later_inserts() {
    let mut db = create(None);
    let coll = key("users");
    insert(&mut db, &coll, &obj(vec![("a", JsonValue::Int(1))])).unwrap();
    let schema = obj(vec![("a", JsonValue::Int(0))]);
    set_schema(&mut db, &coll, &schema).unwrap();
    assert_eq!(
        insert(&mut db, &coll, &obj(vec![("b", JsonValue::Int(2))])),
        Err(DbError::SchemaMismatch)
    );
    assert!(insert(&mut db, &coll, &obj(vec![("a", JsonValue::Int(3))])).is_ok());
    assert_eq!(query(&db, &coll, &obj(vec![])).unwrap().len(), 2);
}

#[test]
fn wrong_magic_is_invalid_format() {
    let db = create(None);
    let mut raw = db.into_bytes();
    raw[0] = 0x58;
    let mut bad = Db::from_bytes(raw);
    let coll = key("users");
    let doc = obj(vec![("a", JsonValue::Int(1))]);
    assert_eq!(insert(&mut bad, &coll, &doc), Err(DbError::InvalidFormat));
    assert!(matches!(query(&bad, &coll, &doc), Err(DbError::InvalidFormat)));
    assert_eq!(update(&mut bad, &coll, &doc, &doc), Err(DbError::InvalidFormat));
    assert_eq!(delete(&mut bad, &coll, &doc), Err(DbError::InvalidFormat));
    assert_eq!(set_schema(&mut bad, &coll, &doc), Err(DbError::InvalidFormat));
}

#[test]
fn truncated_image_is_io_error() {
    let db = create(None);
    let mut raw = db.into_bytes();
    raw.truncate(100);
    let mut short = Db::from_bytes(raw);
    let coll = key("users");
    let doc = obj(vec![("a", JsonValue::Int(1))]);
    assert_eq!(insert(&mut short, &coll, &doc), Err(DbError::IoError));
    assert!(matches!(query(&short, &coll, &doc), Err(DbError::IoError)));
}

#[test]
fn oversized_schema_is_toc_overflow() {
    let mut db = create(None);
    let coll = key("users");
    let big = JsonValue::Str(vec![0x61u8; 2000]);
    let schema = obj(vec![("pad", big)]);
    assert_eq!(set_schema(&mut db, &coll, &schema), Err(DbError::TocOverflow));
}

#[test]
fn corrupt_record_is_decode_error() {
    let mut db = create(None);
    let coll = key("users");
    insert(&mut db, &coll, &obj(vec![("a", JsonValue::Int(1))])).unwrap();
    let mut raw = db.into_bytes();
    let n = raw.len();
    raw[n - 1] = 0x21;
    let broken = Db::from_bytes(raw);
    assert!(matches!(query(&broken, &coll, &obj(vec![])), Err(DbError::DecodeError)));
}

#[test]
fn filter_match_checks_every_binding() {
    let doc = obj(vec![("name", jstr("a")), ("age", JsonValue::Int(1))]);
    assert!(filter_match(&doc, &obj(vec![])));
    assert!(filter_match(&doc, &obj(vec![("name", jstr("a"))])));
    assert!(filter_match(
        &doc,
        &obj(vec![("name", jstr("a")), ("age", JsonValue::Int(1))])
    ));
    assert!(!filter_match(&doc, &obj(vec![("name", jstr("b"))])));
    assert!(!filter_match(&doc, &obj(vec![("missing", jstr("a"))])));
    assert!(!filter_match(&doc, &jstr("a")));
    assert!(!filter_match(&jstr("a"), &obj(vec![])));
    assert!(!filter_match(&JsonValue::Null, &JsonValue::Null));
}

#[test]
fn filter_values_compare_deeply() {
    let nested = obj(vec![(
        "pos",
        JsonValue::Arr(vec![JsonValue::Int(1), JsonValue::Int(2)]),
    )]);
    assert!(filter_match(
        &nested,
        &obj(vec![(
            "pos",
            JsonValue::Arr(vec![JsonValue::Int(1), JsonValue::Int(2)])
        )])
    ));
    assert!(!filter_match(
        &nested,
        &obj(vec![(
            "pos",
            JsonValue::Arr(vec![JsonValue::Int(2), JsonValue::Int(1)])
        )])
    ));
}

#[test]
fn documents_survive_non_object_values() {
    let mut db = create(None);
    let coll = key("mixed");
    insert(&mut db, &coll, &JsonValue::Int(-42)).unwrap();
    insert(&mut db, &coll, &JsonValue::Null).unwrap();
    insert(&mut db, &coll, &JsonValue::Bool(true)).unwrap();
    let all = query(&db, &coll, &obj(vec![])).unwrap();
    assert_eq!(all.len(), 0);
    let with_obj = obj(vec![("ok", JsonValue::Bool(false))]);
    insert(&mut db, &coll, &with_obj).unwrap();
    let all = query(&db, &coll, &obj(vec![])).unwrap();
    assert_eq!(all.len(), 1);
    assert_doc_eq(&all[0], &with_obj);
}
