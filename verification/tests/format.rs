use atolldb::decode_json;
use atolldb::encode_json;
use atolldb::ensure_collection_entry;
use atolldb::get_eof;
use atolldb::get_header_magic;
use atolldb::load_toc;
use atolldb::read_at;
use atolldb::read_exact_4;
use atolldb::write_u32_le;
use atolldb::read_document;
use atolldb::read_header;
use atolldb::save_toc;
use atolldb::set_collection_schema;
use atolldb::truncate;
use atolldb::validate_against_schema;
use atolldb::validate_collection_schema;
use atolldb::value_eq;
use atolldb::write_at;
use atolldb::write_document;
use atolldb::write_header;
use atolldb::create;
use atolldb::Db;
use atolldb::DbError;
use atolldb::JsonValue;
use atolldb::Section;
use atolldb::TocEntry;
use atolldb::TocMap;

fn key(s: &str) -> Vec<u8> {
    s.as_bytes().to_vec()
}

fn jstr(s: &str) -> JsonValue {
    JsonValue::Str(s.as_bytes().to_vec())
}

fn obj(pairs: Vec<(&str, JsonValue)>) -> JsonValue {
    let mut out: Vec<(Vec<u8>, JsonValue)> = Vec::new();
    for (k, v) in pairs {
        out.push((key(k), v));
    }
    JsonValue::Obj(out)
}

#[test]
fn header_round_trip() {
    let mut db = create(None);
    write_header(&mut db, 1024, 2048);
    let h = read_header(&db).unwrap();
    assert_eq!(h.magic, get_header_magic());
    assert_eq!(h.toc_start, 1024);
    assert_eq!(h.toc_end, 2048);
}

#[test]
fn header_of_fresh_image_frames_the_reserved_region() {
    let db = create(None);
    let h = read_header(&db).unwrap();
    assert_eq!(h.toc_start, 24);
    assert_eq!(h.toc_end, 1048);
    assert_eq!(get_eof(&db), 1048);
}

#[test]
fn read_header_rejects_short_and_corrupt_images() {
    let short = Db::from_bytes(vec![0u8; 10]);
    assert!(matches!(read_header(&short), Err(DbError::IoError)));
    let mut raw = create(None).into_bytes();
    raw[3] = 0x00;
    let bad = Db::from_bytes(raw);
    assert!(matches!(read_header(&bad), Err(DbError::InvalidFormat)));
}

#[test]
fn encode_is_compact_json_text() {
    let doc = obj(vec![("a", JsonValue::Int(1))]);
    assert_eq!(encode_json(&doc), b"{\"a\":1}".to_vec());
    let arr = JsonValue::Arr(vec![
        JsonValue::Null,
        JsonValue::Bool(true),
        JsonValue::Bool(false),
        JsonValue::Int(-205),
    ]);
    assert_eq!(encode_json(&arr), b"[null,true,false,-205]".to_vec());
    assert_eq!(encode_json(&JsonValue::Int(0)), b"0".to_vec());
    assert_eq!(encode_json(&obj(vec![])), b"{}".to_vec());
    assert_eq!(encode_json(&JsonValue::Arr(vec![])), b"[]".to_vec());
    assert_eq!(encode_json(&jstr("")), b"\"\"".to_vec());
    assert_eq!(
        encode_json(&JsonValue::Int(i64::MIN)),
        b"-9223372036854775808".to_vec()
    );
}

#[test]
fn encode_escapes_quotes_backslashes_and_controls() {
    let s = JsonValue::Str(vec![0x22, 0x5c, 0x0a, 0x61]);
    let bytes = encode_json(&s);
    assert_eq!(bytes, b"\"\\\"\\\\\\u000aa\"".to_vec());
    let back = decode_json(&bytes).unwrap();
    assert!(value_eq(&back, &s));
}

#[test]
fn decode_inverts_encode_on_nested_documents() {
    let doc = obj(vec![
        ("name", jstr("x")),
        (
            "tags",
            JsonValue::Arr(vec![jstr("a"), jstr("b"), JsonValue::Int(-7)]),
        ),
        ("meta", obj(vec![("deep", obj(vec![("n", JsonValue::Int(42))]))])),
        ("none", JsonValue::Null),
    ]);
    let bytes = encode_json(&doc);
    let back = decode_json(&bytes).unwrap();
    assert!(value_eq(&back, &doc));
}

#[test]
fn decode_rejects_trailing_or_broken_bytes() {
    assert!(decode_json(&b"{\"a\":1}x".to_vec()).is_none());
    assert!(decode_json(&b"{\"a\":".to_vec()).is_none());
    assert!(decode_json(&b"".to_vec()).is_none());
    assert!(decode_json(&b"12345678901234567890123".to_vec()).is_none());
}

#[test]
fn positioned_reads_and_writes() {
    let mut db = Db::from_bytes(vec![1, 2, 3, 4, 5]);
    assert_eq!(read_at(&db, 1, 3).unwrap(), vec![2, 3, 4]);
    assert!(matches!(read_at(&db, 3, 3), Err(DbError::IoError)));
    write_at(&mut db, 4, &vec![9, 9]).unwrap();
    assert_eq!(db.bytes, vec![1, 2, 3, 4, 9, 9]);
    write_at(&mut db, 8, &vec![7]).unwrap();
    assert_eq!(db.bytes, vec![1, 2, 3, 4, 9, 9, 0, 0, 7]);
    truncate(&mut db, 2).unwrap();
    assert_eq!(db.bytes, vec![1, 2]);
    assert_eq!(get_eof(&db), 2);
}

#[test]
fn framed_records_round_trip() {
    let mut db = Db::from_bytes(Vec::new());
    write_document(&mut db, &vec![10, 20, 30]).unwrap();
    write_document(&mut db, &vec![]).unwrap();
    let (first, next) = read_document(&db, 0).unwrap();
    assert_eq!(first, vec![10, 20, 30]);
    let (second, end) = read_document(&db, next).unwrap();
    assert_eq!(second, Vec::<u8>::new());
    assert!(read_document(&db, end).is_none());
}

#[test]
fn toc_save_load_round_trip() {
    let mut db = create(None);
    let mut toc: TocMap = Vec::new();
    toc.push((key("users"), TocEntry { offset: 1048, schema: None }));
    toc.push((
        key("logs"),
        TocEntry { offset: 2000, schema: Some(vec![1, 2, 3]) },
    ));
    save_toc(&mut db, &toc).unwrap();
    let loaded = load_toc(&db).unwrap();
    assert_eq!(loaded.len(), 2);
    assert_eq!(loaded[0].0, key("users"));
    assert_eq!(loaded[0].1.offset, 1048);
    assert!(loaded[0].1.schema.is_none());
    assert_eq!(loaded[1].0, key("logs"));
    assert_eq!(loaded[1].1.offset, 2000);
    assert_eq!(loaded[1].1.schema, Some(vec![1, 2, 3]));
}

#[test]
fn damaged_toc_degrades_to_empty() {
    let mut raw = create(None).into_bytes();
    for i in 24..1048 {
        raw[i] = 0xff;
    }
    let db = Db::from_bytes(raw);
    let loaded = load_toc(&db).unwrap();
    assert_eq!(loaded.len(), 0);
}

#[test]
fn ensure_entry_is_idempotent_and_keeps_schema() {
    let mut db = create(None);
    let users = key("users");
    ensure_collection_entry(&mut db, &users, 1048).unwrap();
    let schema = obj(vec![("a", JsonValue::Int(1))]);
    set_collection_schema(&mut db, &users, &schema).unwrap();
    ensure_collection_entry(&mut db, &users, 9999).unwrap();
    let loaded = load_toc(&db).unwrap();
    assert_eq!(loaded.len(), 1);
    assert_eq!(loaded[0].1.offset, 1048);
    assert!(loaded[0].1.schema.is_some());
}

#[test]
fn schema_validation_is_presence_only() {
    let schema = obj(vec![("a", JsonValue::Int(1)), ("b", jstr("ignored"))]);
    let ok_doc = obj(vec![("a", jstr("other-type")), ("b", JsonValue::Null), ("c", JsonValue::Int(3))]);
    assert!(validate_against_schema(&ok_doc, &schema));
    let missing = obj(vec![("a", JsonValue::Int(1))]);
    assert!(!validate_against_schema(&missing, &schema));
    assert!(!validate_against_schema(&jstr("x"), &schema));
    assert!(!validate_against_schema(&ok_doc, &jstr("x")));
}

#[test]
fn validate_collection_schema_checks_stored_schema() {
    let mut db = create(None);
    let users = key("users");
    let doc = obj(vec![("name", jstr("x"))]);
    validate_collection_schema(&db, &users, &doc).unwrap();
    let schema = obj(vec![("age", JsonValue::Int(0))]);
    set_collection_schema(&mut db, &users, &schema).unwrap();
    assert_eq!(
        validate_collection_schema(&db, &users, &doc),
        Err(DbError::SchemaMismatch)
    );
    let with_age = obj(vec![("name", jstr("x")), ("age", JsonValue::Int(9))]);
    validate_collection_schema(&db, &users, &with_age).unwrap();
}

#[test]
fn section_append_tracks_length() {
    let mut db = Db::from_bytes(vec![0u8; 4]);
    let mut sec = Section::new(4);
    assert_eq!(sec.offset, 4);
    assert_eq!(sec.length, 0);
    sec.write(&mut db, &vec![5, 6]).unwrap();
    sec.write(&mut db, &vec![7]).unwrap();
    assert_eq!(sec.length, 3);
    assert_eq!(sec.read(&db).unwrap(), vec![5, 6, 7]);
}

#[test]
fn magic_tag_is_stable() {
    assert_eq!(get_header_magic(), b"ATOLLDB1".to_vec());
}

#[test]
fn four_byte_words_round_trip() {
    let mut db = Db::from_bytes(vec![0u8; 8]);
    write_u32_le(&mut db, 2, 0x01020304).unwrap();
    let bytes = read_exact_4(&db, 2).unwrap();
    assert_eq!(bytes, vec![0x04, 0x03, 0x02, 0x01]);
    assert!(matches!(read_exact_4(&db, 6), Err(DbError::IoError)));
}
