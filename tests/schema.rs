use mongodb_schema_parser::parser::{
    DecodeError, FieldSnapshot, KindSnapshot, Ratio, SchemaError, SchemaParser, SchemaSnapshot,
};
use mongodb_schema_parser::sample::{ValueSample, SAMPLE_LIMIT};
use mongodb_schema_parser::value::{Kind, Value};

fn text(s: &str) -> Value {
    Value::String(s.to_string())
}

fn doc(entries: Vec<(&str, Value)>) -> Value {
    Value::Document(entries.into_iter().map(|(k, v)| (k.to_string(), v)).collect())
}

fn snapshot(p: &SchemaParser) -> SchemaSnapshot {
    match p.snapshot() {
        Ok(s) => s,
        Err(e) => panic!("no snapshot: {:?}", e),
    }
}

fn field<'a>(s: &'a SchemaSnapshot, path: &str) -> &'a FieldSnapshot {
    s.fields.iter().find(|f| f.path == path).expect("field is present")
}

fn kind<'a>(f: &'a FieldSnapshot, k: Kind) -> &'a KindSnapshot {
    f.kinds.iter().find(|x| x.kind == k).expect("kind is present")
}

fn holds(values: &[Value], v: &Value) -> bool {
    values.iter().any(|x| x.same_as(v))
}

#[test]
fn it_creates_new() {
    let p = SchemaParser::new();
    assert_eq!(p.document_count(), 0);
    assert_eq!(p.visit_count(), 0);
    assert!(p.fields().is_empty());
}

#[test]
fn it_writes() {
    let mut p = SchemaParser::new();
    assert!(p.write(&doc(vec![("name", text("Chashu")), ("type", text("Cat"))])).is_ok());
    assert_eq!(p.document_count(), 1);
    assert_eq!(p.fields().len(), 2);
    assert_eq!(p.visit_count(), 2);
}

#[test]
fn it_formats_to_json() {
    let mut p = SchemaParser::new();
    p.write(&doc(vec![("name", text("Chashu")), ("type", text("Cat"))])).unwrap();
    let s = snapshot(&p);
    assert_eq!(s.document_count, 1);
    assert_eq!(s.fields.len(), 2);
    assert_eq!(s.fields[0].name, "name");
    assert_eq!(s.fields[1].name, "type");
    assert_eq!(s.fields[0].probability, Ratio { numerator: 1, denominator: 1 });
    assert_eq!(s.fields[0].kinds[0].probability, Ratio { numerator: 1, denominator: 1 });
}

#[test]
fn it_adds_to_fields() {
    let mut p = SchemaParser::new();
    p.write(&doc(vec![("name", text("Nori"))])).unwrap();
    p.write(&doc(vec![("age", Value::Int32(3))])).unwrap();
    let paths: Vec<&str> = p.fields().iter().map(|f| f.path().as_str()).collect();
    assert_eq!(paths, vec!["name", "age"]);
}

#[test]
fn it_checks_if_field_name_exists() {
    let mut p = SchemaParser::new();
    p.write(&doc(vec![("name", text("Nori"))])).unwrap();
    p.write(&doc(vec![("name", text("Chashu"))])).unwrap();
    assert_eq!(p.fields().len(), 1);
    assert_eq!(p.fields()[0].count(), 2);
}

#[test]
fn it_updates_fields() {
    let mut p = SchemaParser::new();
    p.write(&doc(vec![("name", text("Nori"))])).unwrap();
    p.write(&doc(vec![("name", Value::Int32(42))])).unwrap();
    let f = &p.fields()[0];
    assert_eq!(f.count(), 2);
    assert_eq!(f.kinds().len(), 2);
    assert_eq!(f.kinds()[0].kind(), Kind::String);
    assert_eq!(f.kinds()[0].count(), 1);
    assert_eq!(f.kinds()[1].kind(), Kind::Int32);
    assert_eq!(f.kinds()[1].count(), 1);
}

#[test]
fn it_generates_fields() {
    let mut p = SchemaParser::new();
    p.write(&doc(vec![("owner", doc(vec![("name", text("Nori"))]))])).unwrap();
    let s = snapshot(&p);
    assert_eq!(s.fields.len(), 2);
    assert_eq!(s.fields[0].path, "owner");
    assert_eq!(s.fields[1].path, "owner.name");
    assert_eq!(s.fields[1].name, "name");
}

#[test]
fn two_cats_share_their_fields() {
    let mut p = SchemaParser::new();
    p.write(&doc(vec![("name", text("Nori")), ("type", text("Cat"))])).unwrap();
    p.write(&doc(vec![("name", text("Chashu")), ("type", text("Cat"))])).unwrap();
    let s = snapshot(&p);
    assert_eq!(s.document_count, 2);
    let name = field(&s, "name");
    assert_eq!(name.count, 2);
    assert_eq!(name.kinds.len(), 1);
    let k = kind(name, Kind::String);
    assert_eq!(k.count, 2);
    assert_eq!(k.samples.len(), 2);
    assert!(holds(&k.samples, &text("Nori")));
    assert!(holds(&k.samples, &text("Chashu")));
    let ty = field(&s, "type");
    assert_eq!(ty.count, 2);
    assert_eq!(ty.kinds.len(), 1);
    let k = kind(ty, Kind::String);
    assert_eq!(k.count, 2);
    assert_eq!(k.samples.len(), 1);
    assert!(holds(&k.samples, &text("Cat")));
}

#[test]
fn a_field_may_take_two_kinds() {
    let mut p = SchemaParser::new();
    p.write(&doc(vec![("name", text("Nori"))])).unwrap();
    p.write(&doc(vec![("name", Value::Int32(42))])).unwrap();
    let s = snapshot(&p);
    let name = field(&s, "name");
    assert_eq!(name.count, 2);
    assert_eq!(name.kinds.len(), 2);
    assert_eq!(kind(name, Kind::String).count, 1);
    assert_eq!(kind(name, Kind::Int32).count, 1);
    assert_eq!(kind(name, Kind::Int32).probability, Ratio { numerator: 1, denominator: 2 });
}

#[test]
fn a_subdocument_records_no_kind() {
    let mut p = SchemaParser::new();
    p.write(&doc(vec![("owner", doc(vec![("name", text("Nori"))]))])).unwrap();
    let s = snapshot(&p);
    let owner = field(&s, "owner");
    assert_eq!(owner.count, 1);
    assert!(owner.kinds.is_empty());
    let name = field(&s, "owner.name");
    assert_eq!(name.count, 1);
    assert_eq!(name.kinds.len(), 1);
    assert_eq!(name.kinds[0].kind, Kind::String);
}

#[test]
fn an_empty_model_has_no_snapshot() {
    let p = SchemaParser::new();
    assert!(matches!(p.snapshot(), Err(SchemaError::EmptyModel)));
}

#[test]
fn a_root_that_is_not_a_mapping_is_refused() {
    let mut p = SchemaParser::new();
    p.write(&doc(vec![("name", text("Nori"))])).unwrap();
    let r = p.write(&Value::Array(vec![Value::Int32(1)]));
    assert!(matches!(r, Err(SchemaError::Decode(DecodeError::NotADocument))));
    assert_eq!(p.document_count(), 1);
    assert_eq!(p.fields().len(), 1);
    assert_eq!(p.fields()[0].count(), 1);
}

#[test]
fn the_document_count_follows_the_documents() {
    let mut p = SchemaParser::new();
    for i in 0..7 {
        p.write(&doc(vec![("n", Value::Int64(i))])).unwrap();
    }
    assert_eq!(p.document_count(), 7);
    let s = snapshot(&p);
    assert_eq!(s.document_count, 7);
}

#[test]
fn field_probability_is_count_over_documents() {
    let mut p = SchemaParser::new();
    p.write(&doc(vec![("a", Value::Null), ("b", Value::Boolean(true))])).unwrap();
    p.write(&doc(vec![("a", Value::Null)])).unwrap();
    p.write(&doc(vec![("a", Value::Null)])).unwrap();
    let s = snapshot(&p);
    assert_eq!(field(&s, "a").probability, Ratio { numerator: 3, denominator: 3 });
    assert_eq!(field(&s, "b").probability, Ratio { numerator: 1, denominator: 3 });
    for f in &s.fields {
        assert!(f.count <= s.document_count);
    }
}

#[test]
fn kind_probability_is_count_over_field_count() {
    let mut p = SchemaParser::new();
    p.write(&doc(vec![("x", Value::Int32(1))])).unwrap();
    p.write(&doc(vec![("x", Value::Int32(2))])).unwrap();
    p.write(&doc(vec![("x", text("three"))])).unwrap();
    let s = snapshot(&p);
    let x = field(&s, "x");
    assert_eq!(kind(x, Kind::Int32).probability, Ratio { numerator: 2, denominator: 3 });
    assert_eq!(kind(x, Kind::String).probability, Ratio { numerator: 1, denominator: 3 });
}

#[test]
fn ingesting_twice_doubles_the_counts() {
    let d = doc(vec![
        ("name", text("Nori")),
        ("owner", doc(vec![("name", text("Ann")), ("age", Value::Int32(30))])),
        ("tags", Value::Array(vec![text("a"), text("b")])),
    ]);
    let mut p = SchemaParser::new();
    p.write(&d).unwrap();
    let once = snapshot(&p);
    p.write(&d).unwrap();
    let twice = snapshot(&p);
    assert_eq!(once.fields.len(), twice.fields.len());
    for (a, b) in once.fields.iter().zip(twice.fields.iter()) {
        assert_eq!(a.path, b.path);
        assert_eq!(b.count, 2 * a.count);
        assert_eq!(a.kinds.len(), b.kinds.len());
        for (x, y) in a.kinds.iter().zip(b.kinds.iter()) {
            assert_eq!(x.kind, y.kind);
            assert_eq!(y.count, 2 * x.count);
        }
    }
}

#[test]
fn samples_stay_bounded_and_distinct() {
    let mut p = SchemaParser::new();
    for i in 0..40 {
        p.write(&doc(vec![("n", Value::Int32(i % 25))])).unwrap();
    }
    let s = snapshot(&p);
    let k = kind(field(&s, "n"), Kind::Int32);
    assert_eq!(k.count, 40);
    assert_eq!(k.samples.len(), SAMPLE_LIMIT);
    for (i, v) in k.samples.iter().enumerate() {
        assert!(v.same_as(&Value::Int32(i as i32)));
    }
}

#[test]
fn a_sample_drops_repeats_and_overflow() {
    let mut s = ValueSample::new();
    s.insert(&text("x"));
    s.insert(&text("x"));
    assert_eq!(s.len(), 1);
    assert!(s.contains(&text("x")));
    for i in 0..20 {
        s.insert(&Value::Int64(i));
    }
    assert_eq!(s.len(), SAMPLE_LIMIT);
    assert!(!s.contains(&Value::Int64(15)));
    assert!(s.get(1).same_as(&Value::Int64(0)));
}

#[test]
fn same_names_at_different_depths_stay_apart() {
    let mut p = SchemaParser::new();
    p.write(&doc(vec![
        ("a", doc(vec![("name", text("x"))])),
        ("b", doc(vec![("name", Value::Int32(1))])),
    ]))
    .unwrap();
    let s = snapshot(&p);
    assert_eq!(s.fields.len(), 4);
    let a = field(&s, "a.name");
    let b = field(&s, "b.name");
    assert_eq!(a.name, "name");
    assert_eq!(b.name, "name");
    assert_eq!(a.kinds[0].kind, Kind::String);
    assert_eq!(b.kinds[0].kind, Kind::Int32);
}

#[test]
fn a_path_met_twice_in_one_document_counts_once() {
    let mut p = SchemaParser::new();
    p.write(&doc(vec![("a.b", Value::Int32(1)), ("a", doc(vec![("b", Value::Int32(2))]))]))
        .unwrap();
    let s = snapshot(&p);
    let ab = field(&s, "a.b");
    assert_eq!(ab.count, 1);
    assert_eq!(kind(ab, Kind::Int32).count, 2);
    assert_eq!(s.fields.len(), 2);
}

#[test]
fn values_compare_by_content() {
    let a = doc(vec![("k", Value::Array(vec![Value::Binary(0, vec![1, 2]), Value::Double(7)]))]);
    let b = doc(vec![("k", Value::Array(vec![Value::Binary(0, vec![1, 2]), Value::Double(7)]))]);
    let c = doc(vec![("k", Value::Array(vec![Value::Binary(0, vec![1, 3]), Value::Double(7)]))]);
    assert!(a.same_as(&b));
    assert!(!a.same_as(&c));
    assert!(a.duplicate().same_as(&a));
    assert_eq!(Value::Timestamp(1, 2).kind(), Kind::Timestamp);
    assert_eq!(Value::RegExp("a".to_string(), "i".to_string()).kind(), Kind::RegExp);
    assert_eq!(a.kind(), Kind::Document);
}
