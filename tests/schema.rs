use schema_infer::{parser, Field, FieldType, Kind, SchemaAggregator, SchemaError, Value, SAMPLE_CAP};

fn doc(entries: Vec<(&str, Value)>) -> Vec<(String, Value)> {
    entries.into_iter().map(|(k, v)| (k.to_string(), v)).collect()
}

fn field<'a>(agg: &'a SchemaAggregator, path: &str) -> &'a Field {
    agg.fields.iter().find(|f| f.path == path).unwrap()
}

fn of_kind(types: &[FieldType], kind: Kind) -> &FieldType {
    types.iter().find(|t| t.bson_type == kind).unwrap()
}

fn ratio(f: &Field) -> f64 {
    let p = f.get_probability().unwrap();
    p.numerator as f64 / p.denominator as f64
}

#[test]
fn can_generate_schema() {
    let mongodb_schema = parser();
    let count: usize = 4;
    let field_name = String::from("_id");
    assert_eq!(&mongodb_schema.document_count, &count);
    assert_eq!(&mongodb_schema.fields[0].name, &field_name);
}

#[test]
fn simple_schema_gen() {
    let d = doc(vec![
        ("foo", Value::Int32(12)),
        ("bar", Value::Array(vec![Value::Boolean(true), Value::Null])),
        ("sub", Value::Document(doc(vec![("x", Value::Int32(-10))]))),
    ]);
    let mut agg = SchemaAggregator::new();
    agg.add_document(&d).unwrap();
    println!("{:?}", agg);
    assert_eq!(agg.fields.len(), 4);
    assert_eq!(field(&agg, "sub").types[0].bson_type, Kind::Document);
    assert_eq!(field(&agg, "sub.x").name, "x");
    assert_eq!(field(&agg, "sub.x").types[0].bson_type, Kind::Number);
}

#[test]
fn end_to_end_example() {
    let mut agg = SchemaAggregator::new();
    agg.add_document(&doc(vec![
        ("foo", Value::Int32(12)),
        ("bar", Value::Array(vec![Value::Boolean(true), Value::Null])),
    ]))
    .unwrap();
    agg.add_document(&doc(vec![("foo", Value::Int32(7))])).unwrap();
    agg.finalize().unwrap();
    assert_eq!(agg.document_count, 2);

    let foo = field(&agg, "foo");
    assert_eq!(foo.count, 2);
    assert_eq!(of_kind(&foo.types, Kind::Number).count, 2);
    assert_eq!(ratio(foo), 1.0);

    let bar = field(&agg, "bar");
    // one real presence and one reconciled absence
    assert_eq!(bar.count - bar.missing, 1);
    assert_eq!(bar.count, 2);
    assert_eq!(of_kind(&bar.types, Kind::Null).count, 1);
    assert_eq!(ratio(bar), 0.5);
    let array = of_kind(&bar.types, Kind::Array);
    assert_eq!(array.count, 1);
    assert_eq!(of_kind(&array.elements, Kind::Boolean).count, 1);
    assert_eq!(of_kind(&array.elements, Kind::Null).count, 1);
}

#[test]
fn missing_field_synthesis() {
    let mut agg = SchemaAggregator::new();
    agg.add_document(&doc(vec![("age", Value::Int32(3))])).unwrap();
    agg.add_document(&doc(vec![("name", Value::Str("a".to_string()))])).unwrap();
    agg.add_document(&doc(vec![("age", Value::Int32(4))])).unwrap();
    agg.finalize().unwrap();
    let age = field(&agg, "age");
    assert_eq!(of_kind(&age.types, Kind::Null).count, 1);
    assert_eq!(age.count, 3);
    assert_eq!(ratio(age), 2.0 / 3.0);
}

#[test]
fn duplicate_detection() {
    let mut agg = SchemaAggregator::new();
    agg.add_document(&doc(vec![("n", Value::Int64(5))])).unwrap();
    agg.add_document(&doc(vec![("n", Value::Int64(5))])).unwrap();
    agg.finalize().unwrap();
    let n = field(&agg, "n");
    assert!(of_kind(&n.types, Kind::Number).has_duplicates);
    assert!(n.has_duplicates);
}

#[test]
fn distinct_values_are_no_duplicates() {
    let mut agg = SchemaAggregator::new();
    agg.add_document(&doc(vec![("n", Value::Int64(5))])).unwrap();
    agg.add_document(&doc(vec![("n", Value::Int64(6))])).unwrap();
    agg.finalize().unwrap();
    let n = field(&agg, "n");
    assert!(!n.has_duplicates);
    assert_eq!(of_kind(&n.types, Kind::Number).unique, 2);
}

#[test]
fn duplicated_stream_doubles_counts() {
    let d = doc(vec![
        ("a", Value::Int32(1)),
        ("b", Value::Document(doc(vec![("c", Value::Str("z".to_string()))]))),
    ]);
    let other = doc(vec![("a", Value::Boolean(false))]);
    let mut once = SchemaAggregator::new();
    once.add_document(&d).unwrap();
    once.add_document(&other).unwrap();
    once.finalize().unwrap();
    let mut twice = SchemaAggregator::new();
    for x in [&d, &other, &d, &other] {
        twice.add_document(x).unwrap();
    }
    twice.finalize().unwrap();
    assert_eq!(once.fields.len(), twice.fields.len());
    for f in &once.fields {
        let g = field(&twice, &f.path);
        assert_eq!(g.count, 2 * f.count);
        assert_eq!(ratio(g), ratio(f));
        for t in &f.types {
            assert_eq!(of_kind(&g.types, t.bson_type).count, 2 * t.count);
        }
    }
}

#[test]
fn sample_is_capped() {
    let mut agg = SchemaAggregator::new();
    for i in 0..(SAMPLE_CAP as i32 + 10) {
        agg.add_document(&doc(vec![("n", Value::Int32(i))])).unwrap();
    }
    let n = of_kind(&field(&agg, "n").types, Kind::Number);
    assert_eq!(n.values.len(), SAMPLE_CAP);
    assert_eq!(n.unique, SAMPLE_CAP + 10);
    assert_eq!(n.count, SAMPLE_CAP + 10);
}

#[test]
fn counts_conserved_and_bounded() {
    let mut agg = SchemaAggregator::new();
    agg.add_document(&doc(vec![("a", Value::Int32(1)), ("b", Value::Null)])).unwrap();
    agg.add_document(&doc(vec![("a", Value::Str("s".to_string()))])).unwrap();
    agg.add_document(&doc(vec![])).unwrap();
    for f in &agg.fields {
        assert!(f.count <= agg.document_count);
        assert_eq!(f.types.iter().map(|t| t.count).sum::<usize>(), f.count);
    }
    agg.finalize().unwrap();
    for f in &agg.fields {
        assert_eq!(f.types.iter().map(|t| t.count).sum::<usize>(), f.count);
        let r = ratio(f);
        assert!(0.0 <= r && r <= 1.0);
    }
    assert_eq!(ratio(field(&agg, "a")), 2.0 / 3.0);
    assert_eq!(ratio(field(&agg, "b")), 1.0 / 3.0);
}

#[test]
fn unsupported_value_is_refused_whole() {
    let mut agg = SchemaAggregator::new();
    agg.add_document(&doc(vec![("a", Value::Int32(1))])).unwrap();
    let bad = doc(vec![
        ("a", Value::Int32(2)),
        ("s", Value::Document(doc(vec![("t", Value::Array(vec![Value::Other]))]))),
    ]);
    match agg.add_document(&bad) {
        Err(SchemaError::UnsupportedType { path }) => assert_eq!(path, "s.t"),
        other => panic!("unexpected {:?}", other),
    }
    assert_eq!(agg.document_count, 1);
    assert_eq!(agg.fields.len(), 1);
    assert_eq!(agg.fields[0].count, 1);
}

#[test]
fn finalize_twice_is_refused() {
    let mut agg = SchemaAggregator::new();
    agg.add_document(&doc(vec![("a", Value::Int32(1))])).unwrap();
    agg.finalize().unwrap();
    assert!(matches!(agg.finalize(), Err(SchemaError::InvariantViolation)));
    assert!(matches!(
        agg.add_document(&doc(vec![("a", Value::Int32(1))])),
        Err(SchemaError::InvariantViolation)
    ));
    assert_eq!(agg.document_count, 1);
}

#[test]
fn repeated_path_in_one_document_counts_once() {
    let mut agg = SchemaAggregator::new();
    agg.add_document(&doc(vec![
        ("a.b", Value::Int32(1)),
        ("a", Value::Document(doc(vec![("b", Value::Boolean(true))]))),
    ]))
    .unwrap();
    let ab = field(&agg, "a.b");
    assert_eq!(ab.count, 1);
    assert_eq!(ab.types.len(), 1);
    assert_eq!(ab.types[0].bson_type, Kind::Number);
}

#[test]
fn empty_batch_finalizes() {
    let mut agg = SchemaAggregator::new();
    agg.finalize().unwrap();
    assert!(agg.fields.is_empty());
    assert!(agg.finalized);
}

#[test]
fn array_elements_tallied_by_kind() {
    let mut agg = SchemaAggregator::new();
    agg.add_document(&doc(vec![(
        "xs",
        Value::Array(vec![Value::Int32(1), Value::Int32(1), Value::Double(2.5f64.to_bits()), Value::Str("a".to_string())]),
    )]))
    .unwrap();
    let array = of_kind(&field(&agg, "xs").types, Kind::Array);
    let numbers = of_kind(&array.elements, Kind::Number);
    assert_eq!(numbers.count, 3);
    assert_eq!(numbers.unique, 2);
    assert!(numbers.has_duplicates);
    assert_eq!(of_kind(&array.elements, Kind::Text).count, 1);
}
