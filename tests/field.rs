use schema_infer::{Field, Kind, Value};

#[test]
fn it_creates_new() {
    let path = "Nori.cat";
    let count = 1;

    let field = Field::new("Nori".to_string(), &path);

    assert_eq!(field.name, "Nori".to_string());
    assert_eq!(field.path, path);
    assert_eq!(field.count, count);
}

#[test]
fn it_gets_path_if_none() {
    let path = Field::get_path(String::from("address"), None);
    assert_eq!(path, String::from("address"));
}

#[test]
fn it_gets_path_if_some() {
    let path = Field::get_path(String::from("postal_code"), Some(String::from("address")));
    assert_eq!(path, String::from("address.postal_code"));
}

#[test]
fn it_sets_duplicates() {
    let mut field = Field::new("Rey".to_string(), "Rey.dog");
    field.set_duplicates(true);
    assert_eq!(field.has_duplicates, true)
}

#[test]
fn it_updates_count() {
    let mut field = Field::new("Chashu".to_string(), "Chashu.cat");
    field.update_count();
    assert_eq!(field.count, 2);
}

#[test]
fn it_sets_probability() {
    let mut field = Field::new("Nori".to_string(), "Nori.cat");
    field.set_probability(10);
    let p = field.probability.unwrap();
    assert_eq!(p.numerator as f32 / p.denominator as f32, 0.1);
}

#[test]
fn update_count_by_adds() {
    let mut field = Field::new("a".to_string(), "a");
    field.update_count_by(4);
    assert_eq!(field.count, 5);
}

#[test]
fn create_type_records_kind_and_count() {
    let mut field = Field::new("a".to_string(), "a");
    assert!(!field.does_field_type_exist(&Value::Int32(3)));
    field.create_type(&Value::Int32(3));
    assert!(field.does_field_type_exist(&Value::Int64(9)));
    assert!(!field.does_field_type_exist(&Value::Boolean(true)));
    assert!(!field.does_field_type_exist(&Value::Other));
    field.create_type(&Value::Str("x".to_string()));
    assert_eq!(field.bson_types, vec![Kind::Number, Kind::Text]);
    assert_eq!(field.types.len(), 2);
    assert_eq!(field.types[0].count, 1);
    assert_eq!(field.types[1].count, 1);
}

#[test]
fn repeated_value_marks_duplicates() {
    let mut field = Field::new("n".to_string(), "n");
    field.create_type(&Value::Int32(5));
    field.finalize_duplicates();
    assert!(!field.has_duplicates);
    field.create_type(&Value::Int32(5));
    field.finalize_duplicates();
    let number = field.types.iter().find(|t| t.bson_type == Kind::Number).unwrap();
    assert!(number.has_duplicates);
    assert_eq!(number.count, 2);
    assert_eq!(number.unique, 1);
    assert_eq!(number.values.len(), 1);
    assert!(field.has_duplicates);
}

#[test]
fn update_for_missing_adds_null_observations() {
    let mut field = Field::new("age".to_string(), "age");
    field.create_type(&Value::Int32(30));
    field.update_count();
    field.create_type(&Value::Null);
    field.update_for_missing(2);
    assert_eq!(field.count, 4);
    assert_eq!(field.missing, 2);
    let null = field.types.iter().find(|t| t.bson_type == Kind::Null).unwrap();
    assert_eq!(null.count, 3);
    assert_eq!(field.bson_types, vec![Kind::Number, Kind::Null, Kind::Null]);
    field.set_probability(4);
    let p = field.get_probability().unwrap();
    assert_eq!((p.numerator, p.denominator), (2, 4));
}

#[test]
fn probability_before_finalizing_is_refused() {
    let field = Field::new("a".to_string(), "a");
    assert!(field.get_probability().is_err());
}

#[test]
fn kind_names() {
    assert_eq!(Kind::Number.name(), "Number");
    assert_eq!(Kind::Text.name(), "String");
    assert_eq!(Kind::Document.name(), "Document");
    assert_eq!(Kind::Null.name(), "Null");
}

#[test]
fn create_type_tallies_array_elements() {
    let mut f = Field::new("bar".to_string(), "bar");
    f.create_type(&Value::Array(vec![Value::Boolean(true), Value::Null]));
    assert_eq!(f.types.len(), 1);
    assert_eq!(f.bson_types, vec![Kind::Array]);
    let array = &f.types[0];
    assert_eq!(array.bson_type, Kind::Array);
    assert_eq!(array.count, 1);
    assert_eq!(array.path, "bar");
    assert_eq!(array.elements.len(), 2);
    assert!(array.elements.iter().any(|e| e.bson_type == Kind::Boolean && e.count == 1));
    assert!(array.elements.iter().any(|e| e.bson_type == Kind::Null && e.count == 1));
}

#[test]
fn create_type_samples_first_value() {
    let mut f = Field::new("foo".to_string(), "foo");
    f.create_type(&Value::Int32(12));
    let number = &f.types[0];
    assert_eq!(number.path, "foo");
    assert_eq!(number.count, 1);
    assert_eq!(number.unique, 1);
    assert!(!number.has_duplicates);
    assert!(matches!(number.values[..], [schema_infer::Sample::Int32(12)]));
}

#[test]
fn all_kind_names() {
    assert_eq!(Kind::Boolean.name(), "Boolean");
    assert_eq!(Kind::Array.name(), "Array");
}
