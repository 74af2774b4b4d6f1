use my_boss::toml::empty_values::{remove, should_retain};
use my_boss::toml::invalid_keys::check_value;
use my_boss::toml::{invalid_keys_error, same, TomlFile, TomlValueExt, Value};

fn scalar(text: &str) -> Value {
    Value::Scalar(text.to_string())
}

fn table(entries: Vec<(&str, Value)>) -> Value {
    Value::Table(entries.into_iter().map(|(k, v)| (k.to_string(), v)).collect())
}

#[test]
fn empty_values_remove_should_remove_empty_table_from_table() {
    let mut table = Vec::new();
    table.push((String::from("key"), Value::Table(Vec::new())));

    let mut value = Value::Table(table);
    remove(&mut value);

    let empty_table = Value::Table(Vec::new());
    assert!(same(&value, &empty_table));
}

#[test]
fn empty_values_remove_should_remove_empty_array_from_table() {
    let mut table = Vec::new();
    table.push((String::from("key"), Value::Array(Vec::new())));

    let mut value = Value::Table(table);
    remove(&mut value);

    let empty_table = Value::Table(Vec::new());
    assert!(same(&value, &empty_table));
}

#[test]
fn empty_values_remove_should_remove_empty_table_from_array() {
    let mut array = Vec::new();
    array.push(Value::Table(Vec::new()));

    let mut value = Value::Array(array);
    remove(&mut value);

    let empty_array = Value::Array(Vec::new());
    assert!(same(&value, &empty_array));
}

#[test]
fn remove_should_remove_empty_value_nested_in_table() {
    let mut inner = Vec::new();
    inner.push((String::from("key"), Value::Table(Vec::new())));

    let mut outer = Vec::new();
    outer.push((String::from("inner"), Value::Table(inner)));

    let mut value = Value::Table(outer);
    remove(&mut value);

    let empty_table = Value::Table(Vec::new());
    assert!(same(&value, &empty_table));
}

#[test]
fn remove_should_remove_empty_value_nested_in_array() {
    let mut inner = Vec::new();
    inner.push((String::from("key"), Value::Table(Vec::new())));

    let mut outer = Vec::new();
    outer.push(Value::Table(inner));

    let mut value = Value::Array(outer);
    remove(&mut value);

    let empty_array = Value::Array(Vec::new());
    assert!(same(&value, &empty_array));
}

#[test]
fn remove_keeps_scalars_and_order() {
    let mut value = table(vec![
        ("b", scalar("1")),
        ("gone", Value::Array(vec![Value::Array(Vec::new())])),
        ("a", Value::Array(vec![scalar("\"x\""), Value::Table(Vec::new()), scalar("2")])),
    ]);
    remove(&mut value);
    let expected = table(vec![
        ("b", scalar("1")),
        ("a", Value::Array(vec![scalar("\"x\""), scalar("2")])),
    ]);
    assert!(same(&value, &expected));
}

#[test]
fn retained_values() {
    assert!(!should_retain(&Value::Table(Vec::new())));
    assert!(!should_retain(&Value::Array(Vec::new())));
    assert!(should_retain(&scalar("")));
    assert!(should_retain(&Value::Array(vec![Value::Array(Vec::new())])));
}

#[test]
fn same_compares_shape_keys_and_text() {
    assert!(same(&scalar("1"), &scalar("1")));
    assert!(!same(&scalar("1"), &scalar("2")));
    assert!(!same(&table(vec![("a", scalar("1"))]), &table(vec![("b", scalar("1"))])));
    assert!(!same(&Value::Array(vec![scalar("1")]), &Value::Array(Vec::new())));
    assert!(!same(&Value::Array(Vec::new()), &Value::Table(Vec::new())));
}

#[test]
fn keys_missing_on_the_other_side_are_listed_with_their_path() {
    let original = table(vec![
        ("name", scalar("\"x\"")),
        ("typo", scalar("1")),
        (
            "nested",
            table(vec![("kept", scalar("1")), ("extra", scalar("2"))]),
        ),
        (
            "list",
            Value::Array(vec![
                table(vec![("a", scalar("1")), ("b", scalar("1"))]),
                table(vec![("c", scalar("1"))]),
            ]),
        ),
    ]);
    let roundtrip = table(vec![
        ("name", scalar("\"x\"")),
        ("nested", table(vec![("kept", scalar("1"))])),
        ("list", Value::Array(vec![table(vec![("a", scalar("1"))])])),
    ]);

    let mut invalid = Vec::new();
    check_value(&original, &roundtrip, &mut invalid, String::new());
    assert_eq!(invalid, vec![".typo", ".nested.extra", ".list.b"]);

    assert_eq!(original.find_invalid(&roundtrip), invalid);
    assert_eq!(
        invalid_keys_error(&invalid),
        "Invalid keys: .typo, .nested.extra, .list.b"
    );
    assert_eq!(invalid_keys_error(&Vec::new()), "Invalid keys:");
}

#[test]
fn check_value_keeps_earlier_findings_and_prefix() {
    let mut invalid = vec!["earlier".to_string()];
    check_value(
        &table(vec![("k", scalar("1"))]),
        &table(Vec::new()),
        &mut invalid,
        "contact".to_string(),
    );
    assert_eq!(invalid, vec!["earlier", "contact.k"]);
}

#[test]
fn normalize_through_the_trait() {
    let mut value = table(vec![("empty", Value::Table(Vec::new())), ("k", scalar("1"))]);
    value.normalize();
    assert!(same(&value, &table(vec![("k", scalar("1"))])));
}

#[test]
fn toml_file_keeps_path_and_bytes() {
    let file = TomlFile::new("money/2021-07-18_0.toml".to_string(), vec![1, 2, 3]);
    assert_eq!(file.path(), "money/2021-07-18_0.toml");
    assert_eq!(file.buf(), &[1, 2, 3]);
}
