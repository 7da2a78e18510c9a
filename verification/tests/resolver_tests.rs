use chimera::forms::{handle_form_submission, FormData};
use chimera::helpers::{decimal_len, find_key_and_id_lengths};
use chimera::json::JsonValue;
use chimera::ports::{find_available_port, port_taken};
use chimera::resolver::{chars_of, resolve_route};

fn obj(fields: Vec<(&str, JsonValue)>) -> JsonValue {
    JsonValue::Object(fields.into_iter().map(|(k, v)| (k.to_string(), v)).collect())
}

fn arr(items: Vec<JsonValue>) -> JsonValue {
    JsonValue::Array(items)
}

fn num(n: i64) -> JsonValue {
    JsonValue::Int(n)
}

fn resolve(path: &str) -> (String, Option<u64>) {
    let cs = chars_of(path);
    let t = resolve_route(&cs);
    (t.key.iter().collect(), t.id)
}

#[test]
fn trailing_number_splits_into_key_and_id() {
    assert_eq!(resolve("items/5"), ("items".to_string(), Some(5)));
}

#[test]
fn nested_key_keeps_inner_slashes() {
    assert_eq!(resolve("a/b/12"), ("a/b".to_string(), Some(12)));
}

#[test]
fn purely_numeric_path_has_empty_key() {
    assert_eq!(resolve("5"), (String::new(), Some(5)));
}

#[test]
fn non_numeric_tail_takes_whole_path_as_key() {
    assert_eq!(resolve("items"), ("items".to_string(), None));
}

#[test]
fn trailing_slash_is_not_an_id() {
    assert_eq!(resolve("items/"), ("items/".to_string(), None));
}

#[test]
fn leading_plus_parses_as_id() {
    assert_eq!(resolve("items/+7"), ("items".to_string(), Some(7)));
}

#[test]
fn negative_tail_is_not_an_id() {
    assert_eq!(resolve("items/-7"), ("items/-7".to_string(), None));
}

#[test]
fn overflowing_tail_is_not_an_id() {
    assert_eq!(
        resolve("items/18446744073709551616"),
        ("items/18446744073709551616".to_string(), None)
    );
}

#[test]
fn largest_id_still_parses() {
    assert_eq!(
        resolve("items/18446744073709551615"),
        ("items".to_string(), Some(u64::MAX))
    );
}

#[test]
fn empty_path_is_empty_key() {
    assert_eq!(resolve(""), (String::new(), None));
}

#[test]
fn non_ascii_keys_resolve_unchanged() {
    assert_eq!(resolve("café/3"), ("café".to_string(), Some(3)));
    assert_eq!(resolve("café"), ("café".to_string(), None));
}

#[test]
fn widths_pick_route_with_largest_combined_width() {
    let doc = obj(vec![
        ("items", arr(vec![obj(vec![("id", num(1))]), obj(vec![("id", num(25))])])),
        ("people", arr(vec![obj(vec![("id", num(100))]), obj(vec![("id", num(7))])])),
    ]);
    assert_eq!(find_key_and_id_lengths(&doc), Some((6, 3)));
}

#[test]
fn widths_skip_routes_without_full_ids() {
    let doc = obj(vec![
        ("good", arr(vec![obj(vec![("id", num(1))])])),
        ("bad", arr(vec![obj(vec![("id", num(1))]), obj(vec![("x", num(2))])])),
        ("empty", arr(vec![])),
        ("scalar", num(5)),
    ]);
    assert_eq!(find_key_and_id_lengths(&doc), Some((4, 1)));
}

#[test]
fn widths_count_digits_of_negative_ids() {
    let doc = obj(vec![("r", arr(vec![obj(vec![("id", num(-1234))])]))]);
    assert_eq!(find_key_and_id_lengths(&doc), Some((1, 4)));
}

#[test]
fn widths_of_non_object_root_are_none() {
    assert_eq!(find_key_and_id_lengths(&arr(vec![])), None);
}

#[test]
fn decimal_len_counts_digits() {
    assert_eq!(decimal_len(0), 1);
    assert_eq!(decimal_len(9), 1);
    assert_eq!(decimal_len(10), 2);
    assert_eq!(decimal_len(999), 3);
    assert_eq!(decimal_len(u64::MAX), 20);
}

#[test]
fn port_scan_returns_first_free() {
    let taken = vec![8080u16, 8081u16];
    assert_eq!(find_available_port(8080, &taken), Some(8082));
}

#[test]
fn port_scan_keeps_free_start() {
    let taken: Vec<u16> = Vec::new();
    assert_eq!(find_available_port(8080, &taken), Some(8080));
}

#[test]
fn port_taken_scans_list() {
    let taken = vec![1u16, 3u16];
    assert!(port_taken(&taken, 3));
    assert!(!port_taken(&taken, 2));
}

#[test]
fn empty_form_fails_and_echoes_nothing() {
    let form = FormData { fields: Vec::new() };
    let (ok, body) = handle_form_submission(&form);
    assert!(!ok);
    let expected = obj(vec![
        ("success", JsonValue::Bool(false)),
        ("received", obj(vec![])),
    ]);
    assert_eq!(body, expected);
}

#[test]
fn filled_form_succeeds_and_echoes_fields() {
    let form = FormData {
        fields: vec![("name".to_string(), "ada".to_string())],
    };
    let (ok, body) = handle_form_submission(&form);
    assert!(ok);
    let expected = obj(vec![
        ("success", JsonValue::Bool(true)),
        ("received", obj(vec![("name", JsonValue::Str("ada".to_string()))])),
    ]);
    assert_eq!(body, expected);
}
