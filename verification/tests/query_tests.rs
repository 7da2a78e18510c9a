use chimera::crud::get_data;
use chimera::json::JsonValue;
use chimera::query::{apply_query, compare_values, SortRule};

fn obj(fields: Vec<(&str, JsonValue)>) -> JsonValue {
    JsonValue::Object(fields.into_iter().map(|(k, v)| (k.to_string(), v)).collect())
}

fn arr(items: Vec<JsonValue>) -> JsonValue {
    JsonValue::Array(items)
}

fn num(n: i64) -> JsonValue {
    JsonValue::Int(n)
}

fn rule(route: &str, order: &str, field: &str) -> SortRule {
    SortRule {
        route: route.to_string(),
        field: field.to_string(),
        ascending: order == "asc",
    }
}

#[test]
fn get_sorts_ascending_by_field() {
    let doc = obj(vec![(
        "items",
        arr(vec![
            obj(vec![("id", num(1)), ("n", num(3))]),
            obj(vec![("id", num(2)), ("n", num(1))]),
            obj(vec![("id", num(3)), ("n", num(2))]),
        ]),
    )]);
    let rules = vec![rule("items", "asc", "n")];
    let r = get_data(&doc, "items", &rules, 0).unwrap();
    assert_eq!(
        r,
        arr(vec![
            obj(vec![("id", num(2)), ("n", num(1))]),
            obj(vec![("id", num(3)), ("n", num(2))]),
            obj(vec![("id", num(1)), ("n", num(3))]),
        ])
    );
}

#[test]
fn get_sorts_descending_keeps_configured_scenario() {
    let doc = obj(vec![(
        "items",
        arr(vec![
            obj(vec![("id", num(1)), ("n", num(5))]),
            obj(vec![("id", num(2)), ("n", num(1))]),
        ]),
    )]);
    let rules = vec![rule("items", "desc", "n")];
    let r = get_data(&doc, "items", &rules, 0).unwrap();
    assert_eq!(
        r,
        arr(vec![
            obj(vec![("id", num(1)), ("n", num(5))]),
            obj(vec![("id", num(2)), ("n", num(1))]),
        ])
    );
}

#[test]
fn sort_is_stable_for_equal_keys() {
    let doc = obj(vec![(
        "items",
        arr(vec![
            obj(vec![("id", num(1)), ("n", num(2)), ("tag", num(10))]),
            obj(vec![("id", num(2)), ("n", num(1)), ("tag", num(20))]),
            obj(vec![("id", num(3)), ("n", num(2)), ("tag", num(30))]),
            obj(vec![("id", num(4)), ("n", num(1)), ("tag", num(40))]),
        ]),
    )]);
    let rules = vec![rule("items", "asc", "n")];
    let r = get_data(&doc, "items", &rules, 0).unwrap();
    assert_eq!(
        r,
        arr(vec![
            obj(vec![("id", num(2)), ("n", num(1)), ("tag", num(20))]),
            obj(vec![("id", num(4)), ("n", num(1)), ("tag", num(40))]),
            obj(vec![("id", num(1)), ("n", num(2)), ("tag", num(10))]),
            obj(vec![("id", num(3)), ("n", num(2)), ("tag", num(30))]),
        ])
    );
}

#[test]
fn missing_or_non_numeric_sort_fields_read_as_zero() {
    let doc = obj(vec![(
        "items",
        arr(vec![
            obj(vec![("id", num(1)), ("n", num(5))]),
            obj(vec![("id", num(2))]),
            obj(vec![("id", num(3)), ("n", num(-2))]),
        ]),
    )]);
    let rules = vec![rule("items", "asc", "n")];
    let r = get_data(&doc, "items", &rules, 0).unwrap();
    assert_eq!(
        r,
        arr(vec![
            obj(vec![("id", num(3)), ("n", num(-2))]),
            obj(vec![("id", num(2))]),
            obj(vec![("id", num(1)), ("n", num(5))]),
        ])
    );
}

#[test]
fn pagination_truncates_to_prefix_of_sorted() {
    let doc = obj(vec![(
        "items",
        arr(vec![
            obj(vec![("id", num(1)), ("n", num(3))]),
            obj(vec![("id", num(2)), ("n", num(1))]),
            obj(vec![("id", num(3)), ("n", num(2))]),
        ]),
    )]);
    let rules = vec![rule("items", "asc", "n")];
    let r = get_data(&doc, "items", &rules, 2).unwrap();
    assert_eq!(
        r,
        arr(vec![
            obj(vec![("id", num(2)), ("n", num(1))]),
            obj(vec![("id", num(3)), ("n", num(2))]),
        ])
    );
}

#[test]
fn pagination_zero_is_disabled() {
    let doc = obj(vec![("items", arr(vec![num(1), num(2), num(3)]))]);
    let r = get_data(&doc, "items", &Vec::new(), 0).unwrap();
    assert_eq!(r, arr(vec![num(1), num(2), num(3)]));
}

#[test]
fn pagination_limit_at_length_keeps_everything() {
    let doc = obj(vec![("items", arr(vec![num(1), num(2)]))]);
    let r = get_data(&doc, "items", &Vec::new(), 2).unwrap();
    assert_eq!(r, arr(vec![num(1), num(2)]));
}

#[test]
fn sort_rule_must_match_route_exactly() {
    let doc = obj(vec![(
        "items",
        arr(vec![
            obj(vec![("n", num(2))]),
            obj(vec![("n", num(1))]),
        ]),
    )]);
    let rules = vec![rule("other", "asc", "n")];
    let r = get_data(&doc, "items", &rules, 0).unwrap();
    assert_eq!(r, arr(vec![obj(vec![("n", num(2))]), obj(vec![("n", num(1))])]));
}

#[test]
fn apply_query_on_non_array_is_identity() {
    let rules = vec![rule("x", "asc", "n")];
    let r = apply_query(num(7), &rules, &"x".to_string(), 5);
    assert_eq!(r, num(7));
}

#[test]
fn compare_values_orders_by_field() {
    let a = obj(vec![("n", num(1))]);
    let b = obj(vec![("n", num(2))]);
    let key = "n".to_string();
    assert_eq!(compare_values(&a, &b, &key, &"asc".to_string()), std::cmp::Ordering::Less);
    assert_eq!(compare_values(&a, &b, &key, &"desc".to_string()), std::cmp::Ordering::Greater);
    assert_eq!(compare_values(&a, &a, &key, &"asc".to_string()), std::cmp::Ordering::Equal);
}

#[test]
fn compare_values_treats_missing_field_as_zero() {
    let a = obj(vec![("m", num(1))]);
    let b = obj(vec![("n", num(-1))]);
    let key = "n".to_string();
    assert_eq!(compare_values(&a, &b, &key, &"asc".to_string()), std::cmp::Ordering::Greater);
}
