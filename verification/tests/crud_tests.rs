use chimera::crud::{delete_data, get_data, patch_data, post_data, put_data, status_of_error,
    status_of_mutation, CrudError};
use chimera::json::JsonValue;
use chimera::query::SortRule;

fn obj(fields: Vec<(&str, JsonValue)>) -> JsonValue {
    JsonValue::Object(fields.into_iter().map(|(k, v)| (k.to_string(), v)).collect())
}

fn arr(items: Vec<JsonValue>) -> JsonValue {
    JsonValue::Array(items)
}

fn num(n: i64) -> JsonValue {
    JsonValue::Int(n)
}

fn items_doc() -> JsonValue {
    obj(vec![(
        "items",
        arr(vec![
            obj(vec![("id", num(1)), ("n", num(5))]),
            obj(vec![("id", num(2)), ("n", num(1))]),
        ]),
    )])
}

fn no_rules() -> Vec<SortRule> {
    Vec::new()
}

#[test]
fn get_collection_returns_value() {
    let doc = items_doc();
    let r = get_data(&doc, "items", &no_rules(), 0).unwrap();
    let expected = arr(vec![
        obj(vec![("id", num(1)), ("n", num(5))]),
        obj(vec![("id", num(2)), ("n", num(1))]),
    ]);
    assert_eq!(r, expected);
}

#[test]
fn get_missing_route_is_not_found() {
    let doc = items_doc();
    let e = get_data(&doc, "nope", &no_rules(), 0).unwrap_err();
    assert_eq!(e, CrudError::NotFound);
    assert_eq!(status_of_error(&e), 404);
}

#[test]
fn get_by_id_filters_to_match() {
    let doc = items_doc();
    let r = get_data(&doc, "items/2", &no_rules(), 0).unwrap();
    assert_eq!(r, arr(vec![obj(vec![("id", num(2)), ("n", num(1))])]));
}

#[test]
fn get_by_id_empty_match_is_still_success() {
    let doc = items_doc();
    let r = get_data(&doc, "items/99", &no_rules(), 0).unwrap();
    assert_eq!(r, arr(vec![]));
}

#[test]
fn get_by_id_on_non_array_returns_value_unchanged() {
    let doc = obj(vec![("x", num(5))]);
    let r = get_data(&doc, "x/1", &no_rules(), 0).unwrap();
    assert_eq!(r, num(5));
}

#[test]
fn delete_by_id_then_again_is_not_found() {
    let mut doc = items_doc();
    let ok = delete_data(&mut doc, "items/2").unwrap();
    assert!(!ok.created);
    assert_eq!(ok.count, 1);
    assert_eq!(status_of_mutation(&ok), 200);
    let e = delete_data(&mut doc, "items/2").unwrap_err();
    assert_eq!(e, CrudError::NotFound);
    assert_eq!(status_of_error(&e), 404);
}

#[test]
fn delete_collection_clears_array() {
    let mut doc = items_doc();
    let ok = delete_data(&mut doc, "items").unwrap();
    assert_eq!(ok.count, 2);
    let r = get_data(&doc, "items", &no_rules(), 0).unwrap();
    assert_eq!(r, arr(vec![]));
}

#[test]
fn delete_non_array_is_type_mismatch() {
    let mut doc = obj(vec![("x", num(5))]);
    let e = delete_data(&mut doc, "x").unwrap_err();
    assert_eq!(e, CrudError::TypeMismatch);
    assert_eq!(status_of_error(&e), 400);
}

#[test]
fn delete_missing_route_is_not_found() {
    let mut doc = items_doc();
    let e = delete_data(&mut doc, "ghosts").unwrap_err();
    assert_eq!(e, CrudError::NotFound);
}

#[test]
fn post_appends_single_record() {
    let mut doc = items_doc();
    let ok = post_data(&mut doc, "items", obj(vec![("id", num(3)), ("n", num(7))])).unwrap();
    assert!(ok.created);
    assert_eq!(ok.count, 1);
    assert_eq!(status_of_mutation(&ok), 201);
    let r = get_data(&doc, "items", &no_rules(), 0).unwrap();
    assert_eq!(
        r,
        arr(vec![
            obj(vec![("id", num(1)), ("n", num(5))]),
            obj(vec![("id", num(2)), ("n", num(1))]),
            obj(vec![("id", num(3)), ("n", num(7))]),
        ])
    );
}

#[test]
fn post_spreads_array_payload() {
    let mut doc = items_doc();
    let ok = post_data(&mut doc, "items", arr(vec![num(10), num(11)])).unwrap();
    assert_eq!(ok.count, 2);
    let r = get_data(&doc, "items", &no_rules(), 0).unwrap();
    if let JsonValue::Array(a) = r {
        assert_eq!(a.len(), 4);
        assert_eq!(a[2], num(10));
        assert_eq!(a[3], num(11));
    } else {
        panic!("expected array");
    }
}

#[test]
fn post_creates_missing_route() {
    let mut doc = items_doc();
    let ok = post_data(&mut doc, "people", obj(vec![("id", num(1))])).unwrap();
    assert!(ok.created);
    assert_eq!(ok.count, 1);
    let r = get_data(&doc, "people", &no_rules(), 0).unwrap();
    assert_eq!(r, arr(vec![obj(vec![("id", num(1))])]));
}

#[test]
fn post_on_non_object_root_is_server_error() {
    let mut doc = arr(vec![]);
    let e = post_data(&mut doc, "items", num(1)).unwrap_err();
    assert_eq!(e, CrudError::RootNotObject);
    assert_eq!(status_of_error(&e), 500);
}

#[test]
fn post_non_array_payload_is_type_mismatch_on_scalar_route() {
    let mut doc = obj(vec![("x", num(5))]);
    let e = post_data(&mut doc, "x", num(1)).unwrap_err();
    assert_eq!(e, CrudError::TypeMismatch);
}

#[test]
fn three_sequential_appends_keep_every_record() {
    let mut doc = obj(vec![("log", arr(vec![]))]);
    for i in 1..=3 {
        let ok = post_data(&mut doc, "log", obj(vec![("id", num(i)), ("w", num(100 + i))]))
            .unwrap();
        assert_eq!(ok.count, 1);
    }
    let r = get_data(&doc, "log", &no_rules(), 0).unwrap();
    assert_eq!(
        r,
        arr(vec![
            obj(vec![("id", num(1)), ("w", num(101))]),
            obj(vec![("id", num(2)), ("w", num(102))]),
            obj(vec![("id", num(3)), ("w", num(103))]),
        ])
    );
}

#[test]
fn put_creates_record_with_forced_id() {
    let mut doc = items_doc();
    let ok = put_data(&mut doc, "items/5", obj(vec![("n", num(2))])).unwrap();
    assert!(ok.created);
    assert_eq!(ok.count, 1);
    assert_eq!(status_of_mutation(&ok), 201);
    let r = get_data(&doc, "items", &no_rules(), 0).unwrap();
    if let JsonValue::Array(a) = r {
        assert_eq!(a.len(), 3);
        assert_eq!(a[2], obj(vec![("n", num(2)), ("id", num(5))]));
    } else {
        panic!("expected array");
    }
}

#[test]
fn put_replaces_record_and_overrides_payload_id() {
    let mut doc = items_doc();
    let ok = put_data(&mut doc, "items/1", obj(vec![("id", num(42)), ("y", num(3))])).unwrap();
    assert!(!ok.created);
    assert_eq!(status_of_mutation(&ok), 200);
    let r = get_data(&doc, "items/1", &no_rules(), 0).unwrap();
    assert_eq!(r, arr(vec![obj(vec![("id", num(1)), ("y", num(3))])]));
}

#[test]
fn put_whole_collection_replaces_any_value() {
    let mut doc = items_doc();
    let ok = put_data(&mut doc, "items", num(9)).unwrap();
    assert!(!ok.created);
    assert_eq!(ok.count, 1);
    let r = get_data(&doc, "items", &no_rules(), 0).unwrap();
    assert_eq!(r, num(9));
}

#[test]
fn put_new_collection_reports_created() {
    let mut doc = items_doc();
    let ok = put_data(&mut doc, "fresh", arr(vec![num(1), num(2), num(3)])).unwrap();
    assert!(ok.created);
    assert_eq!(ok.count, 3);
}

#[test]
fn put_by_id_on_missing_base_is_not_found() {
    let mut doc = items_doc();
    let e = put_data(&mut doc, "ghosts/1", num(1)).unwrap_err();
    assert_eq!(e, CrudError::NotFound);
}

#[test]
fn patch_merges_payload_into_record() {
    let mut doc = items_doc();
    let payload = obj(vec![("n", num(9))]);
    let ok = patch_data(&mut doc, "items/2", &payload).unwrap();
    assert!(!ok.created);
    assert_eq!(ok.count, 1);
    assert_eq!(status_of_mutation(&ok), 200);
    let r = get_data(&doc, "items/2", &no_rules(), 0).unwrap();
    assert_eq!(r, arr(vec![obj(vec![("id", num(2)), ("n", num(9))])]));
}

#[test]
fn patch_keeps_unmentioned_fields() {
    let mut doc = obj(vec![(
        "items",
        arr(vec![obj(vec![("id", num(1)), ("a", num(10)), ("b", num(20))])]),
    )]);
    let payload = obj(vec![("b", num(99)), ("c", num(30))]);
    patch_data(&mut doc, "items/1", &payload).unwrap();
    let r = get_data(&doc, "items/1", &no_rules(), 0).unwrap();
    assert_eq!(
        r,
        arr(vec![obj(vec![("id", num(1)), ("a", num(10)), ("b", num(99)), ("c", num(30))])])
    );
}

#[test]
fn patch_without_id_is_bad_request() {
    let mut doc = items_doc();
    let payload = obj(vec![("n", num(9))]);
    let e = patch_data(&mut doc, "items", &payload).unwrap_err();
    assert_eq!(e, CrudError::BadRequest);
    assert_eq!(status_of_error(&e), 400);
}

#[test]
fn patch_with_non_object_payload_is_not_found() {
    let mut doc = items_doc();
    let payload = num(9);
    let e = patch_data(&mut doc, "items/2", &payload).unwrap_err();
    assert_eq!(e, CrudError::NotFound);
}

#[test]
fn patch_missing_record_is_not_found() {
    let mut doc = items_doc();
    let payload = obj(vec![("n", num(9))]);
    let e = patch_data(&mut doc, "items/77", &payload).unwrap_err();
    assert_eq!(e, CrudError::NotFound);
}

#[test]
fn busy_maps_to_server_error_status() {
    assert_eq!(status_of_error(&CrudError::Busy), 500);
}

#[test]
fn post_then_get_round_trips_record() {
    let mut doc = items_doc();
    let posted = obj(vec![("id", num(7)), ("x", num(1))]);
    post_data(&mut doc, "items", obj(vec![("id", num(7)), ("x", num(1))])).unwrap();
    let r = get_data(&doc, "items/7", &no_rules(), 0).unwrap();
    assert_eq!(r, arr(vec![posted]));
}
