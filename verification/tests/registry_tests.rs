use chimera::chimera::CHIMERA_LATEST_VERSION;
use chimera::crud::CrudError;
use chimera::json::JsonValue;
use chimera::query::SortRule;
use chimera::registry::{classify_action, connect, connections_response, elapsed_secs,
    handle_text_message, register_connection, route_data_response, ConnectionState, Registry,
    WsAction, WsCommand};

fn obj(fields: Vec<(&str, JsonValue)>) -> JsonValue {
    JsonValue::Object(fields.into_iter().map(|(k, v)| (k.to_string(), v)).collect())
}

fn arr(items: Vec<JsonValue>) -> JsonValue {
    JsonValue::Array(items)
}

fn num(n: i64) -> JsonValue {
    JsonValue::Int(n)
}

fn s(v: &str) -> JsonValue {
    JsonValue::Str(v.to_string())
}

fn items_doc() -> JsonValue {
    obj(vec![("items", arr(vec![obj(vec![("id", num(1)), ("n", num(5))])]))])
}

#[test]
fn version_is_served() {
    assert_eq!(CHIMERA_LATEST_VERSION, "0.6.9");
}

#[test]
fn refresh_command_is_recognised() {
    assert_eq!(handle_text_message("{\"action\":\"refresh\"}"), WsAction::Refresh);
}

#[test]
fn connections_command_is_recognised() {
    assert_eq!(handle_text_message("{\"action\":\"connections\"}"), WsAction::Connections);
}

#[test]
fn extra_fields_do_not_hide_the_action() {
    assert_eq!(handle_text_message("{\"action\":\"refresh\",\"x\":1}"), WsAction::Refresh);
}

#[test]
fn unknown_action_echoes() {
    assert_eq!(handle_text_message("{\"action\":\"dance\"}"), WsAction::Echo);
}

#[test]
fn non_string_action_echoes() {
    assert_eq!(handle_text_message("{\"action\":5}"), WsAction::Echo);
}

#[test]
fn unparsable_text_echoes() {
    assert_eq!(handle_text_message("hello there"), WsAction::Echo);
    assert_eq!(handle_text_message("[1,2,3]"), WsAction::Echo);
}

#[test]
fn classify_action_matches_known_commands() {
    assert_eq!(
        classify_action(Some(WsCommand { action: "refresh".to_string() })),
        WsAction::Refresh
    );
    assert_eq!(
        classify_action(Some(WsCommand { action: "connections".to_string() })),
        WsAction::Connections
    );
    assert_eq!(classify_action(Some(WsCommand { action: "other".to_string() })), WsAction::Echo);
    assert_eq!(classify_action(None), WsAction::Echo);
}

#[test]
fn route_data_wraps_pipeline_output() {
    let doc = obj(vec![(
        "items",
        arr(vec![
            obj(vec![("id", num(1)), ("n", num(5))]),
            obj(vec![("id", num(2)), ("n", num(1))]),
        ]),
    )]);
    let rules = vec![SortRule {
        route: "items".to_string(),
        field: "n".to_string(),
        ascending: true,
    }];
    let r = route_data_response(&doc, &"items".to_string(), &rules, 0);
    let expected = obj(vec![
        ("status", s("success")),
        ("route", s("items")),
        (
            "data",
            arr(vec![
                obj(vec![("id", num(2)), ("n", num(1))]),
                obj(vec![("id", num(1)), ("n", num(5))]),
            ]),
        ),
    ]);
    assert_eq!(r, expected);
}

#[test]
fn route_data_for_missing_route_is_error_envelope() {
    let doc = items_doc();
    let r = route_data_response(&doc, &"ghosts".to_string(), &Vec::new(), 0);
    let expected = obj(vec![
        ("status", s("error")),
        ("message", s("Route 'ghosts' not found")),
    ]);
    assert_eq!(r, expected);
}

#[test]
fn register_validates_route_exists() {
    let doc = items_doc();
    let mut reg = Registry::new();
    let r = register_connection(
        &mut reg,
        &doc,
        &"ghosts".to_string(),
        &"127.0.0.1".to_string(),
        "c1".to_string(),
        0,
    );
    assert_eq!(r.unwrap_err(), CrudError::NotFound);
    assert_eq!(reg.conns.len(), 0);
    let r = register_connection(
        &mut reg,
        &doc,
        &"items".to_string(),
        &"127.0.0.1".to_string(),
        "c1".to_string(),
        0,
    );
    assert!(r.is_ok());
    assert_eq!(reg.conns.len(), 1);
    assert_eq!(reg.conns[0].route, "items");
}

#[test]
fn register_replaces_same_id() {
    let doc = items_doc();
    let mut reg = Registry::new();
    register_connection(&mut reg, &doc, &"items".to_string(), &"a".to_string(), "c1".to_string(), 0)
        .unwrap();
    register_connection(&mut reg, &doc, &"items".to_string(), &"b".to_string(), "c1".to_string(), 9)
        .unwrap();
    assert_eq!(reg.conns.len(), 1);
    assert_eq!(reg.conns[0].ip, "b");
    assert_eq!(reg.conns[0].connected_at, 9);
}

#[test]
fn cleanup_removes_once() {
    let doc = items_doc();
    let mut reg = Registry::new();
    register_connection(&mut reg, &doc, &"items".to_string(), &"a".to_string(), "c1".to_string(), 0)
        .unwrap();
    let removed = reg.cleanup_connection(&"c1".to_string()).unwrap();
    assert_eq!(removed.id, "c1");
    assert_eq!(reg.conns.len(), 0);
    assert!(reg.cleanup_connection(&"c1".to_string()).is_none());
}

#[test]
fn connect_assigns_fresh_36_char_id() {
    let doc = items_doc();
    let mut reg = Registry::new();
    let id = connect(&mut reg, &doc, &"items".to_string(), &"127.0.0.1".to_string()).unwrap();
    assert_eq!(id.len(), 36);
    assert_eq!(reg.conns.len(), 1);
    assert_eq!(reg.conns[0].id, id);
    let e = connect(&mut reg, &doc, &"nope".to_string(), &"127.0.0.1".to_string()).unwrap_err();
    assert_eq!(e, CrudError::NotFound);
    assert_eq!(reg.conns.len(), 1);
}

#[test]
fn connections_listing_computes_duration_and_timestamp() {
    let reg = Registry {
        conns: vec![ConnectionState {
            id: "c1".to_string(),
            ip: "10.0.0.1".to_string(),
            route: "items".to_string(),
            connected_at: 0,
        }],
    };
    let r = connections_response(&reg, 30);
    let stamp = chrono::DateTime::<chrono::Utc>::from_timestamp(0, 0).unwrap().to_rfc3339();
    let expected = obj(vec![
        ("status", s("success")),
        (
            "connections",
            arr(vec![obj(vec![
                ("id", s("c1")),
                ("ip", s("10.0.0.1")),
                ("route", s("items")),
                ("connected_at", s(&stamp)),
                ("duration_seconds", num(30)),
            ])]),
        ),
    ]);
    assert_eq!(r, expected);
}

#[test]
fn elapsed_seconds_clamp_into_range() {
    assert_eq!(elapsed_secs(30, 10), 20);
    assert_eq!(elapsed_secs(10, 30), -20);
    assert_eq!(elapsed_secs(i64::MAX, i64::MIN), i64::MAX);
    assert_eq!(elapsed_secs(i64::MIN, i64::MAX), i64::MIN);
}
