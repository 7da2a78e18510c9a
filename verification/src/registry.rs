//! The live-connection registry for the streaming transport, and the
//! decisions the streaming handlers make: route validation on
//! subscribe, command classification, and the response envelopes.

use vstd::prelude::*;
use vstd::string::StringExecFns;
use crate::json::{JsonValue, JsonSpec, doc_get, entries_view, vals_view, lemma_view_object,
    lemma_view_array};
use crate::query::{SortRule, query_spec, apply_query};
use crate::crud::CrudError;

verus! {

/// One live streaming subscriber.
#[derive(Debug, Clone, PartialEq, Eq)]
pub struct ConnectionState {
    pub id: String,
    pub ip: String,
    pub route: String,
    /// Connection time, in whole seconds of Unix time.
    pub connected_at: i64,
}

/// The registry of live connections. It is independent of the document
/// store and is never consulted while the document lock is held.
pub struct Registry {
    pub conns: Vec<ConnectionState>,
}

/// Index of the first connection with the given id, or -1.
pub open spec fn conn_idx(s: Seq<ConnectionState>, id: Seq<char>) -> int
    decreases s.len(),
{
    if s.len() <= 0 {
        -1
    } else if s[0].id@ == id {
        0
    } else {
        let r = conn_idx(s.drop_first(), id);
        if r < 0 {
            -1
        } else {
            r + 1
        }
    }
}

pub proof fn lemma_conn_idx(s: Seq<ConnectionState>, id: Seq<char>)
    ensures
        conn_idx(s, id) == -1 || (0 <= conn_idx(s, id) < s.len()),
        conn_idx(s, id) >= 0 ==> s[conn_idx(s, id)].id@ == id,
        forall|j: int| 0 <= j < s.len() && j < conn_idx(s, id) ==> s[j].id@ != id,
        conn_idx(s, id) == -1 ==> forall|j: int| 0 <= j < s.len() ==> s[j].id@ != id,
    decreases s.len(),
{
    if s.len() > 0 && s[0].id@ != id {
        lemma_conn_idx(s.drop_first(), id);
        assert forall|j: int| 0 <= j < s.len() && j < conn_idx(s, id) implies s[j].id@ != id by {
            if j > 0 {
                assert(s.drop_first()[j - 1] == s[j]);
            }
        }
        if conn_idx(s, id) == -1 {
            assert forall|j: int| 0 <= j < s.len() implies s[j].id@ != id by {
                if j > 0 {
                    assert(s.drop_first()[j - 1] == s[j]);
                }
            }
        }
    }
}

pub proof fn lemma_conn_idx_is(s: Seq<ConnectionState>, id: Seq<char>, i: int)
    requires
        0 <= i < s.len(),
        s[i].id@ == id,
        forall|j: int| 0 <= j < i ==> s[j].id@ != id,
    ensures
        conn_idx(s, id) == i,
    decreases s.len(),
{
    if i > 0 {
        lemma_conn_idx_is(s.drop_first(), id, i - 1);
    }
}

/// Store a connection record: replace the one with the same id, or
/// append.
pub open spec fn conn_set(s: Seq<ConnectionState>, c: ConnectionState) -> Seq<ConnectionState> {
    if conn_idx(s, c.id@) >= 0 {
        s.update(conn_idx(s, c.id@), c)
    } else {
        s.push(c)
    }
}

impl Registry {
    /// An empty registry.
    pub fn new() -> (r: Registry)
        ensures
            r.conns@.len() == 0,
    {
        Registry { conns: Vec::new() }
    }

    /// First connection with the given id.
    fn find_conn(&self, id: &String) -> (r: Option<usize>)
        ensures
            match r {
                Some(i) => conn_idx(self.conns@, id@) == i as int,
                None => conn_idx(self.conns@, id@) == -1,
            },
    {
        let n = self.conns.len();
        for i in 0..n
            invariant
                n == self.conns@.len(),
                forall|j: int| 0 <= j < i ==> self.conns@[j].id@ != id@,
        {
            if self.conns[i].id == *id {
                proof {
                    lemma_conn_idx_is(self.conns@, id@, i as int);
                }
                return Some(i);
            }
        }
        proof {
            lemma_conn_idx(self.conns@, id@);
            if conn_idx(self.conns@, id@) >= 0 {
                assert(self.conns@[conn_idx(self.conns@, id@)].id@ == id@);
            }
        }
        None
    }

    /// Record a subscriber, keyed by connection id.
    pub fn register(&mut self, c: ConnectionState)
        ensures
            final(self).conns@ == conn_set(old(self).conns@, c),
    {
        let ghost c0 = c;
        match self.find_conn(&c.id) {
            Some(i) => {
                proof {
                    lemma_conn_idx(self.conns@, c0.id@);
                }
                self.conns.remove(i);
                self.conns.insert(i, c);
                proof {
                    assert(self.conns@ =~= conn_set(old(self).conns@, c0));
                }
            },
            None => {
                self.conns.push(c);
            },
        }
    }

    /// Remove a subscriber on disconnect; idempotent for absent ids.
    pub fn cleanup_connection(&mut self, id: &String) -> (r: Option<ConnectionState>)
        ensures
            match r {
                Some(c) => {
                    &&& conn_idx(old(self).conns@, id@) >= 0
                    &&& c == old(self).conns@[conn_idx(old(self).conns@, id@)]
                    &&& final(self).conns@ == old(self).conns@.remove(
                        conn_idx(old(self).conns@, id@),
                    )
                },
                None => {
                    &&& conn_idx(old(self).conns@, id@) == -1
                    &&& final(self).conns@ == old(self).conns@
                },
            },
    {
        match self.find_conn(id) {
            Some(i) => {
                proof {
                    lemma_conn_idx(self.conns@, id@);
                }
                Some(self.conns.remove(i))
            },
            None => None,
        }
    }
}

/// A parsed streaming command.
pub struct WsCommand {
    pub action: String,
}

/// What the streaming handler does with an incoming text message.
#[derive(Debug, Clone, Copy, PartialEq, Eq, Structural)]
pub enum WsAction {
    /// Re-push the subscribed route's data through the query pipeline.
    Refresh,
    /// Enumerate the live connections.
    Connections,
    /// Echo the incoming text back verbatim.
    Echo,
}

/// The action an optional command maps to: only the two known actions
/// do anything; everything else, including unparsable input, echoes.
pub open spec fn action_of(a: Option<Seq<char>>) -> WsAction {
    match a {
        Some(s) => if s == "refresh"@ {
            WsAction::Refresh
        } else if s == "connections"@ {
            WsAction::Connections
        } else {
            WsAction::Echo
        },
        None => WsAction::Echo,
    }
}

/// What parsing a text message as a streaming command yields: the
/// `action` string field of a JSON object, when the text is one.
pub uninterp spec fn ws_action_of(s: Seq<char>) -> Option<Seq<char>>;

/// Relies on serde_json::from_str and serde_json::Value::get: the
/// `action` string field of the message, when the message parses as a
/// JSON object carrying one. The result depends on the text alone.
#[verifier::external_body]
fn parse_ws_command(text: &str) -> (r: Option<WsCommand>)
    ensures
        (r is Some) == (ws_action_of(text@) is Some),
        r is Some ==> r->0.action@ == ws_action_of(text@)->0,
{
    let v: serde_json::Value = match serde_json::from_str(text) {
        Ok(v) => v,
        Err(_) => return None,
    };
    let action = v.get("action")?.as_str()?.to_string();
    Some(WsCommand { action })
}

/// Classify a parsed command. Unknown actions echo.
pub fn classify_action(cmd: Option<WsCommand>) -> (r: WsAction)
    ensures
        r == action_of(
            match cmd {
                Some(c) => Some(c.action@),
                None => None,
            },
        ),
{
    match cmd {
        Some(c) => {
            let refresh: String = "refresh".to_owned();
            let connections: String = "connections".to_owned();
            if c.action == refresh {
                WsAction::Refresh
            } else if c.action == connections {
                WsAction::Connections
            } else {
                WsAction::Echo
            }
        },
        None => WsAction::Echo,
    }
}

/// Decide what to do with an incoming text message.
pub fn handle_text_message(text: &str) -> (r: WsAction)
    ensures
        r == action_of(ws_action_of(text@)),
{
    classify_action(parse_ws_command(text))
}

/// The streaming success envelope: `{status, route, data}`.
pub open spec fn success_envelope(route: Seq<char>, data: JsonSpec) -> JsonSpec {
    JsonSpec::Obj(
        seq![
            ("status"@, JsonSpec::Str("success"@)),
            ("route"@, JsonSpec::Str(route)),
            ("data"@, data),
        ],
    )
}

/// The streaming error envelope: `{status, message}`.
pub open spec fn error_envelope(msg: Seq<char>) -> JsonSpec {
    JsonSpec::Obj(seq![("status"@, JsonSpec::Str("error"@)), ("message"@, JsonSpec::Str(msg))])
}

pub open spec fn not_found_message(route: Seq<char>) -> Seq<char> {
    "Route '"@ + route + "' not found"@
}

/// What a data push carries: the route's value through the query
/// pipeline, or the error envelope for an unknown route.
pub open spec fn route_data_spec(
    d: JsonSpec,
    route: Seq<char>,
    rules: Seq<SortRule>,
    limit: int,
) -> JsonSpec {
    match doc_get(d, route) {
        Some(v) => success_envelope(route, query_spec(v, rules, route, limit)),
        None => error_envelope(not_found_message(route)),
    }
}

/// Build the message a `refresh` or an initial subscription pushes.
pub fn route_data_response(
    doc: &JsonValue,
    route: &String,
    rules: &Vec<SortRule>,
    limit: u64,
) -> (r: JsonValue)
    ensures
        r@ == route_data_spec(doc@, route@, rules@, limit as int),
{
    let cs = crate::resolver::chars_of(route.as_str());
    match crate::crud::doc_lookup(doc, &cs) {
        Some(v) => {
            let copy = crate::json::deep_copy(v);
            let data = apply_query(copy, rules, route, limit);
            let mut es: Vec<(String, JsonValue)> = Vec::new();
            es.push(("status".to_owned(), JsonValue::Str("success".to_owned())));
            es.push(("route".to_owned(), JsonValue::Str(route.clone())));
            es.push(("data".to_owned(), data));
            proof {
                lemma_view_object(es);
                assert(entries_view(es@) =~= success_envelope(
                    route@,
                    query_spec(v@, rules@, route@, limit as int),
                )->Obj_0);
            }
            JsonValue::Object(es)
        },
        None => {
            let mut msg: String = "Route '".to_owned();
            msg.append(route.as_str());
            msg.append("' not found");
            let mut es: Vec<(String, JsonValue)> = Vec::new();
            es.push(("status".to_owned(), JsonValue::Str("error".to_owned())));
            es.push(("message".to_owned(), JsonValue::Str(msg)));
            proof {
                lemma_view_object(es);
                assert(entries_view(es@) =~= error_envelope(not_found_message(route@))->Obj_0);
            }
            JsonValue::Object(es)
        },
    }
}

/// The elapsed seconds a connection has been up, the difference clamped
/// into the 64-bit range.
pub open spec fn duration_secs(now: int, then: int) -> int {
    let d = now - then;
    if d > i64::MAX {
        i64::MAX as int
    } else if d < i64::MIN {
        i64::MIN as int
    } else {
        d
    }
}

/// Compute an elapsed duration without overflow.
pub fn elapsed_secs(now: i64, then: i64) -> (r: i64)
    ensures
        r as int == duration_secs(now as int, then as int),
{
    let d: i128 = now as i128 - then as i128;
    if d > i64::MAX as i128 {
        i64::MAX
    } else if d < i64::MIN as i128 {
        i64::MIN
    } else {
        d as i64
    }
}

/// What formatting a Unix-seconds timestamp in RFC 3339 form yields.
pub uninterp spec fn rfc3339_of(secs: int) -> Seq<char>;

/// Relies on chrono's DateTime::from_timestamp and to_rfc3339: the
/// timestamp formatted as RFC 3339. The result depends on the seconds
/// alone; a timestamp outside chrono's representable range yields the
/// empty fallback.
#[verifier::external_body]
fn format_rfc3339(secs: i64) -> (r: String)
    ensures
        r@ == rfc3339_of(secs as int),
{
    match chrono::DateTime::<chrono::Utc>::from_timestamp(secs, 0) {
        Some(t) => t.to_rfc3339(),
        None => String::new(),
    }
}

/// One entry of the `connections` listing.
pub open spec fn conn_record_spec(c: ConnectionState, now: int) -> JsonSpec {
    JsonSpec::Obj(
        seq![
            ("id"@, JsonSpec::Str(c.id@)),
            ("ip"@, JsonSpec::Str(c.ip@)),
            ("route"@, JsonSpec::Str(c.route@)),
            ("connected_at"@, JsonSpec::Str(rfc3339_of(c.connected_at as int))),
            ("duration_seconds"@, JsonSpec::Int(duration_secs(now, c.connected_at as int))),
        ],
    )
}

/// The `connections` command's reply: every live record, with elapsed
/// duration computed at request time.
pub open spec fn connections_response_spec(conns: Seq<ConnectionState>, now: int) -> JsonSpec {
    JsonSpec::Obj(
        seq![
            ("status"@, JsonSpec::Str("success"@)),
            (
                "connections"@,
                JsonSpec::Arr(Seq::new(conns.len(), |i: int| conn_record_spec(conns[i], now))),
            ),
        ],
    )
}

/// Build the `connections` command's reply.
pub fn connections_response(reg: &Registry, now: i64) -> (r: JsonValue)
    ensures
        r@ == connections_response_spec(reg.conns@, now as int),
{
    let n = reg.conns.len();
    let mut items: Vec<JsonValue> = Vec::new();
    for i in 0..n
        invariant
            n == reg.conns@.len(),
            items@.len() == i,
            forall|j: int|
                0 <= j < i ==> items@[j]@ == conn_record_spec(reg.conns@[j], now as int),
    {
        let c = &reg.conns[i];
        let mut es: Vec<(String, JsonValue)> = Vec::new();
        es.push(("id".to_owned(), JsonValue::Str(c.id.clone())));
        es.push(("ip".to_owned(), JsonValue::Str(c.ip.clone())));
        es.push(("route".to_owned(), JsonValue::Str(c.route.clone())));
        es.push(("connected_at".to_owned(), JsonValue::Str(format_rfc3339(c.connected_at))));
        es.push(("duration_seconds".to_owned(), JsonValue::Int(elapsed_secs(now, c.connected_at))));
        proof {
            lemma_view_object(es);
            assert(entries_view(es@) =~= conn_record_spec(reg.conns@[i as int], now as int)->Obj_0);
        }
        items.push(JsonValue::Object(es));
    }
    let mut es: Vec<(String, JsonValue)> = Vec::new();
    es.push(("status".to_owned(), JsonValue::Str("success".to_owned())));
    proof {
        lemma_view_array(items);
    }
    es.push(("connections".to_owned(), JsonValue::Array(items)));
    proof {
        lemma_view_object(es);
        assert(vals_view(es@[1].1->Array_0@) =~= Seq::new(
            reg.conns@.len(),
            |i: int| conn_record_spec(reg.conns@[i], now as int),
        ));
        assert(entries_view(es@) =~= connections_response_spec(reg.conns@, now as int)->Obj_0);
    }
    JsonValue::Object(es)
}

/// Relies on uuid::Uuid::new_v4 and its Display form: a fresh
/// connection id in the hyphenated format, 36 characters.
#[verifier::external_body]
fn fresh_connection_id() -> (r: String)
    ensures
        r@.len() == 36,
{
    uuid::Uuid::new_v4().to_string()
}

/// Relies on chrono::Utc::now: the current Unix time in whole seconds.
#[verifier::external_body]
fn now_unix_seconds() -> (r: i64) {
    chrono::Utc::now().timestamp()
}

/// Validate and record a subscription deterministically: the caller
/// supplies the fresh id and the clock reading.
pub fn register_connection(
    reg: &mut Registry,
    doc: &JsonValue,
    route: &String,
    ip: &String,
    id: String,
    now: i64,
) -> (r: Result<(), CrudError>)
    ensures
        match r {
            Ok(()) => doc_get(doc@, route@) is Some && final(reg).conns@ == conn_set(
                old(reg).conns@,
                ConnectionState { id, ip: *ip, route: *route, connected_at: now },
            ),
            Err(e) => e == CrudError::NotFound && doc_get(doc@, route@) is None
                && final(reg).conns@ == old(reg).conns@,
        },
{
    let cs = crate::resolver::chars_of(route.as_str());
    match crate::crud::doc_lookup(doc, &cs) {
        Some(_) => {
            reg.register(
                ConnectionState { id, ip: ip.clone(), route: route.clone(), connected_at: now },
            );
            Ok(())
        },
        None => Err(CrudError::NotFound),
    }
}

/// Record a subscription under a fresh id taken at the current time;
/// the caller has already validated the route, so no lock on the
/// document is needed here. Returns the new id.
pub fn open_connection(reg: &mut Registry, route: &String, ip: &String) -> (r: String)
    ensures
        r@.len() == 36,
        exists|t: i64|
            final(reg).conns@ == conn_set(
                old(reg).conns@,
                (ConnectionState { id: r, ip: *ip, route: *route, connected_at: t }),
            ),
{
    let id = fresh_connection_id();
    let now = now_unix_seconds();
    let ghost id0 = id;
    reg.register(
        ConnectionState { id: id.clone(), ip: ip.clone(), route: route.clone(), connected_at: now },
    );
    proof {
        assert(reg.conns@ == conn_set(
            old(reg).conns@,
            ConnectionState { id: id0, ip: *ip, route: *route, connected_at: now },
        ));
        assert(exists|t: i64|
            reg.conns@ == conn_set(
                old(reg).conns@,
                (ConnectionState { id: id0, ip: *ip, route: *route, connected_at: t }),
            ));
    }
    id
}

/// Accept a subscription: validate the route, then record the
/// connection under a fresh id taken at the current time. Returns the
/// id pushed to the subscriber.
pub fn connect(reg: &mut Registry, doc: &JsonValue, route: &String, ip: &String) -> (r: Result<
    String,
    CrudError,
>)
    ensures
        match r {
            Ok(id) => id@.len() == 36 && doc_get(doc@, route@) is Some && exists|t: i64|
                final(reg).conns@ == conn_set(
                    old(reg).conns@,
                    ConnectionState { id, ip: *ip, route: *route, connected_at: t },
                ),
            Err(e) => e == CrudError::NotFound && doc_get(doc@, route@) is None
                && final(reg).conns@ == old(reg).conns@,
        },
{
    let id = fresh_connection_id();
    let now = now_unix_seconds();
    let ghost id0 = id;
    match register_connection(reg, doc, route, ip, id.clone(), now) {
        Ok(()) => {
            proof {
                assert(reg.conns@ == conn_set(
                    old(reg).conns@,
                    ConnectionState { id: id0, ip: *ip, route: *route, connected_at: now },
                ));
                assert(exists|t: i64|
                    reg.conns@ == conn_set(
                        old(reg).conns@,
                        (ConnectionState { id: id0, ip: *ip, route: *route, connected_at: t }),
                    ));
            }
            Ok(id)
        },
        Err(e) => Err(e),
    }
}

} // verus!
