//! The CRUD engine: per-method mutation and read semantics against the
//! document, with id-aware addressing resolved from the request path.

use vstd::prelude::*;
use vstd::pervasive::VecAdditionalExecFns;
use crate::json::{JsonValue, JsonSpec, entries_view, vals_view, key_idx, obj_get, obj_set, doc_get,
    doc_set, record_matches, first_match, without_id, matching_only, lemma_view_object,
    lemma_view_array, lemma_key_idx, lemma_key_idx_is, lemma_first_match, deep_copy, find_key,
    select_records, find_record};
use crate::query::{SortRule, query_spec, apply_query};
use crate::resolver::{chars_of, string_matches_chars, resolve_route, route_id, base_key};

verus! {

/// The error taxonomy: every terminal non-success outcome of the engine.
#[derive(Debug, Clone, Copy, PartialEq, Eq, Structural)]
pub enum CrudError {
    /// The document lock was not acquired within the bounded timeout.
    Busy,
    /// The route, or the addressed record, is absent.
    NotFound,
    /// The route exists but holds the wrong JSON shape for the operation.
    TypeMismatch,
    /// Malformed addressing, such as a partial update without a record id.
    BadRequest,
    /// The document root is not an object.
    RootNotObject,
}

/// Outcome of a successful mutation: whether something new was created,
/// and how many records were affected.
#[derive(Debug, Clone, Copy, PartialEq, Eq)]
pub struct MutOk {
    pub created: bool,
    pub count: usize,
}

pub open spec fn error_status_spec(e: CrudError) -> int {
    match e {
        CrudError::Busy => 500,
        CrudError::NotFound => 404,
        CrudError::TypeMismatch => 400,
        CrudError::BadRequest => 400,
        CrudError::RootNotObject => 500,
    }
}

/// The HTTP-style status an error maps to.
pub fn status_of_error(e: &CrudError) -> (r: u16)
    ensures
        r as int == error_status_spec(*e),
{
    match e {
        CrudError::Busy => 500,
        CrudError::NotFound => 404,
        CrudError::TypeMismatch => 400,
        CrudError::BadRequest => 400,
        CrudError::RootNotObject => 500,
    }
}

/// The HTTP-style status a successful mutation maps to.
pub fn status_of_mutation(ok: &MutOk) -> (r: u16)
    ensures
        ok.created ==> r == 201,
        !ok.created ==> r == 200,
{
    if ok.created {
        201
    } else {
        200
    }
}

/// First entry whose key equals the resolved key characters.
pub fn find_key_chars(es: &Vec<(String, JsonValue)>, k: &Vec<char>) -> (r: Option<usize>)
    ensures
        match r {
            Some(i) => key_idx(entries_view(es@), k@) == i as int,
            None => key_idx(entries_view(es@), k@) == -1,
        },
{
    let n = es.len();
    for i in 0..n
        invariant
            n == es@.len(),
            forall|j: int| 0 <= j < i ==> entries_view(es@)[j].0 != k@,
    {
        if string_matches_chars(&es[i].0, k) {
            proof {
                lemma_key_idx_is(entries_view(es@), k@, i as int);
            }
            return Some(i);
        }
    }
    proof {
        lemma_key_idx(entries_view(es@), k@);
        if key_idx(entries_view(es@), k@) >= 0 {
            assert(entries_view(es@)[key_idx(entries_view(es@), k@)].0 == k@);
        }
    }
    None
}

/// Borrow the value stored under a top-level key.
pub fn doc_lookup<'a>(doc: &'a JsonValue, key: &Vec<char>) -> (r: Option<&'a JsonValue>)
    ensures
        match r {
            Some(v) => doc_get(doc@, key@) == Some(v@),
            None => doc_get(doc@, key@) is None,
        },
{
    match doc {
        JsonValue::Object(es) => {
            proof {
                lemma_view_object(*es);
            }
            match find_key_chars(es, key) {
                Some(i) => {
                    proof {
                        lemma_key_idx(entries_view(es@), key@);
                    }
                    Some(&es[i].1)
                },
                None => None,
            }
        },
        _ => None,
    }
}

/// Replace the first entry with this key, or append a new one, keeping
/// every other entry in place.
pub fn obj_set_exec(es: &mut Vec<(String, JsonValue)>, k: &String, v: JsonValue)
    ensures
        entries_view(final(es)@) == obj_set(entries_view(old(es)@), k@, v@),
{
    let ghost es0 = es@;
    let ghost v0 = v@;
    match find_key(es, k) {
        Some(j) => {
            proof {
                lemma_key_idx(entries_view(es0), k@);
            }
            let (key, _prev) = es.remove(j);
            es.insert(j, (key, v));
            proof {
                assert(es@ =~= es0.update(j as int, (es0[j as int].0, es0[j as int].1)).update(
                    j as int,
                    es@[j as int],
                ));
                assert(entries_view(es@) =~= obj_set(entries_view(es0), k@, v0));
            }
        },
        None => {
            es.push((k.clone(), v));
            proof {
                assert(entries_view(es@) =~= obj_set(entries_view(es0), k@, v0));
            }
        },
    }
}

/// What a GET returns: for an id-addressed path, the base value with the
/// array filtered to the matching records; for a collection path, the
/// value after the query pipeline. `None` is the not-found case.
pub open spec fn get_spec(
    d: JsonSpec,
    route: Seq<char>,
    rules: Seq<SortRule>,
    limit: int,
) -> Option<JsonSpec> {
    match route_id(route) {
        Some(id) => match doc_get(d, base_key(route)) {
            Some(JsonSpec::Arr(s)) => Some(JsonSpec::Arr(matching_only(s, id))),
            Some(v) => Some(v),
            None => None,
        },
        None => match doc_get(d, route) {
            Some(v) => Some(query_spec(v, rules, route, limit)),
            None => None,
        },
    }
}

/// GET: read the addressed value. An id-addressed path returns the
/// filtered array (possibly empty, still a success); a collection path
/// returns the value after sort and pagination. A missing route is the
/// only failure.
pub fn get_data(doc: &JsonValue, route: &str, rules: &Vec<SortRule>, limit: u64) -> (r: Result<
    JsonValue,
    CrudError,
>)
    ensures
        match r {
            Ok(v) => get_spec(doc@, route@, rules@, limit as int) == Some(v@),
            Err(e) => e == CrudError::NotFound && get_spec(doc@, route@, rules@, limit as int)
                is None,
        },
{
    let cs = chars_of(route);
    let target = resolve_route(&cs);
    match doc_lookup(doc, &target.key) {
        None => Err(CrudError::NotFound),
        Some(v) => match target.id {
            Some(id) => {
                match v {
                    JsonValue::Array(arr) => {
                        proof {
                            lemma_view_array(*arr);
                        }
                        let kept = select_records(arr, id, true);
                        proof {
                            lemma_view_array(kept);
                        }
                        Ok(JsonValue::Array(kept))
                    },
                    other => Ok(deep_copy(other)),
                }
            },
            None => {
                let copy = deep_copy(v);
                let route_string: String = route.to_owned();
                Ok(apply_query(copy, rules, &route_string, limit))
            },
        },
    }
}

/// What a DELETE does: an id-addressed path removes every matching
/// record (none removed is not-found); a collection path clears the
/// whole array. A non-array value is a type mismatch.
pub open spec fn delete_spec(d: JsonSpec, route: Seq<char>) -> (JsonSpec, Result<
    (bool, int),
    CrudError,
>) {
    match route_id(route) {
        Some(id) => match doc_get(d, base_key(route)) {
            Some(JsonSpec::Arr(s)) => {
                let kept = without_id(s, id);
                if kept.len() < s.len() {
                    (
                        doc_set(d, base_key(route), JsonSpec::Arr(kept)),
                        Ok((false, s.len() - kept.len())),
                    )
                } else {
                    (d, Err(CrudError::NotFound))
                }
            },
            Some(_) => (d, Err(CrudError::TypeMismatch)),
            None => (d, Err(CrudError::NotFound)),
        },
        None => match doc_get(d, route) {
            Some(JsonSpec::Arr(s)) => (
                doc_set(d, route, JsonSpec::Arr(Seq::empty())),
                Ok((false, s.len() as int)),
            ),
            Some(_) => (d, Err(CrudError::TypeMismatch)),
            None => (d, Err(CrudError::NotFound)),
        },
    }
}

/// DELETE: remove the addressed records in place and report how many
/// went away.
pub fn delete_data(doc: &mut JsonValue, route: &str) -> (r: Result<MutOk, CrudError>)
    ensures
        final(doc)@ == delete_spec(old(doc)@, route@).0,
        match (r, delete_spec(old(doc)@, route@).1) {
            (Ok(ok), Ok(pair)) => ok.created == pair.0 && ok.count as int == pair.1,
            (Err(e1), Err(e2)) => e1 == e2,
            _ => false,
        },
{
    let cs = chars_of(route);
    let target = resolve_route(&cs);
    let mut root = JsonValue::Null;
    core::mem::swap(doc, &mut root);
    match root {
        JsonValue::Object(mut es) => {
            let ghost es0 = es@;
            proof {
                lemma_view_object(es);
            }
            match find_key_chars(&es, &target.key) {
                Some(i) => {
                    proof {
                        lemma_key_idx(entries_view(es0), target.key@);
                    }
                    let (k, v) = es.remove(i);
                    match v {
                        JsonValue::Array(arr) => {
                            proof {
                                lemma_view_array(arr);
                            }
                            match target.id {
                                Some(id) => {
                                    let kept = select_records(&arr, id, false);
                                    proof {
                                        lemma_view_array(kept);
                                        vals_view(arr@).lemma_filter_len(
                                            |rv: JsonSpec| !record_matches(rv, id as int),
                                        );
                                    }
                                    let kept_len = kept.len();
                                    let orig_len = arr.len();
                                    if kept_len < orig_len {
                                        es.insert(i, (k, JsonValue::Array(kept)));
                                        proof {
                                            assert(es@ =~= es0.update(
                                                i as int,
                                                (es0[i as int].0, es@[i as int].1),
                                            ));
                                            lemma_view_object(es);
                                            assert(entries_view(es@) =~= obj_set(
                                                entries_view(es0),
                                                target.key@,
                                                es@[i as int].1@,
                                            ));
                                        }
                                        *doc = JsonValue::Object(es);
                                        Ok(MutOk { created: false, count: orig_len - kept_len })
                                    } else {
                                        es.insert(i, (k, JsonValue::Array(arr)));
                                        proof {
                                            assert(es@ =~= es0);
                                            lemma_view_object(es);
                                        }
                                        *doc = JsonValue::Object(es);
                                        Err(CrudError::NotFound)
                                    }
                                },
                                None => {
                                    let n_del = arr.len();
                                    let empty: Vec<JsonValue> = Vec::new();
                                    proof {
                                        lemma_view_array(empty);
                                        assert(vals_view(empty@) =~= Seq::<JsonSpec>::empty());
                                    }
                                    es.insert(i, (k, JsonValue::Array(empty)));
                                    proof {
                                        assert(es@ =~= es0.update(
                                            i as int,
                                            (es0[i as int].0, es@[i as int].1),
                                        ));
                                        lemma_view_object(es);
                                        assert(entries_view(es@) =~= obj_set(
                                            entries_view(es0),
                                            target.key@,
                                            es@[i as int].1@,
                                        ));
                                    }
                                    *doc = JsonValue::Object(es);
                                    Ok(MutOk { created: false, count: n_del })
                                },
                            }
                        },
                        other => {
                            es.insert(i, (k, other));
                            proof {
                                assert(es@ =~= es0);
                                lemma_view_object(es);
                            }
                            *doc = JsonValue::Object(es);
                            Err(CrudError::TypeMismatch)
                        },
                    }
                },
                None => {
                    *doc = JsonValue::Object(es);
                    Err(CrudError::NotFound)
                },
            }
        },
        other => {
            *doc = other;
            Err(CrudError::NotFound)
        },
    }
}

/// What a POST does: append to an existing array route (an array
/// payload is spread, anything else appended as one record), or create
/// the route from the payload. Success is always a creation.
pub open spec fn post_spec(d: JsonSpec, route: Seq<char>, p: JsonSpec) -> (JsonSpec, Result<
    (bool, int),
    CrudError,
>) {
    match d {
        JsonSpec::Obj(es) => match obj_get(es, route) {
            Some(JsonSpec::Arr(s)) => match p {
                JsonSpec::Arr(items) => (
                    JsonSpec::Obj(obj_set(es, route, JsonSpec::Arr(s + items))),
                    Ok((true, items.len() as int)),
                ),
                _ => (
                    JsonSpec::Obj(obj_set(es, route, JsonSpec::Arr(s.push(p)))),
                    Ok((true, 1)),
                ),
            },
            Some(_) => (d, Err(CrudError::TypeMismatch)),
            None => match p {
                JsonSpec::Arr(items) => (
                    JsonSpec::Obj(obj_set(es, route, p)),
                    Ok((true, items.len() as int)),
                ),
                _ => (
                    JsonSpec::Obj(obj_set(es, route, JsonSpec::Arr(seq![p]))),
                    Ok((true, 1)),
                ),
            },
        },
        _ => (d, Err(CrudError::RootNotObject)),
    }
}

/// POST: append to, or create, the collection at the route. The path is
/// taken whole as the key; no id is resolved.
pub fn post_data(doc: &mut JsonValue, route: &str, payload: JsonValue) -> (r: Result<
    MutOk,
    CrudError,
>)
    ensures
        final(doc)@ == post_spec(old(doc)@, route@, payload@).0,
        match (r, post_spec(old(doc)@, route@, payload@).1) {
            (Ok(ok), Ok(pair)) => ok.created == pair.0 && ok.count as int == pair.1,
            (Err(e1), Err(e2)) => e1 == e2,
            _ => false,
        },
{
    let cs = chars_of(route);
    let ghost p0 = payload@;
    let mut root = JsonValue::Null;
    core::mem::swap(doc, &mut root);
    match root {
        JsonValue::Object(mut es) => {
            let ghost es0 = es@;
            proof {
                lemma_view_object(es);
            }
            match find_key_chars(&es, &cs) {
                Some(i) => {
                    proof {
                        lemma_key_idx(entries_view(es0), cs@);
                    }
                    let (k, v) = es.remove(i);
                    match v {
                        JsonValue::Array(mut arr) => {
                            proof {
                                lemma_view_array(arr);
                            }
                            let ghost s0 = vals_view(arr@);
                            let count: usize;
                            match payload {
                                JsonValue::Array(mut items) => {
                                    proof {
                                        lemma_view_array(items);
                                    }
                                    let ghost items0 = vals_view(items@);
                                    count = items.len();
                                    arr.append(&mut items);
                                    proof {
                                        assert(vals_view(arr@) =~= s0 + items0);
                                    }
                                },
                                single => {
                                    count = 1;
                                    arr.push(single);
                                    proof {
                                        assert(vals_view(arr@) =~= s0.push(single@));
                                    }
                                },
                            }
                            proof {
                                lemma_view_array(arr);
                            }
                            es.insert(i, (k, JsonValue::Array(arr)));
                            proof {
                                assert(es@ =~= es0.update(
                                    i as int,
                                    (es0[i as int].0, es@[i as int].1),
                                ));
                                lemma_view_object(es);
                                assert(entries_view(es@) =~= obj_set(
                                    entries_view(es0),
                                    cs@,
                                    es@[i as int].1@,
                                ));
                            }
                            *doc = JsonValue::Object(es);
                            Ok(MutOk { created: true, count })
                        },
                        other => {
                            es.insert(i, (k, other));
                            proof {
                                assert(es@ =~= es0);
                                lemma_view_object(es);
                            }
                            *doc = JsonValue::Object(es);
                            Err(CrudError::TypeMismatch)
                        },
                    }
                },
                None => {
                    let route_string: String = route.to_owned();
                    let count: usize;
                    let seeded: JsonValue;
                    match payload {
                        JsonValue::Array(items) => {
                            proof {
                                lemma_view_array(items);
                            }
                            count = items.len();
                            seeded = JsonValue::Array(items);
                        },
                        single => {
                            count = 1;
                            let mut one: Vec<JsonValue> = Vec::new();
                            one.push(single);
                            proof {
                                lemma_view_array(one);
                                assert(vals_view(one@) =~= seq![p0]);
                            }
                            seeded = JsonValue::Array(one);
                        },
                    }
                    obj_set_exec(&mut es, &route_string, seeded);
                    proof {
                        lemma_view_object(es);
                    }
                    *doc = JsonValue::Object(es);
                    Ok(MutOk { created: true, count })
                },
            }
        },
        other => {
            *doc = other;
            Err(CrudError::RootNotObject)
        },
    }
}

/// A record about to be stored under an id: an object payload has the
/// id written over whatever it carried; any other payload is stored
/// unchanged.
pub open spec fn with_forced_id(p: JsonSpec, id: int) -> JsonSpec {
    match p {
        JsonSpec::Obj(es) => JsonSpec::Obj(obj_set(es, "id"@, JsonSpec::Int(id))),
        _ => p,
    }
}

/// Force the addressed id onto an object payload.
pub fn force_id(p: JsonValue, id: u64) -> (r: JsonValue)
    requires
        id <= i64::MAX as u64,
    ensures
        r@ == with_forced_id(p@, id as int),
{
    match p {
        JsonValue::Object(mut es) => {
            proof {
                lemma_view_object(es);
            }
            let id_key: String = "id".to_owned();
            obj_set_exec(&mut es, &id_key, JsonValue::Int(id as i64));
            proof {
                lemma_view_object(es);
            }
            JsonValue::Object(es)
        },
        other => other,
    }
}

/// What a PUT does: with an id, replace the first matching record (or
/// append a new one) with the payload, the addressed id forced onto it;
/// without an id, overwrite the whole route with the payload.
pub open spec fn put_spec(d: JsonSpec, route: Seq<char>, p: JsonSpec) -> (JsonSpec, Result<
    (bool, int),
    CrudError,
>) {
    match d {
        JsonSpec::Obj(es) => match route_id(route) {
            Some(id) => match obj_get(es, base_key(route)) {
                Some(JsonSpec::Arr(s)) => {
                    let fi = first_match(s, id);
                    if fi >= 0 {
                        (
                            JsonSpec::Obj(
                                obj_set(
                                    es,
                                    base_key(route),
                                    JsonSpec::Arr(s.update(fi, with_forced_id(p, id))),
                                ),
                            ),
                            Ok((false, 1)),
                        )
                    } else {
                        (
                            JsonSpec::Obj(
                                obj_set(
                                    es,
                                    base_key(route),
                                    JsonSpec::Arr(s.push(with_forced_id(p, id))),
                                ),
                            ),
                            Ok((true, 1)),
                        )
                    }
                },
                Some(_) => (d, Err(CrudError::TypeMismatch)),
                None => (d, Err(CrudError::NotFound)),
            },
            None => {
                let existed = obj_get(es, route) is Some;
                let count = match p {
                    JsonSpec::Arr(items) => items.len() as int,
                    _ => 1,
                };
                (JsonSpec::Obj(obj_set(es, route, p)), Ok((!existed, count)))
            },
        },
        _ => (d, Err(CrudError::RootNotObject)),
    }
}

/// PUT: replace a record by id (creating it when absent), or replace a
/// whole collection. The addressed id always wins over one in the
/// payload.
pub fn put_data(doc: &mut JsonValue, route: &str, payload: JsonValue) -> (r: Result<
    MutOk,
    CrudError,
>)
    requires
        match route_id(route@) {
            Some(id) => id <= i64::MAX,
            None => true,
        },
    ensures
        final(doc)@ == put_spec(old(doc)@, route@, payload@).0,
        match (r, put_spec(old(doc)@, route@, payload@).1) {
            (Ok(ok), Ok(pair)) => ok.created == pair.0 && ok.count as int == pair.1,
            (Err(e1), Err(e2)) => e1 == e2,
            _ => false,
        },
{
    let cs = chars_of(route);
    let target = resolve_route(&cs);
    let ghost p0 = payload@;
    let mut root = JsonValue::Null;
    core::mem::swap(doc, &mut root);
    match root {
        JsonValue::Object(mut es) => {
            let ghost es0 = es@;
            proof {
                lemma_view_object(es);
            }
            match target.id {
                Some(id) => {
                    match find_key_chars(&es, &target.key) {
                        Some(i) => {
                            proof {
                                lemma_key_idx(entries_view(es0), target.key@);
                            }
                            let (k, v) = es.remove(i);
                            match v {
                                JsonValue::Array(mut arr) => {
                                    proof {
                                        lemma_view_array(arr);
                                        lemma_first_match(vals_view(arr@), id as int);
                                    }
                                    let ghost s0 = vals_view(arr@);
                                    let created: bool;
                                    match find_record(&arr, id) {
                                        Some(j) => {
                                            let replacement = force_id(payload, id);
                                            arr.set(j, replacement);
                                            created = false;
                                            proof {
                                                assert(vals_view(arr@) =~= s0.update(
                                                    j as int,
                                                    with_forced_id(p0, id as int),
                                                ));
                                            }
                                        },
                                        None => {
                                            let fresh = force_id(payload, id);
                                            arr.push(fresh);
                                            created = true;
                                            proof {
                                                assert(vals_view(arr@) =~= s0.push(
                                                    with_forced_id(p0, id as int),
                                                ));
                                            }
                                        },
                                    }
                                    proof {
                                        lemma_view_array(arr);
                                    }
                                    es.insert(i, (k, JsonValue::Array(arr)));
                                    proof {
                                        assert(es@ =~= es0.update(
                                            i as int,
                                            (es0[i as int].0, es@[i as int].1),
                                        ));
                                        lemma_view_object(es);
                                        assert(entries_view(es@) =~= obj_set(
                                            entries_view(es0),
                                            target.key@,
                                            es@[i as int].1@,
                                        ));
                                    }
                                    *doc = JsonValue::Object(es);
                                    Ok(MutOk { created, count: 1 })
                                },
                                other => {
                                    es.insert(i, (k, other));
                                    proof {
                                        assert(es@ =~= es0);
                                        lemma_view_object(es);
                                    }
                                    *doc = JsonValue::Object(es);
                                    Err(CrudError::TypeMismatch)
                                },
                            }
                        },
                        None => {
                            *doc = JsonValue::Object(es);
                            Err(CrudError::NotFound)
                        },
                    }
                },
                None => {
                    let count: usize = match &payload {
                        JsonValue::Array(items) => items.len(),
                        _ => 1,
                    };
                    proof {
                        if payload is Array {
                            lemma_view_array(payload->Array_0);
                        }
                    }
                    let existed = match find_key_chars(&es, &cs) {
                        Some(_) => true,
                        None => false,
                    };
                    proof {
                        lemma_key_idx(entries_view(es0), cs@);
                    }
                    let route_string: String = route.to_owned();
                    obj_set_exec(&mut es, &route_string, payload);
                    proof {
                        lemma_view_object(es);
                    }
                    *doc = JsonValue::Object(es);
                    Ok(MutOk { created: !existed, count })
                },
            }
        },
        other => {
            *doc = other;
            Err(CrudError::RootNotObject)
        },
    }
}

/// Shallow merge of update entries into a record: update keys replace,
/// every other stored key is retained.
pub open spec fn merge_entries(
    base: Seq<(Seq<char>, JsonSpec)>,
    upd: Seq<(Seq<char>, JsonSpec)>,
) -> Seq<(Seq<char>, JsonSpec)>
    decreases upd.len(),
{
    if upd.len() <= 0 {
        base
    } else {
        merge_entries(obj_set(base, upd[0].0, upd[0].1), upd.drop_first())
    }
}

proof fn lemma_merge_entries_push(
    base: Seq<(Seq<char>, JsonSpec)>,
    upd: Seq<(Seq<char>, JsonSpec)>,
    k: Seq<char>,
    v: JsonSpec,
)
    ensures
        merge_entries(base, upd.push((k, v))) == obj_set(merge_entries(base, upd), k, v),
    decreases upd.len(),
{
    if upd.len() == 0 {
        assert(upd.push((k, v)).drop_first() =~= upd);
        assert(merge_entries(base, upd.push((k, v))) == merge_entries(
            obj_set(base, k, v),
            upd,
        ));
    } else {
        assert(upd.push((k, v))[0] == upd[0]);
        assert(upd.push((k, v)).drop_first() =~= upd.drop_first().push((k, v)));
        lemma_merge_entries_push(obj_set(base, upd[0].0, upd[0].1), upd.drop_first(), k, v);
    }
}

/// Merge the update entries into the record, in update order.
pub fn merge_into(rec: &mut Vec<(String, JsonValue)>, upd: &Vec<(String, JsonValue)>)
    ensures
        entries_view(final(rec)@) == merge_entries(entries_view(old(rec)@), entries_view(upd@)),
{
    let ghost base0 = entries_view(rec@);
    let n = upd.len();
    proof {
        assert(entries_view(upd@).take(0) =~= Seq::<(Seq<char>, JsonSpec)>::empty());
        assert(merge_entries(base0, entries_view(upd@).take(0)) == base0);
    }
    for i in 0..n
        invariant
            n == upd@.len(),
            entries_view(rec@) == merge_entries(base0, entries_view(upd@).take(i as int)),
    {
        let v = deep_copy(&upd[i].1);
        obj_set_exec(rec, &upd[i].0, v);
        proof {
            assert(entries_view(upd@).take(i + 1) =~= entries_view(upd@).take(i as int).push(
                (upd@[i as int].0@, upd@[i as int].1@),
            ));
            lemma_merge_entries_push(
                base0,
                entries_view(upd@).take(i as int),
                upd@[i as int].0@,
                upd@[i as int].1@,
            );
        }
    }
    proof {
        assert(entries_view(upd@).take(n as int) =~= entries_view(upd@));
    }
}

/// What a PATCH does: with an id, shallow-merge an object payload into
/// the first matching record. A non-object payload, or no matching
/// record, is not-found; a path without an id is a bad request.
pub open spec fn patch_spec(d: JsonSpec, route: Seq<char>, p: JsonSpec) -> (JsonSpec, Result<
    (bool, int),
    CrudError,
>) {
    match d {
        JsonSpec::Obj(es) => match route_id(route) {
            Some(id) => match obj_get(es, base_key(route)) {
                Some(JsonSpec::Arr(s)) => match p {
                    JsonSpec::Obj(upd) => {
                        let fi = first_match(s, id);
                        if fi >= 0 {
                            let merged = match s[fi] {
                                JsonSpec::Obj(rec) => JsonSpec::Obj(merge_entries(rec, upd)),
                                _ => s[fi],
                            };
                            (
                                JsonSpec::Obj(
                                    obj_set(
                                        es,
                                        base_key(route),
                                        JsonSpec::Arr(s.update(fi, merged)),
                                    ),
                                ),
                                Ok((false, 1)),
                            )
                        } else {
                            (d, Err(CrudError::NotFound))
                        }
                    },
                    _ => (d, Err(CrudError::NotFound)),
                },
                Some(_) => (d, Err(CrudError::TypeMismatch)),
                None => (d, Err(CrudError::NotFound)),
            },
            None => (d, Err(CrudError::BadRequest)),
        },
        _ => (d, Err(CrudError::RootNotObject)),
    }
}

/// PATCH: shallow-merge the payload's fields into the record addressed
/// by id. Payload keys overwrite; all other stored keys are retained.
pub fn patch_data(doc: &mut JsonValue, route: &str, payload: &JsonValue) -> (r: Result<
    MutOk,
    CrudError,
>)
    ensures
        final(doc)@ == patch_spec(old(doc)@, route@, payload@).0,
        match (r, patch_spec(old(doc)@, route@, payload@).1) {
            (Ok(ok), Ok(pair)) => ok.created == pair.0 && ok.count as int == pair.1,
            (Err(e1), Err(e2)) => e1 == e2,
            _ => false,
        },
{
    let cs = chars_of(route);
    let target = resolve_route(&cs);
    let mut root = JsonValue::Null;
    core::mem::swap(doc, &mut root);
    match root {
        JsonValue::Object(mut es) => {
            let ghost es0 = es@;
            proof {
                lemma_view_object(es);
            }
            match target.id {
                Some(id) => {
                    match find_key_chars(&es, &target.key) {
                        Some(i) => {
                            proof {
                                lemma_key_idx(entries_view(es0), target.key@);
                            }
                            let (k, v) = es.remove(i);
                            match v {
                                JsonValue::Array(mut arr) => {
                                    proof {
                                        lemma_view_array(arr);
                                        lemma_first_match(vals_view(arr@), id as int);
                                    }
                                    let ghost s0 = vals_view(arr@);
                                    match payload {
                                        JsonValue::Object(upd) => {
                                            match find_record(&arr, id) {
                                                Some(j) => {
                                                    proof {
                                                        lemma_view_object(*upd);
                                                    }
                                                    let rk = arr.remove(j);
                                                    match rk {
                                                        JsonValue::Object(mut rec) => {
                                                            proof {
                                                                lemma_view_object(rec);
                                                            }
                                                            merge_into(&mut rec, upd);
                                                            proof {
                                                                lemma_view_object(rec);
                                                            }
                                                            arr.insert(
                                                                j,
                                                                JsonValue::Object(rec),
                                                            );
                                                            proof {
                                                                assert(vals_view(arr@)
                                                                    =~= s0.update(
                                                                    j as int,
                                                                    arr@[j as int]@,
                                                                ));
                                                            }
                                                        },
                                                        non_obj => {
                                                            arr.insert(j, non_obj);
                                                            proof {
                                                                assert(s0[j as int]
                                                                    is Obj) by {
                                                                    assert(record_matches(
                                                                        s0[j as int],
                                                                        id as int,
                                                                    ));
                                                                }
                                                                assert(false);
                                                            }
                                                        },
                                                    }
                                                    proof {
                                                        lemma_view_array(arr);
                                                    }
                                                    es.insert(
                                                        i,
                                                        (k, JsonValue::Array(arr)),
                                                    );
                                                    proof {
                                                        assert(es@ =~= es0.update(
                                                            i as int,
                                                            (es0[i as int].0, es@[i as int].1),
                                                        ));
                                                        lemma_view_object(es);
                                                        assert(entries_view(es@) =~= obj_set(
                                                            entries_view(es0),
                                                            target.key@,
                                                            es@[i as int].1@,
                                                        ));
                                                    }
                                                    *doc = JsonValue::Object(es);
                                                    Ok(MutOk { created: false, count: 1 })
                                                },
                                                None => {
                                                    es.insert(i, (k, JsonValue::Array(arr)));
                                                    proof {
                                                        assert(es@ =~= es0);
                                                        lemma_view_object(es);
                                                    }
                                                    *doc = JsonValue::Object(es);
                                                    Err(CrudError::NotFound)
                                                },
                                            }
                                        },
                                        _ => {
                                            es.insert(i, (k, JsonValue::Array(arr)));
                                            proof {
                                                assert(es@ =~= es0);
                                                lemma_view_object(es);
                                            }
                                            *doc = JsonValue::Object(es);
                                            Err(CrudError::NotFound)
                                        },
                                    }
                                },
                                other => {
                                    es.insert(i, (k, other));
                                    proof {
                                        assert(es@ =~= es0);
                                        lemma_view_object(es);
                                    }
                                    *doc = JsonValue::Object(es);
                                    Err(CrudError::TypeMismatch)
                                },
                            }
                        },
                        None => {
                            *doc = JsonValue::Object(es);
                            Err(CrudError::NotFound)
                        },
                    }
                },
                None => {
                    *doc = JsonValue::Object(es);
                    Err(CrudError::BadRequest)
                },
            }
        },
        other => {
            *doc = other;
            Err(CrudError::RootNotObject)
        },
    }
}

} // verus!
