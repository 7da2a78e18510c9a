//! The engine's cross-cutting guarantees, stated and proved over the
//! same specifications its functions promise.

use vstd::prelude::*;
use crate::json::{JsonSpec, obj_get, doc_get, doc_set, record_matches, record_id_of, without_id,
    matching_only, lemma_obj_get_set, lemma_filter_push, lemma_filter_all, lemma_filter_none};
use crate::query::{SortRule, rule_idx, sorted_by, sorted_value, query_spec, key_lt,
    lemma_sort_spec_sorted, lemma_sort_spec_len};
use crate::crud::{CrudError, get_spec, delete_spec, post_spec, put_spec, patch_spec};
use crate::resolver::{route_id, base_key, tail_seg, digits_of, digits_val, all_digits, is_digit,
    lemma_last_slash_is};

verus! {

/// A prefix of a sorted sequence is sorted.
proof fn lemma_sorted_take(s: Seq<JsonSpec>, field: Seq<char>, asc: bool, l: int)
    requires
        sorted_by(s, field, asc),
        0 <= l <= s.len(),
    ensures
        sorted_by(s.take(l), field, asc),
{
    assert forall|p: int, q: int| 0 <= p < q < l implies !key_lt(
        s.take(l)[q],
        s.take(l)[p],
        field,
        asc,
    ) by {
        assert(s.take(l)[p] == s[p]);
        assert(s.take(l)[q] == s[q]);
    }
}

/// A collection GET on a route with a sort rule and an array value
/// yields a sequence non-decreasing (ascending) or non-increasing
/// (descending) in the configured field, non-numeric and missing
/// fields reading as 0.
pub proof fn lemma_get_sorted(d: JsonSpec, route: Seq<char>, rules: Seq<SortRule>, limit: int)
    requires
        route_id(route) is None,
        rule_idx(rules, route) >= 0,
        doc_get(d, route) is Some,
        doc_get(d, route)->Some_0 is Arr,
    ensures
        get_spec(d, route, rules, limit) is Some,
        get_spec(d, route, rules, limit)->Some_0 is Arr,
        sorted_by(
            get_spec(d, route, rules, limit)->Some_0->Arr_0,
            rules[rule_idx(rules, route)].field@,
            rules[rule_idx(rules, route)].ascending,
        ),
{
    let v = doc_get(d, route)->Some_0;
    let s = v->Arr_0;
    let r = rules[rule_idx(rules, route)];
    let sv = sorted_value(v, rules, route);
    if s.len() > 1 {
        lemma_sort_spec_sorted(s, r.field@, r.ascending);
    }
    assert(sorted_by(sv->Arr_0, r.field@, r.ascending));
    let out = query_spec(v, rules, route, limit);
    if limit > 0 && sv->Arr_0.len() > limit {
        lemma_sorted_take(sv->Arr_0, r.field@, r.ascending, limit);
    }
}

/// With a positive limit smaller than the array, the GET response is
/// exactly the first `limit` records of the sorted array, and has
/// exactly that length.
pub proof fn lemma_get_paginates(d: JsonSpec, route: Seq<char>, rules: Seq<SortRule>, limit: int)
    requires
        route_id(route) is None,
        doc_get(d, route) is Some,
        doc_get(d, route)->Some_0 is Arr,
        limit > 0,
        doc_get(d, route)->Some_0->Arr_0.len() > limit,
    ensures
        get_spec(d, route, rules, limit) == Some(
            JsonSpec::Arr(sorted_value(doc_get(d, route)->Some_0, rules, route)->Arr_0.take(limit)),
        ),
        get_spec(d, route, rules, limit)->Some_0->Arr_0.len() == limit,
{
    let v = doc_get(d, route)->Some_0;
    let s = v->Arr_0;
    let sv = sorted_value(v, rules, route);
    if rule_idx(rules, route) >= 0 && s.len() > 1 {
        lemma_sort_spec_len(s, rules[rule_idx(rules, route)].field@, rules[rule_idx(
            rules,
            route,
        )].ascending);
    }
    assert(sv->Arr_0.len() == s.len());
}

/// Deleting a record by id is idempotent in the failing sense: once a
/// delete succeeded, repeating it finds nothing and reports not-found.
pub proof fn lemma_delete_idempotent(d: JsonSpec, route: Seq<char>)
    requires
        route_id(route) is Some,
        delete_spec(d, route).1 is Ok,
    ensures
        delete_spec(delete_spec(d, route).0, route).1 == Err::<(bool, int), CrudError>(
            CrudError::NotFound,
        ),
{
    let id = route_id(route)->0;
    let key = base_key(route);
    let s = doc_get(d, key)->Some_0->Arr_0;
    let pred = |v: JsonSpec| !record_matches(v, id);
    let kept = without_id(s, id);
    let d2 = delete_spec(d, route).0;
    assert(d2 == doc_set(d, key, JsonSpec::Arr(kept)));
    let es = d->Obj_0;
    lemma_obj_get_set(es, key, JsonSpec::Arr(kept));
    assert(doc_get(d2, key) == Some(JsonSpec::Arr(kept)));
    assert forall|i: int| 0 <= i < kept.len() implies pred(kept[i]) by {
        s.lemma_filter_pred(pred, i);
    }
    lemma_filter_all(kept, pred);
    assert(without_id(kept, id) == kept);
}

/// Appending one record by POST loses nothing: the stored array grows
/// by exactly that record at its end, every earlier record kept in
/// order. Sequential writers each appending once therefore leave
/// exactly one record apiece.
pub proof fn lemma_post_appends(d: JsonSpec, route: Seq<char>, p: JsonSpec)
    requires
        d is Obj,
        obj_get(d->Obj_0, route) is Some,
        obj_get(d->Obj_0, route)->Some_0 is Arr,
        !(p is Arr),
    ensures
        post_spec(d, route, p).1 == Ok::<(bool, int), CrudError>((true, 1)),
        doc_get(post_spec(d, route, p).0, route) == Some(
            JsonSpec::Arr(obj_get(d->Obj_0, route)->Some_0->Arr_0.push(p)),
        ),
{
    let es = d->Obj_0;
    let s = obj_get(es, route)->Some_0->Arr_0;
    lemma_obj_get_set(es, route, JsonSpec::Arr(s.push(p)));
}

/// The store's shape invariant: no mutation changes what the document
/// root is — an object document stays an object, whatever the request.
pub proof fn lemma_root_stays_object(d: JsonSpec, route: Seq<char>, p: JsonSpec)
    requires
        d is Obj,
    ensures
        delete_spec(d, route).0 is Obj,
        post_spec(d, route, p).0 is Obj,
        put_spec(d, route, p).0 is Obj,
        patch_spec(d, route, p).0 is Obj,
{
}

/// A sequence of single-record POSTs folded over the document, in the
/// order the write lock admitted them.
pub open spec fn post_all(d: JsonSpec, route: Seq<char>, ps: Seq<JsonSpec>) -> JsonSpec
    decreases ps.len(),
{
    if ps.len() <= 0 {
        d
    } else {
        post_all(post_spec(d, route, ps[0]).0, route, ps.drop_first())
    }
}

/// Writers serialized by the single write lock, each appending one
/// record, leave the route with exactly its old records followed by
/// every appended one, in admission order: no update is lost.
pub proof fn lemma_posts_accumulate(d: JsonSpec, route: Seq<char>, ps: Seq<JsonSpec>)
    requires
        d is Obj,
        obj_get(d->Obj_0, route) is Some,
        obj_get(d->Obj_0, route)->Some_0 is Arr,
        forall|i: int| 0 <= i < ps.len() ==> !(ps[i] is Arr),
    ensures
        post_all(d, route, ps) is Obj,
        doc_get(post_all(d, route, ps), route) == Some(
            JsonSpec::Arr(obj_get(d->Obj_0, route)->Some_0->Arr_0 + ps),
        ),
    decreases ps.len(),
{
    let s = obj_get(d->Obj_0, route)->Some_0->Arr_0;
    if ps.len() == 0 {
        assert(s + ps =~= s);
    } else {
        lemma_post_appends(d, route, ps[0]);
        let d2 = post_spec(d, route, ps[0]).0;
        assert forall|i: int| 0 <= i < ps.drop_first().len() implies !(
        #[trigger] ps.drop_first()[i] is Arr) by {
            assert(ps.drop_first()[i] == ps[i + 1]);
        }
        lemma_posts_accumulate(d2, route, ps.drop_first());
        assert(s.push(ps[0]) + ps.drop_first() =~= s + ps);
    }
}

/// Round trip: POST of a single record with a fresh id, then GET of
/// that id, returns an array holding exactly the posted record.
pub proof fn lemma_post_get_round_trip(
    d: JsonSpec,
    route: Seq<char>,
    p: JsonSpec,
    id: int,
    ds: Seq<char>,
    rules: Seq<SortRule>,
    limit: int,
)
    requires
        d is Obj,
        obj_get(d->Obj_0, route) is Some,
        obj_get(d->Obj_0, route)->Some_0 is Arr,
        !(p is Arr),
        record_id_of(p) == Some(id),
        forall|j: int|
            0 <= j < obj_get(d->Obj_0, route)->Some_0->Arr_0.len() ==> !record_matches(
                obj_get(d->Obj_0, route)->Some_0->Arr_0[j],
                id,
            ),
        ds.len() > 0,
        all_digits(ds),
        digits_val(ds) == id,
        id <= u64::MAX,
    ensures
        post_spec(d, route, p).1 == Ok::<(bool, int), CrudError>((true, 1)),
        get_spec(post_spec(d, route, p).0, route + seq!['/'] + ds, rules, limit) == Some(
            JsonSpec::Arr(seq![p]),
        ),
{
    let es = d->Obj_0;
    let s = obj_get(es, route)->Some_0->Arr_0;
    let d2 = post_spec(d, route, p).0;
    lemma_obj_get_set(es, route, JsonSpec::Arr(s.push(p)));
    let path = route + seq!['/'] + ds;
    assert(path.len() == route.len() + 1 + ds.len());
    assert(path[route.len() as int] == '/');
    assert forall|j: int| route.len() < j < path.len() implies path[j] != '/' by {
        assert(path[j] == ds[j - route.len() - 1]);
        assert(is_digit(ds[j - route.len() - 1]));
        assert('/' as u32 == 47);
    }
    lemma_last_slash_is(path, route.len() as int);
    assert(tail_seg(path) =~= ds);
    assert(base_key(path) =~= route);
    assert(digits_of(ds) == ds) by {
        assert(is_digit(ds[0]));
        assert('+' as u32 == 43);
    }
    assert(route_id(path) == Some(id));
    assert(doc_get(d2, base_key(path)) == Some(JsonSpec::Arr(s.push(p))));
    let pred = |v: JsonSpec| record_matches(v, id);
    lemma_filter_none(s, pred);
    lemma_filter_push(s, pred, p);
    assert(record_id_of(p) == Some(id));
    assert(pred(p));
    assert(matching_only(s.push(p), id) == Seq::<JsonSpec>::empty().push(p));
    assert(Seq::<JsonSpec>::empty().push(p) =~= seq![p]);
}

} // verus!
