//! The JSON document model: a tagged variant for JSON values, its
//! mathematical view, and the object/record operations that the CRUD
//! engine builds on.

use vstd::prelude::*;

verus! {

/// A JSON value as the store holds it. Numbers are modelled as signed
/// 64-bit integers: the engine only ever reads numbers through their
/// integer interpretation (record ids, sort keys), and a number outside
/// that range behaves exactly like a non-numeric field.
#[derive(Debug, PartialEq, Eq)]
pub enum JsonValue {
    Null,
    Bool(bool),
    Int(i64),
    Str(String),
    Array(Vec<JsonValue>),
    Object(Vec<(String, JsonValue)>),
}

/// The mathematical value of a [`JsonValue`]: strings become character
/// sequences, vectors become sequences, and integers become unbounded.
pub enum JsonSpec {
    Null,
    Bool(bool),
    Int(int),
    Str(Seq<char>),
    Arr(Seq<JsonSpec>),
    Obj(Seq<(Seq<char>, JsonSpec)>),
}

impl JsonValue {
    pub open spec fn view_rec(self) -> JsonSpec
        decreases self,
    {
        match self {
            JsonValue::Null => JsonSpec::Null,
            JsonValue::Bool(b) => JsonSpec::Bool(b),
            JsonValue::Int(n) => JsonSpec::Int(n as int),
            JsonValue::Str(s) => JsonSpec::Str(s@),
            JsonValue::Array(a) => JsonSpec::Arr(
                Seq::new(
                    a@.len(),
                    |i: int|
                        if 0 <= i < a@.len() {
                            a@[i].view_rec()
                        } else {
                            JsonSpec::Null
                        },
                ),
            ),
            JsonValue::Object(es) => JsonSpec::Obj(
                Seq::new(
                    es@.len(),
                    |i: int|
                        if 0 <= i < es@.len() {
                            (es@[i].0@, es@[i].1.view_rec())
                        } else {
                            (Seq::empty(), JsonSpec::Null)
                        },
                ),
            ),
        }
    }
}

impl View for JsonValue {
    type V = JsonSpec;

    open spec fn view(&self) -> JsonSpec {
        self.view_rec()
    }
}

/// The views of a sequence of values, element by element.
pub open spec fn vals_view(a: Seq<JsonValue>) -> Seq<JsonSpec> {
    Seq::new(a.len(), |i: int| a[i]@)
}

/// The views of a sequence of object entries, entry by entry.
pub open spec fn entries_view(es: Seq<(String, JsonValue)>) -> Seq<(Seq<char>, JsonSpec)> {
    Seq::new(es.len(), |i: int| (es[i].0@, es[i].1@))
}

pub proof fn lemma_view_array(a: Vec<JsonValue>)
    ensures
        (JsonValue::Array(a))@ == JsonSpec::Arr(vals_view(a@)),
{
    let v = (JsonValue::Array(a))@;
    assert(v is Arr);
    assert(v->Arr_0 =~= vals_view(a@));
}

pub proof fn lemma_view_object(es: Vec<(String, JsonValue)>)
    ensures
        (JsonValue::Object(es))@ == JsonSpec::Obj(entries_view(es@)),
{
    let v = (JsonValue::Object(es))@;
    assert(v is Obj);
    assert(v->Obj_0 =~= entries_view(es@));
}

/// Index of the first entry with the given key, or -1 when absent.
pub open spec fn key_idx(es: Seq<(Seq<char>, JsonSpec)>, k: Seq<char>) -> int
    decreases es.len(),
{
    if es.len() <= 0 {
        -1
    } else if es[0].0 == k {
        0
    } else {
        let r = key_idx(es.drop_first(), k);
        if r < 0 {
            -1
        } else {
            r + 1
        }
    }
}

pub proof fn lemma_key_idx(es: Seq<(Seq<char>, JsonSpec)>, k: Seq<char>)
    ensures
        key_idx(es, k) == -1 || (0 <= key_idx(es, k) < es.len()),
        key_idx(es, k) >= 0 ==> es[key_idx(es, k)].0 == k,
        forall|j: int| 0 <= j < es.len() && j < key_idx(es, k) ==> es[j].0 != k,
        key_idx(es, k) == -1 ==> forall|j: int| 0 <= j < es.len() ==> es[j].0 != k,
    decreases es.len(),
{
    if es.len() > 0 && es[0].0 != k {
        lemma_key_idx(es.drop_first(), k);
        assert forall|j: int| 0 <= j < es.len() && j < key_idx(es, k) implies es[j].0 != k by {
            if j > 0 {
                assert(es.drop_first()[j - 1] == es[j]);
            }
        }
        if key_idx(es, k) == -1 {
            assert forall|j: int| 0 <= j < es.len() implies es[j].0 != k by {
                if j > 0 {
                    assert(es.drop_first()[j - 1] == es[j]);
                }
            }
        }
    }
}

/// The first-match index is pinned down by its characterisation.
pub proof fn lemma_key_idx_is(es: Seq<(Seq<char>, JsonSpec)>, k: Seq<char>, i: int)
    requires
        0 <= i < es.len(),
        es[i].0 == k,
        forall|j: int| 0 <= j < i ==> es[j].0 != k,
    ensures
        key_idx(es, k) == i,
    decreases es.len(),
{
    if i > 0 {
        lemma_key_idx_is(es.drop_first(), k, i - 1);
    }
}

/// First value stored under the key, if any.
pub open spec fn obj_get(es: Seq<(Seq<char>, JsonSpec)>, k: Seq<char>) -> Option<JsonSpec> {
    if key_idx(es, k) >= 0 {
        Some(es[key_idx(es, k)].1)
    } else {
        None
    }
}

/// Replace the first entry with the key, or append a new one.
pub open spec fn obj_set(
    es: Seq<(Seq<char>, JsonSpec)>,
    k: Seq<char>,
    v: JsonSpec,
) -> Seq<(Seq<char>, JsonSpec)> {
    if key_idx(es, k) >= 0 {
        es.update(key_idx(es, k), (k, v))
    } else {
        es.push((k, v))
    }
}

/// Lookup of a top-level key: only objects hold keys.
pub open spec fn doc_get(d: JsonSpec, k: Seq<char>) -> Option<JsonSpec> {
    match d {
        JsonSpec::Obj(es) => obj_get(es, k),
        _ => None,
    }
}

/// Store a value under a top-level key of an object document; any other
/// document is left unchanged.
pub open spec fn doc_set(d: JsonSpec, k: Seq<char>, v: JsonSpec) -> JsonSpec {
    match d {
        JsonSpec::Obj(es) => JsonSpec::Obj(obj_set(es, k, v)),
        _ => d,
    }
}

pub proof fn lemma_obj_get_set(es: Seq<(Seq<char>, JsonSpec)>, k: Seq<char>, v: JsonSpec)
    ensures
        obj_get(obj_set(es, k, v), k) == Some(v),
{
    lemma_key_idx(es, k);
    let es2 = obj_set(es, k, v);
    if key_idx(es, k) >= 0 {
        lemma_key_idx_is(es2, k, key_idx(es, k));
    } else {
        lemma_key_idx_is(es2, k, es.len() as int);
    }
}

/// The numeric id of a record: present only when the record is an object
/// whose first `id` entry holds a non-negative integer.
pub open spec fn record_id_of(v: JsonSpec) -> Option<int> {
    match v {
        JsonSpec::Obj(es) => match obj_get(es, "id"@) {
            Some(JsonSpec::Int(n)) => if 0 <= n {
                Some(n)
            } else {
                None
            },
            _ => None,
        },
        _ => None,
    }
}

pub open spec fn record_matches(v: JsonSpec, id: int) -> bool {
    record_id_of(v) == Some(id)
}

/// Index of the first record with the given id, or -1 when none matches.
pub open spec fn first_match(s: Seq<JsonSpec>, id: int) -> int
    decreases s.len(),
{
    if s.len() <= 0 {
        -1
    } else if record_matches(s[0], id) {
        0
    } else {
        let r = first_match(s.drop_first(), id);
        if r < 0 {
            -1
        } else {
            r + 1
        }
    }
}

pub proof fn lemma_first_match(s: Seq<JsonSpec>, id: int)
    ensures
        first_match(s, id) == -1 || (0 <= first_match(s, id) < s.len()),
        first_match(s, id) >= 0 ==> record_matches(s[first_match(s, id)], id),
        forall|j: int| 0 <= j < s.len() && j < first_match(s, id) ==> !record_matches(s[j], id),
        first_match(s, id) == -1 ==> forall|j: int| 0 <= j < s.len() ==> !record_matches(s[j], id),
    decreases s.len(),
{
    if s.len() > 0 && !record_matches(s[0], id) {
        lemma_first_match(s.drop_first(), id);
        assert forall|j: int| 0 <= j < s.len() && j < first_match(s, id) implies !record_matches(
            s[j],
            id,
        ) by {
            if j > 0 {
                assert(s.drop_first()[j - 1] == s[j]);
            }
        }
        if first_match(s, id) == -1 {
            assert forall|j: int| 0 <= j < s.len() implies !record_matches(s[j], id) by {
                if j > 0 {
                    assert(s.drop_first()[j - 1] == s[j]);
                }
            }
        }
    }
}

pub proof fn lemma_first_match_is(s: Seq<JsonSpec>, id: int, i: int)
    requires
        0 <= i < s.len(),
        record_matches(s[i], id),
        forall|j: int| 0 <= j < i ==> !record_matches(s[j], id),
    ensures
        first_match(s, id) == i,
    decreases s.len(),
{
    if i > 0 {
        lemma_first_match_is(s.drop_first(), id, i - 1);
    }
}

/// A structurally equal copy of a JSON value.
pub fn deep_copy(v: &JsonValue) -> (r: JsonValue)
    ensures
        r@ == v@,
    decreases *v,
{
    match v {
        JsonValue::Null => JsonValue::Null,
        JsonValue::Bool(b) => JsonValue::Bool(*b),
        JsonValue::Int(n) => JsonValue::Int(*n),
        JsonValue::Str(s) => JsonValue::Str(s.clone()),
        JsonValue::Array(a) => {
            let mut out: Vec<JsonValue> = Vec::new();
            let n = a.len();
            for i in 0..n
                invariant
                    *v == JsonValue::Array(*a),
                    n == a@.len(),
                    out@.len() == i,
                    forall|j: int| 0 <= j < i ==> out@[j]@ == a@[j]@,
            {
                proof {
                    assert(decreases_to!(*v => v->Array_0));
                    assert(v->Array_0 == *a);
                    assert(decreases_to!(*a => a@));
                    assert(decreases_to!(a@ => a@[i as int]));
                }
                out.push(deep_copy(&a[i]));
            }
            proof {
                lemma_view_array(out);
                lemma_view_array(*a);
                assert(vals_view(out@) =~= vals_view(a@));
            }
            JsonValue::Array(out)
        },
        JsonValue::Object(es) => {
            let mut out: Vec<(String, JsonValue)> = Vec::new();
            let n = es.len();
            for i in 0..n
                invariant
                    *v == JsonValue::Object(*es),
                    n == es@.len(),
                    out@.len() == i,
                    forall|j: int|
                        0 <= j < i ==> out@[j].0@ == es@[j].0@ && out@[j].1@ == es@[j].1@,
            {
                proof {
                    assert(decreases_to!(*v => v->Object_0));
                    assert(v->Object_0 == *es);
                    assert(decreases_to!(*es => es@));
                    assert(decreases_to!(es@ => es@[i as int]));
                    assert(decreases_to!(es@[i as int] => es@[i as int].1));
                }
                let key = es[i].0.clone();
                let val = deep_copy(&es[i].1);
                out.push((key, val));
            }
            proof {
                lemma_view_object(out);
                lemma_view_object(*es);
                assert(entries_view(out@) =~= entries_view(es@));
            }
            JsonValue::Object(out)
        },
    }
}

/// First entry whose key equals `k`, scanning in storage order.
pub fn find_key(es: &Vec<(String, JsonValue)>, k: &String) -> (r: Option<usize>)
    ensures
        match r {
            Some(i) => key_idx(entries_view(es@), k@) == i as int,
            None => key_idx(entries_view(es@), k@) == -1,
        },
{
    let n = es.len();
    for i in 0..n
        invariant
            n == es@.len(),
            forall|j: int| 0 <= j < i ==> entries_view(es@)[j].0 != k@,
    {
        if es[i].0 == *k {
            proof {
                lemma_key_idx_is(entries_view(es@), k@, i as int);
            }
            return Some(i);
        }
    }
    proof {
        lemma_key_idx(entries_view(es@), k@);
        if key_idx(entries_view(es@), k@) >= 0 {
            assert(entries_view(es@)[key_idx(entries_view(es@), k@)].0 == k@);
        }
    }
    None
}

/// The id of a record, read through the integer interpretation.
pub fn record_id(v: &JsonValue) -> (r: Option<u64>)
    ensures
        match r {
            Some(n) => record_id_of(v@) == Some(n as int),
            None => record_id_of(v@) is None,
        },
{
    match v {
        JsonValue::Object(es) => {
            proof {
                lemma_view_object(*es);
            }
            let id_key: String = "id".to_owned();
            match find_key(es, &id_key) {
                Some(i) => {
                    proof {
                        lemma_key_idx(entries_view(es@), "id"@);
                    }
                    match &es[i].1 {
                        JsonValue::Int(n) => {
                            if *n >= 0 {
                                Some(*n as u64)
                            } else {
                                None
                            }
                        },
                        _ => None,
                    }
                },
                None => None,
            }
        },
        _ => None,
    }
}

/// First record in the array whose id equals `id`.
pub fn find_record(arr: &Vec<JsonValue>, id: u64) -> (r: Option<usize>)
    ensures
        match r {
            Some(i) => first_match(vals_view(arr@), id as int) == i as int,
            None => first_match(vals_view(arr@), id as int) == -1,
        },
{
    let n = arr.len();
    for i in 0..n
        invariant
            n == arr@.len(),
            forall|j: int| 0 <= j < i ==> !record_matches(vals_view(arr@)[j], id as int),
    {
        match record_id(&arr[i]) {
            Some(found) => {
                if found == id {
                    proof {
                        lemma_first_match_is(vals_view(arr@), id as int, i as int);
                    }
                    return Some(i);
                }
            },
            None => {},
        }
    }
    proof {
        lemma_first_match(vals_view(arr@), id as int);
        if first_match(vals_view(arr@), id as int) >= 0 {
            assert(record_matches(
                vals_view(arr@)[first_match(vals_view(arr@), id as int)],
                id as int,
            ));
        }
    }
    None
}

/// The records kept after removing every record whose id equals `id`.
pub open spec fn without_id(s: Seq<JsonSpec>, id: int) -> Seq<JsonSpec> {
    s.filter(|v: JsonSpec| !record_matches(v, id))
}

/// The records whose id equals `id`, in order.
pub open spec fn matching_only(s: Seq<JsonSpec>, id: int) -> Seq<JsonSpec> {
    s.filter(|v: JsonSpec| record_matches(v, id))
}

pub proof fn lemma_filter_push<A>(s: Seq<A>, pred: spec_fn(A) -> bool, x: A)
    ensures
        s.push(x).filter(pred) == if pred(x) {
            s.filter(pred).push(x)
        } else {
            s.filter(pred)
        },
{
    reveal(Seq::filter);
    assert(s.push(x).drop_last() =~= s);
    assert(s.push(x).last() == x);
}

/// A filter whose predicate holds everywhere keeps the sequence.
pub proof fn lemma_filter_all<A>(s: Seq<A>, pred: spec_fn(A) -> bool)
    requires
        forall|i: int| 0 <= i < s.len() ==> pred(s[i]),
    ensures
        s.filter(pred) == s,
    decreases s.len(),
{
    reveal(Seq::filter);
    if s.len() > 0 {
        assert(forall|i: int| 0 <= i < s.drop_last().len() ==> pred(#[trigger] s.drop_last()[i]));
        lemma_filter_all(s.drop_last(), pred);
        assert(s.drop_last().push(s.last()) =~= s);
    }
}

/// A filter whose predicate holds nowhere keeps nothing.
pub proof fn lemma_filter_none<A>(s: Seq<A>, pred: spec_fn(A) -> bool)
    requires
        forall|i: int| 0 <= i < s.len() ==> !pred(s[i]),
    ensures
        s.filter(pred) == Seq::<A>::empty(),
    decreases s.len(),
{
    reveal(Seq::filter);
    if s.len() > 0 {
        assert(forall|i: int| 0 <= i < s.drop_last().len() ==> !pred(#[trigger] s.drop_last()[i]));
        lemma_filter_none(s.drop_last(), pred);
    }
}

/// Copies of the records selected by id: the matches when `keep` is set,
/// otherwise everything but the matches.
pub fn select_records(arr: &Vec<JsonValue>, id: u64, keep: bool) -> (r: Vec<JsonValue>)
    ensures
        keep ==> vals_view(r@) == matching_only(vals_view(arr@), id as int),
        !keep ==> vals_view(r@) == without_id(vals_view(arr@), id as int),
{
    let mut out: Vec<JsonValue> = Vec::new();
    let n = arr.len();
    for i in 0..n
        invariant
            n == arr@.len(),
            keep ==> vals_view(out@) == matching_only(vals_view(arr@).take(i as int), id as int),
            !keep ==> vals_view(out@) == without_id(vals_view(arr@).take(i as int), id as int),
    {
        let matches = match record_id(&arr[i]) {
            Some(found) => found == id,
            None => false,
        };
        let ghost prev = vals_view(out@);
        let ghost pre = vals_view(arr@).take(i as int);
        proof {
            assert(vals_view(arr@).take(i + 1) =~= pre.push(arr@[i as int]@));
            if keep {
                lemma_filter_push(pre, |v: JsonSpec| record_matches(v, id as int), arr@[i as int]@);
            } else {
                lemma_filter_push(pre, |v: JsonSpec| !record_matches(v, id as int), arr@[i as int]@);
            }
        }
        if matches == keep {
            out.push(deep_copy(&arr[i]));
            proof {
                assert(vals_view(out@) =~= prev.push(arr@[i as int]@));
            }
        }
    }
    proof {
        assert(vals_view(arr@).take(n as int) =~= vals_view(arr@));
    }
    out
}

} // verus!
