//! The query pipeline applied to GET responses: a stable sort by a
//! configured numeric field, then pagination, in that fixed order.

use vstd::prelude::*;
use crate::json::{obj_get, vals_view, entries_view, lemma_key_idx, lemma_view_object,
    lemma_view_array, find_key, JsonSpec, JsonValue};

verus! {

/// One configured sort rule: the route it applies to, the record field
/// compared, and the direction.
#[derive(Debug, Clone, PartialEq, Eq)]
pub struct SortRule {
    pub route: String,
    pub field: String,
    pub ascending: bool,
}

/// The sort key a record contributes: its field's integer value, with a
/// missing field, a non-integer field, or a non-object record all
/// reading as 0.
pub open spec fn sort_key_of(v: JsonSpec, field: Seq<char>) -> int {
    match v {
        JsonSpec::Obj(es) => match obj_get(es, field) {
            Some(JsonSpec::Int(n)) => n,
            _ => 0,
        },
        _ => 0,
    }
}

/// Whether `a` must come strictly before `b` in the configured order.
pub open spec fn key_lt(a: JsonSpec, b: JsonSpec, field: Seq<char>, asc: bool) -> bool {
    if asc {
        sort_key_of(a, field) < sort_key_of(b, field)
    } else {
        sort_key_of(a, field) > sort_key_of(b, field)
    }
}

/// Non-decreasing (ascending) or non-increasing (descending) in the
/// configured field.
pub open spec fn sorted_by(s: Seq<JsonSpec>, field: Seq<char>, asc: bool) -> bool {
    forall|p: int, q: int| 0 <= p < q < s.len() ==> !key_lt(s[q], s[p], field, asc)
}

/// Where a stable insertion places `x`: after every element it does not
/// strictly precede.
pub open spec fn insert_pos(s: Seq<JsonSpec>, x: JsonSpec, field: Seq<char>, asc: bool) -> int
    decreases s.len(),
{
    if s.len() <= 0 {
        0
    } else if key_lt(x, s[0], field, asc) {
        0
    } else {
        1 + insert_pos(s.drop_first(), x, field, asc)
    }
}

pub proof fn lemma_insert_pos(s: Seq<JsonSpec>, x: JsonSpec, field: Seq<char>, asc: bool)
    ensures
        0 <= insert_pos(s, x, field, asc) <= s.len(),
        forall|q: int| 0 <= q < insert_pos(s, x, field, asc) ==> !key_lt(x, s[q], field, asc),
        insert_pos(s, x, field, asc) < s.len() ==> key_lt(
            x,
            s[insert_pos(s, x, field, asc)],
            field,
            asc,
        ),
    decreases s.len(),
{
    if s.len() > 0 && !key_lt(x, s[0], field, asc) {
        lemma_insert_pos(s.drop_first(), x, field, asc);
        assert forall|q: int| 0 <= q < insert_pos(s, x, field, asc) implies !key_lt(
            x,
            s[q],
            field,
            asc,
        ) by {
            if q > 0 {
                assert(s.drop_first()[q - 1] == s[q]);
            }
        }
    }
}

pub proof fn lemma_insert_pos_is(
    s: Seq<JsonSpec>,
    x: JsonSpec,
    field: Seq<char>,
    asc: bool,
    p: int,
)
    requires
        0 <= p <= s.len(),
        forall|q: int| 0 <= q < p ==> !key_lt(x, s[q], field, asc),
        p < s.len() ==> key_lt(x, s[p], field, asc),
    ensures
        insert_pos(s, x, field, asc) == p,
    decreases s.len(),
{
    if s.len() > 0 && !key_lt(x, s[0], field, asc) {
        lemma_insert_pos_is(s.drop_first(), x, field, asc, p - 1);
    }
}

/// Stable insertion of `x` into an already sorted sequence.
pub open spec fn insert_sorted(s: Seq<JsonSpec>, x: JsonSpec, field: Seq<char>, asc: bool) -> Seq<
    JsonSpec,
>
    decreases s.len(),
{
    if s.len() <= 0 {
        seq![x]
    } else if key_lt(x, s.last(), field, asc) {
        insert_sorted(s.drop_last(), x, field, asc).push(s.last())
    } else {
        s.push(x)
    }
}

/// The stable sort itself: insert each element, left to right.
pub open spec fn sort_spec(s: Seq<JsonSpec>, field: Seq<char>, asc: bool) -> Seq<JsonSpec>
    decreases s.len(),
{
    if s.len() <= 0 {
        Seq::empty()
    } else {
        insert_sorted(sort_spec(s.drop_last(), field, asc), s.last(), field, asc)
    }
}

/// A stable insertion into a sorted sequence splits it at the insertion
/// position.
pub proof fn lemma_insert_sorted_shape(s: Seq<JsonSpec>, x: JsonSpec, field: Seq<char>, asc: bool)
    requires
        sorted_by(s, field, asc),
    ensures
        insert_sorted(s, x, field, asc) == s.take(insert_pos(s, x, field, asc)) + seq![x] + s.skip(
            insert_pos(s, x, field, asc),
        ),
    decreases s.len(),
{
    let p = insert_pos(s, x, field, asc);
    lemma_insert_pos(s, x, field, asc);
    if s.len() == 0 {
        assert(insert_sorted(s, x, field, asc) =~= s.take(p) + seq![x] + s.skip(p));
    } else if key_lt(x, s.last(), field, asc) {
        assert(p < s.len()) by {
            if p == s.len() {
                assert(!key_lt(x, s[s.len() - 1], field, asc));
            }
        }
        let d = s.drop_last();
        assert(sorted_by(d, field, asc)) by {
            assert(forall|a: int, b: int|
                0 <= a < b < d.len() ==> d[a] == s[a] && d[b] == s[b]);
        }
        lemma_insert_sorted_shape(d, x, field, asc);
        lemma_insert_pos_is(d, x, field, asc, p);
        assert(d.take(p) =~= s.take(p));
        assert((d.take(p) + seq![x] + d.skip(p)).push(s.last()) =~= s.take(p) + seq![x] + s.skip(
            p,
        ));
    } else {
        assert(p == s.len()) by {
            if p < s.len() {
                assert(key_lt(x, s[p], field, asc));
                assert(!key_lt(s[s.len() - 1], s[p], field, asc));
                assert(!key_lt(x, s.last(), field, asc));
            }
        }
        assert(s.push(x) =~= s.take(p) + seq![x] + s.skip(p));
    }
}

pub proof fn lemma_insert_sorted_sorted(s: Seq<JsonSpec>, x: JsonSpec, field: Seq<char>, asc: bool)
    requires
        sorted_by(s, field, asc),
    ensures
        sorted_by(insert_sorted(s, x, field, asc), field, asc),
{
    let p = insert_pos(s, x, field, asc);
    lemma_insert_pos(s, x, field, asc);
    lemma_insert_sorted_shape(s, x, field, asc);
    let t = insert_sorted(s, x, field, asc);
    assert(t.len() == s.len() + 1);
    assert forall|a: int| 0 <= a < t.len() implies t[a] == if a < p {
        s[a]
    } else if a == p {
        x
    } else {
        s[a - 1]
    } by {
        if a < p {
            assert(t[a] == s.take(p)[a]);
        } else if a > p {
            assert(t[a] == s.skip(p)[a - p - 1]);
        }
    }
    assert forall|a: int, b: int| 0 <= a < b < t.len() implies !key_lt(t[b], t[a], field, asc) by {
        if a < p && b == p {
            assert(!key_lt(x, s[a], field, asc));
        } else if a == p && b > p {
            assert(key_lt(x, s[p], field, asc));
            assert(!key_lt(s[b - 1], s[p], field, asc) || b - 1 == p);
        } else if a < p && b > p {
            assert(!key_lt(s[b - 1], s[a], field, asc) || b - 1 == a);
        }
    }
}

pub proof fn lemma_sort_spec_sorted(s: Seq<JsonSpec>, field: Seq<char>, asc: bool)
    ensures
        sorted_by(sort_spec(s, field, asc), field, asc),
    decreases s.len(),
{
    if s.len() > 0 {
        lemma_sort_spec_sorted(s.drop_last(), field, asc);
        lemma_insert_sorted_sorted(sort_spec(s.drop_last(), field, asc), s.last(), field, asc);
    }
}

pub proof fn lemma_insert_sorted_len(s: Seq<JsonSpec>, x: JsonSpec, field: Seq<char>, asc: bool)
    ensures
        insert_sorted(s, x, field, asc).len() == s.len() + 1,
    decreases s.len(),
{
    if s.len() > 0 && key_lt(x, s.last(), field, asc) {
        lemma_insert_sorted_len(s.drop_last(), x, field, asc);
    }
}

pub proof fn lemma_sort_spec_len(s: Seq<JsonSpec>, field: Seq<char>, asc: bool)
    ensures
        sort_spec(s, field, asc).len() == s.len(),
    decreases s.len(),
{
    if s.len() > 0 {
        lemma_sort_spec_len(s.drop_last(), field, asc);
        lemma_insert_sorted_len(sort_spec(s.drop_last(), field, asc), s.last(), field, asc);
    }
}

/// Sorting permutes the records: nothing is lost or invented.
pub proof fn lemma_sort_spec_multiset(s: Seq<JsonSpec>, field: Seq<char>, asc: bool)
    ensures
        sort_spec(s, field, asc).to_multiset() == s.to_multiset(),
    decreases s.len(),
{
    broadcast use vstd::seq_lib::group_to_multiset_ensures;

    if s.len() > 0 {
        let d = s.drop_last();
        lemma_sort_spec_multiset(d, field, asc);
        lemma_sort_spec_sorted(d, field, asc);
        let sd = sort_spec(d, field, asc);
        let x = s.last();
        let p = insert_pos(sd, x, field, asc);
        lemma_insert_pos(sd, x, field, asc);
        lemma_insert_sorted_shape(sd, x, field, asc);
        vstd::seq_lib::lemma_multiset_commutative(sd.take(p) + seq![x], sd.skip(p));
        vstd::seq_lib::lemma_multiset_commutative(sd.take(p), seq![x]);
        vstd::seq_lib::lemma_multiset_commutative(sd.take(p), sd.skip(p));
        assert(sd.take(p) + sd.skip(p) =~= sd);
        assert((sd.take(p) + seq![x] + sd.skip(p)).to_multiset() =~= sd.to_multiset().insert(x));
        assert(s =~= d.push(x));
    }
}

/// The exec sort key of a record.
pub fn key_i64(v: &JsonValue, field: &String) -> (r: i64)
    ensures
        r as int == sort_key_of(v@, field@),
{
    match v {
        JsonValue::Object(es) => {
            proof {
                lemma_view_object(*es);
            }
            match find_key(es, field) {
                Some(i) => {
                    proof {
                        lemma_key_idx(entries_view(es@), field@);
                    }
                    match &es[i].1 {
                        JsonValue::Int(n) => *n,
                        _ => 0,
                    }
                },
                None => 0,
            }
        },
        _ => 0,
    }
}

fn lt_exec(a: &JsonValue, b: &JsonValue, field: &String, asc: bool) -> (r: bool)
    ensures
        r == key_lt(a@, b@, field@, asc),
{
    let ka = key_i64(a, field);
    let kb = key_i64(b, field);
    if asc {
        ka < kb
    } else {
        ka > kb
    }
}

/// Compare two records by the numeric field `key`; any `order` other
/// than `asc` compares descending, as the configured rules do.
pub fn compare_values(a: &JsonValue, b: &JsonValue, key: &String, order: &String) -> (r:
    core::cmp::Ordering)
    ensures
        ({
            let asc = order@ == "asc"@;
            &&& (r == core::cmp::Ordering::Less <==> key_lt(a@, b@, key@, asc))
            &&& (r == core::cmp::Ordering::Greater <==> key_lt(b@, a@, key@, asc))
            &&& (r == core::cmp::Ordering::Equal <==> sort_key_of(a@, key@) == sort_key_of(
                b@,
                key@,
            ))
        }),
{
    let asc_lit: String = "asc".to_owned();
    let asc = *order == asc_lit;
    let ka = key_i64(a, key);
    let kb = key_i64(b, key);
    let (x, y) = if asc {
        (ka, kb)
    } else {
        (kb, ka)
    };
    if x < y {
        core::cmp::Ordering::Less
    } else if x == y {
        core::cmp::Ordering::Equal
    } else {
        core::cmp::Ordering::Greater
    }
}

/// Stable in-place sort of the records by the configured field.
pub fn sort_records(arr: &mut Vec<JsonValue>, field: &String, asc: bool)
    ensures
        vals_view(final(arr)@) == sort_spec(vals_view(old(arr)@), field@, asc),
{
    let ghost ovec = arr@;
    let ghost orig = vals_view(arr@);
    let n = arr.len();
    if n <= 1 {
        proof {
            if n == 0 {
                assert(vals_view(arr@) =~= sort_spec(orig, field@, asc));
            } else {
                assert(orig.drop_last() =~= Seq::<JsonSpec>::empty());
                assert(sort_spec(orig.drop_last(), field@, asc) =~= Seq::<JsonSpec>::empty());
                assert(vals_view(arr@) =~= insert_sorted(
                    Seq::<JsonSpec>::empty(),
                    orig.last(),
                    field@,
                    asc,
                ));
            }
        }
        return ;
    }
    let mut i: usize = 1;
    proof {
        assert(vals_view(arr@.take(1)) =~= insert_sorted(
            Seq::<JsonSpec>::empty(),
            orig[0],
            field@,
            asc,
        ));
        assert(orig.take(1).drop_last() =~= Seq::<JsonSpec>::empty());
        assert(sort_spec(orig.take(1).drop_last(), field@, asc) =~= Seq::<JsonSpec>::empty());
        assert(orig.take(1).last() == orig[0]);
    }
    while i < n
        invariant
            1 <= i <= n,
            n == arr@.len(),
            n == ovec.len(),
            orig == vals_view(ovec),
            vals_view(arr@.take(i as int)) == sort_spec(orig.take(i as int), field@, asc),
            arr@.skip(i as int) == ovec.skip(i as int),
        decreases n - i,
    {
        let ghost s = arr@;
        let ghost prefix = vals_view(s.take(i as int));
        proof {
            lemma_sort_spec_sorted(orig.take(i as int), field@, asc);
        }
        let mut p: usize = 0;
        while p < i
            invariant
                0 <= p <= i < n,
                n == arr@.len(),
                s == arr@,
                prefix == vals_view(s.take(i as int)),
                forall|q: int| 0 <= q < p ==> !key_lt(s[i as int]@, prefix[q], field@, asc),
            ensures
                0 <= p <= i,
                forall|q: int| 0 <= q < p ==> !key_lt(s[i as int]@, prefix[q], field@, asc),
                p < i ==> key_lt(s[i as int]@, prefix[p as int], field@, asc),
            decreases i - p,
        {
            if lt_exec(&arr[i], &arr[p], field, asc) {
                proof {
                    assert(prefix[p as int] == s[p as int]@);
                }
                break ;
            }
            proof {
                assert(prefix[p as int] == s[p as int]@);
            }
            p += 1;
        }
        proof {
            lemma_insert_pos_is(prefix, s[i as int]@, field@, asc, p as int);
        }
        let x = arr.remove(i);
        arr.insert(p, x);
        proof {
            let xa = s[i as int];
            let u = arr@;
            assert(u == s.remove(i as int).insert(p as int, xa));
            lemma_insert_sorted_shape(prefix, xa@, field@, asc);
            assert(orig.take(i + 1).drop_last() =~= orig.take(i as int));
            assert(orig.take(i + 1).last() == orig[i as int]);
            assert(s.skip(i as int)[0] == ovec.skip(i as int)[0]);
            assert(xa@ == orig[i as int]);
            assert(vals_view(u.take(i + 1)) =~= prefix.take(p as int) + seq![xa@] + prefix.skip(
                p as int,
            )) by {
                assert forall|a: int| 0 <= a < i + 1 implies vals_view(u.take(i + 1))[a] == (
                prefix.take(p as int) + seq![xa@] + prefix.skip(p as int))[a] by {
                    if a < p {
                        assert(u[a] == s[a]);
                        assert(prefix[a] == s[a]@);
                    } else if a == p {
                        assert(u[a] == xa);
                    } else {
                        assert(u[a] == s.remove(i as int)[a - 1]);
                        assert(s.remove(i as int)[a - 1] == s[a - 1]);
                        assert((prefix.take(p as int) + seq![xa@] + prefix.skip(p as int))[a]
                            == prefix.skip(p as int)[a - p - 1]);
                        assert(prefix.skip(p as int)[a - p - 1] == prefix[a - 1]);
                        assert(prefix[a - 1] == s[a - 1]@);
                    }
                }
            }
            assert(vals_view(u.take(i + 1)) == sort_spec(orig.take(i + 1), field@, asc));
            assert(u.skip(i + 1) =~= ovec.skip(i + 1)) by {
                assert forall|a: int| 0 <= a < u.len() - i - 1 implies #[trigger] u.skip(i + 1)[a]
                    == ovec.skip(i + 1)[a] by {
                    assert(u.skip(i + 1)[a] == u[a + i + 1]);
                    assert(u[a + i + 1] == s.remove(i as int)[a + i]);
                    assert(s.remove(i as int)[a + i] == s[a + i + 1]);
                    assert(s.skip(i as int)[a + 1] == ovec.skip(i as int)[a + 1]);
                }
            }
        }
        i += 1;
    }
    proof {
        assert(arr@.take(n as int) =~= arr@);
        assert(orig.take(n as int) =~= orig);
    }
}

/// Index of the first sort rule configured for the route, or -1.
pub open spec fn rule_idx(rules: Seq<SortRule>, route: Seq<char>) -> int
    decreases rules.len(),
{
    if rules.len() <= 0 {
        -1
    } else if rules[0].route@ == route {
        0
    } else {
        let r = rule_idx(rules.drop_first(), route);
        if r < 0 {
            -1
        } else {
            r + 1
        }
    }
}

pub proof fn lemma_rule_idx(rules: Seq<SortRule>, route: Seq<char>)
    ensures
        rule_idx(rules, route) == -1 || (0 <= rule_idx(rules, route) < rules.len()),
        rule_idx(rules, route) >= 0 ==> rules[rule_idx(rules, route)].route@ == route,
        forall|j: int|
            0 <= j < rules.len() && j < rule_idx(rules, route) ==> rules[j].route@ != route,
        rule_idx(rules, route) == -1 ==> forall|j: int|
            0 <= j < rules.len() ==> rules[j].route@ != route,
    decreases rules.len(),
{
    if rules.len() > 0 && rules[0].route@ != route {
        lemma_rule_idx(rules.drop_first(), route);
        assert forall|j: int|
            0 <= j < rules.len() && j < rule_idx(rules, route) implies rules[j].route@
            != route by {
            if j > 0 {
                assert(rules.drop_first()[j - 1] == rules[j]);
            }
        }
        if rule_idx(rules, route) == -1 {
            assert forall|j: int| 0 <= j < rules.len() implies rules[j].route@ != route by {
                if j > 0 {
                    assert(rules.drop_first()[j - 1] == rules[j]);
                }
            }
        }
    }
}

pub proof fn lemma_rule_idx_is(rules: Seq<SortRule>, route: Seq<char>, i: int)
    requires
        0 <= i < rules.len(),
        rules[i].route@ == route,
        forall|j: int| 0 <= j < i ==> rules[j].route@ != route,
    ensures
        rule_idx(rules, route) == i,
    decreases rules.len(),
{
    if i > 0 {
        lemma_rule_idx_is(rules.drop_first(), route, i - 1);
    }
}

/// The value after the sort step: sorted only when a rule names the
/// route exactly and the value is an array of more than one record.
pub open spec fn sorted_value(v: JsonSpec, rules: Seq<SortRule>, route: Seq<char>) -> JsonSpec {
    if rule_idx(rules, route) >= 0 {
        let r = rules[rule_idx(rules, route)];
        match v {
            JsonSpec::Arr(s) => if s.len() > 1 {
                JsonSpec::Arr(sort_spec(s, r.field@, r.ascending))
            } else {
                v
            },
            _ => v,
        }
    } else {
        v
    }
}

/// The value after the pagination step: an array longer than a positive
/// limit is cut to its first `limit` records.
pub open spec fn paginate_spec(v: JsonSpec, limit: int) -> JsonSpec {
    match v {
        JsonSpec::Arr(s) => if limit > 0 && s.len() > limit {
            JsonSpec::Arr(s.take(limit))
        } else {
            v
        },
        _ => v,
    }
}

/// The whole pipeline: sort, then paginate.
pub open spec fn query_spec(v: JsonSpec, rules: Seq<SortRule>, route: Seq<char>, limit: int)
    -> JsonSpec {
    paginate_spec(sorted_value(v, rules, route), limit)
}

/// First configured rule for the route.
pub fn find_rule<'a>(rules: &'a Vec<SortRule>, route: &String) -> (r: Option<&'a SortRule>)
    ensures
        match r {
            Some(rule) => rule_idx(rules@, route@) >= 0 && *rule == rules@[rule_idx(
                rules@,
                route@,
            )],
            None => rule_idx(rules@, route@) == -1,
        },
{
    let n = rules.len();
    for i in 0..n
        invariant
            n == rules@.len(),
            forall|j: int| 0 <= j < i ==> rules@[j].route@ != route@,
    {
        if rules[i].route == *route {
            proof {
                lemma_rule_idx_is(rules@, route@, i as int);
            }
            return Some(&rules[i]);
        }
    }
    proof {
        lemma_rule_idx(rules@, route@);
        if rule_idx(rules@, route@) >= 0 {
            assert(rules@[rule_idx(rules@, route@)].route@ == route@);
        }
    }
    None
}

/// Apply the configured pipeline to a cloned response value.
pub fn apply_query(v: JsonValue, rules: &Vec<SortRule>, route: &String, limit: u64) -> (r:
    JsonValue)
    ensures
        r@ == query_spec(v@, rules@, route@, limit as int),
{
    let sorted = match find_rule(rules, route) {
        Some(rule) => {
            match v {
                JsonValue::Array(mut a) => {
                    proof {
                        lemma_view_array(a);
                    }
                    if a.len() > 1 {
                        sort_records(&mut a, &rule.field, rule.ascending);
                    }
                    proof {
                        lemma_view_array(a);
                    }
                    JsonValue::Array(a)
                },
                other => other,
            }
        },
        None => v,
    };
    match sorted {
        JsonValue::Array(mut a) => {
            proof {
                lemma_view_array(a);
            }
            let ghost pre = a@;
            if limit > 0 && (a.len() as u64) > limit {
                a.truncate(limit as usize);
                proof {
                    lemma_view_array(a);
                    assert(vals_view(a@) =~= vals_view(pre).take(limit as int));
                }
            }
            JsonValue::Array(a)
        },
        other => other,
    }
}

} // verus!
