//! Startup-time measurements over the document: the longest route key
//! and the widest record id, used to size the request log's columns.

use vstd::prelude::*;
use vstd::utf8::encode_utf8;
use crate::json::{JsonValue, JsonSpec, obj_get, entries_view, vals_view, lemma_view_object,
    lemma_view_array, lemma_key_idx, find_key};

verus! {

pub open spec fn abs_val(n: int) -> int {
    if n >= 0 {
        n
    } else {
        -n
    }
}

/// The number of decimal digits of a non-negative value.
pub open spec fn dec_len(v: int) -> int
    decreases v,
{
    if v < 10 {
        1
    } else {
        1 + dec_len(v / 10)
    }
}

pub open spec fn pow10(k: int) -> int
    decreases k,
{
    if k <= 0 {
        1
    } else {
        10 * pow10(k - 1)
    }
}

proof fn lemma_pow10_pos(k: int)
    ensures
        pow10(k) >= 1,
    decreases k,
{
    if k > 0 {
        lemma_pow10_pos(k - 1);
    }
}

proof fn lemma_dec_len_ge_one(v: int)
    ensures
        dec_len(v) >= 1,
    decreases v,
{
    if v >= 10 {
        lemma_dec_len_ge_one(v / 10);
    }
}

proof fn lemma_dec_len_bound(n: int, k: int)
    requires
        0 <= n,
        1 <= k,
        n < pow10(k),
    ensures
        dec_len(n) <= k,
    decreases k,
{
    if n >= 10 {
        lemma_pow10_pos(k - 1);
        assert(n < 10 * pow10(k - 1));
        assert(10 * (n / 10) <= n) by (nonlinear_arith)
            requires
                n >= 0,
        ;
        assert(n / 10 < pow10(k - 1));
        lemma_dec_len_bound(n / 10, k - 1);
    }
}

proof fn lemma_dec_len_u64(n: int)
    requires
        0 <= n <= u64::MAX,
    ensures
        dec_len(n) <= 20,
{
    reveal_with_fuel(pow10, 25);
    assert(pow10(20) == 100000000000000000000);
    lemma_dec_len_bound(n, 20);
}

/// The number of decimal digits of the absolute value.
pub fn decimal_len(v: u64) -> (r: usize)
    ensures
        r as int == dec_len(v as int),
        r <= 20,
{
    proof {
        lemma_dec_len_u64(v as int);
        lemma_dec_len_ge_one(v as int);
    }
    let mut cur = v;
    let mut c: usize = 1;
    while cur >= 10
        invariant
            dec_len(v as int) == c - 1 + dec_len(cur as int),
            1 <= c,
            c - 1 + 1 <= dec_len(v as int),
            dec_len(v as int) <= 20,
            dec_len(cur as int) >= 1,
        decreases cur,
    {
        cur = cur / 10;
        c += 1;
        proof {
            lemma_dec_len_ge_one(cur as int);
        }
    }
    c
}

/// The integer id a record carries for this measurement: the value of
/// its `id` field when that is an integer of either sign.
pub open spec fn cand_id(v: JsonSpec) -> Option<int> {
    match v {
        JsonSpec::Obj(es) => match obj_get(es, "id"@) {
            Some(JsonSpec::Int(n)) => Some(n),
            _ => None,
        },
        _ => None,
    }
}

pub open spec fn all_have_ids(s: Seq<JsonSpec>) -> bool {
    forall|i: int| 0 <= i < s.len() ==> cand_id(s[i]) is Some
}

pub open spec fn id_digits(v: JsonSpec) -> int {
    dec_len(
        abs_val(
            match cand_id(v) {
                Some(n) => n,
                None => 0,
            },
        ),
    )
}

/// The widest id in the array, in decimal digits.
pub open spec fn max_digits(s: Seq<JsonSpec>) -> int
    decreases s.len(),
{
    if s.len() <= 0 {
        0
    } else {
        let d = id_digits(s.last());
        let m = max_digits(s.drop_last());
        if d >= m {
            d
        } else {
            m
        }
    }
}

/// A route counts when it holds a non-empty array whose every record
/// carries an integer id.
pub open spec fn entry_candidate(e: (Seq<char>, JsonSpec)) -> bool {
    match e.1 {
        JsonSpec::Arr(s) => s.len() > 0 && all_have_ids(s),
        _ => false,
    }
}

/// The byte length of a key, as the platform measures it.
pub open spec fn key_len(k: Seq<char>) -> int {
    (encode_utf8(k).len() as usize) as int
}

pub open spec fn entry_pair(e: (Seq<char>, JsonSpec)) -> (int, int) {
    (key_len(e.0), max_digits(e.1->Arr_0))
}

/// One fold step: a candidate whose combined width reaches the best so
/// far replaces it, so later routes win ties.
pub open spec fn best_step(acc: Option<(int, int)>, e: (Seq<char>, JsonSpec)) -> Option<
    (int, int),
> {
    if entry_candidate(e) {
        let p = entry_pair(e);
        match acc {
            None => Some(p),
            Some(q) => if p.0 + p.1 >= q.0 + q.1 {
                Some(p)
            } else {
                acc
            },
        }
    } else {
        acc
    }
}

pub open spec fn best_fold(es: Seq<(Seq<char>, JsonSpec)>, acc: Option<(int, int)>) -> Option<
    (int, int),
>
    decreases es.len(),
{
    if es.len() <= 0 {
        acc
    } else {
        best_fold(es.drop_first(), best_step(acc, es[0]))
    }
}

proof fn lemma_best_fold_push(
    es: Seq<(Seq<char>, JsonSpec)>,
    acc: Option<(int, int)>,
    e: (Seq<char>, JsonSpec),
)
    ensures
        best_fold(es.push(e), acc) == best_step(best_fold(es, acc), e),
    decreases es.len(),
{
    if es.len() == 0 {
        assert(es.push(e)[0] == e);
        assert(es.push(e).drop_first() =~= es);
        assert(best_fold(es.push(e), acc) == best_fold(es, best_step(acc, e)));
        assert(best_fold(es, best_step(acc, e)) == best_step(acc, e));
        assert(best_fold(es, acc) == acc);
    } else {
        assert(es.push(e)[0] == es[0]);
        assert(es.push(e).drop_first() =~= es.drop_first().push(e));
        lemma_best_fold_push(es.drop_first(), best_step(acc, es[0]), e);
    }
}

/// The route/id widths of the widest candidate route, later routes
/// winning ties; `None` when no route qualifies or the root is not an
/// object.
pub open spec fn key_id_lengths_spec(d: JsonSpec) -> Option<(int, int)> {
    match d {
        JsonSpec::Obj(es) => best_fold(es, None),
        _ => None,
    }
}

/// The id of a record, read with its sign, as the measurement wants it.
fn cand_id_exec(v: &JsonValue) -> (r: Option<i64>)
    ensures
        match r {
            Some(n) => cand_id(v@) == Some(n as int),
            None => cand_id(v@) is None,
        },
{
    match v {
        JsonValue::Object(es) => {
            proof {
                lemma_view_object(*es);
            }
            let id_key: String = "id".to_owned();
            match find_key(es, &id_key) {
                Some(i) => {
                    proof {
                        lemma_key_idx(entries_view(es@), "id"@);
                    }
                    match &es[i].1 {
                        JsonValue::Int(n) => Some(*n),
                        _ => None,
                    }
                },
                None => None,
            }
        },
        _ => None,
    }
}

/// The absolute value, carried out in the unsigned domain so the most
/// negative value needs no special case.
fn abs_u64(n: i64) -> (r: u64)
    ensures
        r as int == abs_val(n as int),
{
    if n >= 0 {
        n as u64
    } else {
        ((-(n + 1)) as u64) + 1
    }
}

/// The widest id of a non-empty all-id array, or `None` when a record
/// lacks an integer id.
fn max_id_digits(arr: &Vec<JsonValue>) -> (r: Option<usize>)
    ensures
        match r {
            Some(d) => all_have_ids(vals_view(arr@)) && d as int == max_digits(vals_view(arr@)),
            None => !all_have_ids(vals_view(arr@)),
        },
{
    let n = arr.len();
    let mut m: usize = 0;
    for i in 0..n
        invariant
            n == arr@.len(),
            all_have_ids(vals_view(arr@).take(i as int)),
            m as int == max_digits(vals_view(arr@).take(i as int)),
            m <= 20,
    {
        let ghost pre = vals_view(arr@).take(i as int);
        proof {
            assert(vals_view(arr@).take(i + 1) =~= pre.push(arr@[i as int]@));
            assert(vals_view(arr@).take(i + 1).drop_last() =~= pre);
        }
        match cand_id_exec(&arr[i]) {
            Some(id) => {
                let d = decimal_len(abs_u64(id));
                if d > m {
                    m = d;
                }
            },
            None => {
                proof {
                    assert(cand_id(vals_view(arr@)[i as int]) is None);
                    assert(!all_have_ids(vals_view(arr@)));
                }
                return None;
            },
        }
    }
    proof {
        assert(vals_view(arr@).take(n as int) =~= vals_view(arr@));
    }
    Some(m)
}

/// Measure the document: the key length and id width of the candidate
/// route with the largest combined width.
pub fn find_key_and_id_lengths(doc: &JsonValue) -> (r: Option<(usize, usize)>)
    ensures
        match r {
            Some(p) => key_id_lengths_spec(doc@) == Some((p.0 as int, p.1 as int)),
            None => key_id_lengths_spec(doc@) is None,
        },
{
    match doc {
        JsonValue::Object(es) => {
            proof {
                lemma_view_object(*es);
            }
            let mut best: Option<(usize, usize)> = None;
            let n = es.len();
            for i in 0..n
                invariant
                    n == es@.len(),
                    match best {
                        Some(p) => best_fold(entries_view(es@).take(i as int), None) == Some(
                            (p.0 as int, p.1 as int),
                        ),
                        None => best_fold(entries_view(es@).take(i as int), None) is None,
                    },
            {
                let ghost pre = entries_view(es@).take(i as int);
                proof {
                    assert(entries_view(es@).take(i + 1) =~= pre.push(
                        entries_view(es@)[i as int],
                    ));
                    lemma_best_fold_push(pre, None, entries_view(es@)[i as int]);
                }
                let cand: Option<(usize, usize)> = match &es[i].1 {
                    JsonValue::Array(arr) => {
                        proof {
                            lemma_view_array(*arr);
                        }
                        if arr.len() > 0 {
                            match max_id_digits(arr) {
                                Some(d) => {
                                    let klen = es[i].0.as_str().len();
                                    proof {
                                        let ev = entries_view(es@)[i as int];
                                        assert(ev.1 == JsonSpec::Arr(vals_view(arr@)));
                                        assert(entry_candidate(ev));
                                        assert(entry_pair(ev).1 == d as int);
                                        assert(entry_pair(ev).0 == klen as int);
                                    }
                                    Some((klen, d))
                                },
                                None => {
                                    proof {
                                        assert(!entry_candidate(entries_view(es@)[i as int]));
                                    }
                                    None
                                },
                            }
                        } else {
                            proof {
                                assert(!entry_candidate(entries_view(es@)[i as int]));
                            }
                            None
                        }
                    },
                    _ => {
                        proof {
                            assert(!entry_candidate(entries_view(es@)[i as int]));
                        }
                        None
                    },
                };
                match cand {
                    Some(p) => {
                        let take = match &best {
                            None => true,
                            Some(q) => (p.0 as u128) + (p.1 as u128) >= (q.0 as u128) + (
                            q.1 as u128),
                        };
                        if take {
                            best = Some(p);
                        }
                    },
                    None => {},
                }
            }
            proof {
                assert(entries_view(es@).take(n as int) =~= entries_view(es@));
            }
            best
        },
        _ => None,
    }
}

} // verus!
