//! The route resolver: splits a request path into a document key and an
//! optional trailing numeric record id, purely syntactically.

use vstd::prelude::*;
use vstd::std_specs::iter::IteratorSpec;

verus! {

broadcast use vstd::string::axiom_spec_iter, vstd::string::next_postcondition;

/// The characters of a string slice, in order.
pub fn chars_of(s: &str) -> (r: Vec<char>)
    ensures
        r@ == s@,
{
    let mut it = s.chars();
    let mut out: Vec<char> = Vec::new();
    proof {
        assert(Seq::<char>::empty() + it.remaining() =~= it.remaining());
    }
    loop
        invariant
            it.obeys_prophetic_iter_laws(),
            it.decrease() is Some,
            out@ + it.remaining() == s@,
        ensures
            out@ == s@,
        decreases it.decrease()->0,
    {
        match it.next() {
            Some(c) => {
                out.push(c);
                proof {
                    assert(out@ + it.remaining() =~= s@);
                }
            },
            None => {
                proof {
                    assert(out@ + it.remaining() =~= out@);
                }
                break ;
            },
        }
    }
    out
}

/// Element-wise equality of two character vectors.
pub fn char_vec_eq(a: &Vec<char>, b: &Vec<char>) -> (r: bool)
    ensures
        r == (a@ == b@),
{
    if a.len() != b.len() {
        return false;
    }
    let n = a.len();
    for i in 0..n
        invariant
            n == a@.len(),
            n == b@.len(),
            forall|j: int| 0 <= j < i ==> a@[j] == b@[j],
    {
        if a[i] != b[i] {
            return false;
        }
    }
    proof {
        assert(a@ =~= b@);
    }
    true
}

/// Whether a string equals a character vector.
pub fn string_matches_chars(s: &String, cs: &Vec<char>) -> (r: bool)
    ensures
        r == (s@ == cs@),
{
    let sv = chars_of(s.as_str());
    char_vec_eq(&sv, cs)
}

/// A copy of the characters in `[lo, hi)`.
pub fn copy_range(cs: &Vec<char>, lo: usize, hi: usize) -> (r: Vec<char>)
    requires
        lo <= hi <= cs@.len(),
    ensures
        r@ == cs@.subrange(lo as int, hi as int),
{
    let mut out: Vec<char> = Vec::new();
    let mut i = lo;
    while i < hi
        invariant
            lo <= i <= hi <= cs@.len(),
            out@ == cs@.subrange(lo as int, i as int),
        decreases hi - i,
    {
        out.push(cs[i]);
        proof {
            assert(out@ =~= cs@.subrange(lo as int, i + 1));
        }
        i += 1;
    }
    out
}

pub open spec fn is_digit(c: char) -> bool {
    48 <= c as u32 <= 57
}

pub open spec fn digit_val(c: char) -> int {
    (c as u32) - 48
}

/// The value of a digit string, most significant digit first.
pub open spec fn digits_val(s: Seq<char>) -> int
    decreases s.len(),
{
    if s.len() <= 0 {
        0
    } else {
        digits_val(s.drop_last()) * 10 + digit_val(s.last())
    }
}

pub open spec fn all_digits(s: Seq<char>) -> bool {
    forall|i: int| 0 <= i < s.len() ==> is_digit(s[i])
}

/// The digit part of a decimal literal: an optional leading `+` is
/// stripped, as the standard unsigned parser accepts one.
pub open spec fn digits_of(s: Seq<char>) -> Seq<char> {
    if s.len() > 0 && s[0] == '+' {
        s.drop_first()
    } else {
        s
    }
}

/// What parsing a string as an unsigned 64-bit integer yields: the
/// digits' value when the shape is right and the value fits.
pub open spec fn parse_u64_spec(s: Seq<char>) -> Option<int> {
    let d = digits_of(s);
    if d.len() > 0 && all_digits(d) && digits_val(d) <= u64::MAX {
        Some(digits_val(d))
    } else {
        None
    }
}

proof fn lemma_digits_val_nonneg(s: Seq<char>)
    requires
        all_digits(s),
    ensures
        digits_val(s) >= 0,
    decreases s.len(),
{
    if s.len() > 0 {
        assert(all_digits(s.drop_last()));
        lemma_digits_val_nonneg(s.drop_last());
    }
}

/// Parse the suffix of `cs` starting at `lo` as an unsigned 64-bit
/// integer.
pub fn parse_u64_seg(cs: &Vec<char>, lo: usize) -> (r: Option<u64>)
    requires
        lo <= cs@.len(),
    ensures
        match r {
            Some(n) => parse_u64_spec(cs@.skip(lo as int)) == Some(n as int),
            None => parse_u64_spec(cs@.skip(lo as int)) is None,
        },
{
    let ghost s = cs@.skip(lo as int);
    let n = cs.len();
    if lo >= n {
        return None;
    }
    let start = if cs[lo] == '+' {
        lo + 1
    } else {
        lo
    };
    let ghost d = digits_of(s);
    proof {
        if cs@[lo as int] == '+' {
            assert(d =~= cs@.subrange(start as int, n as int));
        } else {
            assert(d =~= cs@.subrange(start as int, n as int));
        }
    }
    if start >= n {
        return None;
    }
    let mut val: u64 = 0;
    let ghost mut gval: int = 0;
    let mut over = false;
    let mut i = start;
    while i < n
        invariant
            lo <= start <= i <= n,
            n == cs@.len(),
            d == digits_of(cs@.skip(lo as int)),
            d == cs@.subrange(start as int, n as int),
            forall|j: int| start <= j < i ==> is_digit(cs@[j]),
            gval == digits_val(cs@.subrange(start as int, i as int)),
            gval >= 0,
            over <==> gval > u64::MAX,
            !over ==> val == gval,
        decreases n - i,
    {
        let c = cs[i];
        let u = c as u32;
        if u < 48 || u > 57 {
            proof {
                assert(d[i - start] == cs@[i as int]);
                assert(!is_digit(d[i - start]));
                assert(!all_digits(d));
            }
            return None;
        }
        let dv = (u - 48) as u64;
        proof {
            let pre = cs@.subrange(start as int, i as int);
            let cur = cs@.subrange(start as int, i + 1);
            assert(cur.drop_last() =~= pre);
            assert(cur.last() == cs@[i as int]);
            assert(digits_val(cur) == gval * 10 + digit_val(cs@[i as int]));
        }
        if over || val > u64::MAX / 10 || (val == u64::MAX / 10 && dv > u64::MAX % 10) {
            over = true;
        } else {
            val = val * 10 + dv;
        }
        proof {
            gval = gval * 10 + digit_val(cs@[i as int]);
        }
        i += 1;
    }
    proof {
        assert(cs@.subrange(start as int, n as int) =~= cs@.subrange(start as int, i as int));
    }
    if over {
        None
    } else {
        Some(val)
    }
}

/// Index of the last `/`, or -1 when the path holds none.
pub open spec fn last_slash(s: Seq<char>) -> int
    decreases s.len(),
{
    if s.len() <= 0 {
        -1
    } else if s.last() == '/' {
        s.len() - 1
    } else {
        last_slash(s.drop_last())
    }
}

pub proof fn lemma_last_slash(s: Seq<char>)
    ensures
        -1 <= last_slash(s) < s.len(),
        last_slash(s) >= 0 ==> s[last_slash(s)] == '/',
        forall|j: int| last_slash(s) < j < s.len() ==> s[j] != '/',
    decreases s.len(),
{
    if s.len() > 0 && s.last() != '/' {
        lemma_last_slash(s.drop_last());
        assert forall|j: int| last_slash(s) < j < s.len() implies s[j] != '/' by {
            if j < s.len() - 1 {
                assert(s.drop_last()[j] == s[j]);
            }
        }
    }
}

/// The last-slash index is pinned down by its characterisation.
pub proof fn lemma_last_slash_is(s: Seq<char>, i: int)
    requires
        0 <= i < s.len(),
        s[i] == '/',
        forall|j: int| i < j < s.len() ==> s[j] != '/',
    ensures
        last_slash(s) == i,
    decreases s.len(),
{
    if i < s.len() - 1 {
        assert(s.last() != '/');
        lemma_last_slash_is(s.drop_last(), i);
    }
}

proof fn lemma_last_slash_take(s: Seq<char>, j: int)
    requires
        0 <= j <= s.len(),
        forall|k: int| j <= k < s.len() ==> s[k] != '/',
    ensures
        last_slash(s) == last_slash(s.take(j)),
    decreases s.len() - j,
{
    if j < s.len() {
        lemma_last_slash_take(s, j + 1);
        assert(s.take(j + 1).drop_last() =~= s.take(j));
        assert(s.take(j + 1).last() == s[j]);
    } else {
        assert(s.take(j) =~= s);
    }
}

/// Index of the last `/` in the vector, scanning from the end.
pub fn find_last_slash(cs: &Vec<char>) -> (r: Option<usize>)
    ensures
        match r {
            Some(i) => last_slash(cs@) == i as int,
            None => last_slash(cs@) == -1,
        },
{
    let n = cs.len();
    let mut j = n;
    while j > 0
        invariant
            0 <= j <= n,
            n == cs@.len(),
            forall|k: int| j <= k < n ==> cs@[k] != '/',
        decreases j,
    {
        if cs[j - 1] == '/' {
            proof {
                lemma_last_slash_take(cs@, j as int);
                assert(cs@.take(j as int).last() == cs@[j - 1]);
            }
            return Some(j - 1);
        }
        j -= 1;
    }
    proof {
        lemma_last_slash_take(cs@, 0);
        assert(cs@.take(0).len() == 0);
    }
    None
}

/// The segment after the last `/` (the whole path when there is none).
pub open spec fn tail_seg(s: Seq<char>) -> Seq<char> {
    s.subrange(last_slash(s) + 1, s.len() as int)
}

/// The key part when the trailing segment is an id: everything before
/// the last `/`, or the empty key for a purely numeric path.
pub open spec fn base_key(s: Seq<char>) -> Seq<char> {
    if last_slash(s) >= 0 {
        s.take(last_slash(s))
    } else {
        Seq::empty()
    }
}

/// The record id carried by the path, if its last segment parses as an
/// unsigned integer.
pub open spec fn route_id(s: Seq<char>) -> Option<int> {
    parse_u64_spec(tail_seg(s))
}

/// The document key the path addresses: the base when an id is present,
/// the whole path otherwise.
pub open spec fn lookup_key(s: Seq<char>) -> Seq<char> {
    if route_id(s) is Some {
        base_key(s)
    } else {
        s
    }
}

/// A resolved request path.
pub struct RouteTarget {
    pub key: Vec<char>,
    pub id: Option<u64>,
}

/// Split a path into its document key and optional record id. The split
/// is purely syntactic: the document is never consulted.
pub fn resolve_route(cs: &Vec<char>) -> (t: RouteTarget)
    ensures
        match t.id {
            Some(n) => route_id(cs@) == Some(n as int),
            None => route_id(cs@) is None,
        },
        t.key@ == lookup_key(cs@),
{
    proof {
        lemma_last_slash(cs@);
    }
    let n = cs.len();
    let seg_lo: usize = match find_last_slash(cs) {
        Some(i) => {
            assert(i < n);
            i + 1
        },
        None => 0,
    };
    proof {
        assert(cs@.skip(seg_lo as int) =~= tail_seg(cs@));
    }
    match parse_u64_seg(cs, seg_lo) {
        Some(id) => {
            let key = if seg_lo == 0 {
                Vec::new()
            } else {
                copy_range(cs, 0, seg_lo - 1)
            };
            proof {
                if seg_lo > 0 {
                    assert(cs@.subrange(0, seg_lo - 1) =~= base_key(cs@));
                } else {
                    assert(base_key(cs@) =~= Seq::<char>::empty());
                }
            }
            RouteTarget { key, id: Some(id) }
        },
        None => {
            let key = copy_range(cs, 0, cs.len());
            proof {
                assert(cs@.subrange(0, cs@.len() as int) =~= cs@);
            }
            RouteTarget { key, id: None }
        },
    }
}

} // verus!
