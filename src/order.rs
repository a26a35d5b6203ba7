//! A total order on 64-bit floating-point values, held as their IEEE 754 bit
//! patterns: negative values (sign bit set) come below positive ones, a larger
//! magnitude is lower among negatives and higher among positives. NaNs with the
//! sign bit clear sort above every other value, those with it set below.
use vstd::prelude::*;
use vstd::seq_lib::*;

verus! {

/// The sign bit of a 64-bit floating-point bit pattern.
pub const SIGN_BIT: u64 = 0x8000_0000_0000_0000;

/// The position of a bit pattern in the total order, as an integer.
pub open spec fn order_key(bits: u64) -> int {
    if bits >= SIGN_BIT {
        -1 - (bits - SIGN_BIT)
    } else {
        bits as int
    }
}

/// Whether `a` comes no later than `b` in the total order.
pub fn precedes(a: u64, b: u64) -> (r: bool)
    ensures
        r == (order_key(a) <= order_key(b)),
{
    let neg_a = a >= SIGN_BIT;
    let neg_b = b >= SIGN_BIT;
    if neg_a && neg_b {
        a >= b
    } else if neg_a {
        true
    } else if neg_b {
        false
    } else {
        a <= b
    }
}

/// `v` occurs in `s` and no element of `s` comes before it.
pub open spec fn is_least(s: Seq<u64>, v: u64) -> bool {
    &&& s.contains(v)
    &&& forall|i: int| 0 <= i < s.len() ==> order_key(v) <= #[trigger] order_key(s[i])
}

/// `v` occurs in `s` and no element of `s` comes after it.
pub open spec fn is_greatest(s: Seq<u64>, v: u64) -> bool {
    &&& s.contains(v)
    &&& forall|i: int| 0 <= i < s.len() ==> #[trigger] order_key(s[i]) <= order_key(v)
}

/// The least element of a non-empty sequence.
pub open spec fn least(s: Seq<u64>) -> u64 {
    choose|v: u64| is_least(s, v)
}

/// The greatest element of a non-empty sequence.
pub open spec fn greatest(s: Seq<u64>) -> u64 {
    choose|v: u64| is_greatest(s, v)
}

/// The elements of `t` come in ascending order.
pub open spec fn ascending(t: Seq<u64>) -> bool {
    forall|i: int, j: int| 0 <= i <= j < t.len() ==> order_key(t[i]) <= order_key(t[j])
}

/// `t` holds the elements of `s`, as often as `s` does, in ascending order.
pub open spec fn is_sorting_of(s: Seq<u64>, t: Seq<u64>) -> bool {
    ascending(t) && t.to_multiset() == s.to_multiset()
}

/// The elements of `s` in ascending order.
pub open spec fn sorted(s: Seq<u64>) -> Seq<u64> {
    choose|t: Seq<u64>| is_sorting_of(s, t)
}

/// A sequence has at most one least element.
pub proof fn lemma_least_unique(s: Seq<u64>, v: u64, w: u64)
    requires
        is_least(s, v),
        is_least(s, w),
    ensures
        v == w,
{
    let i = choose|i: int| 0 <= i < s.len() && s[i] == v;
    let j = choose|j: int| 0 <= j < s.len() && s[j] == w;
    assert(order_key(v) <= order_key(s[j]));
    assert(order_key(w) <= order_key(s[i]));
}

/// A sequence has at most one greatest element.
pub proof fn lemma_greatest_unique(s: Seq<u64>, v: u64, w: u64)
    requires
        is_greatest(s, v),
        is_greatest(s, w),
    ensures
        v == w,
{
    let i = choose|i: int| 0 <= i < s.len() && s[i] == v;
    let j = choose|j: int| 0 <= j < s.len() && s[j] == w;
    assert(order_key(s[j]) <= order_key(v));
    assert(order_key(s[i]) <= order_key(w));
}

/// Two ascending sequences that hold the same elements are equal: a sample has
/// exactly one sorted form.
pub proof fn lemma_sorting_unique(a: Seq<u64>, b: Seq<u64>)
    requires
        ascending(a),
        ascending(b),
        a.to_multiset() == b.to_multiset(),
    ensures
        a == b,
    decreases a.len(),
{
    a.to_multiset_ensures();
    b.to_multiset_ensures();
    if a.len() == 0 {
        assert(a =~= b);
    } else {
        assert(a.contains(a[0]));
        assert(a.to_multiset().count(a[0]) > 0);
        assert(b.contains(a[0]));
        assert(b.contains(b[0]));
        assert(b.to_multiset().count(b[0]) > 0);
        assert(a.contains(b[0]));
        let j = choose|j: int| 0 <= j < b.len() && b[j] == a[0];
        let i = choose|i: int| 0 <= i < a.len() && a[i] == b[0];
        assert(order_key(b[0]) <= order_key(b[j]));
        assert(order_key(a[0]) <= order_key(a[i]));
        let ra = a.remove(0);
        let rb = b.remove(0);
        assert(ascending(ra));
        assert(ascending(rb));
        lemma_sorting_unique(ra, rb);
        assert forall|k: int| 0 <= k < a.len() implies a[k] == b[k] by {
            if k > 0 {
                assert(a[k] == ra[k - 1]);
                assert(b[k] == rb[k - 1]);
            }
        }
        assert(a =~= b);
    }
}

/// Every non-empty sequence has a least element.
pub proof fn lemma_least_exists(s: Seq<u64>)
    requires
        s.len() > 0,
    ensures
        is_least(s, least(s)),
    decreases s.len(),
{
    let w = if s.len() == 1 {
        s[0]
    } else {
        let rest = s.drop_last();
        lemma_least_exists(rest);
        let m = least(rest);
        if order_key(s.last()) < order_key(m) {
            s.last()
        } else {
            m
        }
    };
    assert forall|i: int| 0 <= i < s.len() implies order_key(w) <= #[trigger] order_key(s[i]) by {
        if i < s.len() - 1 {
            assert(s[i] == s.drop_last()[i]);
        }
    }
    if s.len() > 1 {
        let j = choose|j: int| 0 <= j < s.drop_last().len() && s.drop_last()[j] == least(s.drop_last());
        assert(s[j] == s.drop_last()[j]);
    }
    assert(s.contains(w));
    assert(is_least(s, w));
}

/// Every non-empty sequence has a greatest element.
pub proof fn lemma_greatest_exists(s: Seq<u64>)
    requires
        s.len() > 0,
    ensures
        is_greatest(s, greatest(s)),
    decreases s.len(),
{
    let w = if s.len() == 1 {
        s[0]
    } else {
        let rest = s.drop_last();
        lemma_greatest_exists(rest);
        let m = greatest(rest);
        if order_key(m) < order_key(s.last()) {
            s.last()
        } else {
            m
        }
    };
    assert forall|i: int| 0 <= i < s.len() implies #[trigger] order_key(s[i]) <= order_key(w) by {
        if i < s.len() - 1 {
            assert(s[i] == s.drop_last()[i]);
        }
    }
    if s.len() > 1 {
        let j = choose|j: int|
            0 <= j < s.drop_last().len() && s.drop_last()[j] == greatest(s.drop_last());
        assert(s[j] == s.drop_last()[j]);
    }
    assert(s.contains(w));
    assert(is_greatest(s, w));
}

/// Where `x` goes in the ascending sequence `t`: after every element that
/// does not come after it.
pub open spec fn insert_position(t: Seq<u64>, x: u64) -> int
    decreases t.len(),
{
    if t.len() == 0 {
        0
    } else if order_key(t.last()) <= order_key(x) {
        t.len() as int
    } else {
        insert_position(t.drop_last(), x)
    }
}

proof fn lemma_insert_position(t: Seq<u64>, x: u64)
    requires
        ascending(t),
    ensures
        0 <= insert_position(t, x) <= t.len(),
        forall|k: int| 0 <= k < insert_position(t, x) ==> #[trigger] order_key(t[k]) <= order_key(x),
        forall|k: int|
            insert_position(t, x) <= k < t.len() ==> order_key(x) < #[trigger] order_key(t[k]),
    decreases t.len(),
{
    if t.len() > 0 {
        let rest = t.drop_last();
        assert(ascending(rest));
        lemma_insert_position(rest, x);
        if order_key(t.last()) <= order_key(x) {
            assert forall|k: int| 0 <= k < t.len() implies #[trigger] order_key(t[k]) <= order_key(
                x,
            ) by {
                assert(order_key(t[k]) <= order_key(t[t.len() - 1]));
            }
        } else {
            assert forall|k: int| 0 <= k < insert_position(t, x) implies #[trigger] order_key(t[k])
                <= order_key(x) by {
                assert(t[k] == rest[k]);
            }
            assert forall|k: int| insert_position(t, x) <= k < t.len() implies order_key(x)
                < #[trigger] order_key(t[k]) by {
                if k < t.len() - 1 {
                    assert(t[k] == rest[k]);
                }
            }
        }
    }
}

/// Every sequence has a sorted form.
pub proof fn lemma_sorting_exists(s: Seq<u64>)
    ensures
        is_sorting_of(s, sorted(s)),
    decreases s.len(),
{
    if s.len() == 0 {
        assert(is_sorting_of(s, s));
    } else {
        let rest = s.drop_last();
        lemma_sorting_exists(rest);
        let t = sorted(rest);
        let x = s.last();
        lemma_insert_position(t, x);
        let j = insert_position(t, x);
        let u = t.insert(j, x);
        lemma_insert_multiset(t, j, x);
        assert(rest.push(x) =~= s);
        rest.to_multiset_ensures();
        assert forall|a: int, b: int| 0 <= a <= b < u.len() implies order_key(u[a]) <= order_key(
            u[b],
        ) by {
            if a < j && b > j {
                assert(order_key(t[a]) <= order_key(x));
            } else if a == j && b > j {
                assert(order_key(x) < order_key(t[b - 1]));
            }
        }
        assert(is_sorting_of(s, u));
    }
}

/// Inserting an element anywhere adds one occurrence of it.
proof fn lemma_insert_multiset(s: Seq<u64>, j: int, x: u64)
    requires
        0 <= j <= s.len(),
    ensures
        s.insert(j, x).to_multiset() == s.to_multiset().insert(x),
{
    let t = s.insert(j, x);
    t.to_multiset_ensures();
    assert(t.remove(j) =~= s);
    assert(t[j] == x);
    assert(t.to_multiset() =~= s.to_multiset().insert(x));
}

/// The least element of `v`, or `None` when `v` is empty.
pub fn least_value(v: &Vec<u64>) -> (r: Option<u64>)
    ensures
        r is None <==> v@.len() == 0,
        r matches Some(x) ==> is_least(v@, x),
{
    if v.len() == 0 {
        return None;
    }
    let mut best: u64 = v[0];
    let mut at: usize = 0;
    let mut i: usize = 1;
    while i < v.len()
        invariant
            1 <= i <= v.len(),
            at < i,
            v@[at as int] == best,
            forall|k: int| 0 <= k < i ==> order_key(best) <= #[trigger] order_key(v@[k]),
        decreases v.len() - i,
    {
        let x = v[i];
        if !precedes(best, x) {
            best = x;
            at = i;
        }
        i = i + 1;
    }
    assert(v@.contains(best));
    Some(best)
}

/// The greatest element of `v`, or `None` when `v` is empty.
pub fn greatest_value(v: &Vec<u64>) -> (r: Option<u64>)
    ensures
        r is None <==> v@.len() == 0,
        r matches Some(x) ==> is_greatest(v@, x),
{
    if v.len() == 0 {
        return None;
    }
    let mut best: u64 = v[0];
    let mut at: usize = 0;
    let mut i: usize = 1;
    while i < v.len()
        invariant
            1 <= i <= v.len(),
            at < i,
            v@[at as int] == best,
            forall|k: int| 0 <= k < i ==> #[trigger] order_key(v@[k]) <= order_key(best),
        decreases v.len() - i,
    {
        let x = v[i];
        if !precedes(x, best) {
            best = x;
            at = i;
        }
        i = i + 1;
    }
    assert(v@.contains(best));
    Some(best)
}

/// The elements of `v` in ascending order (insertion sort; equal elements
/// are identical bit patterns, so stability does not arise).
pub fn sort_ascending(v: &Vec<u64>) -> (r: Vec<u64>)
    ensures
        is_sorting_of(v@, r@),
{
    let mut r: Vec<u64> = Vec::new();
    let mut i: usize = 0;
    assert(r@ =~= v@.subrange(0, 0));
    while i < v.len()
        invariant
            i <= v.len(),
            r@.len() == i,
            ascending(r@),
            r@.to_multiset() == v@.subrange(0, i as int).to_multiset(),
        decreases v.len() - i,
    {
        let x = v[i];
        let mut j: usize = 0;
        while j < r.len()
            invariant
                j <= r@.len(),
                forall|k: int| 0 <= k < j ==> #[trigger] order_key(r@[k]) <= order_key(x),
            ensures
                j <= r@.len(),
                forall|k: int| 0 <= k < j ==> #[trigger] order_key(r@[k]) <= order_key(x),
                j < r@.len() ==> order_key(x) < order_key(r@[j as int]),
            decreases r@.len() - j,
        {
            if precedes(r[j], x) {
                j = j + 1;
            } else {
                break;
            }
        }
        proof {
            lemma_insert_multiset(r@, j as int, x);
            assert(v@.subrange(0, i as int + 1) =~= v@.subrange(0, i as int).push(x));
            v@.subrange(0, i as int).to_multiset_ensures();
        }
        let ghost before = r@;
        r.insert(j, x);
        assert forall|a: int, b: int| 0 <= a <= b < r@.len() implies order_key(r@[a]) <= order_key(
            r@[b],
        ) by {
            if a < j && b > j {
                assert(order_key(before[a]) <= order_key(x));
            } else if a == j && b > j {
                assert(order_key(x) < order_key(before[j as int]));
                assert(order_key(before[j as int]) <= order_key(before[b - 1]));
            }
        }
        i = i + 1;
    }
    assert(v@.subrange(0, v.len() as int) =~= v@);
    r
}

} // verus!
