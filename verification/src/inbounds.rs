use vstd::prelude::*;

use std::collections::HashMap;
use vstd::std_specs::iter::IteratorSpec;

verus! {

broadcast use vstd::std_specs::hash::group_hash_axioms;

/// The inbounds of the panel that every user is added to, in order.
pub open spec fn configured_ids() -> Seq<i64> {
    seq![1i64, 2i64]
}

/// The inbounds of the panel that every user is added to, in order.
pub fn configured_inbound_ids() -> (res: Vec<i64>)
    ensures
        res@ == configured_ids(),
{
    let mut res: Vec<i64> = Vec::new();
    res.push(1);
    res.push(2);
    assert(res@ =~= configured_ids());
    res
}

/// The first configured inbound: where a bare value of a metric is stored.
pub open spec fn first_id() -> Option<i64> {
    if configured_ids().len() > 0 {
        Some(configured_ids()[0])
    } else {
        None
    }
}

/// The first configured inbound.
pub fn first_inbound_id() -> (res: Option<i64>)
    ensures
        res == first_id(),
{
    let ids = configured_inbound_ids();
    if ids.len() > 0 {
        Some(ids[0])
    } else {
        None
    }
}

/// Whether `x` occurs in `v`.
pub fn contains_id(v: &Vec<i64>, x: i64) -> (res: bool)
    ensures
        res == v@.contains(x),
{
    let mut i: usize = 0;
    while i < v.len()
        invariant
            i <= v.len(),
            forall|k: int| 0 <= k < i ==> v@[k] != x,
        decreases v.len() - i,
    {
        if v[i] == x {
            return true;
        }
        i = i + 1;
    }
    false
}

/// Every element of `s` is smaller than the ones after it.
pub open spec fn strictly_ascending(s: Seq<i64>) -> bool {
    forall|i: int, j: int| 0 <= i < j < s.len() ==> s[i] < s[j]
}

/// Whether `s` lists the inbounds of a metric with the keys `keys` in storage order: the
/// configured inbounds first, then every other key once, in ascending order.
pub open spec fn is_storage_order(keys: Set<i64>, s: Seq<i64>) -> bool {
    &&& s.len() >= configured_ids().len()
    &&& s.take(configured_ids().len() as int) == configured_ids()
    &&& strictly_ascending(s.skip(configured_ids().len() as int))
    &&& forall|x: i64|
        s.skip(configured_ids().len() as int).contains(x) <==> (keys.contains(x)
            && !configured_ids().contains(x))
}

/// The inbounds of a metric with the keys `keys`, in storage order.
pub open spec fn storage_order(keys: Set<i64>) -> Seq<i64> {
    choose|s: Seq<i64>| is_storage_order(keys, s)
}

/// Two ascending sequences with the same elements are the same sequence.
proof fn lemma_ascending_unique(a: Seq<i64>, b: Seq<i64>)
    requires
        strictly_ascending(a),
        strictly_ascending(b),
        forall|x: i64| a.contains(x) <==> b.contains(x),
    ensures
        a == b,
    decreases a.len(),
{
    if a.len() == 0 {
        if b.len() > 0 {
            assert(b.contains(b[0]));
        }
        assert(a =~= b);
    } else {
        assert(a.contains(a[0]));
        let j = choose|j: int| 0 <= j < b.len() && b[j] == a[0];
        assert(b.contains(b[0]));
        let k = choose|k: int| 0 <= k < a.len() && a[k] == b[0];
        assert(a[0] == b[0]) by {
            if j > 0 {
                assert(b[0] < b[j]);
            }
            if k > 0 {
                assert(a[0] < a[k]);
            }
        }
        let a1 = a.drop_first();
        let b1 = b.drop_first();
        assert forall|x: i64| a1.contains(x) <==> b1.contains(x) by {
            if a1.contains(x) {
                let i = choose|i: int| 0 <= i < a1.len() && a1[i] == x;
                assert(a[i + 1] == x);
                assert(a[0] < x);
                assert(b.contains(x));
                let m = choose|m: int| 0 <= m < b.len() && b[m] == x;
                assert(m != 0);
                assert(b1[m - 1] == x);
            }
            if b1.contains(x) {
                let i = choose|i: int| 0 <= i < b1.len() && b1[i] == x;
                assert(b[i + 1] == x);
                assert(b[0] < x);
                assert(a.contains(x));
                let m = choose|m: int| 0 <= m < a.len() && a[m] == x;
                assert(m != 0);
                assert(a1[m - 1] == x);
            }
        }
        lemma_ascending_unique(a1, b1);
        assert(a =~= b) by {
            assert forall|i: int| 0 <= i < a.len() implies a[i] == b[i] by {
                if i > 0 {
                    assert(a[i] == a1[i - 1]);
                    assert(b[i] == b1[i - 1]);
                }
            }
        }
    }
}

/// The storage order of a metric's inbounds depends on its set of keys alone: any two
/// sequences in storage order for the same keys are equal.
pub proof fn lemma_storage_order_unique(keys: Set<i64>, s: Seq<i64>, t: Seq<i64>)
    requires
        is_storage_order(keys, s),
        is_storage_order(keys, t),
    ensures
        s == t,
{
    let n = configured_ids().len() as int;
    assert forall|x: i64| s.skip(n).contains(x) <==> t.skip(n).contains(x) by {
        assert(s.skip(n).contains(x) <==> (keys.contains(x) && !configured_ids().contains(x)));
        assert(t.skip(n).contains(x) <==> (keys.contains(x) && !configured_ids().contains(x)));
    }
    lemma_ascending_unique(s.skip(n), t.skip(n));
    assert(s =~= s.take(n) + s.skip(n));
    assert(t =~= t.take(n) + t.skip(n));
}

/// A finite set of inbounds can be listed in ascending order.
proof fn lemma_ascending_listing_exists(s: Set<i64>)
    requires
        s.finite(),
    ensures
        exists|q: Seq<i64>|
            strictly_ascending(q) && forall|x: i64| #[trigger] q.contains(x) <==> s.contains(x),
    decreases s.len(),
{
    if s.len() == 0 {
        s.lemma_len0_is_empty();
        let q = Seq::<i64>::empty();
        assert(strictly_ascending(q) && forall|x: i64| #[trigger] q.contains(x) <==> s.contains(x));
    } else {
        let r = |a: i64, b: i64| a <= b;
        assert(vstd::relations::total_ordering(r));
        s.find_unique_maximal_ensures(r);
        let top = s.find_unique_maximal(r);
        let rest = s.remove(top);
        lemma_ascending_listing_exists(rest);
        let p = choose|q: Seq<i64>|
            strictly_ascending(q) && forall|x: i64| #[trigger] q.contains(x) <==> rest.contains(x);
        let q = p.push(top);
        assert forall|x: i64| s.contains(x) implies x <= top by {
            assert(r(top, x) ==> r(x, top));
        }
        assert forall|i: int, j: int| 0 <= i < j < q.len() implies q[i] < q[j] by {
            if j == q.len() - 1 {
                assert(p.contains(p[i]));
            }
        }
        assert forall|x: i64| #[trigger] q.contains(x) <==> s.contains(x) by {
            if q.contains(x) {
                let k = choose|k: int| 0 <= k < q.len() && q[k] == x;
                if k < p.len() {
                    assert(p.contains(x));
                }
            }
            if s.contains(x) && x != top {
                assert(rest.contains(x));
                assert(p.contains(x));
                let k = choose|k: int| 0 <= k < p.len() && p[k] == x;
                assert(q[k] == x);
            }
            if x == top {
                assert(q[q.len() - 1] == top);
            }
        }
        assert(strictly_ascending(q));
    }
}

/// The keys of a metric have their storage order when they are finitely many, as the keys of
/// every map that a program holds are.
pub proof fn lemma_storage_order_exists(keys: Set<i64>)
    requires
        keys.finite(),
    ensures
        is_storage_order(keys, storage_order(keys)),
{
    let extra = keys.filter(|x: i64| !configured_ids().contains(x));
    assert(extra.finite()) by {
        keys.lemma_len_filter(|x: i64| !configured_ids().contains(x));
    }
    lemma_ascending_listing_exists(extra);
    let e = choose|q: Seq<i64>|
        strictly_ascending(q) && forall|x: i64| #[trigger] q.contains(x) <==> extra.contains(x);
    let s = configured_ids() + e;
    let n = configured_ids().len() as int;
    assert(s.take(n) =~= configured_ids());
    assert(s.skip(n) =~= e);
    assert(is_storage_order(keys, s));
}

/// Inserts `x`, which `sorted` does not hold, at its place in `sorted`.
fn insert_ascending(sorted: &mut Vec<i64>, x: i64)
    requires
        strictly_ascending(old(sorted)@),
        !old(sorted)@.contains(x),
    ensures
        strictly_ascending(final(sorted)@),
        forall|y: i64| final(sorted)@.contains(y) <==> (old(sorted)@.contains(y) || y == x),
{
    let mut p: usize = 0;
    while p < sorted.len() && sorted[p] < x
        invariant
            p <= sorted.len(),
            forall|k: int| 0 <= k < p ==> sorted@[k] < x,
        decreases sorted.len() - p,
    {
        p = p + 1;
    }
    let ghost before = sorted@;
    assert(forall|k: int| p <= k < before.len() ==> before[k] > x) by {
        if p < before.len() {
            assert(before[p as int] >= x);
            assert(before[p as int] != x);
        }
    }
    sorted.insert(p, x);
    assert(sorted@ =~= before.take(p as int).push(x) + before.skip(p as int));
    assert forall|y: i64| sorted@.contains(y) <==> (before.contains(y) || y == x) by {
        if sorted@.contains(y) {
            let k = choose|k: int| 0 <= k < sorted@.len() && sorted@[k] == y;
            if k < p {
                assert(before[k] == y);
            } else if k > p {
                assert(before[k - 1] == y);
            }
        }
        if before.contains(y) {
            let k = choose|k: int| 0 <= k < before.len() && before[k] == y;
            if k < p {
                assert(sorted@[k] == y);
            } else {
                assert(sorted@[k + 1] == y);
            }
        }
        if y == x {
            assert(sorted@[p as int] == x);
        }
    }
}

/// The inbounds of a metric in the order it is stored: the configured inbounds first, then
/// every other inbound the metric holds, in ascending order.
pub fn ordered_inbound_ids_i64(metric: &HashMap<i64, i64>) -> (res: Vec<i64>)
    ensures
        is_storage_order(metric@.dom(), res@),
        res@ == storage_order(metric@.dom()),
{
    let mut ordered = configured_inbound_ids();
    let mut extras: Vec<i64> = Vec::new();
    let ghost keys = metric.keys().remaining().unref();
    proof {
        assert(keys.to_set() == metric@.dom());
        assert(keys.no_duplicates());
    }
    for k in it: metric.keys()
        invariant
            ordered@ == configured_ids(),
            strictly_ascending(extras@),
            it.seq().unref() == keys,
            keys.to_set() == metric@.dom(),
            keys.no_duplicates(),
            forall|x: i64|
                extras@.contains(x) <==> (keys.take(it.index()).contains(x)
                    && !configured_ids().contains(x)),
    {
        let key = *k;
        let ghost seen = keys.take(it.index());
        assert(keys[it.index()] == key);
        assert(keys.take(it.index() + 1) =~= seen.push(key));
        assert(forall|x: i64| seen.push(key).contains(x) <==> (seen.contains(x) || x == key)) by {
            assert forall|x: i64| seen.push(key).contains(x) implies (seen.contains(x) || x == key) by {
                let j = choose|j: int| 0 <= j < seen.len() + 1 && seen.push(key)[j] == x;
                if j < seen.len() {
                    assert(seen[j] == x);
                }
            }
            assert forall|x: i64| seen.contains(x) implies seen.push(key).contains(x) by {
                let j = choose|j: int| 0 <= j < seen.len() && seen[j] == x;
                assert(seen.push(key)[j] == x);
            }
            assert(seen.push(key)[seen.len() as int] == key);
        }
        if !contains_id(&ordered, key) {
            assert(!keys.take(it.index()).contains(key)) by {
                if keys.take(it.index()).contains(key) {
                    let j = choose|j: int| 0 <= j < it.index() && keys.take(it.index())[j] == key;
                    assert(keys[j] == keys[it.index()]);
                }
            }
            insert_ascending(&mut extras, key);
        }
    }
    assert(keys.take(keys.len() as int) =~= keys);
    assert forall|x: i64| keys.contains(x) <==> metric@.contains_key(x) by {
        assert(keys.to_set().contains(x) == keys.contains(x));
    }
    let ghost extra_seq = extras@;
    ordered.append(&mut extras);
    assert(ordered@.take(2) =~= configured_ids());
    assert(ordered@.skip(2) =~= extra_seq);
    assert(is_storage_order(metric@.dom(), ordered@));
    proof {
        lemma_storage_order_unique(metric@.dom(), ordered@, storage_order(metric@.dom()));
    }
    ordered
}

} // verus!
