//! Stable ordering of sequences by an integer key.

use vstd::prelude::*;

verus! {

/// `order` with the index `x` put in behind every index whose key is not
/// larger than that of `x`, for an `order` that is sorted by key.
pub open spec fn insert_ordered(keys: Seq<int>, order: Seq<int>, x: int) -> Seq<int>
    decreases order.len(),
{
    if order.len() == 0 || keys[order.last()] <= keys[x] {
        order.push(x)
    } else {
        insert_ordered(keys, order.drop_last(), x).push(order.last())
    }
}

/// The first `n` indices in the order of their keys, equal keys in the order
/// of the indices.
pub open spec fn order_upto(keys: Seq<int>, n: int) -> Seq<int>
    decreases n,
{
    if n <= 0 {
        seq![]
    } else {
        insert_ordered(keys, order_upto(keys, n - 1), n - 1)
    }
}

/// All indices in the order of their keys, equal keys in the order of the
/// indices.
pub open spec fn stable_order(keys: Seq<int>) -> Seq<int> {
    order_upto(keys, keys.len() as int)
}

/// The items of `s` at the positions that `order` lists.
pub open spec fn pick<T>(s: Seq<T>, order: Seq<int>) -> Seq<T> {
    Seq::new(order.len(), |i: int| s[order[i]])
}

/// The values of `s` in ascending order.
pub open spec fn sorted(s: Seq<int>) -> Seq<int> {
    pick(s, stable_order(s))
}

/// Machine integers as mathematical ones.
pub open spec fn ints(s: Seq<i64>) -> Seq<int> {
    Seq::new(s.len(), |i: int| s[i] as int)
}

/// Wide machine integers as mathematical ones.
pub open spec fn wide(s: Seq<i128>) -> Seq<int> {
    Seq::new(s.len(), |i: int| s[i] as int)
}

/// Indices as mathematical integers.
pub open spec fn indices(s: Seq<usize>) -> Seq<int> {
    Seq::new(s.len(), |i: int| s[i] as int)
}

/// Whether `order` holds each of the first `n` indices once, in the order of
/// their keys, equal keys in the order of the indices.
pub open spec fn is_stable_order(keys: Seq<int>, order: Seq<int>, n: int) -> bool {
    &&& order.len() == n
    &&& forall|i: int| 0 <= i < n ==> 0 <= #[trigger] order[i] < n
    &&& forall|i: int, j: int|
        0 <= i < j < n ==> keys[#[trigger] order[i]] < keys[#[trigger] order[j]] || (keys[order[i]]
            == keys[order[j]] && order[i] < order[j])
    &&& forall|x: int| 0 <= x < n ==> #[trigger] order.contains(x)
}

proof fn lemma_insert_position(keys: Seq<int>, order: Seq<int>, x: int, p: int)
    requires
        0 <= p <= order.len(),
        forall|q: int| p <= q < order.len() ==> keys[#[trigger] order[q]] > keys[x],
        p == 0 || keys[order[p - 1]] <= keys[x],
    ensures
        insert_ordered(keys, order, x) == order.insert(p, x),
    decreases order.len(),
{
    if p == order.len() {
        assert(order.push(x) =~= order.insert(p, x));
    } else {
        assert(keys[order[order.len() - 1]] > keys[x]);
        let front = order.drop_last();
        assert forall|q: int| p <= q < front.len() implies keys[#[trigger] front[q]] > keys[x] by {
            assert(front[q] == order[q]);
        }
        lemma_insert_position(keys, front, x, p);
        assert(front.insert(p, x).push(order.last()) =~= order.insert(p, x));
    }
}

proof fn lemma_insert_keeps_order(keys: Seq<int>, order: Seq<int>, n: int)
    requires
        0 <= n < keys.len(),
        is_stable_order(keys, order, n),
    ensures
        is_stable_order(keys, insert_ordered(keys, order, n), n + 1),
{
    let p = position_for(keys, order, n, order.len() as int);
    lemma_position(keys, order, n, order.len() as int);
    lemma_insert_position(keys, order, n, p);
    let out = order.insert(p, n);
    assert forall|x: int| 0 <= x < n + 1 implies #[trigger] out.contains(x) by {
        if x == n {
            assert(out[p] == n);
        } else {
            assert(order.contains(x));
            let i = choose|i: int| 0 <= i < order.len() && order[i] == x;
            if i < p {
                assert(out[i] == x);
            } else {
                assert(out[i + 1] == x);
            }
        }
    }
}

/// The place behind the last of the first `m` entries whose key is not larger
/// than that of `x`.
spec fn position_for(keys: Seq<int>, order: Seq<int>, x: int, m: int) -> int
    decreases m,
{
    if m <= 0 || keys[order[m - 1]] <= keys[x] {
        m
    } else {
        position_for(keys, order, x, m - 1)
    }
}

proof fn lemma_position(keys: Seq<int>, order: Seq<int>, x: int, m: int)
    requires
        0 <= m <= order.len(),
    ensures
        0 <= position_for(keys, order, x, m) <= m,
        forall|q: int|
            position_for(keys, order, x, m) <= q < m ==> keys[#[trigger] order[q]] > keys[x],
        ({
            let p = position_for(keys, order, x, m);
            p == 0 || keys[order[p - 1]] <= keys[x]
        }),
    decreases m,
{
    if m > 0 && keys[order[m - 1]] > keys[x] {
        lemma_position(keys, order, x, m - 1);
    }
}

proof fn lemma_order_upto(keys: Seq<int>, n: int)
    requires
        0 <= n <= keys.len(),
    ensures
        is_stable_order(keys, order_upto(keys, n), n),
    decreases n,
{
    if n > 0 {
        lemma_order_upto(keys, n - 1);
        lemma_insert_keeps_order(keys, order_upto(keys, n - 1), n - 1);
    }
}

/// Ordering by key loses nothing, repeats nothing, is ascending in the keys,
/// and leaves entries with equal keys in their original order.
pub proof fn law_stable_order(keys: Seq<int>)
    ensures
        is_stable_order(keys, stable_order(keys), keys.len() as int),
{
    lemma_order_upto(keys, keys.len() as int);
}

/// Sorted values are ascending, and they are the values that were given.
pub proof fn law_sorted(s: Seq<int>)
    ensures
        sorted(s).len() == s.len(),
        forall|i: int, j: int| 0 <= i <= j < s.len() ==> sorted(s)[i] <= sorted(s)[j],
        forall|x: int| sorted(s).contains(x) <==> s.contains(x),
{
    law_stable_order(s);
    let order = stable_order(s);
    assert forall|x: int| sorted(s).contains(x) <==> s.contains(x) by {
        if s.contains(x) {
            let k = choose|k: int| 0 <= k < s.len() && s[k] == x;
            assert(order.contains(k));
            let m = choose|m: int| 0 <= m < order.len() && order[m] == k;
            assert(sorted(s)[m] == x);
        }
        if sorted(s).contains(x) {
            let m = choose|m: int| 0 <= m < sorted(s).len() && sorted(s)[m] == x;
            assert(s[order[m]] == x);
        }
    }
}

/// The indices of `keys` in the order of their keys, equal keys in the order
/// of the indices.
pub fn order_by(keys: &Vec<i128>) -> (order: Vec<usize>)
    ensures
        indices(order@) == stable_order(wide(keys@)),
        is_stable_order(wide(keys@), indices(order@), keys@.len() as int),
        order@.len() == keys@.len(),
        forall|k: int| 0 <= k < order@.len() ==> #[trigger] order@[k] < keys@.len(),
{
    let ghost ks = wide(keys@);
    let mut order: Vec<usize> = Vec::new();
    let mut n: usize = 0;
    proof {
        assert(indices(order@) =~= order_upto(ks, 0));
    }
    while n < keys.len()
        invariant
            n <= keys@.len(),
            ks == wide(keys@),
            indices(order@) == order_upto(ks, n as int),
            order@.len() == n,
            forall|i: int| 0 <= i < n ==> #[trigger] order@[i] < n,
        decreases keys.len() - n,
    {
        let mut p: usize = n;
        while p > 0 && keys[order[p - 1]] > keys[n]
            invariant
                p <= n < keys@.len(),
                ks == wide(keys@),
                order@.len() == n,
                forall|i: int| 0 <= i < n ==> #[trigger] order@[i] < n,
                forall|q: int| p <= q < n ==> ks[#[trigger] indices(order@)[q]] > ks[n as int],
            decreases p,
        {
            p = p - 1;
        }
        proof {
            let o = indices(order@);
            assert(p == 0 || ks[o[p - 1]] <= ks[n as int]);
            lemma_insert_position(ks, o, n as int, p as int);
            assert(indices(order@.insert(p as int, n)) =~= o.insert(p as int, n as int));
        }
        order.insert(p, n);
        n = n + 1;
    }
    proof {
        law_stable_order(ks);
    }
    order
}

/// The values of `v` in ascending order.
pub fn sort_values(v: &Vec<i64>) -> (r: Vec<i64>)
    ensures
        ints(r@) == sorted(ints(v@)),
        r@.len() == v@.len(),
        forall|k: int| 0 <= k < r@.len() ==> v@.contains(#[trigger] r@[k]),
{
    let mut keys: Vec<i128> = Vec::new();
    let mut j: usize = 0;
    while j < v.len()
        invariant
            j <= v@.len(),
            keys@.len() == j,
            forall|k: int| 0 <= k < j ==> #[trigger] keys@[k] == v@[k],
        decreases v.len() - j,
    {
        keys.push(v[j] as i128);
        j = j + 1;
    }
    proof {
        assert(wide(keys@) =~= ints(v@));
    }
    let order: Vec<usize> = order_by(&keys);
    let mut out: Vec<i64> = Vec::new();
    let mut i: usize = 0;
    while i < order.len()
        invariant
            i <= order@.len(),
            order@.len() == v@.len(),
            forall|k: int| 0 <= k < order@.len() ==> #[trigger] order@[k] < v@.len(),
            out@.len() == i,
            forall|k: int| 0 <= k < i ==> #[trigger] out@[k] == v@[order@[k] as int],
        decreases order.len() - i,
    {
        out.push(v[order[i]]);
        i = i + 1;
    }
    proof {
        assert forall|k: int| 0 <= k < out@.len() implies #[trigger] ints(out@)[k] == sorted(
            ints(v@),
        )[k] by {
            assert(out@[k] == v@[order@[k] as int]);
            assert(indices(order@)[k] == order@[k]);
        }
        assert(ints(out@) =~= sorted(ints(v@)));
    }
    out
}

/// The indices of `v` in ascending order.
pub fn sort_indices(v: &Vec<usize>) -> (r: Vec<usize>)
    ensures
        indices(r@) == sorted(indices(v@)),
        r@.len() == v@.len(),
        forall|k: int| 0 <= k < r@.len() ==> v@.contains(#[trigger] r@[k]),
        forall|i: int, j: int| 0 <= i <= j < r@.len() ==> r@[i] <= r@[j],
{
    let mut keys: Vec<i128> = Vec::new();
    let mut j: usize = 0;
    while j < v.len()
        invariant
            j <= v@.len(),
            keys@.len() == j,
            forall|k: int| 0 <= k < j ==> #[trigger] keys@[k] == v@[k],
        decreases v.len() - j,
    {
        keys.push(v[j] as i128);
        j = j + 1;
    }
    proof {
        assert(wide(keys@) =~= indices(v@));
    }
    let order: Vec<usize> = order_by(&keys);
    let mut out: Vec<usize> = Vec::new();
    let mut i: usize = 0;
    while i < order.len()
        invariant
            i <= order@.len(),
            order@.len() == v@.len(),
            forall|k: int| 0 <= k < order@.len() ==> #[trigger] order@[k] < v@.len(),
            out@.len() == i,
            forall|k: int| 0 <= k < i ==> #[trigger] out@[k] == v@[order@[k] as int],
        decreases order.len() - i,
    {
        out.push(v[order[i]]);
        i = i + 1;
    }
    proof {
        assert forall|k: int| 0 <= k < out@.len() implies #[trigger] indices(out@)[k] == sorted(
            indices(v@),
        )[k] by {
            assert(out@[k] == v@[order@[k] as int]);
            assert(indices(order@)[k] == order@[k]);
        }
        assert(indices(out@) =~= sorted(indices(v@)));
        assert forall|a: int, b: int| 0 <= a <= b < out@.len() implies out@[a] <= out@[b] by {
            law_sorted(indices(v@));
            assert(indices(out@)[a] == out@[a]);
            assert(indices(out@)[b] == out@[b]);
        }
    }
    out
}

} // verus!
