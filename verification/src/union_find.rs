//! Disjoint sets over indices, kept as a forest of parent links.

use vstd::prelude::*;

verus! {

/// Whether the links lead towards smaller ranks, except at roots.
pub open spec fn ranked(parent: Seq<usize>, rank: Seq<nat>) -> bool {
    &&& rank.len() == parent.len()
    &&& forall|i: int|
        0 <= i < parent.len() ==> #[trigger] parent[i] < parent.len() && (parent[i] != i
            ==> rank[parent[i] as int] < rank[i])
}

/// Whether `roots` agrees at `i` with the link of `i`.
pub open spec fn root_agrees(parent: Seq<usize>, roots: Seq<int>, i: int) -> bool {
    &&& 0 <= roots[i] < parent.len()
    &&& roots[i] == if parent[i] == i {
        i
    } else {
        roots[parent[i] as int]
    }
}

/// Whether `roots` lists the root that each index leads to.
pub open spec fn rooted(parent: Seq<usize>, roots: Seq<int>) -> bool {
    &&& roots.len() == parent.len()
    &&& forall|i: int| 0 <= i < parent.len() ==> #[trigger] root_agrees(parent, roots, i)
}

/// Whether following the links from any index ends at a root.
pub open spec fn is_forest(parent: Seq<usize>) -> bool {
    exists|rank: Seq<nat>, roots: Seq<int>| ranked(parent, rank) && rooted(parent, roots)
}

/// The root of every index.
pub open spec fn roots_of(parent: Seq<usize>) -> Seq<int> {
    choose|roots: Seq<int>| rooted(parent, roots)
}

/// The roots after the sets of `a` and `b` are joined: the set of `a` takes the
/// root of `b`.
pub open spec fn joined(roots: Seq<int>, a: int, b: int) -> Seq<int> {
    Seq::new(
        roots.len(),
        |i: int|
            if roots[i] == roots[a] {
                roots[b]
            } else {
                roots[i]
            },
    )
}

proof fn lemma_same_roots_at(
    parent: Seq<usize>,
    rank: Seq<nat>,
    r1: Seq<int>,
    r2: Seq<int>,
    i: int,
)
    requires
        ranked(parent, rank),
        rooted(parent, r1),
        rooted(parent, r2),
        0 <= i < parent.len(),
    ensures
        r1[i] == r2[i],
        parent[r1[i]] == r1[i],
        r1[r1[i]] == r1[i],
    decreases rank[i],
{
    let p = parent[i];
    assert(root_agrees(parent, r1, i) && root_agrees(parent, r2, i));
    if p != i {
        lemma_same_roots_at(parent, rank, r1, r2, p as int);
    }
}

proof fn lemma_unique_roots(parent: Seq<usize>, rank: Seq<nat>, roots: Seq<int>)
    requires
        ranked(parent, rank),
        rooted(parent, roots),
    ensures
        is_forest(parent),
        roots_of(parent) == roots,
{
    let chosen = roots_of(parent);
    assert(rooted(parent, chosen));
    assert forall|i: int| 0 <= i < parent.len() implies chosen[i] == roots[i] by {
        lemma_same_roots_at(parent, rank, chosen, roots, i);
    }
    assert(chosen =~= roots);
}

/// Every root is its own root and its own parent.
pub proof fn lemma_roots(parent: Seq<usize>, i: int)
    requires
        is_forest(parent),
        0 <= i < parent.len(),
    ensures
        roots_of(parent).len() == parent.len(),
        0 <= roots_of(parent)[i] < parent.len(),
        parent[roots_of(parent)[i]] == roots_of(parent)[i],
        roots_of(parent)[roots_of(parent)[i]] == roots_of(parent)[i],
{
    let (rank, roots) = choose|rank: Seq<nat>, roots: Seq<int>|
        ranked(parent, rank) && rooted(parent, roots);
    lemma_unique_roots(parent, rank, roots);
    lemma_same_roots_at(parent, rank, roots, roots, i);
    assert(root_agrees(parent, roots, i));
}

/// Joining twice changes nothing more, and afterwards both are in one set.
pub proof fn law_joined(roots: Seq<int>, a: int, b: int)
    requires
        0 <= a < roots.len(),
        0 <= b < roots.len(),
    ensures
        joined(roots, a, b)[a] == joined(roots, a, b)[b],
        joined(joined(roots, a, b), a, b) == joined(roots, a, b),
{
    let once = joined(roots, a, b);
    assert(joined(once, a, b) =~= once);
}

/// A forest in which every index is a set of its own.
pub fn singletons(n: usize) -> (parent: Vec<usize>)
    ensures
        parent@.len() == n,
        is_forest(parent@),
        roots_of(parent@) == Seq::new(n as nat, |i: int| i),
{
    let mut parent: Vec<usize> = Vec::new();
    let mut i: usize = 0;
    while i < n
        invariant
            i <= n,
            parent@.len() == i,
            forall|k: int| 0 <= k < i ==> #[trigger] parent@[k] == k,
        decreases n - i,
    {
        parent.push(i);
        i = i + 1;
    }
    proof {
        let rank = Seq::new(n as nat, |i: int| 0nat);
        let roots = Seq::new(n as nat, |i: int| i);
        assert(ranked(parent@, rank));
        assert forall|i: int| 0 <= i < n implies #[trigger] root_agrees(parent@, roots, i) by {
            assert(parent@[i] == i);
        }
        assert(rooted(parent@, roots));
        lemma_unique_roots(parent@, rank, roots);
    }
    parent
}

/// The root of `x`. Links on the way are shortened; no root changes.
pub fn uf_find(parent: &mut Vec<usize>, x: usize) -> (r: usize)
    requires
        is_forest(old(parent)@),
        x < old(parent)@.len(),
    ensures
        r == roots_of(old(parent)@)[x as int],
        is_forest(final(parent)@),
        final(parent)@.len() == old(parent)@.len(),
        roots_of(final(parent)@) == roots_of(old(parent)@),
{
    let ghost (rank, roots) = choose|rank: Seq<nat>, roots: Seq<int>|
        ranked(parent@, rank) && rooted(parent@, roots);
    let ghost before = parent@;
    proof {
        lemma_unique_roots(parent@, rank, roots);
    }
    let mut at: usize = x;
    while parent[at] != at
        invariant
            at < parent@.len(),
            parent@.len() == before.len(),
            ranked(parent@, rank),
            rooted(parent@, roots),
            roots == roots_of(before),
            roots[at as int] == roots[x as int],
        decreases rank[at as int],
    {
        let p: usize = parent[at];
        let g: usize = parent[p];
        let ghost old_parent = parent@;
        proof {
            assert(root_agrees(old_parent, roots, at as int));
            assert(root_agrees(old_parent, roots, p as int));
            assert(root_agrees(old_parent, roots, g as int));
        }
        parent.set(at, g);
        proof {
            assert forall|i: int| 0 <= i < parent@.len() implies #[trigger] parent@[i]
                < parent@.len() && (parent@[i] != i ==> rank[parent@[i] as int] < rank[i]) by {
                assert(old_parent[i] < old_parent.len());
                assert(old_parent[p as int] < old_parent.len());
            }
            assert forall|i: int| 0 <= i < parent@.len() implies #[trigger] root_agrees(
                parent@,
                roots,
                i,
            ) by {
                assert(root_agrees(old_parent, roots, i));
                if i == at {
                    assert(rank[p as int] < rank[at as int]);
                    assert(g != at);
                }
            }
        }
        at = g;
    }
    proof {
        lemma_unique_roots(parent@, rank, roots);
        assert(root_agrees(parent@, roots, at as int));
    }
    at
}

/// Linking the root of `a` below the root of `b` joins their sets.
proof fn lemma_link(before: Seq<usize>, rank: Seq<nat>, roots: Seq<int>, a: int, b: int)
    requires
        ranked(before, rank),
        rooted(before, roots),
        0 <= a < before.len(),
        0 <= b < before.len(),
        roots[a] != roots[b],
    ensures
        is_forest(before.update(roots[a], roots[b] as usize)),
        roots_of(before.update(roots[a], roots[b] as usize)) == joined(roots, a, b),
{
    let ra = roots[a];
    let rb = roots[b];
    lemma_same_roots_at(before, rank, roots, roots, a);
    lemma_same_roots_at(before, rank, roots, roots, b);
    assert(root_agrees(before, roots, a));
    assert(root_agrees(before, roots, b));
    let after = before.update(ra, rb as usize);
    let new_roots = joined(roots, a, b);
    let lift = (rank[rb] + 1) as nat;
    let new_rank = Seq::new(
        rank.len(),
        |i: int|
            if roots[i] == ra {
                rank[i] + lift
            } else {
                rank[i]
            },
    );
    assert forall|i: int| 0 <= i < after.len() implies #[trigger] after[i] < after.len() && (
    after[i] != i ==> new_rank[after[i] as int] < new_rank[i]) by {
        assert(before[i] < before.len());
        assert(root_agrees(before, roots, i));
    }
    assert forall|i: int| 0 <= i < after.len() implies #[trigger] root_agrees(
        after,
        new_roots,
        i,
    ) by {
        assert(before[i] < before.len());
        assert(root_agrees(before, roots, i));
        lemma_same_roots_at(before, rank, roots, roots, i);
    }
    assert(ranked(after, new_rank));
    assert(rooted(after, new_roots));
    lemma_unique_roots(after, new_rank, new_roots);
}

/// Joins the sets of `a` and `b`: the root of `a` is put below the root of `b`.
pub fn uf_union(parent: &mut Vec<usize>, a: usize, b: usize)
    requires
        is_forest(old(parent)@),
        a < old(parent)@.len(),
        b < old(parent)@.len(),
    ensures
        is_forest(final(parent)@),
        final(parent)@.len() == old(parent)@.len(),
        roots_of(final(parent)@) == joined(roots_of(old(parent)@), a as int, b as int),
{
    let ra: usize = uf_find(parent, a);
    let rb: usize = uf_find(parent, b);
    let ghost before = parent@;
    proof {
        lemma_roots(before, a as int);
    }
    if ra != rb {
        proof {
            let (rank, roots) = choose|rank: Seq<nat>, roots: Seq<int>|
                ranked(before, rank) && rooted(before, roots);
            lemma_unique_roots(before, rank, roots);
            lemma_link(before, rank, roots, a as int, b as int);
        }
        parent.set(ra, rb);
    } else {
        proof {
            assert(joined(roots_of(before), a as int, b as int) =~= roots_of(before));
        }
    }
}

} // verus!
