//! The kinematic tree: a parent-pointer hierarchy over bone indices, and its
//! traversal in depth order (roots first, then each depth level in index order).

use vstd::prelude::*;

verus! {

/// The `k`-th ancestor of joint `i` (`i` itself for `k == 0`), or `None` when the
/// chain leaves the tree (a root was passed, or a parent index is out of range).
pub open spec fn ancestor(parents: Seq<Option<usize>>, i: int, k: nat) -> Option<int>
    decreases k,
{
    if k == 0 {
        if 0 <= i < parents.len() {
            Some(i)
        } else {
            None
        }
    } else {
        match ancestor(parents, i, (k - 1) as nat) {
            Some(a) => match parents[a] {
                Some(p) => if p < parents.len() {
                    Some(p as int)
                } else {
                    None
                },
                None => None,
            },
            None => None,
        }
    }
}

/// Joint `i` lies at depth `d`: its `d`-th ancestor is a root.
pub open spec fn depth_is(parents: Seq<Option<usize>>, i: int, d: nat) -> bool {
    match ancestor(parents, i, d) {
        Some(r) => parents[r] is None,
        None => false,
    }
}

/// Joint `i` reaches a root through in-range parents in fewer steps than there
/// are joints.
pub open spec fn reaches_root(parents: Seq<Option<usize>>, i: int) -> bool {
    exists|d: nat| d < parents.len() && depth_is(parents, i, d)
}

/// Every joint reaches a root: the hierarchy has no cycle and no dangling parent.
pub open spec fn well_formed(parents: Seq<Option<usize>>) -> bool {
    forall|i: int| 0 <= i < parents.len() ==> #[trigger] reaches_root(parents, i)
}

/// The joints below index `i` that lie at depth `d`, in index order.
pub open spec fn level_prefix(parents: Seq<Option<usize>>, d: nat, i: nat) -> Seq<usize>
    decreases i,
{
    if i == 0 {
        Seq::empty()
    } else {
        let s = level_prefix(parents, d, (i - 1) as nat);
        if depth_is(parents, i - 1, d) {
            s.push((i - 1) as usize)
        } else {
            s
        }
    }
}

/// The joints of depth below `d`: depth by depth, each level in index order.
pub open spec fn levels(parents: Seq<Option<usize>>, d: nat) -> Seq<usize>
    decreases d,
{
    if d == 0 {
        Seq::empty()
    } else {
        levels(parents, (d - 1) as nat) + level_prefix(parents, (d - 1) as nat, parents.len())
    }
}

/// The depth order of the whole tree.
pub open spec fn tree_order(parents: Seq<Option<usize>>) -> Seq<usize> {
    levels(parents, parents.len())
}

/// Every non-root joint of `order` has its parent at an earlier position.
pub open spec fn parents_first(parents: Seq<Option<usize>>, order: Seq<usize>) -> bool {
    forall|k: int|
        #![trigger order[k]]
        0 <= k < order.len() ==> match parents[order[k] as int] {
            Some(p) => exists|j: int| 0 <= j < k && order[j] == p,
            None => true,
        }
}

/// `order` lists each joint of the tree exactly once.
pub open spec fn lists_each_once(n: nat, order: Seq<usize>) -> bool {
    &&& order.len() == n
    &&& order.no_duplicates()
    &&& forall|k: int| 0 <= k < order.len() ==> order[k] < n
    &&& forall|i: usize| i < n ==> #[trigger] order.contains(i)
}

/// Once an ancestor chain has left the tree it stays out.
pub proof fn lemma_ancestor_gone(parents: Seq<Option<usize>>, i: int, a: nat, b: nat)
    requires
        a <= b,
        ancestor(parents, i, a) is None,
    ensures
        ancestor(parents, i, b) is None,
    decreases b - a,
{
    if a < b {
        lemma_ancestor_gone(parents, i, a, (b - 1) as nat);
    }
}

/// A joint has at most one depth.
pub proof fn lemma_depth_unique(parents: Seq<Option<usize>>, i: int, a: nat, b: nat)
    requires
        depth_is(parents, i, a),
        depth_is(parents, i, b),
    ensures
        a == b,
{
    if a < b {
        lemma_ancestor_gone(parents, i, (a + 1) as nat, b);
    } else if b < a {
        lemma_ancestor_gone(parents, i, (b + 1) as nat, a);
    }
}

/// Stepping to the parent shortens every ancestor chain by one.
proof fn lemma_ancestor_shift(parents: Seq<Option<usize>>, i: int, p: usize, k: nat)
    requires
        0 <= i < parents.len(),
        p < parents.len(),
        parents[i] == Some(p),
    ensures
        ancestor(parents, i, k + 1) == ancestor(parents, p as int, k),
    decreases k,
{
    reveal_with_fuel(ancestor, 2);
    assert(ancestor(parents, i, 1) == Some(p as int));
    if k > 0 {
        lemma_ancestor_shift(parents, i, p, (k - 1) as nat);
        assert(ancestor(parents, i, k) == ancestor(parents, p as int, (k - 1) as nat));
    }
}

/// The depth of a joint is one more than the depth of its parent.
pub proof fn lemma_depth_parent(parents: Seq<Option<usize>>, i: int, p: usize, d: nat)
    requires
        0 <= i < parents.len(),
        p < parents.len(),
        parents[i] == Some(p),
    ensures
        depth_is(parents, i, d + 1) <==> depth_is(parents, p as int, d),
        !depth_is(parents, i, 0),
{
    lemma_ancestor_shift(parents, i, p, d);
}

/// The depth of joint `i`, or `None` when its chain does not reach a root in
/// fewer steps than there are joints.
fn depth_of(parents: &Vec<Option<usize>>, i: usize) -> (r: Option<usize>)
    requires
        i < parents.len(),
    ensures
        match r {
            Some(d) => d < parents.len() && depth_is(parents@, i as int, d as nat),
            None => forall|d: nat| d < parents.len() ==> !depth_is(parents@, i as int, d),
        },
{
    let n = parents.len();
    let mut cur: usize = i;
    let mut k: usize = 0;
    while k < n
        invariant
            n == parents.len(),
            cur < n,
            k <= n,
            ancestor(parents@, i as int, k as nat) == Some(cur as int),
            forall|d: nat| d < k ==> !depth_is(parents@, i as int, d),
        decreases n - k,
    {
        match parents[cur] {
            None => {
                return Some(k);
            },
            Some(p) => {
                if p >= n {
                    proof {
                        assert(ancestor(parents@, i as int, (k + 1) as nat) is None);
                        assert forall|d: nat| d < n implies !depth_is(parents@, i as int, d) by {
                            if d > k {
                                lemma_ancestor_gone(parents@, i as int, (k + 1) as nat, d);
                            }
                        }
                    }
                    return None;
                }
                assert(ancestor(parents@, i as int, (k + 1) as nat) == Some(p as int));
                cur = p;
                k = k + 1;
            },
        }
    }
    None
}

/// Lists the joints in depth order (see `tree_order`), or returns `None` when the
/// hierarchy is not well formed.
pub fn depth_order(parents: &Vec<Option<usize>>) -> (r: Option<Vec<usize>>)
    ensures
        r is Some <==> well_formed(parents@),
        r matches Some(order) ==> {
            &&& order@ == tree_order(parents@)
            &&& parents_first(parents@, order@)
            &&& lists_each_once(parents@.len(), order@)
        },
{
    let n = parents.len();
    let mut depths: Vec<usize> = Vec::new();
    let mut i: usize = 0;
    while i < n
        invariant
            n == parents.len(),
            i <= n,
            depths.len() == i,
            forall|j: int|
                0 <= j < i ==> #[trigger] depths[j] < n && depth_is(parents@, j, depths[j] as nat),
        decreases n - i,
    {
        match depth_of(parents, i) {
            Some(d) => {
                depths.push(d);
            },
            None => {
                assert(!reaches_root(parents@, i as int));
                return None;
            },
        }
        i = i + 1;
    }
    assert(well_formed(parents@)) by {
        assert forall|j: int| 0 <= j < n implies #[trigger] reaches_root(parents@, j) by {
            assert(depth_is(parents@, j, depths[j] as nat));
        }
    }
    let mut order: Vec<usize> = Vec::new();
    let mut d: usize = 0;
    while d < n
        invariant
            n == parents.len(),
            d <= n,
            depths.len() == n,
            forall|j: int|
                0 <= j < n ==> #[trigger] depths[j] < n && depth_is(parents@, j, depths[j] as nat),
            order@ == levels(parents@, d as nat),
            forall|k: int| 0 <= k < order.len() ==> #[trigger] order[k] < n && depths[order[k] as int] < d,
            forall|a: int, b: int|
                0 <= a < b < order.len() ==> (depths[order[a] as int] < depths[order[b] as int] || (
                depths[order[a] as int] == depths[order[b] as int] && order[a] < order[b])),
            forall|j: usize| j < n && depths[j as int] < d ==> #[trigger] order@.contains(j),
            parents_first(parents@, order@),
        decreases n - d,
    {
        let ghost base = order@;
        let mut i: usize = 0;
        while i < n
            invariant
                n == parents.len(),
                d < n,
                i <= n,
                depths.len() == n,
                forall|j: int|
                    0 <= j < n ==> #[trigger] depths[j] < n && depth_is(parents@, j, depths[j] as nat),
                base == levels(parents@, d as nat),
                order@ == base + level_prefix(parents@, d as nat, i as nat),
                forall|k: int|
                    0 <= k < order.len() ==> #[trigger] order[k] < n && (depths[order[k] as int] < d || (
                    depths[order[k] as int] == d && order[k] < i)),
                forall|a: int, b: int|
                    0 <= a < b < order.len() ==> (depths[order[a] as int] < depths[order[b] as int] || (
                    depths[order[a] as int] == depths[order[b] as int] && order[a] < order[b])),
                forall|j: usize|
                    j < n && (depths[j as int] < d || (depths[j as int] == d && j < i)) ==> #[trigger] order@.contains(j),
                parents_first(parents@, order@),
            decreases n - i,
        {
            let ghost before = order@;
            proof {
                if depth_is(parents@, i as int, d as nat) {
                    lemma_depth_unique(parents@, i as int, d as nat, depths[i as int] as nat);
                }
                if depths[i as int] == d {
                    assert(depth_is(parents@, i as int, d as nat));
                }
            }
            if depths[i] == d {
                proof {
                    match parents@[i as int] {
                        Some(p) => {
                            let pj = p as int;
                            if p < n {
                                lemma_depth_parent(parents@, i as int, p, (d - 1) as nat);
                                assert(depth_is(parents@, pj, depths[pj] as nat));
                                lemma_depth_unique(parents@, pj, (d - 1) as nat, depths[pj] as nat);
                                assert(before.contains(p));
                            } else {
                                reveal_with_fuel(ancestor, 2);
                                assert(ancestor(parents@, i as int, 1) is None);
                                lemma_ancestor_gone(parents@, i as int, 1, d as nat);
                            }
                        },
                        None => {
                            if d > 0 {
                                reveal_with_fuel(ancestor, 2);
                                assert(ancestor(parents@, i as int, 1) is None);
                                lemma_ancestor_gone(parents@, i as int, 1, d as nat);
                            }
                        },
                    }
                }
                assert(match parents@[i as int] {
                    Some(p) => before.contains(p),
                    None => true,
                });
                order.push(i);
                proof {
                    assert forall|k: int| 0 <= k < order.len() implies #[trigger] order[k] < n && match parents@[order[k] as int] {
                        Some(p) => exists|j: int| 0 <= j < k && order[j] == p,
                        None => true,
                    } by {
                        if k < before.len() {
                            assert(order[k] == before[k]);
                            match parents@[order[k] as int] {
                                Some(p) => {
                                    let w = choose|w: int| 0 <= w < k && before[w] == p;
                                    assert(order[w] == p);
                                },
                                None => {},
                            }
                        } else {
                            match parents@[i as int] {
                                Some(p) => {
                                    let w = choose|w: int| 0 <= w < before.len() && before[w] == p;
                                    assert(order[w] == p);
                                },
                                None => {},
                            }
                        }
                    }
                    assert forall|j: usize|
                        j < n && (depths[j as int] < d || (depths[j as int] == d && j < i + 1)) implies #[trigger] order@.contains(j) by {
                        if j == i {
                            assert(order[before.len() as int] == i);
                        } else {
                            assert(before.contains(j));
                            let w = choose|w: int| 0 <= w < before.len() && before[w] == j;
                            assert(order[w] == j);
                        }
                    }
                }
            } else {
                proof {
                    assert forall|j: usize|
                        j < n && (depths[j as int] < d || (depths[j as int] == d && j < i + 1)) implies #[trigger] order@.contains(j) by {
                        if j == i {
                            assert(depths[j as int] != d);
                        }
                    }
                }
            }
            assert(order@ == base + level_prefix(parents@, d as nat, (i + 1) as nat));
            i = i + 1;
        }
        assert(order@ == levels(parents@, (d + 1) as nat));
        d = d + 1;
    }
    proof {
        assert forall|a: int, b: int| 0 <= a < order.len() && 0 <= b < order.len() && a != b implies order[a] != order[b] by {
            if a < b {
                assert(depths[order[a] as int] < depths[order[b] as int] || order[a] < order[b]);
            } else {
                assert(depths[order[b] as int] < depths[order[a] as int] || order[b] < order[a]);
            }
        }
        assert(order@.no_duplicates());
        assert forall|j: usize| j < n implies #[trigger] order@.contains(j) by {
            assert(depths[j as int] < n);
        }
        lemma_each_once_len(n as nat, order@);
    }
    Some(order)
}

/// A duplicate-free list of indices below `n` that holds each of them has length `n`.
proof fn lemma_each_once_len(n: nat, order: Seq<usize>)
    requires
        n <= usize::MAX,
        order.no_duplicates(),
        forall|k: int| 0 <= k < order.len() ==> order[k] < n,
        forall|i: usize| i < n ==> #[trigger] order.contains(i),
    ensures
        order.len() == n,
{
    let s = order.to_set();
    let r = Set::new(|i: usize| i < n);
    assert(s =~= r);
    order.unique_seq_to_set();
    lemma_range_set_len(n);
}

proof fn lemma_range_set_len(n: nat)
    requires
        n <= usize::MAX,
    ensures
        Set::new(|i: usize| i < n).finite(),
        Set::new(|i: usize| i < n).len() == n,
    decreases n,
{
    if n == 0 {
        assert(Set::new(|i: usize| i < n) =~= Set::empty());
    } else {
        lemma_range_set_len((n - 1) as nat);
        assert(Set::new(|i: usize| i < n) =~= Set::new(|i: usize| i < (n - 1) as nat).insert((n - 1) as usize));
    }
}

} // verus!
