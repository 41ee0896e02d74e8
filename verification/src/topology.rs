//! The parent relation of a set of states, as a sequence of optional parent
//! indices, and what follows from its being free of cycles.
use vstd::prelude::*;

verus! {

/// Every parent index names a state.
pub open spec fn parents_in_range(parents: Seq<Option<usize>>) -> bool {
    forall|i: int|
        0 <= i < parents.len() ==> ((#[trigger] parents[i]) matches Some(p) ==> p < parents.len())
}

/// The state reached from `i` by `k` steps to the parent, if there is one.
pub open spec fn ancestor(parents: Seq<Option<usize>>, i: usize, k: nat) -> Option<usize>
    decreases k,
{
    if i >= parents.len() {
        None
    } else if k == 0 {
        Some(i)
    } else {
        match parents[i as int] {
            Some(p) => ancestor(parents, p, (k - 1) as nat),
            None => None,
        }
    }
}

/// Some state is its own ancestor.
pub open spec fn has_cycle(parents: Seq<Option<usize>>) -> bool {
    exists|i: usize, k: nat| k >= 1 && #[trigger] ancestor(parents, i, k) == Some(i)
}

/// No state has `i` as its parent.
pub open spec fn is_leaf(parents: Seq<Option<usize>>, i: usize) -> bool {
    forall|j: int| 0 <= j < parents.len() ==> #[trigger] parents[j] != Some(i)
}

/// `rank` gives every state a number above that of its parent.
pub open spec fn is_ranking(parents: Seq<Option<usize>>, rank: Seq<nat>) -> bool {
    &&& rank.len() == parents.len()
    &&& forall|i: int|
        0 <= i < parents.len() ==> ((#[trigger] parents[i]) matches Some(p) ==> p < parents.len()
            && rank[p as int] < rank[i])
}

/// The parent relation is a forest: every parent exists and the states can
/// be ranked.
pub open spec fn is_forest(parents: Seq<Option<usize>>) -> bool {
    exists|rank: Seq<nat>| is_ranking(parents, rank)
}

/// A ranking of a forest.
pub open spec fn ranking(parents: Seq<Option<usize>>) -> Seq<nat> {
    choose|rank: Seq<nat>| is_ranking(parents, rank)
}

/// The rank of `i`; it falls with every step to the parent.
pub open spec fn height(parents: Seq<Option<usize>>, i: usize) -> nat {
    if i < parents.len() {
        ranking(parents)[i as int]
    } else {
        0
    }
}

/// In a forest the parent of a state has a smaller height.
pub proof fn lemma_height_falls(parents: Seq<Option<usize>>, i: usize)
    requires
        is_forest(parents),
        i < parents.len(),
        parents[i as int] is Some,
    ensures
        parents[i as int].unwrap() < parents.len(),
        height(parents, parents[i as int].unwrap()) < height(parents, i),
{
    assert(is_ranking(parents, ranking(parents)));
}

/// The states from `i` up to its root, `i` first.
pub open spec fn path(parents: Seq<Option<usize>>, i: usize) -> Seq<usize>
    decreases height(parents, i),
    when is_forest(parents) && i < parents.len()
    via path_decreases
{
    match parents[i as int] {
        Some(p) => seq![i] + path(parents, p),
        None => seq![i],
    }
}

#[via_fn]
proof fn path_decreases(parents: Seq<Option<usize>>, i: usize) {
    if parents[i as int] is Some {
        lemma_height_falls(parents, i);
    }
}

/// The states from `i` upwards, `i` first, that come before the first
/// proper ancestor of `i` marked in `stop`.
pub open spec fn climb(parents: Seq<Option<usize>>, stop: Seq<bool>, i: usize) -> Seq<usize>
    decreases height(parents, i),
    when is_forest(parents) && i < parents.len()
    via climb_decreases
{
    match parents[i as int] {
        Some(p) => if stop[p as int] {
            seq![i]
        } else {
            seq![i] + climb(parents, stop, p)
        },
        None => seq![i],
    }
}

#[via_fn]
proof fn climb_decreases(parents: Seq<Option<usize>>, stop: Seq<bool>, i: usize) {
    if parents[i as int] is Some {
        lemma_height_falls(parents, i);
    }
}

/// The first proper ancestor of `i` marked in `stop`, if there is one.
pub open spec fn first_marked(parents: Seq<Option<usize>>, stop: Seq<bool>, i: usize) -> Option<
    usize,
>
    decreases height(parents, i),
    when is_forest(parents) && i < parents.len()
    via first_marked_decreases
{
    match parents[i as int] {
        Some(p) => if stop[p as int] {
            Some(p)
        } else {
            first_marked(parents, stop, p)
        },
        None => None,
    }
}

#[via_fn]
proof fn first_marked_decreases(parents: Seq<Option<usize>>, stop: Seq<bool>, i: usize) {
    if parents[i as int] is Some {
        lemma_height_falls(parents, i);
    }
}

/// Marks the state `s`, if any, among `n` states.
pub open spec fn only(n: nat, s: Option<usize>) -> Seq<bool> {
    Seq::new(n, |j: int| s == Some(j as usize))
}

/// The children of `p` among the first `k` states, in increasing order.
pub open spec fn children_upto(parents: Seq<Option<usize>>, p: usize, k: nat) -> Seq<usize>
    decreases k,
{
    if k == 0 {
        Seq::empty()
    } else if k <= parents.len() && parents[k - 1] == Some(p) {
        children_upto(parents, p, (k - 1) as nat).push((k - 1) as usize)
    } else {
        children_upto(parents, p, (k - 1) as nat)
    }
}

/// The children of `p`, in increasing order.
pub open spec fn children_of(parents: Seq<Option<usize>>, p: usize) -> Seq<usize> {
    children_upto(parents, p, parents.len())
}

/// The leaves among the first `k` states, in increasing order.
pub open spec fn leaves_upto(parents: Seq<Option<usize>>, k: nat) -> Seq<usize>
    decreases k,
{
    if k == 0 {
        Seq::empty()
    } else if is_leaf(parents, (k - 1) as usize) {
        leaves_upto(parents, (k - 1) as nat).push((k - 1) as usize)
    } else {
        leaves_upto(parents, (k - 1) as nat)
    }
}

/// The leaves, in increasing order: the states a transition may name.
pub open spec fn leaves(parents: Seq<Option<usize>>) -> Seq<usize> {
    leaves_upto(parents, parents.len())
}

/// The path from a state to its root: it begins with the state, climbs
/// parent by parent, stays among the states and never comes back to a state.
pub proof fn lemma_path(parents: Seq<Option<usize>>, i: usize)
    requires
        is_forest(parents),
        i < parents.len(),
    ensures
        path(parents, i).len() >= 1,
        path(parents, i)[0] == i,
        forall|j: int|
            0 <= j < path(parents, i).len() ==> (#[trigger] path(parents, i)[j]) < parents.len(),
        forall|j: int|
            0 <= j < path(parents, i).len() ==> height(parents, #[trigger] path(parents, i)[j])
                <= height(parents, i) - j,
        forall|j: int|
            0 <= j < path(parents, i).len() ==> #[trigger] path(parents, i).skip(j) == path(
                parents,
                path(parents, i)[j],
            ),
        forall|j: int|
            0 <= j < path(parents, i).len() ==> parents[(#[trigger] path(parents, i)[j]) as int]
                == (if j + 1 < path(parents, i).len() {
                Some(path(parents, i)[j + 1])
            } else {
                None
            }),
        path(parents, i).no_duplicates(),
    decreases height(parents, i),
{
    let up = path(parents, i);
    match parents[i as int] {
        Some(p) => {
            lemma_height_falls(parents, i);
            lemma_path(parents, p);
            let rest = path(parents, p);
            assert(up == seq![i] + rest);
            assert forall|j: int| 0 <= j < up.len() implies #[trigger] up.skip(j) == path(
                parents,
                up[j],
            ) by {
                if j == 0 {
                    assert(up.skip(0) =~= up);
                } else {
                    assert(up.skip(j) =~= rest.skip(j - 1));
                    assert(up[j] == rest[j - 1]);
                }
            }
            assert forall|j: int| 0 <= j < up.len() implies height(parents, #[trigger] up[j])
                <= height(parents, i) - j by {
                if j > 0 {
                    assert(up[j] == rest[j - 1]);
                }
            }
            assert forall|j: int| 0 <= j < up.len() implies parents[(#[trigger] up[j]) as int]
                == (if j + 1 < up.len() {
                Some(up[j + 1])
            } else {
                None
            }) by {
                if j > 0 {
                    assert(up[j] == rest[j - 1]);
                    if j + 1 < up.len() {
                        assert(up[j + 1] == rest[j]);
                    }
                } else {
                    assert(up[1] == rest[0]);
                }
            }
            assert forall|a: int, b: int| 0 <= a < up.len() && 0 <= b < up.len() && a != b implies up[a]
                != up[b] by {
                if a > 0 && b > 0 {
                    assert(up[a] == rest[a - 1] && up[b] == rest[b - 1]);
                } else if a == 0 {
                    assert(up[b] == rest[b - 1]);
                    assert(height(parents, rest[b - 1]) <= height(parents, p) - (b - 1));
                } else {
                    assert(up[a] == rest[a - 1]);
                    assert(height(parents, rest[a - 1]) <= height(parents, p) - (a - 1));
                }
            }
        },
        None => {
            assert(up == seq![i]);
            assert(up.skip(0) =~= up);
        },
    }
}

/// A climb is the lower end of the path: it ends below the first marked
/// proper ancestor, or at the root if none is marked.
pub proof fn lemma_climb(parents: Seq<Option<usize>>, stop: Seq<bool>, i: usize)
    requires
        is_forest(parents),
        i < parents.len(),
        stop.len() == parents.len(),
    ensures
        1 <= climb(parents, stop, i).len() <= path(parents, i).len(),
        climb(parents, stop, i) == path(parents, i).take(climb(parents, stop, i).len() as int),
        forall|j: int|
            1 <= j < climb(parents, stop, i).len() ==> !stop[(#[trigger] path(
                parents,
                i,
            )[j]) as int],
        first_marked(parents, stop, i) == (if climb(parents, stop, i).len() < path(
            parents,
            i,
        ).len() {
            Some(path(parents, i)[climb(parents, stop, i).len() as int])
        } else {
            None
        }),
        first_marked(parents, stop, i) matches Some(s) ==> s < parents.len() && stop[s as int],
    decreases height(parents, i),
{
    let up = path(parents, i);
    let low = climb(parents, stop, i);
    lemma_path(parents, i);
    match parents[i as int] {
        Some(p) => {
            lemma_height_falls(parents, i);
            lemma_path(parents, p);
            let rest = path(parents, p);
            assert(up == seq![i] + rest);
            if stop[p as int] {
                assert(low == seq![i]);
                assert(up.take(1) =~= seq![i]);
                assert(up[1] == rest[0]);
            } else {
                lemma_climb(parents, stop, p);
                let low_p = climb(parents, stop, p);
                assert(low == seq![i] + low_p);
                assert(up.take(low.len() as int) =~= seq![i] + rest.take(low_p.len() as int));
                assert forall|j: int| 1 <= j < low.len() implies !stop[(#[trigger] up[j]) as int] by {
                    assert(up[j] == rest[j - 1]);
                }
                if low_p.len() < rest.len() {
                    assert(up[low.len() as int] == rest[low_p.len() as int]);
                }
            }
        },
        None => {
            assert(up == seq![i]);
            assert(low == seq![i]);
            assert(up.take(1) =~= up);
        },
    }
}

/// What the list of the children of `p` among the first `k` states holds.
pub proof fn lemma_children_upto(parents: Seq<Option<usize>>, p: usize, k: nat)
    requires
        k <= parents.len() <= usize::MAX,
    ensures
        forall|c: usize| #[trigger]
            children_upto(parents, p, k).contains(c) <==> c < k && parents[c as int] == Some(p),
    decreases k,
{
    if k > 0 {
        let rest = children_upto(parents, p, (k - 1) as nat);
        lemma_children_upto(parents, p, (k - 1) as nat);
        let last = (k - 1) as usize;
        assert forall|c: usize| #[trigger]
            children_upto(parents, p, k).contains(c) <==> c < k && parents[c as int] == Some(
                p,
            ) by {
            if parents[k - 1] == Some(p) {
                assert(rest.push(last)[rest.len() as int] == last);
                if rest.contains(c) {
                    let j = choose|j: int| 0 <= j < rest.len() && rest[j] == c;
                    assert(rest.push(last)[j] == c);
                }
            }
        }
    }
}

/// What the list of the leaves among the first `k` states holds.
pub proof fn lemma_leaves_upto(parents: Seq<Option<usize>>, k: nat)
    requires
        k <= parents.len() <= usize::MAX,
    ensures
        leaves_upto(parents, k).no_duplicates(),
        forall|i: usize| #[trigger]
            leaves_upto(parents, k).contains(i) <==> i < k && is_leaf(parents, i),
    decreases k,
{
    if k > 0 {
        let rest = leaves_upto(parents, (k - 1) as nat);
        lemma_leaves_upto(parents, (k - 1) as nat);
        let last = (k - 1) as usize;
        if rest.contains(last) {
            assert(last < k - 1);
        }
        assert forall|i: usize| #[trigger]
            leaves_upto(parents, k).contains(i) <==> i < k && is_leaf(parents, i) by {
            if is_leaf(parents, last) {
                assert(rest.push(last)[rest.len() as int] == last);
                if rest.contains(i) {
                    let j = choose|j: int| 0 <= j < rest.len() && rest[j] == i;
                    assert(rest.push(last)[j] == i);
                }
            }
        }
    }
}

/// A state is a leaf exactly when the list of its children is empty.
pub proof fn lemma_leaf_has_no_children(parents: Seq<Option<usize>>, p: usize)
    requires
        parents.len() <= usize::MAX,
    ensures
        is_leaf(parents, p) <==> children_of(parents, p).len() == 0,
{
    lemma_children_upto(parents, p, parents.len());
    let list = children_of(parents, p);
    if list.len() > 0 {
        assert(list.contains(list[0]));
    }
    if !is_leaf(parents, p) {
        let j = choose|j: int| 0 <= j < parents.len() && parents[j] == Some(p);
        assert(list.contains(j as usize));
    }
}

/// Distinct numbers below `n` are at most `n`, and `n` of them are all of
/// them.
pub proof fn lemma_distinct_bounded(s: Seq<usize>, n: nat)
    requires
        s.no_duplicates(),
        forall|i: int| 0 <= i < s.len() ==> s[i] < n,
    ensures
        s.len() <= n,
        s.len() == n ==> forall|v: usize| v < n ==> s.contains(v),
{
    let t = s.map_values(|x: usize| x as int);
    let range = vstd::set_lib::set_int_range(0, n as int);
    vstd::set_lib::lemma_int_range(0, n as int);
    assert(t.no_duplicates());
    t.unique_seq_to_set();
    assert(t.to_set().subset_of(range)) by {
        assert forall|v: int| t.to_set().contains(v) implies range.contains(v) by {
            let j = choose|j: int| 0 <= j < t.len() && t[j] == v;
            assert(s[j] < n);
        }
    }
    vstd::set_lib::lemma_len_subset(t.to_set(), range);
    if s.len() == n {
        vstd::set_lib::lemma_subset_equality(t.to_set(), range);
        assert forall|v: usize| v < n implies s.contains(v) by {
            assert(range.contains(v as int));
            assert(t.to_set().contains(v as int));
            let j = choose|j: int| 0 <= j < t.len() && t[j] == v as int;
            assert(s[j] == v);
        }
    }
}

/// In a ranked relation every proper ancestor has a smaller rank.
pub proof fn lemma_ancestor_rank(parents: Seq<Option<usize>>, rank: Seq<nat>, i: usize, k: nat)
    requires
        is_ranking(parents, rank),
        k >= 1,
        ancestor(parents, i, k) is Some,
    ensures
        i < parents.len(),
        ancestor(parents, i, k).unwrap() < parents.len(),
        rank[ancestor(parents, i, k).unwrap() as int] < rank[i as int],
    decreases k,
{
    let p = parents[i as int].unwrap();
    assert(ancestor(parents, i, k) == ancestor(parents, p, (k - 1) as nat));
    if k > 1 {
        lemma_ancestor_rank(parents, rank, p, (k - 1) as nat);
    } else {
        assert(ancestor(parents, p, 0) == Some(p));
    }
}

/// A forest has no cycle.
pub proof fn lemma_forest_has_no_cycle(parents: Seq<Option<usize>>)
    requires
        is_forest(parents),
    ensures
        !has_cycle(parents),
{
    let rank = ranking(parents);
    assert forall|i: usize, k: nat| k >= 1 implies #[trigger] ancestor(parents, i, k) != Some(
        i,
    ) by {
        if ancestor(parents, i, k) is Some {
            lemma_ancestor_rank(parents, rank, i, k);
        }
    }
}

/// Following `chain` from its end leads, parent by parent, to its start.
proof fn lemma_chain_ancestor(parents: Seq<Option<usize>>, chain: Seq<usize>, a: int, b: int)
    requires
        0 <= a <= b < chain.len(),
        forall|j: int| 0 <= j < chain.len() ==> (#[trigger] chain[j]) < parents.len(),
        forall|j: int|
            0 <= j < chain.len() - 1 ==> parents[(#[trigger] chain[j + 1]) as int] == Some(
                chain[j],
            ),
    ensures
        ancestor(parents, chain[b], (b - a) as nat) == Some(chain[a]),
    decreases b - a,
{
    if a < b {
        lemma_chain_ancestor(parents, chain, a, b - 1);
        assert(parents[chain[(b - 1) + 1] as int] == Some(chain[b - 1]));
    }
}

/// A chain of `m + 1` states from `u` downwards, child by child, inside a
/// set of states each of which has a child in the set.
proof fn lemma_descend(
    parents: Seq<Option<usize>>,
    stuck: Set<usize>,
    u: usize,
    m: nat,
) -> (chain: Seq<usize>)
    requires
        stuck.contains(u),
        forall|p: usize| #[trigger]
            stuck.contains(p) ==> p < parents.len() && exists|c: usize| #[trigger]
                stuck.contains(c) && c < parents.len() && parents[c as int] == Some(p),
    ensures
        chain.len() == m + 1,
        chain[0] == u,
        forall|j: int| 0 <= j < chain.len() ==> stuck.contains(#[trigger] chain[j]),
        forall|j: int|
            0 <= j < chain.len() - 1 ==> parents[(#[trigger] chain[j + 1]) as int] == Some(
                chain[j],
            ),
    decreases m,
{
    if m == 0 {
        seq![u]
    } else {
        let rest = lemma_descend(parents, stuck, u, (m - 1) as nat);
        let p = rest.last();
        assert(stuck.contains(p));
        let c = choose|c: usize| #[trigger]
            stuck.contains(c) && c < parents.len() && parents[c as int] == Some(p);
        let chain = rest.push(c);
        assert forall|j: int| 0 <= j < chain.len() - 1 implies parents[(#[trigger] chain[j
            + 1]) as int] == Some(chain[j]) by {
            if j + 1 < rest.len() {
                assert(chain[j + 1] == rest[j + 1]);
            }
        }
        chain
    }
}

/// A non-empty set of states, each with a child in the set, holds a cycle.
pub proof fn lemma_stuck_has_cycle(parents: Seq<Option<usize>>, stuck: Set<usize>, u: usize)
    requires
        stuck.contains(u),
        forall|p: usize| #[trigger]
            stuck.contains(p) ==> p < parents.len() && exists|c: usize| #[trigger]
                stuck.contains(c) && c < parents.len() && parents[c as int] == Some(p),
    ensures
        has_cycle(parents),
{
    let n = parents.len();
    let chain = lemma_descend(parents, stuck, u, n);
    if chain.no_duplicates() {
        lemma_distinct_bounded(chain, n);
    }
    let (a, b) = choose|a: int, b: int|
        0 <= a < chain.len() && 0 <= b < chain.len() && a != b && chain[a] == chain[b];
    let (lo, hi) = if a < b {
        (a, b)
    } else {
        (b, a)
    };
    lemma_chain_ancestor(parents, chain, lo, hi);
    assert(ancestor(parents, chain[hi], (hi - lo) as nat) == Some(chain[hi]));
}

} // verus!
