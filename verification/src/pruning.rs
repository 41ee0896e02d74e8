//! Leaf pruning: the states of a parent relation are taken away leaf by
//! leaf; whatever cannot be taken away lies on or above a cycle.
use crate::topology::{
    children_of, has_cycle, is_forest, is_leaf, is_ranking, leaves, lemma_children_upto,
    lemma_distinct_bounded, lemma_leaf_has_no_children, lemma_leaves_upto,
    lemma_stuck_has_cycle, parents_in_range,
};
use vstd::prelude::*;

verus! {

/// `p` has become a leaf: it waits in `leafs` or has been taken away.
pub open spec fn done(leafs: Seq<usize>, order: Seq<usize>, p: usize) -> bool {
    leafs.contains(p) || order.contains(p)
}

/// What holds between two steps of the pruning: `order` lists the states
/// taken away so far, `leafs` those that wait, and `children` holds, for
/// every other state, the children that are still there.
pub open spec fn pruning(
    parents: Seq<Option<usize>>,
    leafs: Seq<usize>,
    order: Seq<usize>,
    children: Seq<Seq<usize>>,
) -> bool {
    let n = parents.len();
    &&& n <= usize::MAX
    &&& children.len() == n
    &&& order.no_duplicates()
    &&& leafs.no_duplicates()
    &&& forall|i: int| 0 <= i < order.len() ==> #[trigger] order[i] < n
    &&& forall|i: int| 0 <= i < leafs.len() ==> #[trigger] leafs[i] < n
    &&& forall|v: usize| #[trigger] order.contains(v) ==> !leafs.contains(v)
    &&& forall|c: usize, p: usize|
        c < n && parents[c as int] == Some(p) && #[trigger] done(leafs, order, p)
            ==> #[trigger] order.contains(c)
    &&& forall|p: usize|
        p < n && !done(leafs, order, p) ==> (#[trigger] children[p as int]).len() > 0
    &&& forall|p: usize, c: usize|
        p < n && !done(leafs, order, p) ==> (#[trigger] children[p as int].contains(c) <==> c
            < n && parents[c as int] == Some(p) && !order.contains(c))
    &&& forall|a: int, b: int|
        0 <= a < order.len() && 0 <= b < order.len() && parents[(#[trigger] order[a]) as int]
            == Some(#[trigger] order[b]) ==> a < b
}

/// What a sequence holds after one more element.
proof fn lemma_push_contains(s: Seq<usize>, x: usize)
    ensures
        forall|v: usize| #[trigger] s.push(x).contains(v) <==> s.contains(v) || v == x,
        s.no_duplicates() && !s.contains(x) ==> s.push(x).no_duplicates(),
{
    if s.no_duplicates() && !s.contains(x) {
        assert forall|i: int, j: int|
            0 <= i < s.push(x).len() && 0 <= j < s.push(x).len() && i != j implies s.push(x)[i]
            != s.push(x)[j] by {
            if i < s.len() {
                assert(s.contains(s[i]));
            }
            if j < s.len() {
                assert(s.contains(s[j]));
            }
        }
    }
    assert forall|v: usize| #[trigger] s.push(x).contains(v) <==> s.contains(v) || v == x by {
        if s.contains(v) {
            let j = choose|j: int| 0 <= j < s.len() && s[j] == v;
            assert(s.push(x)[j] == v);
        }
        if v == x {
            assert(s.push(x)[s.len() as int] == x);
        }
    }
}

/// What a sequence without repetitions holds without its last element.
proof fn lemma_drop_last_contains(s: Seq<usize>)
    requires
        s.len() > 0,
        s.no_duplicates(),
    ensures
        s.drop_last().no_duplicates(),
        forall|v: usize| #[trigger] s.drop_last().contains(v) <==> s.contains(v) && v != s.last(),
{
    assert forall|v: usize| #[trigger]
        s.drop_last().contains(v) <==> s.contains(v) && v != s.last() by {
        if s.drop_last().contains(v) {
            let j = choose|j: int| 0 <= j < s.drop_last().len() && s.drop_last()[j] == v;
            assert(s[j] == v);
        }
        if s.contains(v) && v != s.last() {
            let j = choose|j: int| 0 <= j < s.len() && s[j] == v;
            assert(s.drop_last()[j] == v);
        }
    }
}

/// The pruning starts with the leaves waiting and every list of children
/// whole.
pub proof fn lemma_pruning_start(parents: Seq<Option<usize>>, children: Seq<Seq<usize>>)
    requires
        parents.len() <= usize::MAX,
        children.len() == parents.len(),
        forall|i: int|
            0 <= i < parents.len() ==> (#[trigger] children[i]) == children_of(
                parents,
                i as usize,
            ),
    ensures
        pruning(parents, leaves(parents), Seq::empty(), children),
{
    let n = parents.len();
    let leafs = leaves(parents);
    let order = Seq::<usize>::empty();
    lemma_leaves_upto(parents, n);
    assert forall|i: int| 0 <= i < leafs.len() implies #[trigger] leafs[i] < n by {
        assert(leafs.contains(leafs[i]));
    }
    assert forall|c: usize, p: usize|
        c < n && parents[c as int] == Some(p) && #[trigger] done(
            leafs,
            order,
            p,
        ) implies #[trigger] order.contains(c) by {
        assert(is_leaf(parents, p));
    }
    assert forall|p: usize| p < n && !done(leafs, order, p) implies (#[trigger] children[p as int]).len() > 0 by {
        lemma_leaf_has_no_children(parents, p);
    }
    assert forall|p: usize, c: usize| p < n && !done(leafs, order, p) implies (
    #[trigger] children[p as int].contains(c) <==> c < n && parents[c as int] == Some(p)
        && !order.contains(c)) by {
        lemma_children_upto(parents, p, n);
    }
}

/// Taking away a waiting root.
pub proof fn lemma_prune_root(
    parents: Seq<Option<usize>>,
    leafs: Seq<usize>,
    order: Seq<usize>,
    children: Seq<Seq<usize>>,
)
    requires
        pruning(parents, leafs, order, children),
        leafs.len() > 0,
        parents[leafs.last() as int] is None,
    ensures
        order.len() < parents.len(),
        pruning(parents, leafs.drop_last(), order.push(leafs.last()), children),
{
    let n = parents.len();
    let l = leafs.last();
    let leafs2 = leafs.drop_last();
    let order2 = order.push(l);
    lemma_push_contains(order, l);
    lemma_drop_last_contains(leafs);
    assert(leafs.contains(l));
    assert(!order.contains(l));
    assert(order2.no_duplicates());
    lemma_distinct_bounded(order2, n);
    assert forall|p: usize| done(leafs2, order2, p) <==> done(leafs, order, p) by {}
    assert forall|a: int, b: int|
        0 <= a < order2.len() && 0 <= b < order2.len() && parents[(
        #[trigger] order2[a]) as int] == Some(#[trigger] order2[b]) implies a < b by {
        if b == order.len() && a < order.len() {
        } else {
            assert(a < order.len() && b < order.len());
        }
    }
}

/// Taking away a waiting state with a parent: `rest` is what the list of
/// the parent's children holds besides it.
pub proof fn lemma_prune_child(
    parents: Seq<Option<usize>>,
    leafs: Seq<usize>,
    order: Seq<usize>,
    children: Seq<Seq<usize>>,
    rest: Seq<usize>,
)
    requires
        pruning(parents, leafs, order, children),
        leafs.len() > 0,
        parents[leafs.last() as int] matches Some(p) && p < parents.len() && forall|c: usize| #[trigger]
            rest.contains(c) <==> children[p as int].contains(c) && c != leafs.last(),
    ensures
        order.len() < parents.len(),
        rest.len() == 0 ==> pruning(
            parents,
            leafs.drop_last().push(parents[leafs.last() as int].unwrap()),
            order.push(leafs.last()),
            children,
        ),
        rest.len() != 0 ==> pruning(
            parents,
            leafs.drop_last(),
            order.push(leafs.last()),
            children.update(parents[leafs.last() as int].unwrap() as int, rest),
        ),
{
    let n = parents.len();
    let l = leafs.last();
    let above = parents[l as int].unwrap();
    let leafs1 = leafs.drop_last();
    let order2 = order.push(l);
    lemma_push_contains(order, l);
    lemma_drop_last_contains(leafs);
    lemma_push_contains(leafs1, above);
    assert(leafs.contains(l));
    assert(done(leafs, order, l));
    assert(!order.contains(l));
    assert(order2.no_duplicates());
    lemma_distinct_bounded(order2, n);
    // The parent still has the child, so it is not done.
    assert(!done(leafs, order, above)) by {
        if done(leafs, order, above) {
            assert(order.contains(l));
        }
    }
    assert(above != l);
    assert forall|a: int, b: int|
        0 <= a < order2.len() && 0 <= b < order2.len() && parents[(
        #[trigger] order2[a]) as int] == Some(#[trigger] order2[b]) implies a < b by {
        if a == order.len() {
            if b < order.len() {
                assert(order.contains(order[b]));
                assert(done(leafs, order, above));
            }
        } else if b < order.len() {
            assert(a < order.len() && b < order.len());
        }
    }
    if rest.len() == 0 {
        let leafs2 = leafs1.push(above);
        assert(leafs2.no_duplicates());
        assert forall|p: usize| done(leafs2, order2, p) <==> done(leafs, order, p) || p == above by {}
        assert forall|c: usize, p: usize|
            c < n && parents[c as int] == Some(p) && #[trigger] done(
                leafs2,
                order2,
                p,
            ) implies #[trigger] order2.contains(c) by {
            if p == above {
                if c != l && !order.contains(c) {
                    assert(children[above as int].contains(c));
                    assert(rest.contains(c));
                }
            } else {
                assert(done(leafs, order, p));
            }
        }
        assert forall|q: usize, c: usize| q < n && !done(leafs2, order2, q) implies (
        #[trigger] children[q as int].contains(c) <==> c < n && parents[c as int] == Some(q)
            && !order2.contains(c)) by {
            assert(!done(leafs, order, q));
        }
        assert(pruning(parents, leafs2, order2, children));
    } else {
        let children2 = children.update(above as int, rest);
        assert forall|p: usize| done(leafs1, order2, p) <==> done(leafs, order, p) by {}
        assert forall|q: usize| q < n && !done(leafs1, order2, q) implies (
        #[trigger] children2[q as int]).len() > 0 by {
            assert(!done(leafs, order, q));
        }
        assert forall|q: usize, c: usize| q < n && !done(leafs1, order2, q) implies (
        #[trigger] children2[q as int].contains(c) <==> c < n && parents[c as int] == Some(q)
            && !order2.contains(c)) by {
            assert(!done(leafs, order, q));
            if q == above {
                assert(children2[q as int] == rest);
            } else {
                assert(children2[q as int] == children[q as int]);
            }
        }
        assert(pruning(parents, leafs1, order2, children2));
    }
}

/// When no state waits any more, either all have been taken away and the
/// relation is a forest, or some are left and the relation has a cycle.
pub proof fn lemma_pruning_end(
    parents: Seq<Option<usize>>,
    order: Seq<usize>,
    children: Seq<Seq<usize>>,
)
    requires
        pruning(parents, Seq::empty(), order, children),
        parents_in_range(parents),
    ensures
        order.len() <= parents.len(),
        order.len() == parents.len() ==> is_forest(parents),
        order.len() != parents.len() ==> has_cycle(parents),
{
    let n = parents.len();
    let leafs = Seq::<usize>::empty();
    lemma_distinct_bounded(order, n);
    if order.len() == n {
        let rank = Seq::new(n, |i: int| (n - order.index_of(i as usize)) as nat);
        assert forall|i: int| 0 <= i < n implies ((#[trigger] parents[i]) matches Some(p) ==> p
            < n && rank[p as int] < rank[i]) by {
            if let Some(p) = parents[i] {
                assert(order.contains(i as usize));
                assert(order.contains(p));
                let a = order.index_of(i as usize);
                let b = order.index_of(p);
                assert(order[a] == i as usize && order[b] == p);
            }
        }
        assert(is_ranking(parents, rank));
    } else {
        let stuck = Set::new(|p: usize| p < n && !order.contains(p));
        if forall|v: usize| v < n ==> order.contains(v) {
            let all = Seq::new(n, |i: int| i as usize);
            assert(all.no_duplicates());
            all.unique_seq_to_set();
            order.lemma_cardinality_of_set();
            assert(all.to_set().subset_of(order.to_set())) by {
                assert forall|v: usize| all.to_set().contains(v) implies order.to_set().contains(
                    v,
                ) by {
                    assert(all.contains(v));
                }
            }
            vstd::set_lib::lemma_len_subset(all.to_set(), order.to_set());
            assert(false);
        }
        let u = choose|v: usize| v < n && !order.contains(v);
        assert(stuck.contains(u));
        assert forall|p: usize| #[trigger] stuck.contains(p) implies p < parents.len()
            && exists|c: usize| #[trigger]
            stuck.contains(c) && c < parents.len() && parents[c as int] == Some(p) by {
            assert(!done(leafs, order, p));
            let list = children[p as int];
            assert(list.len() > 0);
            let c = list[0];
            assert(list.contains(c));
            assert(stuck.contains(c));
        }
        lemma_stuck_has_cycle(parents, stuck, u);
    }
}

} // verus!
