//! Why the steps of a dispatch keep a machine well formed.
use crate::model::{
    acted, all_permitted, asks_for_leaves, bump, chained, complete, dispatched, enter_all,
    enter_one, exit_all, exit_one, label_of, labels, later, linked, parents_of, passed_on,
    permits,
    script, step, Event, Label, Machine, Outcome, Ran,
};
use crate::state::{StateResult, StateView};
use crate::topology::{is_leaf, lemma_climb, lemma_path, only, path};
use vstd::prelude::*;

verus! {

/// Entering the states of `list` makes them active, counts one more entry
/// for those with an entry action, and changes nothing else.
pub proof fn lemma_enter_all<SM, P>(states: Seq<StateView<SM, P>>, list: Seq<usize>)
    ensures
        enter_all(states, list).len() == states.len(),
        parents_of(enter_all(states, list)) == parents_of(states),
        forall|i: usize|
            i < states.len() ==> {
                let a = states[i as int];
                let b = #[trigger] enter_all(states, list)[i as int];
                &&& b == StateView { active: b.active, enter_cnt: b.enter_cnt, ..a }
                &&& b.active == (a.active || list.contains(i))
                &&& a.enter_cnt <= b.enter_cnt
                &&& !list.contains(i) ==> b.enter_cnt == a.enter_cnt
                &&& list.no_duplicates() && list.contains(i) ==> b.enter_cnt == if a.has_enter {
                    bump(a.enter_cnt)
                } else {
                    a.enter_cnt
                }
            },
    decreases list.len(),
{
    if list.len() > 0 {
        let last = list.last();
        let rest = list.drop_last();
        let mid = enter_one(states, last);
        lemma_enter_all(mid, rest);
        assert forall|v: usize| list.contains(v) <==> rest.contains(v) || v == last by {
            if list.contains(v) {
                let j = choose|j: int| 0 <= j < list.len() && list[j] == v;
                if j < rest.len() {
                    assert(rest[j] == v);
                }
            }
            if rest.contains(v) {
                let j = choose|j: int| 0 <= j < rest.len() && rest[j] == v;
                assert(list[j] == v);
            }
            assert(list[list.len() - 1] == last);
        }
        if list.no_duplicates() {
            assert(rest.no_duplicates());
            if rest.contains(last) {
                let j = choose|j: int| 0 <= j < rest.len() && rest[j] == last;
                assert(list[j] == last);
            }
        }
        assert(parents_of(mid) =~= parents_of(states));
    }
    assert(parents_of(enter_all(states, list)) =~= parents_of(states));
}

/// Exiting the states of `list` makes them inactive, counts one more exit
/// for those with an exit action, and changes nothing else.
pub proof fn lemma_exit_all<SM, P>(states: Seq<StateView<SM, P>>, list: Seq<usize>)
    ensures
        exit_all(states, list).len() == states.len(),
        parents_of(exit_all(states, list)) == parents_of(states),
        forall|i: usize|
            i < states.len() ==> {
                let a = states[i as int];
                let b = #[trigger] exit_all(states, list)[i as int];
                &&& b == StateView { active: b.active, exit_cnt: b.exit_cnt, ..a }
                &&& b.active == (a.active && !list.contains(i))
                &&& a.exit_cnt <= b.exit_cnt
                &&& !list.contains(i) ==> b.exit_cnt == a.exit_cnt
                &&& list.no_duplicates() && list.contains(i) ==> b.exit_cnt == if a.has_exit {
                    bump(a.exit_cnt)
                } else {
                    a.exit_cnt
                }
            },
    decreases list.len(),
{
    if list.len() > 0 {
        let first = list.first();
        let rest = list.drop_first();
        let mid = exit_one(states, first);
        lemma_exit_all(mid, rest);
        assert forall|v: usize| list.contains(v) <==> rest.contains(v) || v == first by {
            if list.contains(v) {
                let j = choose|j: int| 0 <= j < list.len() && list[j] == v;
                if j > 0 {
                    assert(rest[j - 1] == v);
                }
            }
            if rest.contains(v) {
                let j = choose|j: int| 0 <= j < rest.len() && rest[j] == v;
                assert(list[j + 1] == v);
            }
            assert(list[0] == first);
        }
        if list.no_duplicates() {
            assert(rest.no_duplicates());
            if rest.contains(first) {
                let j = choose|j: int| 0 <= j < rest.len() && rest[j] == first;
                assert(list[j + 1] == first);
            }
        }
        assert(parents_of(mid) =~= parents_of(states));
    }
    assert(parents_of(exit_all(states, list)) =~= parents_of(states));
}

/// A sequence without repetitions is split in two by every position: what
/// is in it is before the position or from it on, and never both.
pub proof fn lemma_split(s: Seq<usize>, k: int)
    requires
        0 <= k <= s.len(),
    ensures
        forall|v: usize| #[trigger] s.contains(v) <==> s.take(k).contains(v) || s.skip(k).contains(v),
        s.no_duplicates() ==> forall|v: usize| !(#[trigger] s.take(k).contains(v) && s.skip(k).contains(v)),
        s.no_duplicates() ==> s.take(k).no_duplicates() && s.skip(k).no_duplicates(),
{
    let a = s.take(k);
    let b = s.skip(k);
    assert forall|v: usize| #[trigger] s.contains(v) <==> a.contains(v) || b.contains(v) by {
        if s.contains(v) {
            let j = choose|j: int| 0 <= j < s.len() && s[j] == v;
            if j < k {
                assert(a[j] == v);
            } else {
                assert(b[j - k] == v);
            }
        }
        if a.contains(v) {
            let j = choose|j: int| 0 <= j < a.len() && a[j] == v;
            assert(s[j] == v);
        }
        if b.contains(v) {
            let j = choose|j: int| 0 <= j < b.len() && b[j] == v;
            assert(s[j + k] == v);
        }
    }
    if s.no_duplicates() {
        assert forall|v: usize| !(#[trigger] a.contains(v) && b.contains(v)) by {
            if a.contains(v) && b.contains(v) {
                let i = choose|i: int| 0 <= i < a.len() && a[i] == v;
                let j = choose|j: int| 0 <= j < b.len() && b[j] == v;
                assert(s[i] == v && s[j + k] == v);
            }
        }
    }
}

/// Making the pending entries keeps a machine well formed: then the active
/// states are the path from the current leaf to its root.
pub proof fn lemma_entered_wf<SM, P>(m: Machine<SM, P>)
    requires
        m.wf(),
    ensures
        m.entered().wf(),
        !m.entered().changed,
        m.entered().enter_list.len() == 0,
        m.entered().parents() == m.parents(),
        m.entered().states.len() == m.states.len(),
{
    let after = m.entered();
    let up = path(m.parents(), m.current);
    let k = m.enter_list.len() as int;
    if m.changed {
        lemma_enter_all(m.states, m.enter_list);
        lemma_split(up, k);
        assert(up.skip(0) =~= up);
        assert(up.take(0) =~= Seq::<usize>::empty());
        assert(after.enter_list =~= up.take(0));
        assert forall|i: usize| i < after.states.len() implies (
        #[trigger] after.states[i as int].active <==> up.skip(0).contains(i)) by {
            assert(m.states[i as int].active <==> up.skip(k).contains(i));
        }
    }
}

/// The process action, the deferred messages and the staged destination
/// leave a machine well formed.
pub proof fn lemma_handled_wf<SM, P>(m: Machine<SM, P>, idx: usize, o: Outcome<P>)
    requires
        m.wf(),
    ensures
        m.handled_by(idx, o).wf(),
        !m.handled_by(idx, o).changed,
        m.handled_by(idx, o).parents() == m.parents(),
        m.handled_by(idx, o).states.len() == m.states.len(),
{
    lemma_entered_wf(m);
    let m1 = m.entered();
    let m2 = m1.processed(idx);
    assert(parents_of(m2.states) =~= parents_of(m1.states));
    let up = path(m.parents(), m.current);
    assert forall|i: usize| i < m2.states.len() implies (#[trigger] m2.states[i as int].active
        <==> up.skip(0).contains(i)) by {
        assert(m1.states[i as int].active <==> up.skip(0).contains(i));
    }
}

/// A transition keeps a machine well formed: after the exits the active
/// states are what the old and the new path share, and the states to enter
/// are the rest of the new path.
pub proof fn lemma_transition_wf<SM, P>(m: Machine<SM, P>, d: usize)
    requires
        m.wf(),
        !m.changed,
        m.valid_target(d),
    ensures
        m.planned(d).exited().wf(),
        m.planned(d).exited().changed,
        m.planned(d).exited().parents() == m.parents(),
        m.planned(d).exited().states.len() == m.states.len(),
{
    let parents = m.parents();
    let n = m.states.len();
    let c = m.current;
    let up_c = path(parents, c);
    let up_d = path(parents, d);
    let act = m.actives();
    let enter = m.enter_path(d);
    let sentinel = m.exit_sentinel(d);
    let exit = m.exit_path(d);
    let after = m.planned(d).exited();
    lemma_path(parents, c);
    lemma_path(parents, d);
    lemma_climb(parents, act, d);
    lemma_climb(parents, only(n, sentinel), c);
    lemma_exit_all(m.states, exit);
    let e = enter.len() as int;
    let x = exit.len() as int;
    assert(m.enter_list =~= Seq::<usize>::empty());
    assert(m.planned(d).enter_list =~= enter);
    assert(m.planned(d).exit_queue =~= exit);
    assert(up_c.skip(0) =~= up_c);
    lemma_split(up_c, x);
    lemma_split(up_d, e);
    assert forall|i: usize| i < n implies (#[trigger] after.states[i as int].active
        <==> up_d.skip(e).contains(i)) by {
        assert(m.states[i as int].active <==> up_c.contains(i));
        assert(act[i as int] == m.states[i as int].active);
        match sentinel {
            Some(s) => {
                // The sentinel is active, so it lies on the old path, above
                // the current leaf.
                assert(s == up_d[e]);
                assert(act[s as int]);
                assert(m.states[s as int].active);
                assert(up_c.contains(s));
                let j = choose|j: int| 0 <= j < up_c.len() && up_c[j] == s;
                assert(parents[up_d[e - 1] as int] == Some(s));
                assert(j != 0);
                assert(only(n, sentinel)[up_c[j] as int]);
                assert(x <= j);
                assert(x < up_c.len());
                assert(only(n, sentinel)[up_c[x] as int]);
                assert(up_c[x] == s);
                assert(x == j);
                assert(up_d.skip(e) == path(parents, s));
                assert(up_c.skip(x) == path(parents, s));
            },
            None => {
                assert(e == up_d.len());
                assert(up_d.skip(e) =~= Seq::<usize>::empty());
                if x < up_c.len() {
                    assert(only(n, sentinel)[up_c[x] as int]);
                }
                assert(up_c.take(x) =~= up_c);
            },
        }
    }
}

/// What a transition lists: a state is entered when it is the destination
/// or lies on the new path and not on the old one, and exited when it is
/// the current state or lies on the old path and not on the new one; no
/// state is listed twice.
pub proof fn lemma_transition_lists<SM, P>(m: Machine<SM, P>, d: usize)
    requires
        m.wf(),
        !m.changed,
        m.valid_target(d),
    ensures
        m.enter_path(d).no_duplicates(),
        m.exit_path(d).no_duplicates(),
        forall|s: usize| #[trigger]
            m.enter_path(d).contains(s) <==> s == d || (path(m.parents(), d).contains(s) && !path(
                m.parents(),
                m.current,
            ).contains(s)),
        forall|s: usize| #[trigger]
            m.exit_path(d).contains(s) <==> s == m.current || (path(
                m.parents(),
                m.current,
            ).contains(s) && !path(m.parents(), d).contains(s)),
{
    let parents = m.parents();
    let n = m.states.len();
    let c = m.current;
    let up_c = path(parents, c);
    let up_d = path(parents, d);
    let act = m.actives();
    let enter = m.enter_path(d);
    let sentinel = m.exit_sentinel(d);
    let exit = m.exit_path(d);
    lemma_path(parents, c);
    lemma_path(parents, d);
    lemma_climb(parents, act, d);
    lemma_climb(parents, only(n, sentinel), c);
    let e = enter.len() as int;
    let x = exit.len() as int;
    assert(up_c.skip(0) =~= up_c);
    lemma_split(up_c, x);
    lemma_split(up_d, e);
    assert(enter[0] == d);
    assert(exit[0] == c);
    // What the two paths share lies above both lists.
    assert(up_d.skip(e) =~= up_c.skip(x)) by {
        match sentinel {
            Some(sv) => {
                assert(sv == up_d[e]);
                assert(m.states[sv as int].active);
                assert(up_c.contains(sv));
                let j = choose|j: int| 0 <= j < up_c.len() && up_c[j] == sv;
                assert(parents[up_d[e - 1] as int] == Some(sv));
                assert(j != 0);
                assert(only(n, sentinel)[up_c[j] as int]);
                assert(x <= j);
                assert(only(n, sentinel)[up_c[x] as int]);
                assert(x == j);
                assert(up_d.skip(e) == path(parents, sv));
                assert(up_c.skip(x) == path(parents, sv));
            },
            None => {
                if x < up_c.len() {
                    assert(only(n, sentinel)[up_c[x] as int]);
                }
                assert(up_d.skip(e) =~= Seq::<usize>::empty());
                assert(up_c.skip(x) =~= Seq::<usize>::empty());
            },
        }
    }
    // A state on both paths is the shared leaf or lies in the shared part.
    assert forall|s: usize| up_d.contains(s) && up_c.contains(s) && !up_d.skip(e).contains(
        s,
    ) implies s == d && s == c by {
        let i = choose|i: int| 0 <= i < up_d.len() && up_d[i] == s;
        let j = choose|j: int| 0 <= j < up_c.len() && up_c[j] == s;
        assert(m.states[s as int].active);
        assert(act[s as int]);
        if i >= e {
            assert(up_d.skip(e)[i - e] == s);
        }
        if i >= 1 {
            assert(!act[up_d[i] as int]);
        }
        if j >= 1 {
            assert(parents[up_c[j - 1] as int] == Some(up_c[j]));
        }
    }
    assert forall|s: usize| #[trigger]
        enter.contains(s) <==> s == d || (up_d.contains(s) && !up_c.contains(s)) by {
        if s == d {
            assert(enter[0] == s);
        }
    }
    assert forall|s: usize| #[trigger]
        exit.contains(s) <==> s == c || (up_c.contains(s) && !up_d.contains(s)) by {
        if s == c {
            assert(exit[0] == s);
        }
    }
}

/// Following is transitive, and keeps the parents.
pub proof fn lemma_follows<SM, P>(a: Machine<SM, P>, b: Machine<SM, P>, c: Machine<SM, P>)
    requires
        b.follows(a),
        c.follows(b),
    ensures
        c.follows(a),
        b.parents() == a.parents(),
{
    assert forall|i: int| 0 <= i < c.states.len() implies later(
        a.states[i],
        #[trigger] c.states[i],
    ) by {
        assert(later(a.states[i], b.states[i]));
    }
    assert(b.parents() =~= a.parents()) by {
        assert forall|i: int| 0 <= i < b.states.len() implies b.parents()[i] == a.parents()[i] by {
            assert(later(a.states[i], b.states[i]));
        }
    }
}

/// A dispatch leaves the states their names, parents and actions and the
/// messages sent to the machine as they are, and lets no counter fall.
pub proof fn lemma_step_follows<SM, P>(m: Machine<SM, P>, idx: usize, outcomes: Seq<Outcome<P>>)
    requires
        m.states.len() <= usize::MAX,
    ensures
        step(m, idx, outcomes).follows(m),
        step(m, idx, outcomes).parents() == m.parents(),
    decreases outcomes.len(),
{
    if outcomes.len() > 0 {
        let o = outcomes.first();
        let m0 = m.entered();
        lemma_enter_all(m.states, m.enter_list);
        let m1 = m.handled_by(idx, o);
        assert(m1.follows(m)) by {
            assert forall|i: int| 0 <= i < m1.states.len() implies later(
                m.states[i],
                #[trigger] m1.states[i],
            ) by {
                let k = i as usize;
                assert(later(m.states[k as int], m0.states[k as int]));
            }
        }
        let m2 = if m.bubbles(idx, o) {
            step(m1, m.parents()[idx as int].unwrap(), outcomes.drop_first())
        } else {
            m1
        };
        if m.bubbles(idx, o) {
            lemma_step_follows(m1, m.parents()[idx as int].unwrap(), outcomes.drop_first());
        }
        lemma_follows(m, m1, m2);
        let m3 = m2.committed();
        lemma_exit_all(m3.states, m3.exit_queue);
        let m4 = m3.exited();
        assert(m4.follows(m2)) by {
            assert forall|i: int| 0 <= i < m4.states.len() implies later(
                m2.states[i],
                #[trigger] m4.states[i],
            ) by {
                let k = i as usize;
                assert(m3.states[k as int] == m2.states[k as int]);
            }
        }
        lemma_follows(m, m2, m4);
        lemma_follows(m2, m4, m4);
    } else {
        assert(m.follows(m));
    }
}

/// A dispatch does not touch the other buffer, and the current buffer only
/// grows.
pub proof fn lemma_step_buffers<SM, P>(m: Machine<SM, P>, idx: usize, outcomes: Seq<Outcome<P>>)
    ensures
        step(m, idx, outcomes).defer_other == m.defer_other,
        step(m, idx, outcomes).current_defer == m.current_defer,
        m.defer_current.is_prefix_of(step(m, idx, outcomes).defer_current),
    decreases outcomes.len(),
{
    if outcomes.len() > 0 {
        let o = outcomes.first();
        let m1 = m.handled_by(idx, o);
        assert(m.defer_current.is_prefix_of(m1.defer_current));
        let m2 = if m.bubbles(idx, o) {
            step(m1, m.parents()[idx as int].unwrap(), outcomes.drop_first())
        } else {
            m1
        };
        if m.bubbles(idx, o) {
            lemma_step_buffers(m1, m.parents()[idx as int].unwrap(), outcomes.drop_first());
        }
        assert(m.defer_current.is_prefix_of(m2.defer_current));
    }
}

/// Whatever a dispatch leads to follows what it began with.
pub proof fn lemma_dispatched_follows<SM, P>(
    before: Machine<SM, P>,
    idx: usize,
    msg: P,
    after: Machine<SM, P>,
)
    requires
        before.states.len() <= usize::MAX,
        dispatched(before, idx, msg, after),
    ensures
        after.follows(before),
        after.parents() == before.parents(),
{
    let (outcomes, events) = choose|outcomes: Seq<Outcome<P>>, events: Seq<Event<SM, P>>|
     #[trigger]
        acted(before, idx, msg, after, outcomes, events);
    lemma_step_follows(before, idx, outcomes);
    assert(after.follows(before));
}

/// Whatever a dispatch leads to has the other buffer as it was, and the
/// current buffer with what it held at its front.
pub proof fn lemma_dispatched_frame<SM, P>(
    before: Machine<SM, P>,
    idx: usize,
    msg: P,
    after: Machine<SM, P>,
)
    requires
        dispatched(before, idx, msg, after),
    ensures
        after.defer_other == before.defer_other,
        after.current_defer == before.current_defer,
        before.defer_current.is_prefix_of(after.defer_current),
{
    let (outcomes, events) = choose|outcomes: Seq<Outcome<P>>, events: Seq<Event<SM, P>>|
     #[trigger]
        acted(before, idx, msg, after, outcomes, events);
    lemma_step_buffers(before, idx, outcomes);
}

/// Taking the staged destination and making the exits keeps a machine well
/// formed, whatever is staged.
pub proof fn lemma_committed_wf<SM, P>(m: Machine<SM, P>)
    requires
        m.wf(),
        !m.changed || m.staged is None,
    ensures
        m.committed().exited().wf(),
        m.committed().exited().staged is None,
        m.committed().exited().parents() == m.parents(),
        m.committed().exited().states.len() == m.states.len(),
{
    match m.staged {
        Some(d) => {
            let unstaged = Machine { staged: None, ..m };
            if m.valid_target(d) {
                lemma_transition_wf(unstaged, d);
            }
        },
        None => {
            assert(m.exit_queue =~= Seq::<usize>::empty());
            assert(exit_all(m.states, m.exit_queue) == m.states);
            assert(m.exited() == m);
        },
    }
}

/// A dispatch keeps a machine well formed and leaves nothing staged.
pub proof fn lemma_step_wf<SM, P>(m: Machine<SM, P>, idx: usize, outcomes: Seq<Outcome<P>>)
    requires
        m.wf(),
        outcomes.len() >= 1,
    ensures
        step(m, idx, outcomes).wf(),
        step(m, idx, outcomes).staged is None,
        step(m, idx, outcomes).parents() == m.parents(),
        step(m, idx, outcomes).states.len() == m.states.len(),
    decreases outcomes.len(),
{
    let o = outcomes.first();
    lemma_handled_wf(m, idx, o);
    let m1 = m.handled_by(idx, o);
    if m.bubbles(idx, o) && outcomes.len() > 1 {
        lemma_step_wf(m1, m.parents()[idx as int].unwrap(), outcomes.drop_first());
    }
    let m2 = if m.bubbles(idx, o) {
        step(m1, m.parents()[idx as int].unwrap(), outcomes.drop_first())
    } else {
        m1
    };
    lemma_committed_wf(m2);
}

/// The value and the trace are carried through a dispatch: the steps
/// neither read nor change them.
pub proof fn lemma_step_carries<SM, P>(
    m: Machine<SM, P>,
    sm: SM,
    trace: Seq<Event<SM, P>>,
    idx: usize,
    outcomes: Seq<Outcome<P>>,
)
    ensures
        step(Machine { sm, trace, ..m }, idx, outcomes) == (Machine {
            sm,
            trace,
            ..step(m, idx, outcomes)
        }),
        script(Machine { sm, trace, ..m }, idx, outcomes) == script(m, idx, outcomes),
    decreases outcomes.len(),
{
    if outcomes.len() > 0 {
        let o = outcomes.first();
        let with = Machine { sm, trace, ..m };
        let m1 = m.handled_by(idx, o);
        assert(with.handled_by(idx, o) == (Machine { sm, trace, ..m1 }));
        if m.bubbles(idx, o) {
            lemma_step_carries(m1, sm, trace, m.parents()[idx as int].unwrap(), outcomes.drop_first());
        }
    }
}

/// States that are the same states at a later time ask for the same
/// destinations.
pub proof fn lemma_asks_kept<SM, P>(a: Seq<StateView<SM, P>>, b: Seq<StateView<SM, P>>)
    requires
        a.len() == b.len(),
        forall|i: int| 0 <= i < a.len() ==> later(a[i], #[trigger] b[i]),
        asks_for_leaves(a),
    ensures
        asks_for_leaves(b),
        parents_of(b) == parents_of(a),
{
    assert(parents_of(b) =~= parents_of(a)) by {
        assert forall|i: int| 0 <= i < b.len() implies parents_of(b)[i] == parents_of(a)[i] by {
            assert(later(a[i], b[i]));
        }
    }
    assert forall|i: int, sm: SM, msg: P, after: SM, deferred: Seq<P>, r: StateResult|
        0 <= i < b.len() && #[trigger] (b[i].process)(sm, msg, after, deferred, r) implies (r.1 matches Some(
        d,
    ) ==> d < b.len() && is_leaf(parents_of(b), d)) by {
        assert(later(a[i], b[i]));
        assert((a[i].process)(sm, msg, after, deferred, r));
    }
}

/// What the actions of states may do, they may do at a later time.
pub proof fn lemma_permitted_kept<SM, P>(
    a: Seq<StateView<SM, P>>,
    b: Seq<StateView<SM, P>>,
    msg: P,
    events: Seq<Event<SM, P>>,
)
    requires
        a.len() == b.len(),
        forall|i: int| 0 <= i < a.len() ==> later(a[i], #[trigger] b[i]),
        all_permitted(b, msg, events),
    ensures
        all_permitted(a, msg, events),
{
    assert forall|j: int| 0 <= j < events.len() implies permits(a, msg, #[trigger] events[j]) by {
        let e = events[j];
        assert(permits(b, msg, e));
        assert(later(a[e.state as int], b[e.state as int]));
    }
}

/// One more event that found the value as it was keeps a trace linked.
pub proof fn lemma_chained_push<SM, P>(trace: Seq<Event<SM, P>>, sm: SM, e: Event<SM, P>)
    requires
        chained(trace, sm),
        e.before == sm,
    ensures
        chained(trace.push(e), e.after),
{
    let more = trace.push(e);
    assert forall|j: int| 1 <= j < more.len() implies #[trigger] linked(more, j) by {
        if j < trace.len() {
            assert(linked(trace, j));
        }
    }
}

/// A dispatch that stops at the state at `idx`, because it handles the
/// message or is a root, is a step with the one outcome `o`.
pub proof fn lemma_step_handled<SM, P>(m: Machine<SM, P>, idx: usize, o: Outcome<P>)
    requires
        !m.bubbles(idx, o),
    ensures
        complete(m.parents(), idx, seq![o]),
        step(m, idx, seq![o]) == m.handled_by(idx, o).committed().exited(),
        script(m, idx, seq![o]) == m.entering() + seq![
            Label { what: Ran::Process, state: idx, outcome: Some(o) },
        ] + m.handled_by(idx, o).committed().exiting(),
{
    let outcomes = seq![o];
    assert(outcomes.first() == o);
    let process = seq![Label { what: Ran::Process, state: idx, outcome: Some(o) }];
    assert(m.entering() + process + Seq::<Label<P>>::empty() =~= m.entering() + process);
}

/// A dispatch that goes on to the parent is a step with the outcome `o`
/// followed by the outcomes `inner` of the parent's dispatch, when that has
/// left nothing staged and no exit to make.
pub proof fn lemma_step_bubbled<SM, P>(
    m: Machine<SM, P>,
    idx: usize,
    o: Outcome<P>,
    inner: Seq<Outcome<P>>,
)
    requires
        m.bubbles(idx, o),
        complete(m.parents(), m.parents()[idx as int].unwrap(), inner),
        step(m.handled_by(idx, o), m.parents()[idx as int].unwrap(), inner).staged is None,
        step(m.handled_by(idx, o), m.parents()[idx as int].unwrap(), inner).exit_queue.len()
            == 0,
    ensures
        complete(m.parents(), idx, seq![o] + inner),
        step(m, idx, seq![o] + inner) == step(
            m.handled_by(idx, o),
            m.parents()[idx as int].unwrap(),
            inner,
        ),
        script(m, idx, seq![o] + inner) == m.entering() + seq![
            Label { what: Ran::Process, state: idx, outcome: Some(o) },
        ] + script(m.handled_by(idx, o), m.parents()[idx as int].unwrap(), inner),
{
    let outcomes = seq![o] + inner;
    let p = m.parents()[idx as int].unwrap();
    let m1 = m.handled_by(idx, o);
    assert(outcomes.first() == o);
    assert(outcomes.drop_first() =~= inner);
    let m2 = step(m1, p, inner);
    assert(m2.committed() == m2);
    assert(m2.exit_queue =~= Seq::<usize>::empty());
    assert(exit_all(m2.states, m2.exit_queue) == m2.states);
    assert(m2.exited() == m2);
    let process = seq![Label { what: Ran::Process, state: idx, outcome: Some(o) }];
    assert(m2.exiting() =~= Seq::<Label<P>>::empty());
    assert(m.entering() + process + script(m1, p, inner) + Seq::<Label<P>>::empty()
        =~= m.entering() + process + script(m1, p, inner));
}

/// The run of a process action after the runs of the entries.
pub proof fn lemma_process_after_entries<SM, P>(
    a: Seq<StateView<SM, P>>,
    b: Seq<StateView<SM, P>>,
    msg: P,
    entries: Seq<Event<SM, P>>,
    e: Event<SM, P>,
)
    requires
        a.len() == b.len(),
        forall|i: int| 0 <= i < a.len() ==> later(a[i], #[trigger] b[i]),
        all_permitted(a, msg, entries),
        permits(b, msg, e),
    ensures
        all_permitted(a, msg, entries.push(e)),
        labels(entries.push(e)) == labels(entries) + seq![label_of(e)],
{
    let all = entries.push(e);
    assert(later(a[e.state as int], b[e.state as int]));
    assert forall|j: int| 0 <= j < all.len() implies permits(a, msg, #[trigger] all[j]) by {
        if j < entries.len() {
            assert(permits(a, msg, entries[j]));
        }
    }
    assert(labels(all) =~= labels(entries) + seq![label_of(e)]);
}

/// One more action that found the value as the last one left it.
pub proof fn lemma_passed_on_push<SM, P>(
    sm: SM,
    events: Seq<Event<SM, P>>,
    now: SM,
    e: Event<SM, P>,
)
    requires
        passed_on(sm, events, now),
        e.before == now,
    ensures
        passed_on(sm, events.push(e), e.after),
{
    let more = events.push(e);
    assert forall|j: int| 1 <= j < more.len() implies #[trigger] linked(more, j) by {
        if j < events.len() {
            assert(linked(events, j));
        }
    }
}

/// Actions that passed the value on, followed by actions that took it from
/// there.
pub proof fn lemma_passed_on_further<SM, P>(
    sm: SM,
    first: Seq<Event<SM, P>>,
    mid: SM,
    then: Seq<Event<SM, P>>,
    after: SM,
)
    requires
        passed_on(sm, first, mid),
        passed_on(mid, then, after),
    ensures
        passed_on(sm, first + then, after),
{
    let all = first + then;
    assert forall|j: int| 1 <= j < all.len() implies #[trigger] linked(all, j) by {
        if j < first.len() {
            assert(linked(first, j));
        } else if j == first.len() {
            assert(all[j] == then[0]);
            assert(all[j - 1] == first.last());
        } else {
            assert(linked(then, j - first.len()));
            assert(all[j] == then[j - first.len()]);
            assert(all[j - 1] == then[j - first.len() - 1]);
        }
    }
    if then.len() > 0 {
        assert(all.last() == then.last());
    } else {
        assert(all =~= first);
    }
    if first.len() > 0 {
        assert(all[0] == first[0]);
    } else {
        assert(all =~= then);
    }
}

/// A dispatch that stopped at the state at `idx`: `ran` are the entries
/// and the process action, which led to `m1`, and `more` the exits, which
/// led to `after`.
pub proof fn lemma_acted_handled<SM, P>(
    m0: Machine<SM, P>,
    idx: usize,
    msg: P,
    o: Outcome<P>,
    m1: Machine<SM, P>,
    ran: Seq<Event<SM, P>>,
    after: Machine<SM, P>,
    more: Seq<Event<SM, P>>,
)
    requires
        !m0.bubbles(idx, o),
        m1 == (Machine { sm: m1.sm, trace: m0.trace + ran, ..m0.handled_by(idx, o) }),
        m1.states.len() == m0.states.len(),
        forall|i: int| 0 <= i < m0.states.len() ==> later(m0.states[i], #[trigger] m1.states[i]),
        labels(ran) == m0.entering() + seq![
            Label { what: Ran::Process, state: idx, outcome: Some(o) },
        ],
        all_permitted(m0.states, msg, ran),
        passed_on(m0.sm, ran, m1.sm),
        after == (Machine { sm: after.sm, trace: m1.trace + more, ..m1.committed().exited() }),
        labels(more) == m1.committed().exiting(),
        all_permitted(m1.states, msg, more),
        passed_on(m1.sm, more, after.sm),
    ensures
        acted(m0, idx, msg, after, seq![o], ran + more),
{
    lemma_step_handled(m0, idx, o);
    lemma_passed_on_further(m0.sm, ran, m1.sm, more, after.sm);
    lemma_permitted_kept(m0.states, m1.states, msg, more);
    let events = ran + more;
    let plain = m0.handled_by(idx, o);
    assert(m1.committed().exited() == (Machine {
        sm: m1.sm,
        trace: m1.trace,
        ..plain.committed().exited()
    }));
    assert(m1.committed().exiting() == plain.committed().exiting());
    assert(after.trace =~= m0.trace + events);
    assert(labels(events) =~= labels(ran) + labels(more));
    assert forall|j: int| 0 <= j < events.len() implies permits(
        m0.states,
        msg,
        #[trigger] events[j],
    ) by {
        if j < ran.len() {
            assert(permits(m0.states, msg, ran[j]));
        } else {
            assert(permits(m0.states, msg, more[j - ran.len()]));
        }
    }
}

/// A dispatch that went on to the parent: `ran` are the entries and the
/// process action, which led to `m1`, and `more` what the parent's
/// dispatch ran, which led to `after`.
pub proof fn lemma_acted_bubbled<SM, P>(
    m0: Machine<SM, P>,
    idx: usize,
    msg: P,
    o: Outcome<P>,
    m1: Machine<SM, P>,
    ran: Seq<Event<SM, P>>,
    after: Machine<SM, P>,
    inner: Seq<Outcome<P>>,
    more: Seq<Event<SM, P>>,
)
    requires
        m0.bubbles(idx, o),
        m1 == (Machine { sm: m1.sm, trace: m0.trace + ran, ..m0.handled_by(idx, o) }),
        m1.states.len() == m0.states.len(),
        forall|i: int| 0 <= i < m0.states.len() ==> later(m0.states[i], #[trigger] m1.states[i]),
        labels(ran) == m0.entering() + seq![
            Label { what: Ran::Process, state: idx, outcome: Some(o) },
        ],
        all_permitted(m0.states, msg, ran),
        passed_on(m0.sm, ran, m1.sm),
        acted(m1, m0.parents()[idx as int].unwrap(), msg, after, inner, more),
        after.staged is None,
        after.exit_queue.len() == 0,
    ensures
        acted(m0, idx, msg, after, seq![o] + inner, ran + more),
{
    let p = m0.parents()[idx as int].unwrap();
    lemma_passed_on_further(m0.sm, ran, m1.sm, more, after.sm);
    let plain = m0.handled_by(idx, o);
    lemma_step_carries(plain, m1.sm, m1.trace, p, inner);
    assert(m1.parents() == m0.parents()) by {
        assert(m1.parents() =~= m0.parents()) by {
            assert forall|i: int| 0 <= i < m1.states.len() implies m1.parents()[i]
                == m0.parents()[i] by {
                assert(later(m0.states[i], m1.states[i]));
            }
        }
    }
    lemma_step_bubbled(m0, idx, o, inner);
    lemma_permitted_kept(m0.states, m1.states, msg, more);
    let events = ran + more;
    assert(after.trace =~= m0.trace + events);
    assert(labels(events) =~= labels(ran) + labels(more));
    assert forall|j: int| 0 <= j < events.len() implies permits(
        m0.states,
        msg,
        #[trigger] events[j],
    ) by {
        if j < ran.len() {
            assert(permits(m0.states, msg, ran[j]));
        } else {
            assert(permits(m0.states, msg, more[j - ran.len()]));
        }
    }
}

} // verus!
