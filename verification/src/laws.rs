//! What holds of every machine: which states a transition enters and exits,
//! what a dispatch without a transition changes, and in which order the
//! deferred messages are dispatched.
use crate::coherence::{
    lemma_committed_wf, lemma_dispatched_follows, lemma_dispatched_frame, lemma_enter_all,
    lemma_exit_all, lemma_handled_wf, lemma_split, lemma_step_follows, lemma_step_handled,
    lemma_step_wf, lemma_transition_lists, lemma_transition_wf,
};
use crate::model::{
    acted, bump, complete, dispatched, dispatcher_run, enter_labels, exit_labels, first_dest,
    label_of, labels, later, outcome_of, permits, process_one, redispatched, round_begun,
    round_followed, round_moved, round_of, rounds_of, script, step, Event, Label, Machine,
    Outcome, Ran,
};
use crate::state::{StateResult, StateView};
use crate::topology::{has_cycle, lemma_height_falls, lemma_path, path};
use vstd::prelude::*;

verus! {

/// The active states are the current leaf and its ancestors. After a
/// transition, until the next dispatch, the lower end of that path still
/// waits to be entered: then the active states are the rest of the path,
/// which the old and the new leaf share.
pub proof fn law_active_states_form_a_path<SM, P>(m: Machine<SM, P>, s: usize)
    requires
        m.wf(),
        s < m.states.len(),
    ensures
        m.states[s as int].active || m.enter_list.contains(s) <==> path(
            m.parents(),
            m.current,
        ).contains(s),
        !(m.states[s as int].active && m.enter_list.contains(s)),
        !m.changed ==> m.enter_list.len() == 0,
{
    let up = path(m.parents(), m.current);
    lemma_path(m.parents(), m.current);
    lemma_split(up, m.enter_list.len() as int);
}

/// The entry action of a state runs once more through a transition and the
/// dispatch after it exactly when the state is the destination, or lies on
/// the path from the destination to its root and not on the path from the
/// old leaf to its root. So a composite state is entered once when a
/// transition first leads to one of its descendants, and not again by
/// transitions between its descendants.
pub proof fn law_entered_once<SM, P>(m: Machine<SM, P>, d: usize, s: usize)
    requires
        m.wf(),
        !m.changed,
        m.valid_target(d),
        s < m.states.len(),
    ensures
        ({
            let after = m.planned(d).exited().entered();
            let before = m.states[s as int];
            let enters = s == d || (path(m.parents(), d).contains(s) && !path(
                m.parents(),
                m.current,
            ).contains(s));
            after.states[s as int].enter_cnt == if enters && before.has_enter {
                bump(before.enter_cnt)
            } else {
                before.enter_cnt
            }
        }),
{
    lemma_transition_lists(m, d);
    lemma_transition_wf(m, d);
    let planned = m.planned(d);
    assert(m.enter_list =~= Seq::<usize>::empty());
    assert(planned.enter_list =~= m.enter_path(d));
    assert(planned.exit_queue =~= m.exit_path(d));
    lemma_exit_all(planned.states, planned.exit_queue);
    let exited = planned.exited();
    lemma_enter_all(exited.states, exited.enter_list);
}

/// The exit action of a state runs once more through a transition exactly
/// when the state is the old leaf, or lies on the path from the old leaf to
/// its root and not on the path from the destination to its root. So a
/// composite state is exited once, and only when the destination lies
/// outside its subtree.
pub proof fn law_exited_once<SM, P>(m: Machine<SM, P>, d: usize, s: usize)
    requires
        m.wf(),
        !m.changed,
        m.valid_target(d),
        s < m.states.len(),
    ensures
        ({
            let after = m.planned(d).exited();
            let before = m.states[s as int];
            let exits = s == m.current || (path(m.parents(), m.current).contains(s) && !path(
                m.parents(),
                d,
            ).contains(s));
            after.states[s as int].exit_cnt == if exits && before.has_exit {
                bump(before.exit_cnt)
            } else {
                before.exit_cnt
            }
        }),
{
    lemma_transition_lists(m, d);
    let planned = m.planned(d);
    assert(planned.exit_queue =~= m.exit_path(d));
    lemma_exit_all(planned.states, planned.exit_queue);
}

/// A dispatch that the current leaf handles without asking for a
/// transition counts one more message processed by that leaf and takes in
/// what it deferred; nothing else changes, so no state is entered or
/// exited, however often this is repeated.
pub proof fn law_dispatch_without_transition<SM, P>(m: Machine<SM, P>, o: Outcome<P>)
    requires
        m.wf(),
        !m.changed,
        m.staged is None,
        o.handled,
        o.dest is None,
    ensures
        step(m, m.current, seq![o]) == (Machine {
            states: process_one(m.states, m.current),
            defer_current: m.defer_current + o.deferred,
            ..m
        }),
        step(m, m.current, seq![o]).wf(),
        !step(m, m.current, seq![o]).changed,
{
    let outcomes = seq![o];
    assert(outcomes.first() == o);
    lemma_handled_wf(m, m.current, o);
}

/// A dispatch makes the first transition that a process action asks for,
/// whatever the states above ask for: its destination is the current state
/// afterwards. If no transition is asked for, none is made; nor would one
/// be made to what is not a leaf state.
pub proof fn law_first_destination_wins<SM, P>(m: Machine<SM, P>, idx: usize, outcomes: Seq<Outcome<P>>)
    requires
        m.wf(),
        complete(m.parents(), idx, outcomes),
    ensures
        ({
            let after = step(m, idx, outcomes);
            let asked = if m.staged is Some {
                m.staged
            } else {
                first_dest(outcomes)
            };
            match asked {
                Some(d) => if m.valid_target(d) {
                    &&& after.changed
                    &&& after.current == d
                    &&& after.previous == m.current
                } else {
                    &&& !after.changed
                    &&& after.current == m.current
                    &&& after.previous == m.previous
                },
                None => {
                    &&& !after.changed
                    &&& after.current == m.current
                    &&& after.previous == m.previous
                },
            }
        }),
    decreases outcomes.len(),
{
    let o = outcomes.first();
    lemma_handled_wf(m, idx, o);
    let m1 = m.handled_by(idx, o);
    assert(m1.valid_target(m.current));
    if m.bubbles(idx, o) {
        let p = m.parents()[idx as int].unwrap();
        let rest = outcomes.drop_first();
        assert(complete(m1.parents(), p, rest));
        assert(rest.len() >= 1);
        law_first_destination_wins(m1, p, rest);
        lemma_step_wf(m1, p, rest);
        let m2 = step(m1, p, rest);
        assert(m2.committed() == m2);
        assert(m2.exit_queue =~= Seq::<usize>::empty());
        assert(m2.exited() == m2);
        assert forall|d: usize| m1.valid_target(d) == m.valid_target(d) by {}
    } else {
        assert(outcomes.drop_first().len() == 0);
        assert forall|d: usize| m1.valid_target(d) == m.valid_target(d) by {}
        match m1.staged {
            Some(d) => {
                if m1.valid_target(d) {
                    lemma_transition_wf(Machine { staged: None, ..m1 }, d);
                }
            },
            None => {},
        }
    }
}

/// A dispatch counts one more message processed for the state that it
/// hands the message to and for each ancestor that the message reaches, and
/// for no other state.
pub proof fn law_processed_along_the_path<SM, P>(
    m: Machine<SM, P>,
    idx: usize,
    outcomes: Seq<Outcome<P>>,
    s: usize,
)
    requires
        m.wf(),
        idx < m.states.len(),
        complete(m.parents(), idx, outcomes),
        s < m.states.len(),
    ensures
        outcomes.len() <= path(m.parents(), idx).len(),
        step(m, idx, outcomes).states[s as int].process_cnt == if path(m.parents(), idx).take(
            outcomes.len() as int,
        ).contains(s) {
            bump(m.states[s as int].process_cnt)
        } else {
            m.states[s as int].process_cnt
        },
    decreases outcomes.len(),
{
    let parents = m.parents();
    let up = path(parents, idx);
    let k = outcomes.len() as int;
    let o = outcomes.first();
    lemma_path(parents, idx);
    lemma_handled_wf(m, idx, o);
    lemma_enter_all(m.states, m.enter_list);
    let m1 = m.handled_by(idx, o);
    assert(m1.states[s as int].process_cnt == if s == idx {
        bump(m.states[s as int].process_cnt)
    } else {
        m.states[s as int].process_cnt
    });
    let m2 = if m.bubbles(idx, o) {
        step(m1, parents[idx as int].unwrap(), outcomes.drop_first())
    } else {
        m1
    };
    if m.bubbles(idx, o) {
        let p = parents[idx as int].unwrap();
        let rest = outcomes.drop_first();
        lemma_height_falls(parents, idx);
        assert(complete(m1.parents(), p, rest));
        assert(rest.len() >= 1);
        law_processed_along_the_path(m1, p, rest, s);
        lemma_step_wf(m1, p, rest);
        let above = path(parents, p);
        assert(up == seq![idx] + above);
        assert(up.take(k) =~= seq![idx] + above.take(k - 1));
        lemma_split(up, 1);
        assert(up.skip(1) =~= above);
        assert(up.take(1) =~= seq![idx]);
        assert(seq![idx].contains(idx)) by {
            assert(seq![idx][0] == idx);
        }
        lemma_split(above, k - 1);
        let low = above.take(k - 1);
        let whole = up.take(k);
        if low.contains(s) {
            let j = choose|j: int| 0 <= j < low.len() && low[j] == s;
            assert(whole[j + 1] == s);
        }
        if whole.contains(s) && s != idx {
            let j = choose|j: int| 0 <= j < whole.len() && whole[j] == s;
            assert(low[j - 1] == s);
        }
        assert(whole[0] == idx);
        assert(!above.contains(idx));
    } else {
        let whole = up.take(1);
        assert(whole[0] == idx);
        if whole.contains(s) {
            let j = choose|j: int| 0 <= j < whole.len() && whole[j] == s;
        }
    }
    lemma_committed_wf(m2);
    let m3 = m2.committed();
    lemma_exit_all(m3.states, m3.exit_queue);
}

/// A dispatch leaves every state its name, parent and actions, and lets
/// none of its counters fall.
pub proof fn law_counters_never_fall<SM, P>(
    before: Machine<SM, P>,
    idx: usize,
    msg: P,
    after: Machine<SM, P>,
    s: int,
)
    requires
        before.wf(),
        dispatched(before, idx, msg, after),
        0 <= s < before.states.len(),
    ensures
        after.states.len() == before.states.len(),
        later(before.states[s], after.states[s]),
{
    lemma_dispatched_follows(before, idx, msg, after);
}

/// In a round the messages that waited when the round began are dispatched
/// in the order in which they were deferred: before its dispatch number `i`
/// those that wait are the ones that waited at the start without the first
/// `i`. What is deferred meanwhile joins the other buffer, behind what
/// that held, and is not dispatched in this round.
pub proof fn law_round_keeps_order<SM, P>(before: Machine<SM, P>, mids: Seq<Machine<SM, P>>, i: int)
    requires
        round_begun(before, mids),
        0 <= i < mids.len(),
    ensures
        i <= before.defer_current.len(),
        mids[i].defer_other == before.defer_current.skip(i),
        before.defer_other.is_prefix_of(mids[i].defer_current),
        mids[i].current_defer == before.other_defer(),
    decreases i,
{
    if i == 0 {
        assert(before.defer_current.skip(0) =~= before.defer_current);
    } else {
        law_round_keeps_order(before, mids, i - 1);
        assert(redispatched(mids, i - 1));
        let taken = mids[i - 1].received();
        lemma_dispatched_frame(taken, mids[i - 1].current, mids[i - 1].defer_other.first(), mids[i]);
        assert(before.defer_current.skip(i - 1).drop_first() =~= before.defer_current.skip(i));
    }
}

/// The process action of each state that the message reaches is among the
/// actions that a dispatch runs: for the outcome at `j` the script holds
/// the process action of the state `j` steps above `idx`, with that
/// outcome.
pub proof fn law_script_holds_the_process_actions<SM, P>(
    m: Machine<SM, P>,
    idx: usize,
    outcomes: Seq<Outcome<P>>,
    j: int,
) -> (k: int)
    requires
        m.wf(),
        idx < m.states.len(),
        complete(m.parents(), idx, outcomes),
        0 <= j < outcomes.len(),
    ensures
        0 <= k < script(m, idx, outcomes).len(),
        j < path(m.parents(), idx).len(),
        script(m, idx, outcomes)[k] == (Label {
            what: Ran::Process,
            state: path(m.parents(), idx)[j],
            outcome: Some(outcomes[j]),
        }),
        j == 0 ==> k == m.entering().len(),
    decreases outcomes.len(),
{
    let parents = m.parents();
    let o = outcomes.first();
    let m1 = m.handled_by(idx, o);
    lemma_path(parents, idx);
    lemma_handled_wf(m, idx, o);
    let k0 = m.entering().len() as int;
    if j == 0 {
        k0
    } else {
        let p = parents[idx as int].unwrap();
        let rest = outcomes.drop_first();
        lemma_height_falls(parents, idx);
        assert(complete(m1.parents(), p, rest));
        let inner = law_script_holds_the_process_actions(m1, p, rest, j - 1);
        assert(path(parents, idx) == seq![idx] + path(parents, p));
        assert(path(parents, idx)[j] == path(parents, p)[j - 1]);
        assert(rest[j - 1] == outcomes[j]);
        k0 + 1 + inner
    }
}

/// What a dispatch takes for the outcome of a process action is what that
/// action returned: for every outcome there is a run of the process action
/// of the state that the message reached, on the dispatched message, that
/// the action may make, with that result and those deferred messages.
pub proof fn law_outcomes_are_what_the_actions_return<SM, P>(
    before: Machine<SM, P>,
    idx: usize,
    msg: P,
    after: Machine<SM, P>,
    outcomes: Seq<Outcome<P>>,
    events: Seq<Event<SM, P>>,
    j: int,
) -> (e: Event<SM, P>)
    requires
        before.wf(),
        idx < before.states.len(),
        acted(before, idx, msg, after, outcomes, events),
        0 <= j < outcomes.len(),
    ensures
        j < path(before.parents(), idx).len(),
        e.what is Process,
        e.state == path(before.parents(), idx)[j],
        e.msg == msg,
        outcome_of(e.deferred, e.result) == outcomes[j],
        (before.states[e.state as int].process)(e.before, msg, e.after, e.deferred, e.result),
        events.contains(e),
        j == 0 && events.len() > before.entering().len() ==> e == events[
            before.entering().len() as int
        ],
{
    let k = law_script_holds_the_process_actions(before, idx, outcomes, j);
    assert(labels(events)[k] == label_of(events[k]));
    assert(permits(before.states, msg, events[k]));
    events[k]
}

/// The first destination that one of `outcomes` asks for is asked for by
/// one of them.
proof fn lemma_first_dest_at<P>(outcomes: Seq<Outcome<P>>) -> (j: int)
    requires
        first_dest(outcomes) is Some,
    ensures
        0 <= j < outcomes.len(),
        outcomes[j].dest == first_dest(outcomes),
    decreases outcomes.len(),
{
    if outcomes.first().dest is Some {
        0
    } else {
        let rest = outcomes.drop_first();
        let inner = lemma_first_dest_at(rest);
        assert(rest[inner] == outcomes[inner + 1]);
        inner + 1
    }
}

/// A dispatch makes a transition exactly when one of the process actions
/// it ran asked for one: then the first destination asked for is the
/// current state afterwards, and the state that was current is the
/// previous one. It is a leaf state, as all that the actions may ask for.
pub proof fn law_transition_made_when_asked<SM, P>(
    before: Machine<SM, P>,
    idx: usize,
    msg: P,
    after: Machine<SM, P>,
    outcomes: Seq<Outcome<P>>,
    events: Seq<Event<SM, P>>,
)
    requires
        before.wf(),
        before.tied(),
        before.staged is None,
        idx < before.states.len(),
        acted(before, idx, msg, after, outcomes, events),
    ensures
        match first_dest(outcomes) {
            Some(d) => {
                &&& before.valid_target(d)
                &&& after.changed
                &&& after.current == d
                &&& after.previous == before.current
            },
            None => {
                &&& !after.changed
                &&& after.current == before.current
                &&& after.previous == before.previous
            },
        },
{
    law_first_destination_wins(before, idx, outcomes);
    if first_dest(outcomes) is Some {
        let j = lemma_first_dest_at(outcomes);
        let e = law_outcomes_are_what_the_actions_return(
            before,
            idx,
            msg,
            after,
            outcomes,
            events,
            j,
        );
        lemma_path(before.parents(), idx);
    }
}

/// States without entry actions have none to run, and states without exit
/// actions have none to run.
pub proof fn law_no_action_no_run<SM, P>(states: Seq<StateView<SM, P>>, list: Seq<usize>)
    ensures
        (forall|j: int| 0 <= j < list.len() && list[j] < states.len() ==> !(
        #[trigger] states[list[j] as int]).has_enter) ==> enter_labels::<SM, P>(states, list).len()
            == 0,
        (forall|j: int| 0 <= j < list.len() && list[j] < states.len() ==> !(
        #[trigger] states[list[j] as int]).has_exit) ==> exit_labels::<SM, P>(states, list).len()
            == 0,
    decreases list.len(),
{
    if list.len() > 0 {
        law_no_action_no_run(states, list.drop_last());
        law_no_action_no_run(states, list.drop_first());
        if forall|j: int|
            0 <= j < list.len() && list[j] < states.len() ==> !(
            #[trigger] states[list[j] as int]).has_enter {
            let rest = list.drop_last();
            assert forall|j: int| 0 <= j < rest.len() && rest[j] < states.len() implies !(
            #[trigger] states[rest[j] as int]).has_enter by {
                assert(rest[j] == list[j]);
            }
            if list.last() < states.len() {
                assert(!states[list[list.len() - 1] as int].has_enter);
            }
        }
        if forall|j: int|
            0 <= j < list.len() && list[j] < states.len() ==> !(
            #[trigger] states[list[j] as int]).has_exit {
            let rest = list.drop_first();
            assert forall|j: int| 0 <= j < rest.len() && rest[j] < states.len() implies !(
            #[trigger] states[rest[j] as int]).has_exit by {
                assert(rest[j] == list[j + 1]);
            }
            if list.first() < states.len() {
                assert(!states[list[0] as int].has_exit);
            }
        }
    }
}

/// Dispatching to a leaf that is entered and whose process action, for
/// this message, always handles the message and asks for no transition
/// runs that action once, on the value as it was, and no other action. It
/// counts one more message processed by that leaf and changes no other
/// counter and no flag; the value is what the action left, and what it
/// deferred joins the current buffer. Nothing is entered or exited, however
/// often this is repeated.
pub proof fn law_quiet_dispatch_counts_only_the_leaf<SM, P>(
    before: Machine<SM, P>,
    msg: P,
    after: Machine<SM, P>,
) -> (e: Event<SM, P>)
    requires
        before.wf(),
        !before.changed,
        before.staged is None,
        dispatched(before, before.current, msg, after),
        forall|sm: SM, sm_after: SM, deferred: Seq<P>, r: StateResult|
            #[trigger] (before.states[before.current as int].process)(
                sm,
                msg,
                sm_after,
                deferred,
                r,
            ) ==> r.0 is Yes && r.1 is None,
    ensures
        after.states == process_one(before.states, before.current),
        after.current == before.current,
        !after.changed,
        after.wf(),
        after.trace == before.trace.push(e),
        e.what is Process,
        e.state == before.current,
        e.msg == msg,
        e.before == before.sm,
        e.after == after.sm,
        (before.states[before.current as int].process)(
            before.sm,
            msg,
            after.sm,
            e.deferred,
            e.result,
        ),
        after.defer_current == before.defer_current + e.deferred,
{
    let (outcomes, events) = choose|outcomes: Seq<Outcome<P>>, events: Seq<Event<SM, P>>|
     #[trigger]
        acted(before, before.current, msg, after, outcomes, events);
    let e = law_outcomes_are_what_the_actions_return(
        before,
        before.current,
        msg,
        after,
        outcomes,
        events,
        0,
    );
    lemma_path(before.parents(), before.current);
    let o = outcomes.first();
    assert(o.handled && o.dest is None);
    assert(outcomes =~= seq![o]);
    law_dispatch_without_transition(before, o);
    lemma_step_handled(before, before.current, o);
    let m1 = before.handled_by(before.current, o);
    assert(m1.committed() == m1);
    assert(before.entering().len() == 0);
    assert(m1.exiting().len() == 0);
    assert(script(before, before.current, outcomes).len() == 1);
    assert(labels(events).len() == 1);
    assert(events =~= seq![e]);
    assert(before.trace + events =~= before.trace.push(e));
    e
}

/// A dispatch runs the entry actions of the states that waited to be
/// entered, each once, and no other entry action: what it enters itself
/// waits for the next dispatch.
pub proof fn law_dispatch_enters_what_waited<SM, P>(
    m: Machine<SM, P>,
    idx: usize,
    outcomes: Seq<Outcome<P>>,
    s: usize,
)
    requires
        m.wf(),
        idx < m.states.len(),
        complete(m.parents(), idx, outcomes),
        s < m.states.len(),
    ensures
        step(m, idx, outcomes).states[s as int].enter_cnt == if m.enter_list.contains(s)
            && m.states[s as int].has_enter {
            bump(m.states[s as int].enter_cnt)
        } else {
            m.states[s as int].enter_cnt
        },
    decreases outcomes.len(),
{
    let parents = m.parents();
    let o = outcomes.first();
    let m1 = m.handled_by(idx, o);
    lemma_handled_wf(m, idx, o);
    lemma_enter_all(m.states, m.enter_list);
    lemma_path(parents, m.current);
    lemma_split(path(parents, m.current), m.enter_list.len() as int);
    assert(m1.states[s as int].enter_cnt == m.entered().states[s as int].enter_cnt);
    if !m.changed {
        assert(m.enter_list =~= Seq::<usize>::empty());
    }
    let m2 = if m.bubbles(idx, o) {
        step(m1, parents[idx as int].unwrap(), outcomes.drop_first())
    } else {
        m1
    };
    if m.bubbles(idx, o) {
        let p = parents[idx as int].unwrap();
        let rest = outcomes.drop_first();
        lemma_height_falls(parents, idx);
        assert(complete(m1.parents(), p, rest));
        assert(rest.len() >= 1);
        law_dispatch_enters_what_waited(m1, p, rest, s);
        lemma_step_wf(m1, p, rest);
        assert(m1.enter_list =~= Seq::<usize>::empty());
    }
    lemma_committed_wf(m2);
    let m3 = m2.committed();
    lemma_exit_all(m3.states, m3.exit_queue);
}

/// A dispatch that makes a transition runs the exit action of the state
/// that was current and of each of its ancestors that is not an ancestor of
/// the destination, each once, and no other exit action; a dispatch
/// without a transition runs none.
pub proof fn law_dispatch_exits_what_it_leaves<SM, P>(
    m: Machine<SM, P>,
    idx: usize,
    outcomes: Seq<Outcome<P>>,
    s: usize,
)
    requires
        m.wf(),
        idx < m.states.len(),
        complete(m.parents(), idx, outcomes),
        s < m.states.len(),
    ensures
        ({
            let asked = if m.staged is Some {
                m.staged
            } else {
                first_dest(outcomes)
            };
            let leaves = asked matches Some(d) && m.valid_target(d) && (s == m.current || (path(
                m.parents(),
                m.current,
            ).contains(s) && !path(m.parents(), d).contains(s)));
            step(m, idx, outcomes).states[s as int].exit_cnt == if leaves
                && m.states[s as int].has_exit {
                bump(m.states[s as int].exit_cnt)
            } else {
                m.states[s as int].exit_cnt
            }
        }),
    decreases outcomes.len(),
{
    let parents = m.parents();
    let o = outcomes.first();
    let m1 = m.handled_by(idx, o);
    lemma_handled_wf(m, idx, o);
    lemma_enter_all(m.states, m.enter_list);
    assert(m1.states[s as int].exit_cnt == m.states[s as int].exit_cnt);
    assert(m1.states[s as int].has_exit == m.states[s as int].has_exit);
    assert(m1.valid_target(m.current));
    assert forall|d: usize| m1.valid_target(d) == m.valid_target(d) by {}
    if m.bubbles(idx, o) {
        let p = parents[idx as int].unwrap();
        let rest = outcomes.drop_first();
        lemma_height_falls(parents, idx);
        assert(complete(m1.parents(), p, rest));
        assert(rest.len() >= 1);
        law_dispatch_exits_what_it_leaves(m1, p, rest, s);
        lemma_step_wf(m1, p, rest);
        let m2 = step(m1, p, rest);
        assert(m2.committed() == m2);
        assert(m2.exit_queue =~= Seq::<usize>::empty());
        assert(m2.exited() == m2);
    } else {
        assert(outcomes.drop_first().len() == 0);
        match m1.staged {
            Some(d) => {
                if m1.valid_target(d) {
                    let unstaged = Machine { staged: None, ..m1 };
                    law_exited_once(unstaged, d, s);
                }
            },
            None => {
                assert(m1.exit_queue =~= Seq::<usize>::empty());
            },
        }
    }
}

/// The dispatcher begins with the dispatch of its message. If that makes
/// no transition the dispatcher does no more. If it makes one and no
/// deferred message waits, the dispatcher only lets the two buffers change
/// places.
pub proof fn law_dispatcher_begins_with_a_dispatch<SM, P>(
    before: Machine<SM, P>,
    msg: P,
    after: Machine<SM, P>,
) -> (first: Machine<SM, P>)
    requires
        dispatcher_run(before, msg, after),
    ensures
        dispatched(before, before.current, msg, first),
        !first.changed ==> after == first,
        first.changed && first.defer_current.len() == 0 ==> after == first.swapped(),
{
    let (ends, moved) = choose|ends: Seq<Machine<SM, P>>, moved: Seq<bool>|
        #[trigger] rounds_of(before, msg, ends, moved) && ends.last() == after;
    let first = ends[0];
    if ends.len() >= 2 {
        assert(round_followed(ends, moved, 1));
        let mids = choose|mids: Seq<Machine<SM, P>>|
            #[trigger] round_of(ends[0], mids) && mids.last() == ends[1] && moved[1]
                == round_moved(mids);
        if first.defer_current.len() == 0 {
            if mids.len() >= 2 {
                assert(redispatched(mids, 0));
            }
            assert(ends[1] == first.swapped());
            assert(!moved[1]);
            if ends.len() >= 3 {
                assert(round_followed(ends, moved, 2));
            }
        }
    }
    first
}

/// States without a cycle cannot be built on with an initial state that is
/// not among them or that has a child: `build` leaves such a call out, and
/// `checked_build` answers it with `None`.
pub proof fn law_initial_state_must_be_a_leaf<SM, P>(m: Machine<SM, P>, initial: usize)
    requires
        !has_cycle(m.parents()),
        initial >= m.states.len() || exists|j: int|
            0 <= j < m.states.len() && #[trigger] m.states[j].parent == Some(initial),
    ensures
        !m.valid_target(initial),
        !m.startable(initial),
{
    if initial < m.states.len() {
        let j = choose|j: int|
            0 <= j < m.states.len() && #[trigger] m.states[j].parent == Some(initial);
        assert(m.parents()[j] == Some(initial));
    }
}

/// Where no state has an entry or an exit action, a dispatch runs the
/// process actions of the states that the message reaches, from `idx`
/// upwards, and nothing else.
pub proof fn law_plain_dispatch_runs_process_actions_only<SM, P>(
    m: Machine<SM, P>,
    idx: usize,
    outcomes: Seq<Outcome<P>>,
)
    requires
        m.wf(),
        idx < m.states.len(),
        complete(m.parents(), idx, outcomes),
        forall|i: int|
            0 <= i < m.states.len() ==> !(#[trigger] m.states[i]).has_enter
                && !m.states[i].has_exit,
    ensures
        outcomes.len() <= path(m.parents(), idx).len(),
        script(m, idx, outcomes) == Seq::new(
            outcomes.len(),
            |j: int|
                Label {
                    what: Ran::Process,
                    state: path(m.parents(), idx)[j],
                    outcome: Some(outcomes[j]),
                },
        ),
    decreases outcomes.len(),
{
    let parents = m.parents();
    let up = path(parents, idx);
    let o = outcomes.first();
    let m1 = m.handled_by(idx, o);
    lemma_path(parents, idx);
    lemma_handled_wf(m, idx, o);
    lemma_enter_all(m.states, m.enter_list);
    law_no_action_no_run(m.states, m.enter_list);
    assert(m.entering() =~= Seq::<Label<P>>::empty());
    assert forall|i: int| 0 <= i < m1.states.len() implies !(#[trigger] m1.states[i]).has_enter
        && !m1.states[i].has_exit by {
        let k = i as usize;
        assert(!m.states[k as int].has_enter);
    }
    let m2 = if m.bubbles(idx, o) {
        step(m1, parents[idx as int].unwrap(), outcomes.drop_first())
    } else {
        m1
    };
    let inner = if m.bubbles(idx, o) {
        script(m1, parents[idx as int].unwrap(), outcomes.drop_first())
    } else {
        Seq::empty()
    };
    if m.bubbles(idx, o) {
        let p = parents[idx as int].unwrap();
        let rest = outcomes.drop_first();
        lemma_height_falls(parents, idx);
        assert(complete(m1.parents(), p, rest));
        law_plain_dispatch_runs_process_actions_only(m1, p, rest);
        lemma_step_follows(m1, p, rest);
        assert(up == seq![idx] + path(parents, p));
    } else {
        assert(outcomes.len() == 1);
    }
    let m3 = m2.committed();
    assert forall|j: int| 0 <= j < m3.exit_queue.len() && m3.exit_queue[j] < m3.states.len() implies !(
    #[trigger] m3.states[m3.exit_queue[j] as int]).has_exit by {
        let k = m3.exit_queue[j] as int;
        assert(later(m1.states[k], m2.states[k]));
    }
    law_no_action_no_run(m3.states, m3.exit_queue);
    assert(m3.exiting() =~= Seq::<Label<P>>::empty());
    let expected = Seq::new(
        outcomes.len(),
        |j: int|
            Label {
                what: Ran::Process,
                state: path(m.parents(), idx)[j],
                outcome: Some(outcomes[j]),
            },
    );
    let process = seq![Label { what: Ran::Process, state: idx, outcome: Some(o) }];
    assert(script(m, idx, outcomes) == m.entering() + process + inner + m3.exiting());
    assert(m.entering() + process + inner + m3.exiting() =~= expected) by {
        if m.bubbles(idx, o) {
            let p = parents[idx as int].unwrap();
            let rest = outcomes.drop_first();
            assert forall|j: int| 1 <= j < outcomes.len() implies (process + inner)[j]
                == expected[j] by {
                assert(inner[j - 1].state == path(parents, p)[j - 1]);
                assert(up[j] == path(parents, p)[j - 1]);
                assert(rest[j - 1] == outcomes[j]);
            }
        }
    }
}

} // verus!
