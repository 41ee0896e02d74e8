//! The executor as a mathematical value, and the steps of a dispatch as
//! functions on it.
use crate::state::{StateResult, StateView};
use crate::topology::{
    climb, first_marked, has_cycle, is_forest, is_leaf, only, parents_in_range, path,
};
use vstd::prelude::*;

verus! {

/// Which action of a state ran.
pub enum Ran {
    Enter,
    Process,
    Exit,
}

/// One run of an action: which action of which state, on which message,
/// the value it found and the value it left. Of a process action also what
/// it deferred and returned.
pub struct Event<SM, P> {
    pub what: Ran,
    pub state: usize,
    pub msg: P,
    pub before: SM,
    pub after: SM,
    pub deferred: Seq<P>,
    pub result: StateResult,
}

/// An event without its values: which action of which state ran, and the
/// outcome if it was a process action.
pub struct Label<P> {
    pub what: Ran,
    pub state: usize,
    pub outcome: Option<Outcome<P>>,
}

/// What the contracts read of an executor.
#[verifier::reject_recursive_types(SM)]
#[verifier::reject_recursive_types(P)]
pub struct Machine<SM, P> {
    /// The value that the actions work on.
    pub sm: SM,
    /// Every run of an action so far, in the order in which they ran.
    pub trace: Seq<Event<SM, P>>,
    pub states: Seq<StateView<SM, P>>,
    /// A transition was made and its entry actions are still to run.
    pub changed: bool,
    /// The destination asked for during the dispatch in progress.
    pub staged: Option<usize>,
    pub current: usize,
    pub previous: usize,
    /// The states to enter, the leaf first; they are entered last to first.
    pub enter_list: Seq<usize>,
    /// The states to exit, in the order in which they are exited.
    pub exit_queue: Seq<usize>,
    /// The messages sent to the machine and not yet received.
    pub primary: Seq<P>,
    /// The buffer that takes the messages deferred now.
    pub defer_current: Seq<P>,
    /// The other buffer: the deferred messages that wait for the next
    /// transition, or are being dispatched after it.
    pub defer_other: Seq<P>,
    /// Which of the two buffers is the current one: 0 or 1.
    pub current_defer: usize,
}

/// What a process action returned: whether it handled the message, where it
/// asks to go, and the messages it deferred.
pub struct Outcome<P> {
    pub handled: bool,
    pub dest: Option<usize>,
    pub deferred: Seq<P>,
}

/// A counter after one more count; it stays at the largest number.
pub open spec fn bump(c: usize) -> usize {
    if c < usize::MAX {
        (c + 1) as usize
    } else {
        c
    }
}

/// The states after the state at `i` was entered: it is active, and its
/// entry action, if it has one, has run once more.
pub open spec fn enter_one<SM, P>(states: Seq<StateView<SM, P>>, i: usize) -> Seq<StateView<SM, P>> {
    if i < states.len() {
        let s = states[i as int];
        states.update(
            i as int,
            StateView {
                active: true,
                enter_cnt: if s.has_enter {
                    bump(s.enter_cnt)
                } else {
                    s.enter_cnt
                },
                ..s
            },
        )
    } else {
        states
    }
}

/// The states after those of `list` were entered, the last first.
pub open spec fn enter_all<SM, P>(states: Seq<StateView<SM, P>>, list: Seq<usize>) -> Seq<StateView<SM, P>>
    decreases list.len(),
{
    if list.len() == 0 {
        states
    } else {
        enter_all(enter_one(states, list.last()), list.drop_last())
    }
}

/// The states after the state at `i` was exited: it is inactive, and its
/// exit action, if it has one, has run once more.
pub open spec fn exit_one<SM, P>(states: Seq<StateView<SM, P>>, i: usize) -> Seq<StateView<SM, P>> {
    if i < states.len() {
        let s = states[i as int];
        states.update(
            i as int,
            StateView {
                active: false,
                exit_cnt: if s.has_exit {
                    bump(s.exit_cnt)
                } else {
                    s.exit_cnt
                },
                ..s
            },
        )
    } else {
        states
    }
}

/// The states after those of `list` were exited, the first first.
pub open spec fn exit_all<SM, P>(states: Seq<StateView<SM, P>>, list: Seq<usize>) -> Seq<StateView<SM, P>>
    decreases list.len(),
{
    if list.len() == 0 {
        states
    } else {
        exit_all(exit_one(states, list.first()), list.drop_first())
    }
}

/// The states after the process action of the state at `i` ran once more.
pub open spec fn process_one<SM, P>(states: Seq<StateView<SM, P>>, i: usize) -> Seq<StateView<SM, P>> {
    if i < states.len() {
        let s = states[i as int];
        states.update(i as int, StateView { process_cnt: bump(s.process_cnt), ..s })
    } else {
        states
    }
}

/// `b` is the state `a` at a later time: it has the same name, parent and
/// actions, and its counters have not fallen.
pub open spec fn later<SM, P>(a: StateView<SM, P>, b: StateView<SM, P>) -> bool {
    &&& b.enter == a.enter
    &&& b.process == a.process
    &&& b.exit == a.exit
    &&& b.name == a.name
    &&& b.parent == a.parent
    &&& b.has_enter == a.has_enter
    &&& b.has_exit == a.has_exit
    &&& a.enter_cnt <= b.enter_cnt
    &&& a.process_cnt <= b.process_cnt
    &&& a.exit_cnt <= b.exit_cnt
}

/// The parent of every state.
pub open spec fn parents_of<SM, P>(states: Seq<StateView<SM, P>>) -> Seq<Option<usize>> {
    states.map_values(|s: StateView<SM, P>| s.parent)
}

/// Which states are active.
pub open spec fn actives_of<SM, P>(states: Seq<StateView<SM, P>>) -> Seq<bool> {
    states.map_values(|s: StateView<SM, P>| s.active)
}

impl<SM, P> Machine<SM, P> {
    /// A machine without states, messages or transitions.
    pub open spec fn empty(sm: SM) -> Machine<SM, P> {
        Machine {
            sm,
            trace: Seq::empty(),
            states: Seq::empty(),
            changed: true,
            staged: None,
            current: 0,
            previous: 0,
            enter_list: Seq::empty(),
            exit_queue: Seq::empty(),
            primary: Seq::empty(),
            defer_current: Seq::empty(),
            defer_other: Seq::empty(),
            current_defer: 0,
        }
    }

    pub open spec fn parents(self) -> Seq<Option<usize>> {
        parents_of(self.states)
    }

    pub open spec fn actives(self) -> Seq<bool> {
        actives_of(self.states)
    }

    /// The machine is `before` at a later time: it has the same states, and
    /// the same messages wait to be received.
    pub open spec fn follows(self, before: Machine<SM, P>) -> bool {
        &&& before.trace.is_prefix_of(self.trace)
        &&& self.states.len() == before.states.len()
        &&& self.primary == before.primary
        &&& forall|i: int|
            0 <= i < self.states.len() ==> later(before.states[i], #[trigger] self.states[i])
    }

    /// A transition may name `d`: it is a state, and a leaf.
    pub open spec fn valid_target(self, d: usize) -> bool {
        d < self.states.len() && is_leaf(self.parents(), d)
    }

    /// The machine is built and at rest between two steps of a dispatch:
    /// the states form a forest, the current state is a leaf, the states to
    /// enter are the lower end of the path from the current leaf to its
    /// root, and the active states are the rest of that path.
    pub open spec fn wf(self) -> bool {
        let parents = self.parents();
        let up = path(parents, self.current);
        let k = self.enter_list.len() as int;
        &&& self.states.len() <= usize::MAX
        &&& is_forest(parents)
        &&& self.valid_target(self.current)
        &&& self.previous < self.states.len()
        &&& self.exit_queue.len() == 0
        &&& k <= up.len()
        &&& self.enter_list == up.take(k)
        &&& self.changed <==> k > 0
        &&& forall|i: usize|
            i < self.states.len() ==> (#[trigger] self.states[i as int].active <==> up.skip(
                k,
            ).contains(i))
        &&& self.current_defer < 2
    }

    /// The machine is tied to its actions: every destination that a
    /// process action may ask for is a leaf state, and so is the staged
    /// one; each run of an action found the value that the run before it
    /// left, and the value is what the last run left.
    pub open spec fn tied(self) -> bool {
        &&& asks_for_leaves(self.states)
        &&& (self.staged matches Some(d) ==> self.valid_target(d))
        &&& chained(self.trace, self.sm)
    }

    /// The pending entries are made: the states of the enter list are
    /// entered, the topmost first.
    pub open spec fn entered(self) -> Machine<SM, P> {
        if self.changed {
            Machine {
                states: enter_all(self.states, self.enter_list),
                enter_list: Seq::empty(),
                changed: false,
                ..self
            }
        } else {
            self
        }
    }

    /// The process action of the state at `idx` has run.
    pub open spec fn processed(self, idx: usize) -> Machine<SM, P> {
        Machine { states: process_one(self.states, idx), ..self }
    }

    /// `msgs` are deferred: they join the current buffer.
    pub open spec fn deferring(self, msgs: Seq<P>) -> Machine<SM, P> {
        Machine { defer_current: self.defer_current + msgs, ..self }
    }

    /// The index of the buffer that is not the current one.
    pub open spec fn other_defer(self) -> usize {
        if self.current_defer == 0 {
            1
        } else {
            0
        }
    }

    /// The two buffers have changed places.
    pub open spec fn swapped(self) -> Machine<SM, P> {
        Machine {
            defer_current: self.defer_other,
            defer_other: self.defer_current,
            current_defer: self.other_defer(),
            ..self
        }
    }

    /// The oldest message of the other buffer is taken out.
    pub open spec fn received(self) -> Machine<SM, P> {
        Machine { defer_other: self.defer_other.drop_first(), ..self }
    }

    /// A process action asked for `dest`: the first destination asked for
    /// during a dispatch is the one that counts.
    pub open spec fn staging(self, dest: Option<usize>) -> Machine<SM, P> {
        if dest is Some && self.staged is None {
            Machine { staged: dest, ..self }
        } else {
            self
        }
    }

    /// The first active proper ancestor of `d`: what the old and the new
    /// path share begins there.
    pub open spec fn exit_sentinel(self, d: usize) -> Option<usize> {
        first_marked(self.parents(), self.actives(), d)
    }

    /// The states to enter on the way to `d`: from `d` upwards, as far as
    /// the exit sentinel.
    pub open spec fn enter_path(self, d: usize) -> Seq<usize> {
        climb(self.parents(), self.actives(), d)
    }

    /// The states to exit on the way to `d`: from the current state
    /// upwards, as far as the exit sentinel.
    pub open spec fn exit_path(self, d: usize) -> Seq<usize> {
        climb(self.parents(), only(self.states.len(), self.exit_sentinel(d)), self.current)
    }

    /// The transition to `d` is planned: `d` is the current state, and the
    /// states to enter and to exit are listed.
    pub open spec fn planned(self, d: usize) -> Machine<SM, P> {
        Machine {
            enter_list: self.enter_list + self.enter_path(d),
            exit_queue: self.exit_queue + self.exit_path(d),
            previous: self.current,
            current: d,
            changed: true,
            ..self
        }
    }

    /// The staged destination, if there is one, is taken out of its slot,
    /// and the transition to it is planned if it is a valid target.
    pub open spec fn committed(self) -> Machine<SM, P> {
        match self.staged {
            Some(d) => if self.valid_target(d) {
                (Machine { staged: None, ..self }).planned(d)
            } else {
                Machine { staged: None, ..self }
            },
            None => self,
        }
    }

    /// After a transition the states of the exit queue are exited, the
    /// first first.
    pub open spec fn exited(self) -> Machine<SM, P> {
        if self.changed {
            Machine {
                states: exit_all(self.states, self.exit_queue),
                exit_queue: Seq::empty(),
                ..self
            }
        } else {
            self
        }
    }

    /// The entry actions that run when the pending entries are made.
    pub open spec fn entering(self) -> Seq<Label<P>> {
        if self.changed {
            enter_labels(self.states, self.enter_list)
        } else {
            Seq::empty()
        }
    }

    /// The exit actions that run when the exits of a transition are made.
    pub open spec fn exiting(self) -> Seq<Label<P>> {
        if self.changed {
            exit_labels(self.states, self.exit_queue)
        } else {
            Seq::empty()
        }
    }

    /// The enter list is drained, the state at `idx` processes the message
    /// with the outcome `o`, and what it asks for is recorded.
    pub open spec fn handled_by(self, idx: usize, o: Outcome<P>) -> Machine<SM, P> {
        self.entered().processed(idx).deferring(o.deferred).staging(o.dest)
    }

    /// The message goes on to the parent of the state at `idx` after the
    /// outcome `o`.
    pub open spec fn bubbles(self, idx: usize, o: Outcome<P>) -> bool {
        passes_on(self.parents(), idx, o)
    }

    /// The states can be built on with `initial` as the first state: every
    /// parent index names a state and, unless some state is its own
    /// ancestor, `initial` is a leaf state and the process actions ask for
    /// leaf states only.
    pub open spec fn startable(self, initial: usize) -> bool {
        &&& parents_in_range(self.parents())
        &&& has_cycle(self.parents()) || (self.valid_target(initial) && asks_for_leaves(
            self.states,
        ))
    }

    /// The machine as `build` leaves it, with `initial` as its first state.
    pub open spec fn started(self, initial: usize) -> Machine<SM, P> {
        Machine {
            current: initial,
            previous: initial,
            enter_list: path(self.parents(), initial),
            ..self
        }
    }
}

/// The state at `idx` has a parent and, with the outcome `o`, leaves the
/// message to it.
pub open spec fn passes_on<P>(parents: Seq<Option<usize>>, idx: usize, o: Outcome<P>) -> bool {
    !o.handled && idx < parents.len() && parents[idx as int] is Some
}

/// `outcomes` holds one outcome for each state that the message reaches
/// from `idx` upwards: each but the last leaves the message to its parent,
/// and the last handles it or is a root.
pub open spec fn complete<P>(
    parents: Seq<Option<usize>>,
    idx: usize,
    outcomes: Seq<Outcome<P>>,
) -> bool
    decreases outcomes.len(),
{
    outcomes.len() >= 1 && if passes_on(parents, idx, outcomes.first()) {
        complete(parents, parents[idx as int].unwrap(), outcomes.drop_first())
    } else {
        outcomes.len() == 1
    }
}

/// The machine after the message was dispatched to the state at `idx`,
/// where `outcomes` holds what the process actions returned, that of `idx`
/// first and those of its ancestors after it.
pub open spec fn step<SM, P>(m: Machine<SM, P>, idx: usize, outcomes: Seq<Outcome<P>>) -> Machine<SM, P>
    decreases outcomes.len(),
{
    if outcomes.len() == 0 {
        m
    } else {
        let o = outcomes.first();
        let m1 = m.handled_by(idx, o);
        let m2 = if m.bubbles(idx, o) {
            step(m1, m.parents()[idx as int].unwrap(), outcomes.drop_first())
        } else {
            m1
        };
        m2.committed().exited()
    }
}

/// The first destination that one of `outcomes` asks for.
pub open spec fn first_dest<P>(outcomes: Seq<Outcome<P>>) -> Option<usize>
    decreases outcomes.len(),
{
    if outcomes.len() == 0 {
        None
    } else if outcomes.first().dest is Some {
        outcomes.first().dest
    } else {
        first_dest(outcomes.drop_first())
    }
}

/// Every destination that a process action may ask for is a leaf state.
pub open spec fn asks_for_leaves<SM, P>(states: Seq<StateView<SM, P>>) -> bool {
    forall|i: int, sm: SM, msg: P, after: SM, deferred: Seq<P>, r: StateResult|
        0 <= i < states.len() && #[trigger] (states[i].process)(sm, msg, after, deferred, r)
            ==> (r.1 matches Some(d) ==> d < states.len() && is_leaf(parents_of(states), d))
}

/// The event at `j` found the value that the event before it left.
pub open spec fn linked<SM, P>(trace: Seq<Event<SM, P>>, j: int) -> bool {
    trace[j].before == trace[j - 1].after
}

/// Each event of `trace` found the value that the event before it left,
/// and `sm` is the value that the last one left.
pub open spec fn chained<SM, P>(trace: Seq<Event<SM, P>>, sm: SM) -> bool {
    &&& forall|j: int| 1 <= j < trace.len() ==> #[trigger] linked(trace, j)
    &&& trace.len() > 0 ==> trace.last().after == sm
}

/// The actions of `events` passed the value on: the first found `sm`, each
/// other found what the one before it left, and the last left `after`. If
/// no action ran the value is as it was.
pub open spec fn passed_on<SM, P>(sm: SM, events: Seq<Event<SM, P>>, after: SM) -> bool {
    &&& events.len() == 0 ==> after == sm
    &&& events.len() > 0 ==> events[0].before == sm && events.last().after == after
    &&& forall|j: int| 1 <= j < events.len() ==> #[trigger] linked(events, j)
}

/// What a process action returned, as an outcome.
pub open spec fn outcome_of<P>(deferred: Seq<P>, r: StateResult) -> Outcome<P> {
    Outcome { handled: r.0 is Yes, dest: r.1, deferred }
}

/// The event without its values.
pub open spec fn label_of<SM, P>(e: Event<SM, P>) -> Label<P> {
    Label {
        what: e.what,
        state: e.state,
        outcome: if e.what is Process {
            Some(outcome_of(e.deferred, e.result))
        } else {
            None
        },
    }
}

/// The events without their values.
pub open spec fn labels<SM, P>(events: Seq<Event<SM, P>>) -> Seq<Label<P>> {
    events.map_values(|e: Event<SM, P>| label_of(e))
}

/// The event is the run of an action that the state has, on the message
/// `msg`, and is what that action may do.
pub open spec fn permits<SM, P>(states: Seq<StateView<SM, P>>, msg: P, e: Event<SM, P>) -> bool {
    &&& e.msg == msg
    &&& e.state < states.len()
    &&& match e.what {
        Ran::Enter => states[e.state as int].has_enter && (states[e.state as int].enter)(
            e.before,
            e.msg,
            e.after,
        ),
        Ran::Process => (states[e.state as int].process)(
            e.before,
            e.msg,
            e.after,
            e.deferred,
            e.result,
        ),
        Ran::Exit => states[e.state as int].has_exit && (states[e.state as int].exit)(
            e.before,
            e.msg,
            e.after,
        ),
    }
}

/// All of `events` are runs on `msg` of actions that the states have, and
/// what those actions may do.
pub open spec fn all_permitted<SM, P>(
    states: Seq<StateView<SM, P>>,
    msg: P,
    events: Seq<Event<SM, P>>,
) -> bool {
    forall|j: int| 0 <= j < events.len() ==> permits(states, msg, #[trigger] events[j])
}

/// The entry actions that run when the states of `list` are entered, the
/// last first: those of the states that have one.
pub open spec fn enter_labels<SM, P>(states: Seq<StateView<SM, P>>, list: Seq<usize>) -> Seq<
    Label<P>,
>
    decreases list.len(),
{
    if list.len() == 0 {
        Seq::empty()
    } else {
        let i = list.last();
        (if i < states.len() && states[i as int].has_enter {
            seq![Label { what: Ran::Enter, state: i, outcome: None }]
        } else {
            Seq::empty()
        }) + enter_labels(states, list.drop_last())
    }
}

/// The exit actions that run when the states of `list` are exited, the
/// first first: those of the states that have one.
pub open spec fn exit_labels<SM, P>(states: Seq<StateView<SM, P>>, list: Seq<usize>) -> Seq<
    Label<P>,
>
    decreases list.len(),
{
    if list.len() == 0 {
        Seq::empty()
    } else {
        let i = list.first();
        (if i < states.len() && states[i as int].has_exit {
            seq![Label { what: Ran::Exit, state: i, outcome: None }]
        } else {
            Seq::empty()
        }) + exit_labels(states, list.drop_first())
    }
}

/// The actions that a dispatch to the state at `idx` runs, in their order,
/// where `outcomes` holds what the process actions return: the pending
/// entries from the topmost state down, then the process actions from
/// `idx` upwards, then the exits of the transition from the old leaf
/// upwards.
pub open spec fn script<SM, P>(m: Machine<SM, P>, idx: usize, outcomes: Seq<Outcome<P>>) -> Seq<
    Label<P>,
>
    decreases outcomes.len(),
{
    if outcomes.len() == 0 {
        Seq::empty()
    } else {
        let o = outcomes.first();
        let m1 = m.handled_by(idx, o);
        let m2 = if m.bubbles(idx, o) {
            step(m1, m.parents()[idx as int].unwrap(), outcomes.drop_first())
        } else {
            m1
        };
        m.entering() + seq![Label { what: Ran::Process, state: idx, outcome: Some(o) }] + (if m.bubbles(
            idx,
            o,
        ) {
            script(m1, m.parents()[idx as int].unwrap(), outcomes.drop_first())
        } else {
            Seq::empty()
        }) + m2.committed().exiting()
    }
}

/// The dispatch of `msg` to the state at `idx` has led from `before` to
/// `after` with the process actions returning `outcomes`, and `events` are
/// the runs of actions it made: the machine is the one that the outcomes
/// give, and the events are the prescribed actions in their order, each on
/// `msg` and each what its action may do; the first found the value of
/// `before`, each other the value that the one before it left, and the last
/// left the value of `after`.
pub open spec fn acted<SM, P>(
    before: Machine<SM, P>,
    idx: usize,
    msg: P,
    after: Machine<SM, P>,
    outcomes: Seq<Outcome<P>>,
    events: Seq<Event<SM, P>>,
) -> bool {
    &&& complete(before.parents(), idx, outcomes)
    &&& after == (Machine { sm: after.sm, trace: after.trace, ..step(before, idx, outcomes) })
    &&& after.trace == before.trace + events
    &&& labels(events) == script(before, idx, outcomes)
    &&& all_permitted(before.states, msg, events)
    &&& passed_on(before.sm, events, after.sm)
}

/// Dispatching `msg` to the state at `idx` can lead from `before` to
/// `after`.
pub open spec fn dispatched<SM, P>(
    before: Machine<SM, P>,
    idx: usize,
    msg: P,
    after: Machine<SM, P>,
) -> bool {
    exists|outcomes: Seq<Outcome<P>>, events: Seq<Event<SM, P>>| #[trigger]
        acted(before, idx, msg, after, outcomes, events)
}

/// `mids` are the machines between the dispatches of a round that starts
/// from `before` and is under way: the buffers have changed places, and
/// each dispatch so far took the oldest message out of the other buffer and
/// handed it to the current state.
pub open spec fn round_begun<SM, P>(before: Machine<SM, P>, mids: Seq<Machine<SM, P>>) -> bool {
    &&& mids.len() >= 1
    &&& mids[0] == before.swapped()
    &&& forall|i: int| 0 <= i < mids.len() - 1 ==> #[trigger] redispatched(mids, i)
}

/// From the machine at `i` in `mids` the oldest message of the other
/// buffer was taken out and dispatched to the current state, which led to
/// the next machine in `mids`.
pub open spec fn redispatched<SM, P>(mids: Seq<Machine<SM, P>>, i: int) -> bool {
    &&& mids[i].defer_other.len() > 0
    &&& dispatched(
        mids[i].received(),
        mids[i].current,
        mids[i].defer_other.first(),
        mids[i + 1],
    )
}

/// The round that led to the machine at `i` in `ends` followed a dispatch
/// or round that made a transition.
pub open spec fn round_followed<SM, P>(ends: Seq<Machine<SM, P>>, moved: Seq<bool>, i: int) -> bool {
    &&& moved[i - 1]
    &&& round_run(ends[i - 1], ends[i], moved[i])
}

/// `mids` are the machines between the dispatches of one whole round that
/// starts from `before`: it goes on until no message waits in the other
/// buffer.
pub open spec fn round_of<SM, P>(before: Machine<SM, P>, mids: Seq<Machine<SM, P>>) -> bool {
    round_begun(before, mids) && mids.last().defer_other.len() == 0
}

/// One of the dispatches between `mids` made a transition.
pub open spec fn round_moved<SM, P>(mids: Seq<Machine<SM, P>>) -> bool {
    exists|i: int| 1 <= i < mids.len() && (#[trigger] mids[i]).changed
}

/// One round can lead from `before` to `after`, where `moved` says whether
/// one of its dispatches made a transition.
pub open spec fn round_run<SM, P>(before: Machine<SM, P>, after: Machine<SM, P>, moved: bool) -> bool {
    exists|mids: Seq<Machine<SM, P>>|
        #[trigger] round_of(before, mids) && mids.last() == after && moved == round_moved(mids)
}

/// `ends` are the machines after the first dispatch, which was that of
/// `msg`, and after each round that followed it so far, and `moved` says of
/// each whether a transition was made in it: each round followed a dispatch
/// or round that made one.
pub open spec fn rounds_begun<SM, P>(
    before: Machine<SM, P>,
    msg: P,
    ends: Seq<Machine<SM, P>>,
    moved: Seq<bool>,
) -> bool {
    &&& ends.len() == moved.len()
    &&& ends.len() >= 1
    &&& dispatched(before, before.current, msg, ends[0])
    &&& moved[0] == ends[0].changed
    &&& forall|i: int| 1 <= i < ends.len() ==> #[trigger] round_followed(ends, moved, i)
}

/// `ends` are the machines after the first dispatch of a dispatcher call
/// and after each of its rounds. A round follows as long as the last
/// dispatch or round made a transition, and no more than `usize::MAX`
/// rounds are run.
pub open spec fn rounds_of<SM, P>(
    before: Machine<SM, P>,
    msg: P,
    ends: Seq<Machine<SM, P>>,
    moved: Seq<bool>,
) -> bool {
    &&& rounds_begun(before, msg, ends, moved)
    &&& ends.len() <= usize::MAX + 1
    &&& (!moved.last() || ends.len() == usize::MAX + 1)
}

/// The dispatcher, called with `msg`, can lead from `before` to `after`.
pub open spec fn dispatcher_run<SM, P>(before: Machine<SM, P>, msg: P, after: Machine<SM, P>) -> bool {
    exists|ends: Seq<Machine<SM, P>>, moved: Seq<bool>|
        #[trigger] rounds_of(before, msg, ends, moved) && ends.last() == after
}

} // verus!
