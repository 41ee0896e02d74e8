//! The executor: a registry of states, and the machine that runs them.
use crate::coherence::{
    lemma_acted_bubbled, lemma_acted_handled, lemma_asks_kept, lemma_chained_push,
    lemma_dispatched_follows, lemma_dispatched_frame, lemma_enter_all, lemma_entered_wf,
    lemma_exit_all, lemma_follows, lemma_passed_on_push, lemma_process_after_entries,
    lemma_transition_wf,
};
use crate::model::{
    acted, all_permitted, asks_for_leaves, chained, dispatched, dispatcher_run, enter_all,
    enter_labels, enter_one, exit_all, exit_labels, exit_one, label_of, labels, later,
    outcome_of, passed_on, permits, process_one, round_begun, round_moved, round_run, rounds_begun,
    Event, Label, Machine, Outcome, Ran,
};
use crate::rounds::{
    lemma_round_ends, lemma_round_goes_on, lemma_round_start, lemma_rounds_end,
    lemma_rounds_go_on,
};
use crate::state::{Deferrals, Handled, StateInfo, StateView};
use crate::pruning::{
    lemma_prune_child, lemma_prune_root, lemma_pruning_end, lemma_pruning_start, pruning,
};
use crate::topology::{
    ancestor, children_of, children_upto, climb, first_marked, has_cycle, height, is_forest,
    is_leaf, leaves, leaves_upto, lemma_climb, lemma_forest_has_no_cycle, lemma_height_falls,
    lemma_leaf_has_no_children, lemma_path, lemma_stuck_has_cycle, only, parents_in_range,
    path,
};
use std::collections::VecDeque;
use vstd::prelude::*;

verus! {

/// Why an executor could not be built.
#[derive(Debug)]
pub enum BuildError {
    /// Some state is its own ancestor.
    CycleDetected,
}

impl BuildError {
    pub fn to_string(&self) -> (s: String)
        ensures
            s@ == "Cycle detected"@,
    {
        "Cycle detected".to_owned()
    }
}

/// A hierarchical state machine over a value of type `SM` and messages of
/// type `P`.
#[verifier::reject_recursive_types(SM)]
#[verifier::reject_recursive_types(P)]
pub struct Executor<SM, P> {
    sm: SM,
    states: Vec<StateInfo<SM, P>>,
    current_state_changed: bool,
    idx_transition_dest: Option<usize>,
    idx_current_state: usize,
    idx_previous_state: usize,
    idxs_enter_fns: Vec<usize>,
    idxs_exit_fns: VecDeque<usize>,
    // The states with no children, in increasing order.
    transition_targets: Vec<usize>,
    // Whether the state at an index is in transition_targets.
    transition_targets_set: Vec<bool>,
    // The children that the cycle detector has not yet removed.
    children_for_cycle_detector: Vec<Vec<usize>>,
    primary: VecDeque<P>,
    defer0: VecDeque<P>,
    defer1: VecDeque<P>,
    current_defer_idx: usize,
    // Every run of an action so far.
    trace: Ghost<Seq<Event<SM, P>>>,
}

impl<SM, P> View for Executor<SM, P> {
    type V = Machine<SM, P>;

    closed spec fn view(&self) -> Machine<SM, P> {
        Machine {
            sm: self.sm,
            trace: self.trace@,
            states: self.states@.map_values(|s: StateInfo<SM, P>| s@),
            changed: self.current_state_changed,
            staged: self.idx_transition_dest,
            current: self.idx_current_state,
            previous: self.idx_previous_state,
            enter_list: self.idxs_enter_fns@,
            exit_queue: self.idxs_exit_fns@,
            primary: self.primary@,
            defer_current: if self.current_defer_idx == 0 {
                self.defer0@
            } else {
                self.defer1@
            },
            defer_other: if self.current_defer_idx == 0 {
                self.defer1@
            } else {
                self.defer0@
            },
            current_defer: if self.current_defer_idx == 0 {
                0
            } else {
                1
            },
        }
    }
}

impl<SM, P> Executor<SM, P> {
    /// The executor is still taking states: nothing has been computed from
    /// them yet.
    pub closed spec fn building(&self) -> bool {
        &&& self.transition_targets@.len() == 0
        &&& self.transition_targets_set@.len() == 0
        &&& self.children_for_cycle_detector@.len() == 0
        &&& self@.changed
        &&& self@.staged is None
        &&& self@.current == 0
        &&& self@.previous == 0
        &&& self@.enter_list.len() == 0
        &&& self@.exit_queue.len() == 0
        &&& self@.trace.len() == 0
        &&& forall|i: int| 0 <= i < self@.states.len() ==> !(#[trigger] self@.states[i]).active
    }

    spec fn targets(&self) -> Seq<usize> {
        self.transition_targets@
    }

    spec fn targets_set(&self) -> Seq<bool> {
        self.transition_targets_set@
    }

    spec fn children(&self) -> Seq<Seq<usize>> {
        self.children_for_cycle_detector@.map_values(|list: Vec<usize>| list@)
    }

    /// The executor is built: its model is well formed, and the leaves are
    /// listed and marked.
    pub open spec fn wf(&self) -> bool {
        self@.wf() && self@.tied() && self.leaves_marked()
    }

    /// The leaves are listed and marked.
    pub closed spec fn leaves_marked(&self) -> bool {
        &&& self.targets() == leaves(self@.parents())
        &&& self.targets_set().len() == self@.states.len()
        &&& forall|i: int|
            0 <= i < self@.states.len() ==> (#[trigger] self.targets_set()[i]) == is_leaf(
                self@.parents(),
                i as usize,
            )
    }

    /// Begins an executor for `sm` with no states. `max_states` is the
    /// number of states that room is made for.
    pub fn new(sm: SM, max_states: usize) -> (r: Self)
        ensures
            r.building(),
            r@ == Machine::<SM, P>::empty(sm),
            r.sm() == sm,
    {
        let r = Executor {
            sm,
            states: Vec::<StateInfo<SM, P>>::with_capacity(max_states),
            current_state_changed: true,
            idx_transition_dest: None,
            idx_current_state: 0,
            idx_previous_state: 0,
            idxs_enter_fns: Vec::<usize>::with_capacity(max_states),
            idxs_exit_fns: VecDeque::<usize>::with_capacity(max_states),
            transition_targets: Vec::<usize>::with_capacity(max_states),
            transition_targets_set: Vec::<bool>::with_capacity(max_states),
            children_for_cycle_detector: Vec::<Vec<usize>>::with_capacity(max_states),
            primary: VecDeque::<P>::new(),
            defer0: VecDeque::<P>::new(),
            defer1: VecDeque::<P>::new(),
            current_defer_idx: 0,
            trace: Ghost(Seq::empty()),
        };
        assert(r@.states =~= Seq::empty());
        assert(r@ =~= Machine::<SM, P>::empty(sm));
        r
    }

    /// Adds a state; its index is the number of states added before it.
    /// No state is active before the first dispatch, so the state is added
    /// as an inactive one.
    pub fn state(self, state_info: StateInfo<SM, P>) -> (r: Self)
        requires
            self.building(),
        ensures
            r.building(),
            r@ == (Machine {
                states: self@.states.push(StateView { active: false, ..state_info@ }),
                ..self@
            }),
            r.sm() == self.sm(),
    {
        let mut this = self;
        let mut state_info = state_info;
        state_info.active = false;
        this.states.push(state_info);
        assert(this@.states =~= self@.states.push(state_info@));
        this
    }
}

impl<SM, P> Executor<SM, P> {
    /// Makes the executor ready to dispatch messages, with the state at
    /// `idx_initial_state` as its first state, unless some state is its own
    /// ancestor. The initial state and its ancestors are entered when the
    /// first message is dispatched. The process actions may ask only for
    /// leaf states as destinations.
    pub fn build(self, idx_initial_state: usize) -> (r: Result<Self, BuildError>)
        requires
            self.building(),
            self@.startable(idx_initial_state),
        ensures
            r is Err <==> has_cycle(self@.parents()),
            r matches Ok(e) ==> e.wf() && e@ == self@.started(idx_initial_state) && e.sm()
                == self.sm(),
    {
        let mut this = self;
        let ghost parents = self@.parents();
        this.initialize_children();

        let count = this.states.len();
        let ghost children = this.children();
        for idx in 0..count
            invariant
                count == this@.states.len(),
                this@ == self@,
                this.sm() == self.sm(),
                this.targets() == self.targets(),
                this.children() == children,
                this.targets_set().len() == idx,
                forall|i: int| 0 <= i < idx ==> !(#[trigger] this.targets_set()[i]),
        {
            this.transition_targets_set.push(false);
        }

        for idx in 0..count
            invariant
                count == this@.states.len(),
                this@ == self@,
                this.sm() == self.sm(),
                parents == this@.parents(),
                this.children() == children,
                children.len() == count,
                forall|i: int|
                    0 <= i < count ==> (#[trigger] children[i]) == children_of(
                        parents,
                        i as usize,
                    ),
                this.targets() == leaves_upto(parents, idx as nat),
                this.targets_set().len() == count,
                forall|i: int|
                    0 <= i < idx ==> (#[trigger] this.targets_set()[i]) == is_leaf(
                        parents,
                        i as usize,
                    ),
                forall|i: int| idx <= i < count ==> !(#[trigger] this.targets_set()[i]),
        {
            proof {
                lemma_leaf_has_no_children(parents, idx);
                assert(children[idx as int] == children_of(parents, idx));
            }
            if this.children_for_cycle_detector[idx].is_empty() {
                this.transition_targets.push(idx);
                this.transition_targets_set[idx] = true;
            }
        }

        if this.cycle_detector() {
            return Err(BuildError::CycleDetected);
        }
        // The current and the previous state are the initial state.

        this.idx_current_state = idx_initial_state;
        this.idx_previous_state = idx_initial_state;

        // The initial state is entered, and so are its ancestors.
        let mut idx_enter = this.idx_current_state;
        this.idxs_enter_fns.push(idx_enter);
        loop
            invariant
                parents == this@.parents(),
                is_forest(parents),
                idx_enter < parents.len(),
                idx_initial_state < parents.len(),
                this@ == (Machine { enter_list: this@.enter_list, ..self@.started(idx_initial_state) }),
                this.sm() == self.sm(),
                this@.enter_list + path(parents, idx_enter).drop_first() == path(
                    parents,
                    idx_initial_state,
                ),
                this.targets() == leaves(parents),
                this.targets_set().len() == parents.len(),
                forall|i: int|
                    0 <= i < parents.len() ==> (#[trigger] this.targets_set()[i]) == is_leaf(
                        parents,
                        i as usize,
                    ),
            ensures
                this@.enter_list == path(parents, idx_initial_state),
            decreases height(parents, idx_enter),
        {
            let ghost up = path(parents, idx_enter);
            assert(parents[idx_enter as int] == this.states@[idx_enter as int].parent);
            match this.states[idx_enter].parent {
                Some(idx) => {
                    proof {
                        lemma_height_falls(parents, idx_enter);
                        assert(up == seq![idx_enter] + path(parents, idx));
                        assert(up.drop_first() =~= path(parents, idx));
                        assert(path(parents, idx) =~= seq![idx] + path(parents, idx).drop_first());
                        assert(this@.enter_list.push(idx) + path(parents, idx).drop_first()
                            =~= this@.enter_list + up.drop_first());
                    }
                    idx_enter = idx;
                    this.idxs_enter_fns.push(idx_enter);
                },
                None => {
                    proof {
                        assert(up == seq![idx_enter]);
                        assert(up.drop_first() =~= Seq::<usize>::empty());
                        assert(this@.enter_list + up.drop_first() =~= this@.enter_list);
                    }
                    break ;
                },
            }
        }
        proof {
            let up = path(parents, idx_initial_state);
            assert(up.take(up.len() as int) =~= up);
            assert(up.skip(up.len() as int) =~= Seq::<usize>::empty());
            assert(this@ == self@.started(idx_initial_state));
            assert(this@.wf());
        }
        Ok(this)
    }

    /// Hands `msg` to the state at `idx`, and to its ancestors as long as
    /// none of them handles it. Before that the entries left over from the
    /// last transition are made, the topmost state first; after it the
    /// first transition that a process action asked for is made, with its
    /// exits from the old leaf upwards. Every action gets the value `sm` as
    /// the action before it left it, and `msg`.
    pub fn dispatch_idx(&mut self, msg: &P, idx: usize)
        requires
            old(self).wf(),
            idx < old(self)@.states.len(),
        ensures
            final(self).wf(),
            final(self)@.staged is None,
            final(self)@.follows(old(self)@),
            dispatched(old(self)@, idx, *msg, final(self)@),
        decreases height(old(self)@.parents(), idx),
    {
        let ghost m0 = self@;
        let ghost parents = m0.parents();
        let (handled, transition, deferrals, Ghost(ran)) = self.process_idx(msg, idx);
        let ghost o = outcome_of(deferrals@, (handled, transition));
        let up = self.record(idx, handled, transition, deferrals);
        let ghost m1 = self@;

        match up {
            Some(idx_parent) => {
                proof {
                    lemma_height_falls(parents, idx);
                }
                self.dispatch_idx(msg, idx_parent);
                proof {
                    let (inner, more) = choose|inner: Seq<Outcome<P>>, more: Seq<Event<SM, P>>|
                     #[trigger]
                        acted(m1, idx_parent, *msg, self@, inner, more);
                    lemma_acted_bubbled(m0, idx, *msg, o, m1, ran, self@, inner, more);
                }
            },
            None => {
                let Ghost(more) = self.commit(msg);
                proof {
                    lemma_acted_handled(m0, idx, *msg, o, m1, ran, self@, more);
                }
            },
        }
        proof {
            lemma_dispatched_follows(m0, idx, *msg, self@);
        }
    }

    // Makes the pending entries and lets the state at `idx` process `msg`.
    // Returns what the process action returned and deferred, and the runs
    // of actions made.
    fn process_idx(&mut self, msg: &P, idx: usize) -> (r: (
        Handled,
        Option<usize>,
        Deferrals<P>,
        Ghost<Seq<Event<SM, P>>>,
    ))
        requires
            old(self).wf(),
            idx < old(self)@.states.len(),
        ensures
            final(self).wf(),
            !final(self)@.changed,
            final(self)@ == (Machine {
                sm: final(self)@.sm,
                trace: old(self)@.trace + r.3@,
                ..old(self)@.entered().processed(idx)
            }),
            labels(r.3@) == old(self)@.entering() + seq![
                Label {
                    what: Ran::Process,
                    state: idx,
                    outcome: Some(outcome_of(r.2@, (r.0, r.1))),
                },
            ],
            all_permitted(old(self)@.states, *msg, r.3@),
            passed_on(old(self)@.sm, r.3@, final(self)@.sm),
            r.1 matches Some(d) ==> old(self)@.valid_target(d) && final(self)@.valid_target(d),
            final(self)@.states.len() == old(self)@.states.len(),
            final(self)@.parents() == old(self)@.parents(),
            forall|i: int|
                0 <= i < old(self)@.states.len() ==> later(
                    old(self)@.states[i],
                    #[trigger] final(self)@.states[i],
                ),
    {
        let ghost m0 = self@;
        let Ghost(entries) = self.make_entries(msg);
        let ghost m1 = self@;
        let (handled, transition, deferrals, Ghost(e)) = self.call_process(msg, idx);
        proof {
            lemma_process_after_entries(m0.states, m1.states, *msg, entries, e);
            lemma_passed_on_push(m0.sm, entries, m1.sm, e);
            assert(m0.trace + entries.push(e) =~= (m0.trace + entries).push(e));
            assert forall|i: int| 0 <= i < m0.states.len() implies later(
                m0.states[i],
                #[trigger] self@.states[i],
            ) by {
                assert(later(m0.states[i], m1.states[i]));
                assert(later(m1.states[i], self@.states[i]));
            }
        }
        (handled, transition, deferrals, Ghost(entries.push(e)))
    }

    // Makes the entries that the last transition left to make, if any.
    // Returns the runs of entry actions made.
    fn make_entries(&mut self, msg: &P) -> (r: Ghost<Seq<Event<SM, P>>>)
        requires
            old(self).wf(),
        ensures
            final(self).wf(),
            !final(self)@.changed,
            final(self)@ == (Machine {
                sm: final(self)@.sm,
                trace: old(self)@.trace + r@,
                ..old(self)@.entered()
            }),
            labels(r@) == old(self)@.entering(),
            all_permitted(old(self)@.states, *msg, r@),
            passed_on(old(self)@.sm, r@, final(self)@.sm),
            final(self)@.states.len() == old(self)@.states.len(),
            final(self)@.parents() == old(self)@.parents(),
            forall|i: int|
                0 <= i < old(self)@.states.len() ==> later(
                    old(self)@.states[i],
                    #[trigger] final(self)@.states[i],
                ),
    {
        let ghost m0 = self@;
        proof {
            lemma_path(m0.parents(), m0.current);
            lemma_entered_wf(m0);
            lemma_enter_all(m0.states, m0.enter_list);
        }
        let ghost mut ran: Seq<Event<SM, P>> = Seq::empty();
        if self.current_state_changed {
            let Ghost(entries) = self.run_entries(msg);
            proof {
                ran = entries;
            }
            self.current_state_changed = false;
        } else {
            proof {
                assert(m0.trace + ran =~= m0.trace);
                assert(labels(ran) =~= m0.entering());
            }
        }
        proof {
            lemma_asks_kept(m0.states, self@.states);
        }
        Ghost(ran)
    }

    // Lets the state at `idx` process `msg`. Returns what the process
    // action returned and deferred, and its run.
    fn call_process(&mut self, msg: &P, idx: usize) -> (r: (
        Handled,
        Option<usize>,
        Deferrals<P>,
        Ghost<Event<SM, P>>,
    ))
        requires
            old(self).wf(),
            idx < old(self)@.states.len(),
        ensures
            final(self).wf(),
            final(self)@ == (Machine {
                sm: final(self)@.sm,
                trace: old(self)@.trace.push(r.3@),
                ..old(self)@.processed(idx)
            }),
            r.3@ == (Event {
                what: Ran::Process,
                state: idx,
                msg: *msg,
                before: old(self)@.sm,
                after: final(self)@.sm,
                deferred: r.2@,
                result: (r.0, r.1),
            }),
            permits(old(self)@.states, *msg, r.3@),
            r.1 matches Some(d) ==> old(self)@.valid_target(d) && final(self)@.valid_target(d),
            final(self)@.states.len() == old(self)@.states.len(),
            final(self)@.parents() == old(self)@.parents(),
            forall|i: int|
                0 <= i < old(self)@.states.len() ==> later(
                    old(self)@.states[i],
                    #[trigger] final(self)@.states[i],
                ),
    {
        let ghost m0 = self@;
        let cnt = self.states[idx].process_cnt;
        if cnt < usize::MAX {
            self.states[idx].process_cnt = cnt + 1;
        }
        assert(self@.states =~= process_one(m0.states, idx));
        let mut deferrals = Deferrals::new();
        let ghost before = self.sm;
        let (handled, transition) = self.states[idx].process.process(
            &mut self.sm,
            &mut deferrals,
            msg,
        );
        let ghost e = Event {
            what: Ran::Process,
            state: idx,
            msg: *msg,
            before,
            after: self.sm,
            deferred: deferrals@,
            result: (handled, transition),
        };
        proof {
            lemma_chained_push(self.trace@, before, e);
            assert((self@.states[idx as int].process)(
                before,
                *msg,
                self.sm,
                deferrals@,
                (handled, transition),
            ));
            assert(self@.states[idx as int].process == m0.states[idx as int].process);
            assert(permits(m0.states, *msg, e));
        }
        self.trace = Ghost(self.trace@.push(e));
        proof {
            lemma_asks_kept(m0.states, self@.states);
        }
        (handled, transition, deferrals, Ghost(e))
    }

    // Takes in what the process action of the state at `idx` returned: what
    // it deferred joins the current buffer, and the destination it asks for
    // is staged unless one is staged already. Returns the state that gets
    // the message next, if there is one.
    fn record(
        &mut self,
        idx: usize,
        handled: Handled,
        transition: Option<usize>,
        deferrals: Deferrals<P>,
    ) -> (up: Option<usize>)
        requires
            old(self).wf(),
            idx < old(self)@.states.len(),
            transition matches Some(d) ==> old(self)@.valid_target(d),
        ensures
            final(self)@ == old(self)@.deferring(deferrals@).staging(transition),
            !old(self)@.changed ==> !final(self)@.changed,
            up == (if handled is No {
                old(self)@.parents()[idx as int]
            } else {
                None
            }),
            final(self).wf(),
    {
        let mut deferrals = deferrals;
        if self.current_defer_idx == 0 {
            deferrals.move_to(&mut self.defer0);
        } else {
            deferrals.move_to(&mut self.defer1);
        }
        if let Some(idx_next_state) = transition {
            if self.idx_transition_dest.is_none() {
                // The first transition asked for is the one to make.
                self.idx_transition_dest = Some(idx_next_state);
            }
        }
        assert(self@.parents()[idx as int] == self.states@[idx as int].parent);
        match handled {
            Handled::No => self.states[idx].parent,
            Handled::Yes => None,
        }
    }

    // Takes the staged destination out of its slot and makes the
    // transition to it and its exits. Returns the runs of actions made.
    fn commit(&mut self, msg: &P) -> (r: Ghost<Seq<Event<SM, P>>>)
        requires
            old(self).wf(),
            !old(self)@.changed,
        ensures
            final(self).wf(),
            final(self)@ == (Machine {
                sm: final(self)@.sm,
                trace: old(self)@.trace + r@,
                ..old(self)@.committed().exited()
            }),
            final(self)@.staged is None,
            labels(r@) == old(self)@.committed().exiting(),
            all_permitted(old(self)@.states, *msg, r@),
            passed_on(old(self)@.sm, r@, final(self)@.sm),
    {
        let ghost m = self@;
        let ghost parents = m.parents();
        let ghost mut ran: Seq<Event<SM, P>> = Seq::empty();
        if let Some(idx_next_state) = self.idx_transition_dest {
            self.idx_transition_dest = None;
            if idx_next_state < self.states.len() && self.transition_targets_set[idx_next_state] {
                proof {
                    let unstaged = Machine { staged: None, ..m };
                    lemma_transition_wf(unstaged, idx_next_state);
                    lemma_path(parents, m.current);
                    lemma_climb(
                        parents,
                        only(m.states.len(), m.exit_sentinel(idx_next_state)),
                        m.current,
                    );
                }
                self.setup_exit_enter_fns_idxs(idx_next_state);

                self.idx_previous_state = self.idx_current_state;
                self.idx_current_state = idx_next_state;
                self.current_state_changed = true;
                assert(self@ == m.committed());
                let Ghost(exits) = self.run_exits(msg);
                proof {
                    ran = exits;
                    lemma_exit_all(m.committed().states, m.committed().exit_queue);
                    lemma_asks_kept(m.states, self@.states);
                }
            } else {
                // No action asks for what is not a leaf state.
                vstd::pervasive::unreached::<()>();
            }
        } else {
            proof {
                assert(m.trace + ran =~= m.trace);
                assert(labels(ran) =~= m.committed().exiting());
            }
        }
        Ghost(ran)
    }

    /// Dispatches `msg` to the current state, and says whether a transition
    /// was made.
    pub fn dispatch(&mut self, msg: &P) -> (changed: bool)
        requires
            old(self).wf(),
        ensures
            final(self).wf(),
            final(self)@.staged is None,
            final(self)@.follows(old(self)@),
            changed == final(self)@.changed,
            dispatched(old(self)@, old(self)@.current, *msg, final(self)@),
    {
        let idx = self.idx_current_state;
        self.dispatch_idx(msg, idx);
        self.current_state_changed
    }

    /// Dispatches `msg`, and then, as long as the last dispatch or round
    /// made a transition, runs one more round: the two buffers of deferred
    /// messages change places, and the messages that wait in the buffer
    /// that was filled until then are dispatched, oldest first. What is
    /// deferred during a round waits for the next one. It stops after
    /// `usize::MAX` rounds.
    pub fn dispatcher(&mut self, msg: &P)
        requires
            old(self).wf(),
        ensures
            final(self).wf(),
            final(self)@.staged is None,
            final(self)@.follows(old(self)@),
            dispatcher_run(old(self)@, *msg, final(self)@),
    {
        let ghost m0 = self@;
        let mut transitioned = self.dispatch(msg);
        let ghost mut ends = seq![self@];
        let ghost mut moved = seq![transitioned];
        let mut rounds: usize = 0;

        // The deferred messages are dispatched again after every
        // transition, here or in the loop.
        while transitioned && rounds < usize::MAX
            invariant
                m0 == old(self)@,
                self.wf(),
                self@.staged is None,
                self@.follows(m0),
                rounds_begun(m0, *msg, ends, moved),
                ends.len() == rounds + 1,
                ends.last() == self@,
                moved.last() == transitioned,
            decreases usize::MAX - rounds,
        {
            let ghost here = self@;
            let t = self.dispatch_deferred();
            proof {
                lemma_follows(m0, here, self@);
                lemma_rounds_go_on(m0, *msg, ends, moved, self@, t);
                ends = ends.push(self@);
                moved = moved.push(t);
            }
            transitioned = t;
            rounds += 1;
        }
        proof {
            lemma_rounds_end(m0, *msg, ends, moved);
        }
    }

    // Runs one round: the buffers change places and the messages that wait
    // are dispatched, oldest first. Says whether a transition was made.
    fn dispatch_deferred(&mut self) -> (moved: bool)
        requires
            old(self).wf(),
            old(self)@.staged is None,
        ensures
            final(self).wf(),
            final(self)@.staged is None,
            final(self)@.follows(old(self)@),
            round_run(old(self)@, final(self)@, moved),
    {
        let ghost before = self@;
        self.next_defer();
        let mut transitioned = false;
        let ghost mut mids = seq![self@];
        proof {
            lemma_round_start(before);
            assert(self@.follows(before));
        }
        loop
            invariant
                before == old(self)@,
                self.wf(),
                self@.staged is None,
                self@.follows(before),
                round_begun(before, mids),
                mids.last() == self@,
                transitioned == round_moved(mids),
            ensures
                self.wf(),
                self@.staged is None,
                self@.follows(before),
                round_begun(before, mids),
                mids.last() == self@,
                transitioned == round_moved(mids),
                self@.defer_other.len() == 0,
            decreases self@.defer_other.len(),
        {
            let ghost here = self@;
            match self.defer_try_recv() {
                Some(m) => {
                    let ghost taken = self@;
                    let t = self.dispatch(&m);
                    proof {
                        lemma_dispatched_frame(here.received(), here.current, m, self@);
                        assert(taken.follows(before));
                        lemma_follows(before, taken, self@);
                        lemma_round_goes_on(before, mids, self@);
                        mids = mids.push(self@);
                    }
                    transitioned = transitioned || t;
                },
                None => {
                    break ;
                },
            }
        }
        proof {
            lemma_round_ends(before, mids);
        }
        transitioned
    }

    // Lists the states to enter and to exit on the way from the current
    // state to the state at `idx_next_state`.
    fn setup_exit_enter_fns_idxs(&mut self, idx_next_state: usize)
        requires
            is_forest(old(self)@.parents()),
            idx_next_state < old(self)@.states.len(),
            old(self)@.current < old(self)@.states.len(),
        ensures
            final(self)@ == (Machine {
                enter_list: old(self)@.enter_list + old(self)@.enter_path(idx_next_state),
                exit_queue: old(self)@.exit_queue + old(self)@.exit_path(idx_next_state),
                ..old(self)@
            }),
            final(self).targets() == old(self).targets(),
            final(self).targets_set() == old(self).targets_set(),
    {
        let ghost m0 = self@;
        let ghost parents = m0.parents();
        let ghost act = m0.actives();
        let ghost count = m0.states.len();
        let mut cur_idx = idx_next_state;
        let mut exit_sentinel: Option<usize> = None;

        // The states to enter.
        loop
            invariant_except_break
                self@.enter_list + climb(parents, act, cur_idx) == m0.enter_list + climb(
                    parents,
                    act,
                    idx_next_state,
                ),
                first_marked(parents, act, cur_idx) == first_marked(
                    parents,
                    act,
                    idx_next_state,
                ),
            invariant
                self@ == (Machine { enter_list: self@.enter_list, ..m0 }),
                self.targets() == old(self).targets(),
                self.targets_set() == old(self).targets_set(),
                parents == m0.parents(),
                act == m0.actives(),
                is_forest(parents),
                cur_idx < parents.len(),
                idx_next_state < parents.len(),
            ensures
                self@ == (Machine { enter_list: m0.enter_list + m0.enter_path(idx_next_state), ..m0 }),
                self.targets() == old(self).targets(),
                self.targets_set() == old(self).targets_set(),
                exit_sentinel == m0.exit_sentinel(idx_next_state),
            decreases height(parents, cur_idx),
        {
            let ghost list = self@.enter_list;
            let ghost low = climb(parents, act, cur_idx);
            self.idxs_enter_fns.push(cur_idx);
            assert(parents[cur_idx as int] == self.states@[cur_idx as int].parent);
            match self.states[cur_idx].parent {
                Some(idx) => {
                    proof {
                        lemma_height_falls(parents, cur_idx);
                        assert(act[idx as int] == self.states@[idx as int].active);
                    }
                    if self.states[idx].active {
                        // The states of the current path are exited up to
                        // this one, which stays active.
                        assert(low == seq![cur_idx]);
                        assert(list.push(cur_idx) =~= list + low);
                        exit_sentinel = Some(idx);
                        break ;
                    }
                    assert(low == seq![cur_idx] + climb(parents, act, idx));
                    assert(list.push(cur_idx) + climb(parents, act, idx) =~= list + low);
                    cur_idx = idx;
                },
                None => {
                    // The whole current path is exited.
                    assert(low == seq![cur_idx]);
                    assert(list.push(cur_idx) =~= list + low);
                    exit_sentinel = None;
                    break ;
                },
            }
        }

        // The states to exit: the current state in any case, then its
        // ancestors below the sentinel.
        let ghost m1 = self@;
        let ghost stop = only(count, exit_sentinel);
        let mut idx_exit = self.idx_current_state;
        self.idxs_exit_fns.push_back(idx_exit);
        loop
            invariant_except_break
                self@.exit_queue + climb(parents, stop, idx_exit).drop_first() == m1.exit_queue
                    + climb(parents, stop, m1.current),
            invariant
                self@ == (Machine { exit_queue: self@.exit_queue, ..m1 }),
                self.targets() == old(self).targets(),
                self.targets_set() == old(self).targets_set(),
                parents == m1.parents(),
                stop == only(parents.len(), exit_sentinel),
                is_forest(parents),
                idx_exit < parents.len(),
                m1.current < parents.len(),
            ensures
                self@ == (Machine {
                    exit_queue: m1.exit_queue + climb(parents, stop, m1.current),
                    ..m1
                }),
                self.targets() == old(self).targets(),
                self.targets_set() == old(self).targets_set(),
            decreases height(parents, idx_exit),
        {
            let ghost queue = self@.exit_queue;
            let ghost low = climb(parents, stop, idx_exit);
            assert(parents[idx_exit as int] == self.states@[idx_exit as int].parent);
            match self.states[idx_exit].parent {
                Some(idx) => {
                    proof {
                        lemma_height_falls(parents, idx_exit);
                    }
                    idx_exit = idx;
                    if Some(idx_exit) == exit_sentinel {
                        // Reached the sentinel.
                        assert(stop[idx as int]);
                        assert(low.drop_first() =~= Seq::<usize>::empty());
                        assert(queue + low.drop_first() =~= queue);
                        break ;
                    }
                    assert(!stop[idx as int]);
                    let ghost next = climb(parents, stop, idx);
                    assert(low.drop_first() =~= next);
                    assert(next =~= seq![idx] + next.drop_first()) by {
                        lemma_climb(parents, stop, idx);
                        lemma_path(parents, idx);
                        assert(next[0] == idx);
                    }
                    self.idxs_exit_fns.push_back(idx_exit);
                    assert(queue.push(idx) + next.drop_first() =~= queue + low.drop_first());
                },
                None => {
                    assert(low.drop_first() =~= Seq::<usize>::empty());
                    assert(queue + low.drop_first() =~= queue);
                    break ;
                },
            }
        }
    }

    // Enters the states of the enter list, the last first. Returns the runs
    // of entry actions made.
    fn run_entries(&mut self, msg: &P) -> (r: Ghost<Seq<Event<SM, P>>>)
        requires
            forall|j: int|
                0 <= j < old(self)@.enter_list.len() ==> (#[trigger] old(self)@.enter_list[j])
                    < old(self)@.states.len(),
            chained(old(self)@.trace, old(self)@.sm),
        ensures
            final(self)@ == (Machine {
                states: enter_all(old(self)@.states, old(self)@.enter_list),
                enter_list: Seq::empty(),
                sm: final(self)@.sm,
                trace: old(self)@.trace + r@,
                ..old(self)@
            }),
            labels(r@) == enter_labels(old(self)@.states, old(self)@.enter_list),
            all_permitted(old(self)@.states, *msg, r@),
            passed_on(old(self)@.sm, r@, final(self)@.sm),
            chained(final(self)@.trace, final(self)@.sm),
            final(self).targets() == old(self).targets(),
            final(self).targets_set() == old(self).targets_set(),
    {
        let ghost m0 = self@;
        let ghost mut ran: Seq<Event<SM, P>> = Seq::empty();
        assert(m0.trace + ran =~= m0.trace);
        assert(labels(ran) + enter_labels(m0.states, m0.enter_list) =~= enter_labels(
            m0.states,
            m0.enter_list,
        ));
        while self.idxs_enter_fns.len() > 0
            invariant
                self@ == (Machine {
                    states: self@.states,
                    enter_list: self@.enter_list,
                    sm: self@.sm,
                    trace: m0.trace + ran,
                    ..m0
                }),
                self.targets() == old(self).targets(),
                self.targets_set() == old(self).targets_set(),
                self@.states.len() == m0.states.len(),
                forall|j: int|
                    0 <= j < self@.enter_list.len() ==> (#[trigger] self@.enter_list[j])
                        < self@.states.len(),
                forall|i: int|
                    0 <= i < m0.states.len() ==> later(m0.states[i], #[trigger] self@.states[i]),
                enter_all(self@.states, self@.enter_list) == enter_all(m0.states, m0.enter_list),
                labels(ran) + enter_labels(m0.states, self@.enter_list) == enter_labels(
                    m0.states,
                    m0.enter_list,
                ),
                all_permitted(m0.states, *msg, ran),
                passed_on(m0.sm, ran, self@.sm),
                chained(self@.trace, self@.sm),
            decreases self@.enter_list.len(),
        {
            let ghost here = self@;
            let ghost ran0 = ran;
            let idx_enter = self.idxs_enter_fns.pop().unwrap();
            assert(idx_enter == here.enter_list.last());
            assert(self@.enter_list == here.enter_list.drop_last());
            assert(later(m0.states[idx_enter as int], here.states[idx_enter as int]));
            if self.states[idx_enter].enter.is_some() {
                let cnt = self.states[idx_enter].enter_cnt;
                if cnt < usize::MAX {
                    self.states[idx_enter].enter_cnt = cnt + 1;
                }
                let ghost before = self.sm;
                match &self.states[idx_enter].enter {
                    Some(action) => action.run(&mut self.sm, msg),
                    None => {},
                }
                let ghost e = Event {
                    what: Ran::Enter,
                    state: idx_enter,
                    msg: *msg,
                    before,
                    after: self.sm,
                    deferred: Seq::empty(),
                    result: (Handled::Yes, None),
                };
                proof {
                    lemma_chained_push(self.trace@, before, e);
                    lemma_passed_on_push(m0.sm, ran0, before, e);
                    assert((self@.states[idx_enter as int].enter)(before, *msg, self.sm));
                    assert(self@.states[idx_enter as int].enter == m0.states[idx_enter as int].enter);
                    assert(permits(m0.states, *msg, e));
                    ran = ran0.push(e);
                    assert forall|j: int| 0 <= j < ran.len() implies permits(
                        m0.states,
                        *msg,
                        #[trigger] ran[j],
                    ) by {
                        if j < ran0.len() {
                            assert(permits(m0.states, *msg, ran0[j]));
                        }
                    }
                    assert(labels(ran) =~= labels(ran0).push(label_of(e)));
                    assert(m0.trace + ran =~= (m0.trace + ran0).push(e));
                }
                self.trace = Ghost(self.trace@.push(e));
            }
            self.states[idx_enter].active = true;
            assert(self@.states =~= enter_one(here.states, idx_enter));
            proof {
                let rest = self@.enter_list;
                assert(labels(ran) + enter_labels(m0.states, rest) =~= labels(ran0) + enter_labels(
                    m0.states,
                    here.enter_list,
                ));
                assert forall|i: int| 0 <= i < m0.states.len() implies later(
                    m0.states[i],
                    #[trigger] self@.states[i],
                ) by {
                    assert(later(m0.states[i], here.states[i]));
                }
            }
        }
        assert(self@.enter_list =~= Seq::<usize>::empty());
        assert(labels(ran) + Seq::<Label<P>>::empty() =~= labels(ran));
        Ghost(ran)
    }

    // Exits the states of the exit queue, the first first. Returns the runs
    // of exit actions made.
    fn run_exits(&mut self, msg: &P) -> (r: Ghost<Seq<Event<SM, P>>>)
        requires
            forall|j: int|
                0 <= j < old(self)@.exit_queue.len() ==> (#[trigger] old(self)@.exit_queue[j])
                    < old(self)@.states.len(),
            chained(old(self)@.trace, old(self)@.sm),
        ensures
            final(self)@ == (Machine {
                states: exit_all(old(self)@.states, old(self)@.exit_queue),
                exit_queue: Seq::empty(),
                sm: final(self)@.sm,
                trace: old(self)@.trace + r@,
                ..old(self)@
            }),
            labels(r@) == exit_labels(old(self)@.states, old(self)@.exit_queue),
            all_permitted(old(self)@.states, *msg, r@),
            passed_on(old(self)@.sm, r@, final(self)@.sm),
            chained(final(self)@.trace, final(self)@.sm),
            final(self).targets() == old(self).targets(),
            final(self).targets_set() == old(self).targets_set(),
    {
        let ghost m0 = self@;
        let ghost mut ran: Seq<Event<SM, P>> = Seq::empty();
        assert(m0.trace + ran =~= m0.trace);
        assert(labels(ran) + exit_labels(m0.states, m0.exit_queue) =~= exit_labels(
            m0.states,
            m0.exit_queue,
        ));
        while self.idxs_exit_fns.len() > 0
            invariant
                self@ == (Machine {
                    states: self@.states,
                    exit_queue: self@.exit_queue,
                    sm: self@.sm,
                    trace: m0.trace + ran,
                    ..m0
                }),
                self.targets() == old(self).targets(),
                self.targets_set() == old(self).targets_set(),
                self@.states.len() == m0.states.len(),
                forall|j: int|
                    0 <= j < self@.exit_queue.len() ==> (#[trigger] self@.exit_queue[j])
                        < self@.states.len(),
                forall|i: int|
                    0 <= i < m0.states.len() ==> later(m0.states[i], #[trigger] self@.states[i]),
                exit_all(self@.states, self@.exit_queue) == exit_all(m0.states, m0.exit_queue),
                labels(ran) + exit_labels(m0.states, self@.exit_queue) == exit_labels(
                    m0.states,
                    m0.exit_queue,
                ),
                all_permitted(m0.states, *msg, ran),
                passed_on(m0.sm, ran, self@.sm),
                chained(self@.trace, self@.sm),
            decreases self@.exit_queue.len(),
        {
            let ghost here = self@;
            let ghost ran0 = ran;
            let idx_exit = self.idxs_exit_fns.pop_front().unwrap();
            assert(idx_exit == here.exit_queue.first());
            assert(self@.exit_queue =~= here.exit_queue.drop_first());
            assert forall|j: int| 0 <= j < self@.exit_queue.len() implies (
            #[trigger] self@.exit_queue[j]) < self@.states.len() by {
                assert(self@.exit_queue[j] == here.exit_queue[j + 1]);
            }
            assert(later(m0.states[idx_exit as int], here.states[idx_exit as int]));
            if self.states[idx_exit].exit.is_some() {
                let cnt = self.states[idx_exit].exit_cnt;
                if cnt < usize::MAX {
                    self.states[idx_exit].exit_cnt = cnt + 1;
                }
                let ghost before = self.sm;
                match &self.states[idx_exit].exit {
                    Some(action) => action.run(&mut self.sm, msg),
                    None => {},
                }
                let ghost e = Event {
                    what: Ran::Exit,
                    state: idx_exit,
                    msg: *msg,
                    before,
                    after: self.sm,
                    deferred: Seq::empty(),
                    result: (Handled::Yes, None),
                };
                proof {
                    lemma_chained_push(self.trace@, before, e);
                    lemma_passed_on_push(m0.sm, ran0, before, e);
                    assert((self@.states[idx_exit as int].exit)(before, *msg, self.sm));
                    assert(self@.states[idx_exit as int].exit == m0.states[idx_exit as int].exit);
                    assert(permits(m0.states, *msg, e));
                    ran = ran0.push(e);
                    assert forall|j: int| 0 <= j < ran.len() implies permits(
                        m0.states,
                        *msg,
                        #[trigger] ran[j],
                    ) by {
                        if j < ran0.len() {
                            assert(permits(m0.states, *msg, ran0[j]));
                        }
                    }
                    assert(labels(ran) =~= labels(ran0).push(label_of(e)));
                    assert(m0.trace + ran =~= (m0.trace + ran0).push(e));
                }
                self.trace = Ghost(self.trace@.push(e));
            }
            self.states[idx_exit].active = false;
            assert(self@.states =~= exit_one(here.states, idx_exit));
            proof {
                let rest = self@.exit_queue;
                assert(labels(ran) + exit_labels(m0.states, rest) =~= labels(ran0) + exit_labels(
                    m0.states,
                    here.exit_queue,
                ));
                assert forall|i: int| 0 <= i < m0.states.len() implies later(
                    m0.states[i],
                    #[trigger] self@.states[i],
                ) by {
                    assert(later(m0.states[i], here.states[i]));
                }
            }
        }
        assert(self@.exit_queue =~= Seq::<usize>::empty());
        assert(labels(ran) + Seq::<Label<P>>::empty() =~= labels(ran));
        Ghost(ran)
    }

    // Lists the children of the state at `cur_state_idx`, which is the next
    // state without such a list.
    fn initialize_states_children(&mut self, cur_state_idx: usize)
        requires
            cur_state_idx < old(self)@.states.len(),
            old(self).children().len() == cur_state_idx,
        ensures
            final(self)@ == old(self)@,
            final(self).sm() == old(self).sm(),
            final(self).targets() == old(self).targets(),
            final(self).targets_set() == old(self).targets_set(),
            final(self).children() == old(self).children().push(
                children_of(old(self)@.parents(), cur_state_idx),
            ),
    {
        let ghost parents = self@.parents();
        let mut list: Vec<usize> = Vec::new();
        let count = self.states.len();
        for idx in 0..count
            invariant
                count == self.states@.len(),
                parents == self@.parents(),
                list@ == children_upto(parents, cur_state_idx, idx as nat),
        {
            if self.states[idx].parent == Some(cur_state_idx) {
                list.push(idx);
            }
        }
        self.children_for_cycle_detector.push(list);
        assert(self.children() =~= old(self).children().push(
            children_of(parents, cur_state_idx),
        ));
    }

    // Takes the states away leaf by leaf, and says whether some are left.
    fn cycle_detector(&mut self) -> (cycle: bool)
        requires
            parents_in_range(old(self)@.parents()),
            old(self).children().len() == old(self)@.states.len(),
            forall|i: int|
                0 <= i < old(self)@.states.len() ==> (#[trigger] old(self).children()[i])
                    == children_of(old(self)@.parents(), i as usize),
            old(self).targets() == leaves(old(self)@.parents()),
        ensures
            final(self)@ == old(self)@,
            final(self).sm() == old(self).sm(),
            final(self).targets() == old(self).targets(),
            final(self).targets_set() == old(self).targets_set(),
            cycle <==> has_cycle(old(self)@.parents()),
            !cycle ==> is_forest(old(self)@.parents()),
    {
        let ghost parents = self@.parents();
        let count = self.states.len();
        let mut leafs: Vec<usize> = Vec::new();
        let targets = self.transition_targets.len();
        for i in 0..targets
            invariant
                targets == self.transition_targets@.len(),
                leafs@ == self.transition_targets@.take(i as int),
        {
            leafs.push(self.transition_targets[i]);
            assert(self.transition_targets@.take(i + 1) =~= self.transition_targets@.take(
                i as int,
            ).push(self.transition_targets@[i as int]));
        }
        assert(leafs@ =~= self.transition_targets@);

        let mut visited_cnt: usize = 0;
        let ghost mut order: Seq<usize> = Seq::empty();
        proof {
            lemma_pruning_start(parents, self.children());
        }
        while leafs.len() > 0
            invariant
                count == self.states@.len(),
                self@ == old(self)@,
                self.sm() == old(self).sm(),
                parents == self@.parents(),
                parents_in_range(parents),
                self.targets() == old(self).targets(),
                self.targets_set() == old(self).targets_set(),
                visited_cnt == order.len(),
                pruning(parents, leafs@, order, self.children()),
            decreases count - order.len(),
        {
            let ghost before = leafs@;
            let leaf_idx = leafs.pop().unwrap();
            assert(leafs@ == before.drop_last());
            assert(leaf_idx == before.last());

            // Is there an edge to a parent?
            if let Some(parent_idx) = self.states[leaf_idx].parent {
                assert(parents[leaf_idx as int] == Some(parent_idx));
                assert(parent_idx < count);
                assert(self.children().len() == count);
                // The children of the parent without the leaf.
                let mut other_children = Vec::<usize>::new();
                let ghost list = self.children()[parent_idx as int];
                let len = self.children_for_cycle_detector[parent_idx].len();
                for child_idx in 0..len
                    invariant
                        parent_idx < self.children_for_cycle_detector@.len(),
                        list == self.children_for_cycle_detector@[parent_idx as int]@,
                        len == list.len(),
                        forall|c: usize| #[trigger]
                            other_children@.contains(c) <==> list.take(child_idx as int).contains(
                                c,
                            ) && c != leaf_idx,
                {
                    let ghost kept = other_children@;
                    let child = self.children_for_cycle_detector[parent_idx][child_idx];
                    if child != leaf_idx {
                        other_children.push(child);
                    }
                    proof {
                        let a = list.take(child_idx as int);
                        let b = list.take(child_idx + 1);
                        assert(b =~= a.push(child));
                        assert forall|c: usize| #[trigger]
                            other_children@.contains(c) <==> b.contains(c) && c != leaf_idx by {
                            if a.contains(c) {
                                let j = choose|j: int| 0 <= j < a.len() && a[j] == c;
                                assert(b[j] == c);
                            }
                            if b.contains(c) {
                                let j = choose|j: int| 0 <= j < b.len() && b[j] == c;
                                if j < a.len() {
                                    assert(a[j] == c);
                                }
                            }
                            assert(b[a.len() as int] == child);
                            if child != leaf_idx {
                                assert(other_children@ == kept.push(child));
                                assert(other_children@[kept.len() as int] == child);
                                if kept.contains(c) {
                                    let j = choose|j: int| 0 <= j < kept.len() && kept[j] == c;
                                    assert(other_children@[j] == c);
                                }
                                if other_children@.contains(c) {
                                    let j = choose|j: int|
                                        0 <= j < other_children@.len() && other_children@[j]
                                            == c;
                                    if j < kept.len() {
                                        assert(kept[j] == c);
                                    }
                                }
                            }
                        }
                    }
                }
                assert(list.take(len as int) =~= list);
                proof {
                    lemma_prune_child(parents, before, order, self.children(), other_children@);
                }

                if other_children.is_empty() {
                    // No other children: the parent is now a leaf.
                    leafs.push(parent_idx);
                } else {
                    let ghost children = self.children();
                    self.children_for_cycle_detector[parent_idx] = other_children;
                    assert(self.children() =~= children.update(
                        parent_idx as int,
                        other_children@,
                    ));
                }
            } else {
                proof {
                    lemma_prune_root(parents, before, order, self.children());
                }
            }
            visited_cnt += 1;
            proof {
                order = order.push(leaf_idx);
            }
        }
        proof {
            assert(leafs@ =~= Seq::<usize>::empty());
            lemma_pruning_end(parents, order, self.children());
            if visited_cnt == count {
                lemma_forest_has_no_cycle(parents);
            }
        }
        visited_cnt != count
    }

    // Lists the children of every state.
    fn initialize_children(&mut self)
        requires
            old(self).children().len() == 0,
        ensures
            final(self)@ == old(self)@,
            final(self).sm() == old(self).sm(),
            final(self).targets() == old(self).targets(),
            final(self).targets_set() == old(self).targets_set(),
            final(self).children().len() == final(self)@.states.len(),
            forall|i: int|
                0 <= i < final(self)@.states.len() ==> (#[trigger] final(self).children()[i])
                    == children_of(final(self)@.parents(), i as usize),
    {
        let count = self.states.len();
        for idx in 0..count
            invariant
                count == self.states@.len(),
                self@ == old(self)@,
                self.sm() == old(self).sm(),
                self.targets() == old(self).targets(),
                self.targets_set() == old(self).targets_set(),
                self.children().len() == idx,
                forall|i: int|
                    0 <= i < idx ==> (#[trigger] self.children()[i]) == children_of(
                        self@.parents(),
                        i as usize,
                    ),
        {
            self.initialize_states_children(idx);
        }
    }
}

impl<SM, P> Executor<SM, P> {
    /// Builds the executor as `build` does, where the states allow it:
    /// where every parent index names a state, and the initial state is a
    /// leaf or some state is its own ancestor. Otherwise it returns `None`.
    pub fn checked_build(self, idx_initial_state: usize) -> (r: Option<Result<Self, BuildError>>)
        requires
            self.building(),
            has_cycle(self@.parents()) || asks_for_leaves(self@.states),
        ensures
            r is None <==> !parents_in_range(self@.parents()) || (!has_cycle(self@.parents())
                && !self@.valid_target(idx_initial_state)),
            r matches Some(built) ==> (built is Err <==> has_cycle(self@.parents())),
            r matches Some(Ok(e)) ==> e.wf() && e@ == self@.started(idx_initial_state) && e.sm()
                == self.sm(),
    {
        if !self.has_valid_parents() {
            return None;
        }
        if self.is_transition_target(idx_initial_state) {
            return Some(self.build(idx_initial_state));
        }
        // The initial state is no leaf, which is the caller's fault unless
        // the states have a cycle: build with a leaf to find out.
        match self.first_leaf() {
            Some(leaf) => match self.build(leaf) {
                Err(e) => Some(Err(e)),
                Ok(_) => None,
            },
            None => {
                if self.states.len() == 0 {
                    proof {
                        assert forall|i: usize, k: nat| k >= 1 implies #[trigger] ancestor(
                            self@.parents(),
                            i,
                            k,
                        ) != Some(i) by {}
                    }
                    None
                } else {
                    proof {
                        // Every state has a child.
                        let parents = self@.parents();
                        let all = Set::new(|p: usize| p < parents.len());
                        assert(all.contains(0));
                        assert forall|p: usize| #[trigger] all.contains(p) implies p
                            < parents.len() && exists|c: usize| #[trigger]
                            all.contains(c) && c < parents.len() && parents[c as int] == Some(
                                p,
                            ) by {
                            assert(!self@.valid_target(p));
                            let j = choose|j: int|
                                0 <= j < parents.len() && parents[j] == Some(p);
                            assert(all.contains(j as usize));
                        }
                        lemma_stuck_has_cycle(parents, all, 0);
                    }
                    Some(self.build(idx_initial_state))
                }
            },
        }
    }

    // The first state that is a leaf, if there is one.
    fn first_leaf(&self) -> (r: Option<usize>)
        ensures
            match r {
                Some(leaf) => self@.valid_target(leaf),
                None => forall|i: usize| !self@.valid_target(i),
            },
    {
        let count = self.states.len();
        for idx in 0..count
            invariant
                count == self.states@.len(),
                forall|i: usize| i < idx ==> !self@.valid_target(i),
        {
            if self.is_transition_target(idx) {
                return Some(idx);
            }
        }
        None
    }

    /// Whether the state at `idx` exists and has no children: whether it can
    /// be the initial state or the destination of a transition.
    pub fn is_transition_target(&self, idx: usize) -> (r: bool)
        ensures
            r == self@.valid_target(idx),
    {
        let count = self.states.len();
        if idx >= count {
            return false;
        }
        let ghost parents = self@.parents();
        for j in 0..count
            invariant
                count == self.states@.len(),
                parents == self@.parents(),
                forall|k: int| 0 <= k < j ==> #[trigger] parents[k] != Some(idx),
        {
            assert(parents[j as int] == self.states@[j as int].parent);
            if self.states[j].parent == Some(idx) {
                return false;
            }
        }
        true
    }

    /// Whether every parent index names a state.
    pub fn has_valid_parents(&self) -> (r: bool)
        ensures
            r == parents_in_range(self@.parents()),
    {
        let count = self.states.len();
        let ghost parents = self@.parents();
        for j in 0..count
            invariant
                count == self.states@.len(),
                parents == self@.parents(),
                forall|k: int|
                    0 <= k < j ==> ((#[trigger] parents[k]) matches Some(p) ==> p < parents.len()),
        {
            assert(parents[j as int] == self.states@[j as int].parent);
            if let Some(p) = self.states[j].parent {
                if p >= count {
                    return false;
                }
            }
        }
        true
    }

    /// The value that the actions work on.
    pub open spec fn sm(&self) -> SM {
        self@.sm
    }

    pub fn get_state_name(&self, idx: usize) -> (name: &str)
        requires
            idx < self@.states.len(),
        ensures
            name@ == self@.states[idx as int].name,
    {
        self.states[idx].name.as_str()
    }

    pub fn get_current_state_name(&self) -> (name: &str)
        requires
            self@.current < self@.states.len(),
        ensures
            name@ == self@.states[self@.current as int].name,
    {
        self.get_state_name(self.idx_current_state)
    }

    pub fn get_sm(&self) -> (sm: &SM)
        ensures
            *sm == self.sm(),
    {
        &self.sm
    }

    /// How often the entry action of the state at `idx` has run.
    pub fn get_state_enter_cnt(&self, idx: usize) -> (cnt: usize)
        requires
            idx < self@.states.len(),
        ensures
            cnt == self@.states[idx as int].enter_cnt,
    {
        self.states[idx].enter_cnt
    }

    /// How often the process action of the state at `idx` has run.
    pub fn get_state_process_cnt(&self, idx: usize) -> (cnt: usize)
        requires
            idx < self@.states.len(),
        ensures
            cnt == self@.states[idx as int].process_cnt,
    {
        self.states[idx].process_cnt
    }

    /// How often the exit action of the state at `idx` has run.
    pub fn get_state_exit_cnt(&self, idx: usize) -> (cnt: usize)
        requires
            idx < self@.states.len(),
        ensures
            cnt == self@.states[idx as int].exit_cnt,
    {
        self.states[idx].exit_cnt
    }

    /// Takes the oldest of the messages sent to the machine. Nothing else
    /// fills the queue while the call lasts, so an empty queue gives `None`
    /// at once.
    pub fn recv(&mut self) -> (m: Option<P>)
        ensures
            final(self).wf() == old(self).wf(),
            final(self).sm() == old(self).sm(),
            final(self).building() == old(self).building(),
            match m {
                Some(x) => old(self)@.primary.len() > 0 && x == old(self)@.primary.first()
                    && final(self)@ == (Machine {
                    primary: old(self)@.primary.drop_first(),
                    ..old(self)@
                }),
                None => old(self)@.primary.len() == 0 && final(self)@ == old(self)@,
            },
    {
        self.try_recv()
    }

    /// Takes the oldest of the messages sent to the machine, if there is
    /// one.
    pub fn try_recv(&mut self) -> (m: Option<P>)
        ensures
            final(self).wf() == old(self).wf(),
            final(self).sm() == old(self).sm(),
            final(self).building() == old(self).building(),
            match m {
                Some(x) => old(self)@.primary.len() > 0 && x == old(self)@.primary.first()
                    && final(self)@ == (Machine {
                    primary: old(self)@.primary.drop_first(),
                    ..old(self)@
                }),
                None => old(self)@.primary.len() == 0 && final(self)@ == old(self)@,
            },
    {
        let m = self.primary.pop_front();
        assert(self@.primary =~= if m is Some {
            old(self)@.primary.drop_first()
        } else {
            old(self)@.primary
        });
        m
    }

    /// Sends `m` to the machine: it waits behind the messages sent before.
    pub fn send(&mut self, m: P)
        ensures
            final(self).wf() == old(self).wf(),
            final(self).sm() == old(self).sm(),
            final(self).building() == old(self).building(),
            final(self)@ == (Machine { primary: old(self)@.primary.push(m), ..old(self)@ }),
    {
        self.primary.push_back(m);
    }

    /// Takes the oldest message of the buffer that is not the current one,
    /// if there is one.
    pub fn defer_try_recv(&mut self) -> (m: Option<P>)
        ensures
            final(self).wf() == old(self).wf(),
            final(self).sm() == old(self).sm(),
            final(self).building() == old(self).building(),
            match m {
                Some(x) => old(self)@.defer_other.len() > 0 && x == old(self)@.defer_other.first()
                    && final(self)@ == old(self)@.received(),
                None => old(self)@.defer_other.len() == 0 && final(self)@ == old(self)@,
            },
    {
        let m = if self.other_defer() == 0 {
            self.defer0.pop_front()
        } else {
            self.defer1.pop_front()
        };
        assert(self@.defer_other =~= if m is Some {
            old(self)@.defer_other.drop_first()
        } else {
            old(self)@.defer_other
        });
        m
    }

    /// Defers `m`: it joins the current buffer.
    pub fn defer_send(&mut self, m: P)
        ensures
            final(self).wf() == old(self).wf(),
            final(self).sm() == old(self).sm(),
            final(self).building() == old(self).building(),
            final(self)@ == old(self)@.deferring(seq![m]),
    {
        if self.current_defer() == 0 {
            self.defer0.push_back(m);
        } else {
            self.defer1.push_back(m);
        }
        assert(self@.defer_current =~= old(self)@.defer_current + seq![m]);
    }

    /// Makes the other buffer the current one.
    pub fn next_defer(&mut self)
        ensures
            final(self).wf() == old(self).wf(),
            final(self).building() == old(self).building(),
            final(self).sm() == old(self).sm(),
            final(self).sm() == old(self).sm(),
            final(self)@ == old(self)@.swapped(),
    {
        self.current_defer_idx = self.other_defer();
    }

    /// The index of the current buffer.
    pub fn current_defer(&self) -> (idx: usize)
        ensures
            idx == self@.current_defer,
            idx < 2,
    {
        if self.current_defer_idx == 0 {
            0
        } else {
            1
        }
    }

    /// The index of the buffer that is not the current one.
    pub fn other_defer(&self) -> (idx: usize)
        ensures
            idx == self@.other_defer(),
            idx == 1 - self@.current_defer,
            idx < 2,
    {
        if self.current_defer_idx == 0 {
            1
        } else {
            0
        }
    }
}

} // verus!
