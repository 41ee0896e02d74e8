//! State descriptors and the actions attached to them.
use std::collections::VecDeque;
use std::marker::PhantomData;
use vstd::prelude::*;

verus! {

/// Whether a process action consumed the message or leaves it to the parent.
#[derive(Clone, Copy, Debug)]
pub enum Handled {
    Yes,
    No,
}

/// The index of the state a process action asks to move to.
pub type Transition = usize;

/// What a process action returns.
pub type StateResult = (Handled, Option<Transition>);

/// The messages a process action asks to have dispatched again after the
/// next transition, oldest first.
pub struct Deferrals<P> {
    queue: VecDeque<P>,
}

impl<P> View for Deferrals<P> {
    type V = Seq<P>;

    closed spec fn view(&self) -> Seq<P> {
        self.queue@
    }
}

impl<P> Deferrals<P> {
    pub fn new() -> (r: Self)
        ensures
            r@ == Seq::<P>::empty(),
    {
        Deferrals { queue: VecDeque::new() }
    }

    /// Queues `m` behind the messages deferred so far.
    pub fn defer_send(&mut self, m: P)
        ensures
            final(self)@ == old(self)@.push(m),
    {
        self.queue.push_back(m);
    }

    pub fn len(&self) -> (n: usize)
        ensures
            n == self@.len(),
    {
        self.queue.len()
    }

    /// Moves the messages to the end of `queue`, in their order.
    pub fn move_to(&mut self, queue: &mut VecDeque<P>)
        ensures
            final(queue)@ == old(queue)@ + old(self)@,
            final(self)@ == Seq::<P>::empty(),
    {
        queue.append(&mut self.queue);
    }
}

/// The message handler of a state.
pub trait Process<SM, P> {
    /// The handler, called on the value `sm` and the message `msg` with
    /// nothing deferred yet, may leave the value `sm_after`, defer the
    /// messages `deferred` and return `r`.
    spec fn may_return(
        &self,
        sm: SM,
        msg: P,
        sm_after: SM,
        deferred: Seq<P>,
        r: StateResult,
    ) -> bool;

    fn process(&self, sm: &mut SM, deferrals: &mut Deferrals<P>, msg: &P) -> (r: StateResult)
        requires
            old(deferrals)@.len() == 0,
        ensures
            self.may_return(*old(sm), *msg, *final(sm), final(deferrals)@, r),
    ;
}

/// An entry or exit action of a state.
pub trait Action<SM, P> {
    /// The action, called on the value `sm` and the message `msg`, may
    /// leave the value `sm_after`.
    spec fn may_do(&self, sm: SM, msg: P, sm_after: SM) -> bool;

    fn run(&self, sm: &mut SM, msg: &P)
        ensures
            self.may_do(*old(sm), *msg, *final(sm)),
    ;
}

/// The function `f`, called as a message handler on the value `sm` and the
/// message `msg` with nothing deferred yet, may return `r`.
pub open spec fn fn_may_return<SM, P, F: Fn(&mut SM, &mut Deferrals<P>, &P) -> StateResult>(
    f: F,
    sm: SM,
    msg: P,
    r: StateResult,
) -> bool {
    exists|args: (&mut SM, &mut Deferrals<P>, &P)| #[trigger]
        call_ensures(f, args, r) && *args.0 == sm && (*args.1)@.len() == 0 && *args.2 == msg
}

/// The function `f` can be called as an action on the value `sm` and the
/// message `msg`, and come back.
pub open spec fn fn_may_do<SM, P, F: Fn(&mut SM, &P)>(f: F, sm: SM, msg: P) -> bool {
    exists|args: (&mut SM, &P)| #[trigger]
        call_ensures(f, args, ()) && *args.0 == sm && *args.1 == msg
}

/// A function used as a message handler. It accepts every argument.
#[verifier::reject_recursive_types(SM)]
#[verifier::reject_recursive_types(P)]
pub struct ProcessFn<SM, P, F: Fn(&mut SM, &mut Deferrals<P>, &P) -> StateResult> {
    f: F,
    marker: PhantomData<(SM, P)>,
}

impl<SM, P, F: Fn(&mut SM, &mut Deferrals<P>, &P) -> StateResult> ProcessFn<SM, P, F> {
    #[verifier::type_invariant]
    spec fn total(self) -> bool {
        forall|args: (&mut SM, &mut Deferrals<P>, &P)| call_requires(self.f, args)
    }

    /// The function that handles the messages.
    pub closed spec fn function(self) -> F {
        self.f
    }

    fn new(f: F) -> (r: Self)
        requires
            forall|args: (&mut SM, &mut Deferrals<P>, &P)| call_requires(f, args),
        ensures
            r.function() == f,
    {
        ProcessFn { f, marker: PhantomData }
    }
}

impl<SM, P, F: Fn(&mut SM, &mut Deferrals<P>, &P) -> StateResult> Process<SM, P> for ProcessFn<
    SM,
    P,
    F,
> {
    /// What the function may return for this value and message. What it
    /// leaves behind is not part of it: a function's contract speaks of
    /// that through its arguments, not through values.
    open spec fn may_return(
        &self,
        sm: SM,
        msg: P,
        sm_after: SM,
        deferred: Seq<P>,
        r: StateResult,
    ) -> bool {
        fn_may_return(self.function(), sm, msg, r)
    }

    /// Calls the function on `sm`, `deferrals` and `msg`, and returns what
    /// it returns: the result and the new values of `sm` and `deferrals`
    /// are such as one call of the function can give.
    fn process(&self, sm: &mut SM, deferrals: &mut Deferrals<P>, msg: &P) -> (r: StateResult)
        ensures
            exists|args: (&mut SM, &mut Deferrals<P>, &P)| #[trigger]
                call_ensures(self.function(), args, r) && *args.0 == *old(sm)
                    && *final(args.0) == *final(sm) && *args.1 == *old(deferrals)
                    && *final(args.1) == *final(deferrals) && args.2 == msg,
    {
        proof {
            use_type_invariant(self);
            assert(self.function() == self.f);
        }
        (self.f)(sm, deferrals, msg)
    }
}

/// A function used as an entry or exit action. It accepts every argument.
#[verifier::reject_recursive_types(SM)]
#[verifier::reject_recursive_types(P)]
pub struct ActionFn<SM, P, F: Fn(&mut SM, &P)> {
    f: F,
    marker: PhantomData<(SM, P)>,
}

impl<SM, P, F: Fn(&mut SM, &P)> ActionFn<SM, P, F> {
    #[verifier::type_invariant]
    spec fn total(self) -> bool {
        forall|args: (&mut SM, &P)| call_requires(self.f, args)
    }

    /// The function that is the action.
    pub closed spec fn function(self) -> F {
        self.f
    }

    fn new(f: F) -> (r: Self)
        requires
            forall|args: (&mut SM, &P)| call_requires(f, args),
        ensures
            r.function() == f,
    {
        ActionFn { f, marker: PhantomData }
    }
}

impl<SM, P, F: Fn(&mut SM, &P)> Action<SM, P> for ActionFn<SM, P, F> {
    /// That the function can be called on this value and message. What it
    /// leaves behind is not part of it.
    open spec fn may_do(&self, sm: SM, msg: P, sm_after: SM) -> bool {
        fn_may_do(self.function(), sm, msg)
    }

    /// Calls the function on `sm` and `msg`: the new value of `sm` is such
    /// as one call of the function can give.
    fn run(&self, sm: &mut SM, msg: &P)
        ensures
            exists|args: (&mut SM, &P)| #[trigger]
                call_ensures(self.function(), args, ()) && *args.0 == *old(sm)
                    && *final(args.0) == *final(sm) && args.1 == msg,
    {
        proof {
            use_type_invariant(self);
            assert(self.function() == self.f);
        }
        (self.f)(sm, msg)
    }
}

/// What the executor's contracts read of a state descriptor: what it
/// records, and what its actions may do.
#[verifier::reject_recursive_types(SM)]
#[verifier::reject_recursive_types(P)]
pub struct StateView<SM, P> {
    pub name: Seq<char>,
    pub parent: Option<usize>,
    pub has_enter: bool,
    pub has_exit: bool,
    pub active: bool,
    pub enter_cnt: usize,
    pub process_cnt: usize,
    pub exit_cnt: usize,
    /// What the entry action may do, if the state has one: the value
    /// before, the message, the value after.
    pub enter: spec_fn(SM, P, SM) -> bool,
    /// What the process action may do: the value before, the message, the
    /// value after, the messages deferred, the result.
    pub process: spec_fn(SM, P, SM, Seq<P>, StateResult) -> bool,
    /// What the exit action may do, if the state has one.
    pub exit: spec_fn(SM, P, SM) -> bool,
}

/// One state: its name, its parent, its actions, and what the executor
/// records about it.
#[verifier::reject_recursive_types(SM)]
#[verifier::reject_recursive_types(P)]
pub struct StateInfo<SM, P> {
    pub name: String,
    pub parent: Option<usize>,
    pub enter: Option<Box<dyn Action<SM, P>>>,
    pub process: Box<dyn Process<SM, P>>,
    pub exit: Option<Box<dyn Action<SM, P>>>,
    pub active: bool,
    pub enter_cnt: usize,
    pub process_cnt: usize,
    pub exit_cnt: usize,
}

impl<SM, P> View for StateInfo<SM, P> {
    type V = StateView<SM, P>;

    open spec fn view(&self) -> StateView<SM, P> {
        StateView {
            name: self.name@,
            parent: self.parent,
            has_enter: self.enter is Some,
            has_exit: self.exit is Some,
            active: self.active,
            enter_cnt: self.enter_cnt,
            process_cnt: self.process_cnt,
            exit_cnt: self.exit_cnt,
            enter: |sm: SM, msg: P, after: SM|
                self.enter matches Some(action) && action.may_do(sm, msg, after),
            process: |sm: SM, msg: P, after: SM, deferred: Seq<P>, r: StateResult|
                self.process.may_return(sm, msg, after, deferred, r),
            exit: |sm: SM, msg: P, after: SM|
                self.exit matches Some(action) && action.may_do(sm, msg, after),
        }
    }
}

impl<SM: 'static, P: 'static> StateInfo<SM, P> {
    /// A root state named `name` that handles messages with `process_fn`:
    /// inactive, with no entry or exit action and all counters at zero.
    pub fn new<F: Fn(&mut SM, &mut Deferrals<P>, &P) -> StateResult + 'static>(
        name: &str,
        process_fn: F,
    ) -> (r: Self)
        requires
            forall|args: (&mut SM, &mut Deferrals<P>, &P)| call_requires(process_fn, args),
        ensures
            r@.name == name@,
            r@.parent is None,
            !r@.has_enter,
            !r@.has_exit,
            !r@.active,
            r@.enter_cnt == 0,
            r@.process_cnt == 0,
            r@.exit_cnt == 0,
            forall|sm: SM, msg: P, after: SM, deferred: Seq<P>, res: StateResult|
                #[trigger] (r@.process)(sm, msg, after, deferred, res) <==> fn_may_return(
                    process_fn,
                    sm,
                    msg,
                    res,
                ),
    {
        StateInfo {
            name: name.to_owned(),
            parent: None,
            enter: None,
            process: Box::new(ProcessFn::new(process_fn)),
            exit: None,
            active: false,
            enter_cnt: 0,
            process_cnt: 0,
            exit_cnt: 0,
        }
    }

    /// The same state with `enter_fn` as its entry action.
    pub fn enter_fn<F: Fn(&mut SM, &P) + 'static>(self, enter_fn: F) -> (r: Self)
        requires
            forall|args: (&mut SM, &P)| call_requires(enter_fn, args),
        ensures
            r@ == (StateView { has_enter: true, enter: r@.enter, ..self@ }),
            forall|sm: SM, msg: P, after: SM| #[trigger]
                (r@.enter)(sm, msg, after) <==> fn_may_do(enter_fn, sm, msg),
    {
        let mut this = self;
        let wrapped = ActionFn::new(enter_fn);
        this.enter = Some(Box::new(wrapped));
        this
    }

    /// The same state with `exit_fn` as its exit action.
    pub fn exit_fn<F: Fn(&mut SM, &P) + 'static>(self, exit_fn: F) -> (r: Self)
        requires
            forall|args: (&mut SM, &P)| call_requires(exit_fn, args),
        ensures
            r@ == (StateView { has_exit: true, exit: r@.exit, ..self@ }),
            forall|sm: SM, msg: P, after: SM| #[trigger]
                (r@.exit)(sm, msg, after) <==> fn_may_do(exit_fn, sm, msg),
    {
        let mut this = self;
        let wrapped = ActionFn::new(exit_fn);
        this.exit = Some(Box::new(wrapped));
        this
    }

    /// The same state as a child of the state at `idx_parent`.
    pub fn parent_idx(self, idx_parent: usize) -> (r: Self)
        ensures
            r@ == (StateView { parent: Some(idx_parent), ..self@ }),
    {
        let mut this = self;
        this.parent = Some(idx_parent);
        this
    }
}

} // verus!
