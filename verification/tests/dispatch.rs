use hsm0_with_executor::{Deferrals, Executor, Handled, StateInfo, StateResult};
use std::cell::RefCell;

#[test]
fn test_sm_1s_no_enter_no_exit() {
    #[derive(Debug)]
    pub struct StateMachine {
        state: i32,
    }

    // Create a Protocol
    #[derive(Debug)]
    pub struct NoMessages;

    const MAX_STATES: usize = 1;
    const IDX_STATE1: usize = 0;

    impl StateMachine {
        fn new() -> Executor<RefCell<Self>, NoMessages> {
            let sm = RefCell::new(StateMachine { state: 0 });
            let sme = Executor::new(sm, MAX_STATES)
                .state(StateInfo::new("state1", Self::state1))
                .build(IDX_STATE1)
                .expect("Unexpected error initializing");

            sme
        }

        fn state1(
            this: &mut RefCell<Self>,
            _e: &mut Deferrals<NoMessages>,
            _msg: &NoMessages,
        ) -> StateResult {
            println!("{}:+", "state1");

            this.get_mut().state += 1;

            println!("{}:-", "state1");
            (Handled::Yes, None)
        }
    }

    // Create a sme and validate it's in the expected state
    let mut sme = StateMachine::new();
    assert_eq!(std::mem::size_of_val(sme.get_sm()), 16);
    assert_eq!(sme.get_state_enter_cnt(IDX_STATE1), 0);
    assert_eq!(sme.get_state_process_cnt(IDX_STATE1), 0);
    assert_eq!(sme.get_state_exit_cnt(IDX_STATE1), 0);
    assert_eq!(sme.get_sm().borrow().state, 0);

    // For code coverage
    println!("{:?}", NoMessages);
    println!("{:?}", sme.get_sm());

    sme.dispatcher(&NoMessages);
    assert_eq!(sme.get_state_enter_cnt(IDX_STATE1), 0);
    assert_eq!(sme.get_state_process_cnt(IDX_STATE1), 1);
    assert_eq!(sme.get_state_exit_cnt(IDX_STATE1), 0);
    assert_eq!(sme.get_sm().borrow().state, 1);

    sme.dispatcher(&NoMessages);
    assert_eq!(sme.get_state_enter_cnt(IDX_STATE1), 0);
    assert_eq!(sme.get_state_process_cnt(IDX_STATE1), 2);
    assert_eq!(sme.get_state_exit_cnt(IDX_STATE1), 0);
    assert_eq!(sme.get_sm().borrow().state, 2);
}

#[test]
fn test_sm_1s_get_names() {
    #[derive(Debug)]
    pub struct StateMachine {
        state: i32,
    }

    // Create a Protocol
    #[derive(Debug)]
    pub struct NoMessages;

    const MAX_STATES: usize = 1;
    const IDX_STATE1: usize = 0;

    impl StateMachine {
        fn new() -> Executor<RefCell<Self>, NoMessages> {
            let sm = RefCell::new(StateMachine { state: 0 });
            let sme = Executor::new(sm, MAX_STATES)
                .state(StateInfo::new("state1", Self::state1))
                .build(IDX_STATE1)
                .expect("Unexpected error initializing");

            sme
        }

        fn state1(
            this: &mut RefCell<Self>,
            _e: &mut Deferrals<NoMessages>,
            _msg: &NoMessages,
        ) -> StateResult {
            this.get_mut().state += 1;

            (Handled::Yes, None)
        }
    }

    // Create a sme and validate it's in the expected state
    let mut sme = StateMachine::new();
    assert_eq!(sme.get_sm().borrow().state, 0);
    assert_eq!(sme.get_state_name(IDX_STATE1), "state1");
    assert_eq!(sme.get_current_state_name(), "state1");

    // For code coverage
    println!("{:?}", NoMessages);
    println!("{:?}", sme.get_sm());

    sme.dispatch(&NoMessages);
    assert_eq!(sme.get_sm().borrow().state, 1);
    assert_eq!(sme.get_state_name(IDX_STATE1), "state1");
    assert_eq!(sme.get_current_state_name(), "state1");

    sme.dispatch(&NoMessages);
    assert_eq!(sme.get_sm().borrow().state, 2);
    assert_eq!(sme.get_state_name(IDX_STATE1), "state1");
    assert_eq!(sme.get_current_state_name(), "state1");
}

#[test]
fn test_sm_2s_get_names() {
    #[derive(Debug)]
    pub struct StateMachine {
        state: i32,
    }

    // Create a Protocol
    #[derive(Debug)]
    pub struct NoMessages;

    const MAX_STATES: usize = 2;
    const IDX_STATE1: usize = 0;
    const IDX_STATE2: usize = 1;

    impl StateMachine {
        fn new() -> Executor<RefCell<Self>, NoMessages> {
            let sm = RefCell::new(StateMachine { state: 0 });
            let sme = Executor::new(sm, MAX_STATES)
                .state(StateInfo::new("state1", Self::state1))
                .state(StateInfo::new("state2", Self::state2))
                .build(IDX_STATE1)
                .expect("Unexpected error initializing");

            sme
        }

        fn state1(
            this: &mut RefCell<Self>,
            _e: &mut Deferrals<NoMessages>,
            _msg: &NoMessages,
        ) -> StateResult {
            this.get_mut().state += 1;

            (Handled::Yes, Some(IDX_STATE2))
        }

        fn state2(
            this: &mut RefCell<Self>,
            _e: &mut Deferrals<NoMessages>,
            _msg: &NoMessages,
        ) -> StateResult {
            this.get_mut().state -= 1;

            (Handled::Yes, Some(IDX_STATE1))
        }
    }

    // Create a sme and validate it's in the expected state
    let mut sme = StateMachine::new();
    assert_eq!(sme.get_sm().borrow().state, 0);
    assert_eq!(sme.get_state_name(IDX_STATE1), "state1");
    assert_eq!(sme.get_current_state_name(), "state1");

    // For code coverage
    println!("{:?}", NoMessages);
    println!("{:?}", sme.get_sm());

    sme.dispatch(&NoMessages);
    assert_eq!(sme.get_sm().borrow().state, 1);
    assert_eq!(sme.get_state_name(IDX_STATE2), "state2");
    assert_eq!(sme.get_current_state_name(), "state2");

    sme.dispatch(&NoMessages);
    assert_eq!(sme.get_sm().borrow().state, 0);
    assert_eq!(sme.get_state_name(IDX_STATE1), "state1");
    assert_eq!(sme.get_current_state_name(), "state1");
}

#[test]
#[should_panic]
fn test_sm_out_of_bounds_initial_transition() {
    #[derive(Debug)]
    pub struct StateMachine;

    // Create a Protocol
    #[derive(Debug)]
    pub struct NoMessages;

    const MAX_STATES: usize = 1;
    const IDX_STATE1: usize = 0;
    const INVALID_STATE: usize = 1;

    impl StateMachine {
        fn new() -> Executor<RefCell<Self>, NoMessages> {
            let sm = RefCell::new(StateMachine);
            let sme = Executor::new(sm, MAX_STATES)
                .state(StateInfo::new("state1", Self::state1))
                .checked_build(INVALID_STATE)
                .expect("not a valid initial state")
                .expect("Unexpected error initializing");

            sme
        }

        fn state1(
            _this: &mut RefCell<Self>,
            _e: &mut Deferrals<NoMessages>,
            _msg: &NoMessages,
        ) -> StateResult {
            // Invalid transition that is not less than MAX_STATES
            (Handled::Yes, Some(1))
        }
    }

    // For code coverage
    println!("{:?}", NoMessages);
    println!("{:?}", StateMachine);

    // Create a sme and validate it's in the expected state
    let mut sme = StateMachine::new();
    assert_eq!(std::mem::size_of_val(sme.get_sm()), 4);
    assert_eq!(sme.get_state_enter_cnt(IDX_STATE1), 0);
    assert_eq!(sme.get_state_process_cnt(IDX_STATE1), 0);
    assert_eq!(sme.get_state_exit_cnt(IDX_STATE1), 0);

    // This will panic because state1 returns an invalid transition
    sme.dispatch(&NoMessages);
}

#[test]
#[should_panic]
fn test_sm_invalid_initial_state() {
    #[derive(Debug)]
    pub struct StateMachine;

    // Create a Protocol
    #[derive(Debug)]
    pub struct NoMessages;

    const MAX_STATES: usize = 1;
    const IDX_STATE1: usize = 0;
    const _IDX_STATE2: usize = 1;

    impl StateMachine {
        fn new() -> Executor<RefCell<Self>, NoMessages> {
            let sm = RefCell::new(StateMachine);
            let sme = Executor::new(sm, MAX_STATES)
                .state(StateInfo::new("state1", Self::state1).parent_idx(IDX_STATE1))
                .state(StateInfo::new("state2", Self::state2).parent_idx(IDX_STATE1))
                .build(IDX_STATE1)
                .expect("Unexpected error initializing");

            sme
        }

        fn state1(
            _this: &mut RefCell<Self>,
            _e: &mut Deferrals<NoMessages>,
            _msg: &NoMessages,
        ) -> StateResult {
            (Handled::Yes, None)
        }

        fn state2(
            _this: &mut RefCell<Self>,
            _e: &mut Deferrals<NoMessages>,
            _msg: &NoMessages,
        ) -> StateResult {
            // Invalid transition IDX_STATE1 isn't a leaf
            (Handled::Yes, Some(IDX_STATE1))
        }
    }

    // For code coverage
    println!("{:?}", NoMessages);
    println!("{:?}", StateMachine);

    // Create a sme and validate it's in the expected state
    let _ = StateMachine::new();
}

#[test]
#[should_panic]
fn test_sm_2s_invalid_transition() {
    #[derive(Debug)]
    pub struct StateMachine;

    // Create a Protocol
    #[derive(Debug)]
    pub struct NoMessages;

    const MAX_STATES: usize = 1;
    const IDX_STATE1: usize = 0;
    const IDX_STATE2: usize = 1;

    impl StateMachine {
        fn new() -> Executor<RefCell<Self>, NoMessages> {
            let sm = RefCell::new(StateMachine);
            let sme = Executor::new(sm, MAX_STATES)
                .state(StateInfo::new("state1", Self::state1))
                .state(StateInfo::new("state1", Self::state2).parent_idx(IDX_STATE1))
                .build(IDX_STATE2)
                .expect("Unexpected error initializing");

            sme
        }

        fn state1(
            _this: &mut RefCell<Self>,
            _e: &mut Deferrals<NoMessages>,
            _msg: &NoMessages,
        ) -> StateResult {
            (Handled::Yes, None)
        }

        fn state2(
            _this: &mut RefCell<Self>,
            _e: &mut Deferrals<NoMessages>,
            _msg: &NoMessages,
        ) -> StateResult {
            // Invalid transition IDX_STATE1 isn't a leaf
            (Handled::Yes, Some(IDX_STATE1))
        }
    }

    // For code coverage
    println!("{:?}", NoMessages);
    println!("{:?}", StateMachine);

    // Create a sme and validate it's in the expected state
    let mut sme = StateMachine::new();
    assert_eq!(std::mem::size_of_val(sme.get_sm()), 4);
    assert_eq!(sme.get_state_enter_cnt(IDX_STATE1), 0);
    assert_eq!(sme.get_state_process_cnt(IDX_STATE1), 0);
    assert_eq!(sme.get_state_exit_cnt(IDX_STATE1), 0);

    // This will panic because state2 returns an invalid transition
    // to state1 which isn't a leaf
    sme.dispatch(&NoMessages);
}

#[test]
#[should_panic]
fn test_sm_out_of_bounds_invalid_transition() {
    #[derive(Debug)]
    pub struct StateMachine;

    // Create a Protocol
    #[derive(Debug)]
    pub struct NoMessages;

    const MAX_STATES: usize = 1;
    const IDX_STATE1: usize = 0;

    impl StateMachine {
        fn new() -> Executor<RefCell<Self>, NoMessages> {
            let sm = RefCell::new(StateMachine);
            let sme = Executor::new(sm, MAX_STATES)
                .state(StateInfo::new("state1", Self::state1))
                .build(IDX_STATE1)
                .expect("Unexpected error initializing");

            sme
        }

        fn state1(
            _this: &mut RefCell<Self>,
            _e: &mut Deferrals<NoMessages>,
            _msg: &NoMessages,
        ) -> StateResult {
            // Invalid transition that is not less than MAX_STATES
            (Handled::Yes, Some(1))
        }
    }

    // For code coverage
    println!("{:?}", NoMessages);
    println!("{:?}", StateMachine);

    // Create a sme and validate it's in the expected state
    let mut sme = StateMachine::new();
    assert_eq!(std::mem::size_of_val(sme.get_sm()), 4);
    assert_eq!(sme.get_state_enter_cnt(IDX_STATE1), 0);
    assert_eq!(sme.get_state_process_cnt(IDX_STATE1), 0);
    assert_eq!(sme.get_state_exit_cnt(IDX_STATE1), 0);

    // This will panic because state1 returns an invalid transition
    sme.dispatch(&NoMessages);
}

#[test]
fn test_sm_1s_enter_no_exit() {
    #[derive(Debug)]
    pub struct StateMachine {
        state: i32,
    }

    // Create a Protocol
    #[derive(Debug)]
    pub enum Messages {
        Add { val: i32 },
        Sub { val: i32 },
    }

    const MAX_STATES: usize = 1;
    const IDX_STATE1: usize = 0;

    impl StateMachine {
        fn new() -> Executor<RefCell<Self>, Messages> {
            let sm = RefCell::new(StateMachine { state: 0 });
            let sme = Executor::new(sm, MAX_STATES)
                .state(StateInfo::new("state1", Self::state1).enter_fn(Self::state1_enter))
                .build(IDX_STATE1)
                .expect("Unexpected error initializing");

            sme
        }

        fn state1_enter(this: &mut RefCell<Self>, _msg: &Messages) {
            this.get_mut().state = 100;
        }

        fn state1(
            this: &mut RefCell<Self>,
            _e: &mut Deferrals<Messages>,
            msg: &Messages,
        ) -> StateResult {
            match msg {
                Messages::Add { val } => this.get_mut().state += val,
                Messages::Sub { val } => this.get_mut().state -= val,
            }
            (Handled::Yes, None)
        }
    }

    // Create a sme and validate it's in the expected state
    let mut sme = StateMachine::new();
    assert_eq!(std::mem::size_of_val(sme.get_sm()), 16);
    assert_eq!(sme.get_state_enter_cnt(IDX_STATE1), 0);
    assert_eq!(sme.get_state_process_cnt(IDX_STATE1), 0);
    assert_eq!(sme.get_state_exit_cnt(IDX_STATE1), 0);
    assert_eq!(sme.get_sm().borrow().state, 0);

    // For code coverage
    println!("{:?}", Messages::Add { val: -1 });
    println!("{:?}", sme.get_sm());

    sme.dispatch(&Messages::Add { val: 2 });
    assert_eq!(sme.get_state_enter_cnt(IDX_STATE1), 1);
    assert_eq!(sme.get_state_process_cnt(IDX_STATE1), 1);
    assert_eq!(sme.get_state_exit_cnt(IDX_STATE1), 0);
    assert_eq!(sme.get_sm().borrow().state, 102);

    sme.dispatch(&Messages::Sub { val: 1 });
    assert_eq!(sme.get_state_enter_cnt(IDX_STATE1), 1);
    assert_eq!(sme.get_state_process_cnt(IDX_STATE1), 2);
    assert_eq!(sme.get_state_exit_cnt(IDX_STATE1), 0);
    assert_eq!(sme.get_sm().borrow().state, 101);
}

#[test]
fn test_sm_2s_no_enter_no_exit() {
    #[derive(Debug)]
    pub struct StateMachine {
        state: i32,
    }

    // Create a Protocol
    #[derive(Debug)]
    pub enum Message {
        Add { val: i32 },
    }

    const MAX_STATES: usize = 2;
    const IDX_STATE1: usize = 0;
    const IDX_STATE2: usize = 1;

    impl StateMachine {
        fn new() -> Executor<RefCell<Self>, Message> {
            let sm = RefCell::new(StateMachine { state: 0 });
            let sme = Executor::new(sm, MAX_STATES)
                .state(StateInfo::new("state1", Self::state1))
                .state(StateInfo::new("state2", Self::state2))
                .build(IDX_STATE1)
                .expect("Unexpected error initializing");

            sme
        }

        fn state1(
            this: &mut RefCell<Self>,
            _e: &mut Deferrals<Message>,
            msg: &Message,
        ) -> StateResult {
            match msg {
                Message::Add { val } => this.get_mut().state += val,
            }
            (Handled::Yes, Some(IDX_STATE2))
        }

        fn state2(
            this: &mut RefCell<Self>,
            _e: &mut Deferrals<Message>,
            msg: &Message,
        ) -> StateResult {
            match msg {
                Message::Add { val } => this.get_mut().state += 2 * val,
            }
            (Handled::Yes, Some(IDX_STATE1))
        }
    }

    // Create a sme and validate it's in the expected state
    let mut sme = StateMachine::new();
    assert_eq!(std::mem::size_of_val(sme.get_sm()), 16);
    assert_eq!(sme.get_state_enter_cnt(IDX_STATE1), 0);
    assert_eq!(sme.get_state_process_cnt(IDX_STATE1), 0);
    assert_eq!(sme.get_state_exit_cnt(IDX_STATE1), 0);
    assert_eq!(sme.get_state_enter_cnt(IDX_STATE2), 0);
    assert_eq!(sme.get_state_process_cnt(IDX_STATE2), 0);
    assert_eq!(sme.get_state_exit_cnt(IDX_STATE2), 0);
    assert_eq!(sme.get_sm().borrow().state, 0);

    // For code coverage
    println!("{:?}", Message::Add { val: -2 });
    println!("{:?}", sme.get_sm());

    sme.dispatch(&Message::Add { val: 2 });
    assert_eq!(sme.get_state_enter_cnt(IDX_STATE1), 0);
    assert_eq!(sme.get_state_process_cnt(IDX_STATE1), 1);
    assert_eq!(sme.get_state_exit_cnt(IDX_STATE1), 0);
    assert_eq!(sme.get_state_enter_cnt(IDX_STATE2), 0);
    assert_eq!(sme.get_state_process_cnt(IDX_STATE2), 0);
    assert_eq!(sme.get_state_exit_cnt(IDX_STATE2), 0);
    assert_eq!(sme.get_sm().borrow().state, 2);

    sme.dispatch(&Message::Add { val: -1 });
    assert_eq!(sme.get_state_enter_cnt(IDX_STATE1), 0);
    assert_eq!(sme.get_state_process_cnt(IDX_STATE1), 1);
    assert_eq!(sme.get_state_exit_cnt(IDX_STATE1), 0);
    assert_eq!(sme.get_state_enter_cnt(IDX_STATE2), 0);
    assert_eq!(sme.get_state_process_cnt(IDX_STATE2), 1);
    assert_eq!(sme.get_state_exit_cnt(IDX_STATE2), 0);
    assert_eq!(sme.get_sm().borrow().state, 0);
}

#[test]
fn test_sm_1h_2s_not_handled_no_enter_no_exit() {
    #[derive(Debug)]
    pub struct StateMachine {
        state: i32,
    }

    // Create a Protocol
    #[derive(Debug)]
    pub enum Message {
        Add { val: i32 },
        Sub { val: i32 },
    }

    const MAX_STATES: usize = 2;
    const IDX_PARENT: usize = 0;
    const IDX_CHILD: usize = 1;

    impl StateMachine {
        fn new() -> Executor<RefCell<Self>, Message> {
            let sm = RefCell::new(StateMachine { state: 0 });
            let sme = Executor::new(sm, MAX_STATES)
                .state(StateInfo::new("parent", Self::parent))
                .state(StateInfo::new("child", Self::child).parent_idx(IDX_PARENT))
                .build(IDX_CHILD)
                .expect("Unexpected error initializing");

            sme
        }

        fn parent(
            this: &mut RefCell<Self>,
            _e: &mut Deferrals<Message>,
            msg: &Message,
        ) -> StateResult {
            match msg {
                Message::Add { val } => this.get_mut().state += val,
                Message::Sub { val } => this.get_mut().state -= val,
            }
            (Handled::Yes, None)
        }

        fn child(
            _this: &mut RefCell<Self>,
            _e: &mut Deferrals<Message>,
            _msg: &Message,
        ) -> StateResult {
            (Handled::No, None)
        }
    }

    // Create a sme and validate it's in the expected state
    let mut sme = StateMachine::new();
    assert_eq!(std::mem::size_of_val(sme.get_sm()), 16);
    assert_eq!(sme.get_state_enter_cnt(IDX_PARENT), 0);
    assert_eq!(sme.get_state_process_cnt(IDX_PARENT), 0);
    assert_eq!(sme.get_state_exit_cnt(IDX_PARENT), 0);
    assert_eq!(sme.get_state_enter_cnt(IDX_CHILD), 0);
    assert_eq!(sme.get_state_process_cnt(IDX_CHILD), 0);
    assert_eq!(sme.get_state_exit_cnt(IDX_CHILD), 0);
    assert_eq!(sme.get_sm().borrow().state, 0);

    // For code coverage
    println!("{:?}", Message::Add { val: -1 });
    println!("{:?}", sme.get_sm());

    sme.dispatch(&Message::Add { val: 2 });
    assert_eq!(sme.get_state_enter_cnt(IDX_PARENT), 0);
    assert_eq!(sme.get_state_process_cnt(IDX_PARENT), 1);
    assert_eq!(sme.get_state_exit_cnt(IDX_PARENT), 0);
    assert_eq!(sme.get_state_enter_cnt(IDX_CHILD), 0);
    assert_eq!(sme.get_state_process_cnt(IDX_CHILD), 1);
    assert_eq!(sme.get_state_exit_cnt(IDX_CHILD), 0);
    assert_eq!(sme.get_sm().borrow().state, 2);

    sme.dispatch(&Message::Sub { val: 1 });
    assert_eq!(sme.get_state_enter_cnt(IDX_PARENT), 0);
    assert_eq!(sme.get_state_process_cnt(IDX_PARENT), 2);
    assert_eq!(sme.get_state_exit_cnt(IDX_PARENT), 0);
    assert_eq!(sme.get_state_enter_cnt(IDX_CHILD), 0);
    assert_eq!(sme.get_state_process_cnt(IDX_CHILD), 2);
    assert_eq!(sme.get_state_exit_cnt(IDX_CHILD), 0);
    assert_eq!(sme.get_sm().borrow().state, 1);
}

#[test]
fn test_leaf_transitions_in_a_tree() {
    // StateMachine simply transitions back and forth
    // between initial and other.
    //
    //                base=0
    //        --------^  ^-------
    //       /                   \
    //      /                     \
    //    other=2   <======>   initial=1

    #[derive(Debug)]
    struct StateMachine;

    // Create a Protocol with no messages
    #[derive(Debug)]
    struct NoMessages;

    const MAX_STATES: usize = 3;
    const IDX_BASE: usize = 0;
    const IDX_INITIAL: usize = 1;
    const IDX_OTHER: usize = 2;

    impl StateMachine {
        fn new() -> Executor<RefCell<Self>, NoMessages> {
            let sm = RefCell::new(StateMachine);
            let sme = Executor::new(sm, MAX_STATES)
                .state(StateInfo::new("base", Self::base).enter_fn(Self::base_enter))
                .state(
                    StateInfo::new("initial", Self::initial)
                        .enter_fn(Self::initial_enter)
                        .exit_fn(Self::initial_exit)
                        .parent_idx(IDX_BASE),
                )
                .state(
                    StateInfo::new("other", Self::other)
                        .enter_fn(Self::other_enter)
                        .exit_fn(Self::other_exit)
                        .parent_idx(IDX_BASE),
                )
                .build(IDX_INITIAL)
                .expect("Unexpected error initializing");

            sme
        }

        fn base_enter(_this: &mut RefCell<Self>, _msg: &NoMessages) {}

        // This state has idx 0
        fn base(
            _this: &mut RefCell<Self>,
            _e: &mut Deferrals<NoMessages>,
            _msg: &NoMessages,
        ) -> StateResult {
            (Handled::Yes, None)
        }

        fn initial_enter(_this: &mut RefCell<Self>, _msg: &NoMessages) {}

        // This state has idx 0
        fn initial(
            _this: &mut RefCell<Self>,
            _e: &mut Deferrals<NoMessages>,
            _msg: &NoMessages,
        ) -> StateResult {
            (Handled::Yes, Some(IDX_OTHER))
        }

        fn initial_exit(_this: &mut RefCell<Self>, _msg: &NoMessages) {}

        fn other_enter(_this: &mut RefCell<Self>, _msg: &NoMessages) {}

        // This state has idx 0
        fn other(
            _this: &mut RefCell<Self>,
            _e: &mut Deferrals<NoMessages>,
            _msg: &NoMessages,
        ) -> StateResult {
            (Handled::Yes, Some(IDX_INITIAL))
        }

        fn other_exit(_this: &mut RefCell<Self>, _msg: &NoMessages) {}
    }

    // For code coverage
    println!("{:?}", NoMessages);
    println!("{:?}", StateMachine);

    // Create a sme and validate it's in the expected state
    let mut sme = StateMachine::new();
    assert_eq!(std::mem::size_of_val(sme.get_sm()), 8);
    assert_eq!(sme.get_state_enter_cnt(IDX_BASE), 0);
    assert_eq!(sme.get_state_process_cnt(IDX_BASE), 0);
    assert_eq!(sme.get_state_exit_cnt(IDX_BASE), 0);
    assert_eq!(sme.get_state_enter_cnt(IDX_INITIAL), 0);
    assert_eq!(sme.get_state_process_cnt(IDX_INITIAL), 0);
    assert_eq!(sme.get_state_exit_cnt(IDX_INITIAL), 0);
    assert_eq!(sme.get_state_enter_cnt(IDX_OTHER), 0);
    assert_eq!(sme.get_state_process_cnt(IDX_OTHER), 0);
    assert_eq!(sme.get_state_exit_cnt(IDX_OTHER), 0);

    sme.dispatch(&NoMessages);
    assert_eq!(sme.get_state_enter_cnt(IDX_BASE), 1);
    assert_eq!(sme.get_state_process_cnt(IDX_BASE), 0);
    assert_eq!(sme.get_state_exit_cnt(IDX_BASE), 0);
    assert_eq!(sme.get_state_enter_cnt(IDX_INITIAL), 1);
    assert_eq!(sme.get_state_process_cnt(IDX_INITIAL), 1);
    assert_eq!(sme.get_state_exit_cnt(IDX_INITIAL), 1);
    assert_eq!(sme.get_state_enter_cnt(IDX_OTHER), 0);
    assert_eq!(sme.get_state_process_cnt(IDX_OTHER), 0);
    assert_eq!(sme.get_state_exit_cnt(IDX_OTHER), 0);

    sme.dispatch(&NoMessages);
    assert_eq!(sme.get_state_enter_cnt(IDX_BASE), 1);
    assert_eq!(sme.get_state_process_cnt(IDX_BASE), 0);
    assert_eq!(sme.get_state_exit_cnt(IDX_BASE), 0);
    assert_eq!(sme.get_state_enter_cnt(IDX_INITIAL), 1);
    assert_eq!(sme.get_state_process_cnt(IDX_INITIAL), 1);
    assert_eq!(sme.get_state_exit_cnt(IDX_INITIAL), 1);
    assert_eq!(sme.get_state_enter_cnt(IDX_OTHER), 1);
    assert_eq!(sme.get_state_process_cnt(IDX_OTHER), 1);
    assert_eq!(sme.get_state_exit_cnt(IDX_OTHER), 1);

    sme.dispatch(&NoMessages);
    assert_eq!(sme.get_state_enter_cnt(IDX_BASE), 1);
    assert_eq!(sme.get_state_process_cnt(IDX_BASE), 0);
    assert_eq!(sme.get_state_exit_cnt(IDX_BASE), 0);
    assert_eq!(sme.get_state_enter_cnt(IDX_INITIAL), 2);
    assert_eq!(sme.get_state_process_cnt(IDX_INITIAL), 2);
    assert_eq!(sme.get_state_exit_cnt(IDX_INITIAL), 2);
    assert_eq!(sme.get_state_enter_cnt(IDX_OTHER), 1);
    assert_eq!(sme.get_state_process_cnt(IDX_OTHER), 1);
    assert_eq!(sme.get_state_exit_cnt(IDX_OTHER), 1);

    sme.dispatch(&NoMessages);
    assert_eq!(sme.get_state_enter_cnt(IDX_BASE), 1);
    assert_eq!(sme.get_state_process_cnt(IDX_BASE), 0);
    assert_eq!(sme.get_state_exit_cnt(IDX_BASE), 0);
    assert_eq!(sme.get_state_enter_cnt(IDX_INITIAL), 2);
    assert_eq!(sme.get_state_process_cnt(IDX_INITIAL), 2);
    assert_eq!(sme.get_state_exit_cnt(IDX_INITIAL), 2);
    assert_eq!(sme.get_state_enter_cnt(IDX_OTHER), 2);
    assert_eq!(sme.get_state_process_cnt(IDX_OTHER), 2);
    assert_eq!(sme.get_state_exit_cnt(IDX_OTHER), 2);

    sme.dispatch(&NoMessages);
    assert_eq!(sme.get_state_enter_cnt(IDX_BASE), 1);
    assert_eq!(sme.get_state_process_cnt(IDX_BASE), 0);
    assert_eq!(sme.get_state_exit_cnt(IDX_BASE), 0);
    assert_eq!(sme.get_state_enter_cnt(IDX_INITIAL), 3);
    assert_eq!(sme.get_state_process_cnt(IDX_INITIAL), 3);
    assert_eq!(sme.get_state_exit_cnt(IDX_INITIAL), 3);
    assert_eq!(sme.get_state_enter_cnt(IDX_OTHER), 2);
    assert_eq!(sme.get_state_process_cnt(IDX_OTHER), 2);
    assert_eq!(sme.get_state_exit_cnt(IDX_OTHER), 2);
}

#[test]
fn test_leaf_transitions_between_trees() {
    // StateMachine simply transitions back and forth
    // between initial and other.
    //
    //  other_base=2          initial_base=0
    //       ^                     ^
    //       |                     |
    //     other=3              initial=1

    #[derive(Debug)]
    pub struct StateMachine;

    // Create a Protocol with no messages
    #[derive(Debug)]
    pub struct NoMessages;

    const MAX_STATES: usize = 4;
    const IDX_INITIAL_BASE: usize = 0;
    const IDX_INITIAL: usize = 1;
    const IDX_OTHER_BASE: usize = 2;
    const IDX_OTHER: usize = 3;

    impl StateMachine {
        fn new() -> Executor<RefCell<Self>, NoMessages> {
            let sm = RefCell::new(StateMachine);
            let sme = Executor::new(sm, MAX_STATES)
                .state(
                    StateInfo::new("initial_base", Self::initial_base)
                        .enter_fn(Self::initial_base_enter)
                        .exit_fn(Self::initial_base_exit),
                )
                .state(
                    StateInfo::new("initial", Self::initial)
                        .enter_fn(Self::initial_enter)
                        .exit_fn(Self::initial_exit)
                        .parent_idx(IDX_INITIAL_BASE),
                )
                .state(
                    StateInfo::new("other_base", Self::other_base)
                        .enter_fn(Self::other_base_enter)
                        .exit_fn(Self::other_base_exit),
                )
                .state(
                    StateInfo::new("other", Self::other)
                        .enter_fn(Self::other_enter)
                        .exit_fn(Self::other_exit)
                        .parent_idx(IDX_OTHER_BASE),
                )
                .build(IDX_INITIAL)
                .expect("Unexpected error initializing");

            sme
        }

        fn initial_base_enter(_this: &mut RefCell<Self>, _msg: &NoMessages) {}

        // This state has hdl 0
        fn initial_base(
            _this: &mut RefCell<Self>,
            _e: &mut Deferrals<NoMessages>,
            _msg: &NoMessages,
        ) -> StateResult {
            (Handled::Yes, None)
        }

        fn initial_base_exit(_this: &mut RefCell<Self>, _msg: &NoMessages) {}

        fn initial_enter(_this: &mut RefCell<Self>, _msg: &NoMessages) {}

        // This state has hdl 0
        fn initial(
            _this: &mut RefCell<Self>,
            _e: &mut Deferrals<NoMessages>,
            _msg: &NoMessages,
        ) -> StateResult {
            (Handled::Yes, Some(IDX_OTHER))
        }

        fn initial_exit(_this: &mut RefCell<Self>, _msg: &NoMessages) {}

        fn other_base_enter(_this: &mut RefCell<Self>, _msg: &NoMessages) {}

        // This state has hdl 0
        fn other_base(
            _this: &mut RefCell<Self>,
            _e: &mut Deferrals<NoMessages>,
            _msg: &NoMessages,
        ) -> StateResult {
            (Handled::Yes, None)
        }

        fn other_base_exit(_this: &mut RefCell<Self>, _msg: &NoMessages) {}

        fn other_enter(_this: &mut RefCell<Self>, _msg: &NoMessages) {}

        // This state has hdl 0
        fn other(
            _this: &mut RefCell<Self>,
            _e: &mut Deferrals<NoMessages>,
            _msg: &NoMessages,
        ) -> StateResult {
            (Handled::Yes, Some(IDX_INITIAL))
        }

        fn other_exit(_this: &mut RefCell<Self>, _msg: &NoMessages) {}
    }

    // For code coverage
    println!("{:?}", NoMessages);
    println!("{:?}", StateMachine);

    // Create a sme and validate it's in the expected state
    let mut sme = StateMachine::new();
    assert_eq!(std::mem::size_of_val(sme.get_sm()), 8);
    assert_eq!(sme.get_state_enter_cnt(IDX_INITIAL_BASE), 0);
    assert_eq!(sme.get_state_process_cnt(IDX_INITIAL_BASE), 0);
    assert_eq!(sme.get_state_exit_cnt(IDX_INITIAL_BASE), 0);
    assert_eq!(sme.get_state_enter_cnt(IDX_INITIAL), 0);
    assert_eq!(sme.get_state_process_cnt(IDX_INITIAL), 0);
    assert_eq!(sme.get_state_exit_cnt(IDX_INITIAL), 0);
    assert_eq!(sme.get_state_enter_cnt(IDX_OTHER_BASE), 0);
    assert_eq!(sme.get_state_process_cnt(IDX_OTHER_BASE), 0);
    assert_eq!(sme.get_state_exit_cnt(IDX_OTHER_BASE), 0);
    assert_eq!(sme.get_state_enter_cnt(IDX_OTHER), 0);
    assert_eq!(sme.get_state_process_cnt(IDX_OTHER), 0);
    assert_eq!(sme.get_state_exit_cnt(IDX_OTHER), 0);

    sme.dispatch(&NoMessages);
    assert_eq!(sme.get_state_enter_cnt(IDX_INITIAL_BASE), 1);
    assert_eq!(sme.get_state_process_cnt(IDX_INITIAL_BASE), 0);
    assert_eq!(sme.get_state_exit_cnt(IDX_INITIAL_BASE), 1);
    assert_eq!(sme.get_state_enter_cnt(IDX_INITIAL), 1);
    assert_eq!(sme.get_state_process_cnt(IDX_INITIAL), 1);
    assert_eq!(sme.get_state_exit_cnt(IDX_INITIAL), 1);
    assert_eq!(sme.get_state_enter_cnt(IDX_OTHER_BASE), 0);
    assert_eq!(sme.get_state_process_cnt(IDX_OTHER_BASE), 0);
    assert_eq!(sme.get_state_exit_cnt(IDX_OTHER_BASE), 0);
    assert_eq!(sme.get_state_enter_cnt(IDX_OTHER), 0);
    assert_eq!(sme.get_state_process_cnt(IDX_OTHER), 0);
    assert_eq!(sme.get_state_exit_cnt(IDX_OTHER), 0);

    sme.dispatch(&NoMessages);
    assert_eq!(sme.get_state_enter_cnt(IDX_INITIAL_BASE), 1);
    assert_eq!(sme.get_state_process_cnt(IDX_INITIAL_BASE), 0);
    assert_eq!(sme.get_state_exit_cnt(IDX_INITIAL_BASE), 1);
    assert_eq!(sme.get_state_enter_cnt(IDX_INITIAL), 1);
    assert_eq!(sme.get_state_process_cnt(IDX_INITIAL), 1);
    assert_eq!(sme.get_state_exit_cnt(IDX_INITIAL), 1);
    assert_eq!(sme.get_state_enter_cnt(IDX_OTHER_BASE), 1);
    assert_eq!(sme.get_state_process_cnt(IDX_OTHER_BASE), 0);
    assert_eq!(sme.get_state_exit_cnt(IDX_OTHER_BASE), 1);
    assert_eq!(sme.get_state_enter_cnt(IDX_OTHER), 1);
    assert_eq!(sme.get_state_process_cnt(IDX_OTHER), 1);
    assert_eq!(sme.get_state_exit_cnt(IDX_OTHER), 1);

    sme.dispatch(&NoMessages);
    assert_eq!(sme.get_state_enter_cnt(IDX_INITIAL_BASE), 2);
    assert_eq!(sme.get_state_process_cnt(IDX_INITIAL_BASE), 0);
    assert_eq!(sme.get_state_exit_cnt(IDX_INITIAL_BASE), 2);
    assert_eq!(sme.get_state_enter_cnt(IDX_INITIAL), 2);
    assert_eq!(sme.get_state_process_cnt(IDX_INITIAL), 2);
    assert_eq!(sme.get_state_exit_cnt(IDX_INITIAL), 2);
    assert_eq!(sme.get_state_enter_cnt(IDX_OTHER_BASE), 1);
    assert_eq!(sme.get_state_process_cnt(IDX_OTHER_BASE), 0);
    assert_eq!(sme.get_state_exit_cnt(IDX_OTHER_BASE), 1);
    assert_eq!(sme.get_state_enter_cnt(IDX_OTHER), 1);
    assert_eq!(sme.get_state_process_cnt(IDX_OTHER), 1);
    assert_eq!(sme.get_state_exit_cnt(IDX_OTHER), 1);

    sme.dispatch(&NoMessages);
    assert_eq!(sme.get_state_enter_cnt(IDX_INITIAL_BASE), 2);
    assert_eq!(sme.get_state_process_cnt(IDX_INITIAL_BASE), 0);
    assert_eq!(sme.get_state_exit_cnt(IDX_INITIAL_BASE), 2);
    assert_eq!(sme.get_state_enter_cnt(IDX_INITIAL), 2);
    assert_eq!(sme.get_state_process_cnt(IDX_INITIAL), 2);
    assert_eq!(sme.get_state_exit_cnt(IDX_INITIAL), 2);
    assert_eq!(sme.get_state_enter_cnt(IDX_OTHER_BASE), 2);
    assert_eq!(sme.get_state_process_cnt(IDX_OTHER_BASE), 0);
    assert_eq!(sme.get_state_exit_cnt(IDX_OTHER_BASE), 2);
    assert_eq!(sme.get_state_enter_cnt(IDX_OTHER), 2);
    assert_eq!(sme.get_state_process_cnt(IDX_OTHER), 2);
    assert_eq!(sme.get_state_exit_cnt(IDX_OTHER), 2);

    sme.dispatch(&NoMessages);
    assert_eq!(sme.get_state_enter_cnt(IDX_INITIAL_BASE), 3);
    assert_eq!(sme.get_state_process_cnt(IDX_INITIAL_BASE), 0);
    assert_eq!(sme.get_state_exit_cnt(IDX_INITIAL_BASE), 3);
    assert_eq!(sme.get_state_enter_cnt(IDX_INITIAL), 3);
    assert_eq!(sme.get_state_process_cnt(IDX_INITIAL), 3);
    assert_eq!(sme.get_state_exit_cnt(IDX_INITIAL), 3);
    assert_eq!(sme.get_state_enter_cnt(IDX_OTHER_BASE), 2);
    assert_eq!(sme.get_state_process_cnt(IDX_OTHER_BASE), 0);
    assert_eq!(sme.get_state_exit_cnt(IDX_OTHER_BASE), 2);
    assert_eq!(sme.get_state_enter_cnt(IDX_OTHER), 2);
    assert_eq!(sme.get_state_process_cnt(IDX_OTHER), 2);
    assert_eq!(sme.get_state_exit_cnt(IDX_OTHER), 2);
}
