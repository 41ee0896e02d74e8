use hsm0_with_executor::{BuildError, Deferrals, Executor, Handled, StateInfo, StateResult};

// The actions that ran, in order.
type Log = Vec<String>;

#[derive(Debug)]
enum Msg {
    // Ask the current leaf to go to a state.
    Go(usize),
    // Handled by the leaf, no transition.
    Stay,
    // Handled by no state.
    Nobody,
    // Left to the parent by the leaves; the parent goes to a state.
    ParentGo(usize),
    // The leaf asks for the first state and leaves the message to the
    // parent, which asks for the second.
    Both(usize, usize),
}

const ROOT: usize = 0;
const MID: usize = 1;
const LEAF_A: usize = 2;
const LEAF_B: usize = 3;
const SOLO: usize = 4;

fn leaf(name: &'static str, log: &mut Log, msg: &Msg) -> StateResult {
    log.push(format!("{name}:process"));
    match msg {
        Msg::Go(d) => (Handled::Yes, Some(*d)),
        Msg::Stay => (Handled::Yes, None),
        Msg::Nobody | Msg::ParentGo(_) => (Handled::No, None),
        Msg::Both(d, _) => (Handled::No, Some(*d)),
    }
}

fn composite(name: &'static str, log: &mut Log, msg: &Msg) -> StateResult {
    log.push(format!("{name}:process"));
    match msg {
        Msg::ParentGo(d) => (Handled::Yes, Some(*d)),
        Msg::Both(_, d) => (Handled::Yes, Some(*d)),
        _ => (Handled::No, None),
    }
}

fn root(log: &mut Log, _e: &mut Deferrals<Msg>, msg: &Msg) -> StateResult {
    composite("root", log, msg)
}

fn mid(log: &mut Log, _e: &mut Deferrals<Msg>, msg: &Msg) -> StateResult {
    composite("mid", log, msg)
}

fn leaf_a(log: &mut Log, _e: &mut Deferrals<Msg>, msg: &Msg) -> StateResult {
    leaf("a", log, msg)
}

fn leaf_b(log: &mut Log, _e: &mut Deferrals<Msg>, msg: &Msg) -> StateResult {
    leaf("b", log, msg)
}

fn solo(log: &mut Log, _e: &mut Deferrals<Msg>, msg: &Msg) -> StateResult {
    leaf("solo", log, msg)
}

//       root=0
//         ^
//         |
//       mid=1            solo=4
//      ^     ^
//      |     |
//    a=2     b=3
fn tree() -> Executor<Log, Msg> {
    Executor::new(Vec::new(), 5)
        .state(
            StateInfo::new("root", root)
                .enter_fn(|log: &mut Log, _msg: &Msg| log.push("root:enter".to_string()))
                .exit_fn(|log: &mut Log, _msg: &Msg| log.push("root:exit".to_string())),
        )
        .state(
            StateInfo::new("mid", mid)
                .enter_fn(|log: &mut Log, _msg: &Msg| log.push("mid:enter".to_string()))
                .exit_fn(|log: &mut Log, _msg: &Msg| log.push("mid:exit".to_string()))
                .parent_idx(ROOT),
        )
        .state(
            StateInfo::new("a", leaf_a)
                .enter_fn(|log: &mut Log, _msg: &Msg| log.push("a:enter".to_string()))
                .exit_fn(|log: &mut Log, _msg: &Msg| log.push("a:exit".to_string()))
                .parent_idx(MID),
        )
        .state(
            StateInfo::new("b", leaf_b)
                .enter_fn(|log: &mut Log, _msg: &Msg| log.push("b:enter".to_string()))
                .exit_fn(|log: &mut Log, _msg: &Msg| log.push("b:exit".to_string()))
                .parent_idx(MID),
        )
        .state(
            StateInfo::new("solo", solo)
                .enter_fn(|log: &mut Log, _msg: &Msg| log.push("solo:enter".to_string()))
                .exit_fn(|log: &mut Log, _msg: &Msg| log.push("solo:exit".to_string())),
        )
        .build(LEAF_A)
        .expect("no cycle")
}

fn counts(sme: &Executor<Log, Msg>, idx: usize) -> (usize, usize, usize) {
    (
        sme.get_state_enter_cnt(idx),
        sme.get_state_process_cnt(idx),
        sme.get_state_exit_cnt(idx),
    )
}

#[test]
fn test_build_enters_nothing() {
    let sme = tree();
    assert!(sme.get_sm().is_empty());
    assert_eq!(sme.get_current_state_name(), "a");
    for idx in 0..5 {
        assert_eq!(counts(&sme, idx), (0, 0, 0));
    }
}

#[test]
fn test_first_dispatch_enters_from_the_root_down() {
    let mut sme = tree();
    assert!(!sme.dispatch(&Msg::Stay));
    assert_eq!(*sme.get_sm(), ["root:enter", "mid:enter", "a:enter", "a:process"]);
    assert_eq!(counts(&sme, ROOT), (1, 0, 0));
    assert_eq!(counts(&sme, MID), (1, 0, 0));
    assert_eq!(counts(&sme, LEAF_A), (1, 1, 0));
}

#[test]
fn test_dispatch_without_transition_counts_only_the_leaf() {
    let mut sme = tree();
    sme.dispatch(&Msg::Stay);
    for round in 2..6 {
        assert!(!sme.dispatch(&Msg::Stay));
        assert_eq!(counts(&sme, ROOT), (1, 0, 0));
        assert_eq!(counts(&sme, MID), (1, 0, 0));
        assert_eq!(counts(&sme, LEAF_A), (1, round, 0));
        assert_eq!(counts(&sme, LEAF_B), (0, 0, 0));
        assert_eq!(counts(&sme, SOLO), (0, 0, 0));
    }
}

#[test]
fn test_transition_below_a_composite_state_leaves_it_alone() {
    let mut sme = tree();
    assert!(sme.dispatch(&Msg::Go(LEAF_B)));
    // The exit is made at once, the entry with the next dispatch.
    assert_eq!(
        *sme.get_sm(),
        ["root:enter", "mid:enter", "a:enter", "a:process", "a:exit"]
    );
    assert_eq!(sme.get_current_state_name(), "b");
    assert!(sme.dispatch(&Msg::Go(LEAF_A)));
    assert_eq!(sme.get_sm()[5..], ["b:enter", "b:process", "b:exit"]);
    assert!(!sme.dispatch(&Msg::Stay));
    assert_eq!(sme.get_sm()[8..], ["a:enter", "a:process"]);
    assert_eq!(counts(&sme, ROOT), (1, 0, 0));
    assert_eq!(counts(&sme, MID), (1, 0, 0));
    assert_eq!(counts(&sme, LEAF_A), (2, 2, 1));
    assert_eq!(counts(&sme, LEAF_B), (1, 1, 1));
}

#[test]
fn test_transition_out_of_a_tree_exits_from_the_leaf_up() {
    let mut sme = tree();
    assert!(sme.dispatch(&Msg::Go(SOLO)));
    assert_eq!(
        *sme.get_sm(),
        [
            "root:enter",
            "mid:enter",
            "a:enter",
            "a:process",
            "a:exit",
            "mid:exit",
            "root:exit"
        ]
    );
    assert!(sme.dispatch(&Msg::Go(LEAF_B)));
    assert_eq!(sme.get_sm()[7..], ["solo:enter", "solo:process", "solo:exit"]);
    assert!(!sme.dispatch(&Msg::Stay));
    assert_eq!(
        sme.get_sm()[10..],
        ["root:enter", "mid:enter", "b:enter", "b:process"]
    );
    assert_eq!(counts(&sme, ROOT), (2, 0, 1));
    assert_eq!(counts(&sme, MID), (2, 0, 1));
    assert_eq!(counts(&sme, LEAF_A), (1, 1, 1));
    assert_eq!(counts(&sme, LEAF_B), (1, 1, 0));
    assert_eq!(counts(&sme, SOLO), (1, 1, 1));
}

#[test]
fn test_transition_to_the_current_leaf_exits_and_enters_it() {
    let mut sme = tree();
    assert!(sme.dispatch(&Msg::Go(LEAF_A)));
    assert_eq!(
        *sme.get_sm(),
        ["root:enter", "mid:enter", "a:enter", "a:process", "a:exit"]
    );
    assert!(!sme.dispatch(&Msg::Stay));
    assert_eq!(sme.get_sm()[5..], ["a:enter", "a:process"]);
    assert_eq!(counts(&sme, ROOT), (1, 0, 0));
    assert_eq!(counts(&sme, MID), (1, 0, 0));
    assert_eq!(counts(&sme, LEAF_A), (2, 2, 1));
}

#[test]
fn test_unhandled_message_bubbles_to_the_root_and_is_dropped() {
    let mut sme = tree();
    assert!(!sme.dispatch(&Msg::Nobody));
    assert_eq!(
        sme.get_sm()[3..],
        ["a:process", "mid:process", "root:process"]
    );
    assert_eq!(counts(&sme, ROOT), (1, 1, 0));
    assert_eq!(counts(&sme, MID), (1, 1, 0));
    assert_eq!(counts(&sme, LEAF_A), (1, 1, 0));
    assert_eq!(sme.get_current_state_name(), "a");
}

#[test]
fn test_parent_can_ask_for_the_transition() {
    let mut sme = tree();
    assert!(sme.dispatch(&Msg::ParentGo(SOLO)));
    assert_eq!(
        sme.get_sm()[3..],
        ["a:process", "mid:process", "a:exit", "mid:exit", "root:exit"]
    );
    assert_eq!(sme.get_current_state_name(), "solo");
    assert_eq!(counts(&sme, ROOT), (1, 0, 1));
}

#[test]
fn test_first_transition_asked_for_wins() {
    let mut sme = tree();
    assert!(sme.dispatch(&Msg::Both(LEAF_B, SOLO)));
    assert_eq!(sme.get_sm()[3..], ["a:process", "mid:process", "a:exit"]);
    assert_eq!(sme.get_current_state_name(), "b");
}

#[test]
fn test_dispatch_idx_starts_at_the_given_state() {
    let mut sme = tree();
    sme.dispatch_idx(&Msg::ParentGo(LEAF_B), MID);
    assert_eq!(
        *sme.get_sm(),
        ["root:enter", "mid:enter", "a:enter", "mid:process", "a:exit"]
    );
    assert_eq!(counts(&sme, LEAF_A), (1, 0, 1));
    assert_eq!(counts(&sme, MID), (1, 1, 0));
    assert_eq!(sme.get_current_state_name(), "b");
}

fn quiet(_sm: &mut (), _e: &mut Deferrals<usize>, _msg: &usize) -> StateResult {
    (Handled::Yes, None)
}

fn jump(_sm: &mut (), _e: &mut Deferrals<usize>, msg: &usize) -> StateResult {
    (Handled::Yes, Some(*msg))
}

//        s=0
//      ^     ^
//      |     |
//     a=1   b=2
//      ^     ^
//      |     |
//    a1=3  b1=4
//
// Only s counts its entries and exits; a and b have no actions at all.
#[test]
fn test_states_without_actions_are_active_all_the_same() {
    let mut sme = Executor::new((), 5)
        .state(
            StateInfo::new("s", quiet)
                .enter_fn(|_sm: &mut (), _msg: &usize| {})
                .exit_fn(|_sm: &mut (), _msg: &usize| {}),
        )
        .state(StateInfo::new("a", quiet).parent_idx(0))
        .state(StateInfo::new("b", quiet).parent_idx(0))
        .state(StateInfo::new("a1", jump).parent_idx(1))
        .state(StateInfo::new("b1", jump).parent_idx(2))
        .build(3)
        .expect("no cycle");
    for dest in [4, 3, 4, 4, 3] {
        assert!(sme.dispatch(&dest));
    }
    // All the transitions stayed below s.
    assert_eq!(sme.get_state_enter_cnt(0), 1);
    assert_eq!(sme.get_state_exit_cnt(0), 0);
    for idx in 1..5 {
        assert_eq!(sme.get_state_enter_cnt(idx), 0);
        assert_eq!(sme.get_state_exit_cnt(idx), 0);
    }
    assert_eq!(sme.get_state_process_cnt(3), 2);
    assert_eq!(sme.get_state_process_cnt(4), 3);
}

#[test]
fn test_transition_targets_are_the_leaves() {
    let sme = tree();
    assert!(!sme.is_transition_target(ROOT));
    assert!(!sme.is_transition_target(MID));
    assert!(sme.is_transition_target(LEAF_A));
    assert!(sme.is_transition_target(LEAF_B));
    assert!(sme.is_transition_target(SOLO));
    assert!(!sme.is_transition_target(5));
    assert!(sme.has_valid_parents());
}

#[test]
fn test_missing_parent_is_found() {
    let registry = Executor::new((), 2)
        .state(StateInfo::new("a", quiet))
        .state(StateInfo::new("b", quiet).parent_idx(2));
    assert!(!registry.has_valid_parents());
    assert!(registry.is_transition_target(0));
    assert!(registry.is_transition_target(1));
    let registry = registry.state(StateInfo::new("c", quiet));
    assert!(registry.has_valid_parents());
    assert!(!registry.is_transition_target(2));
}

#[test]
fn test_cycle_above_a_leaf_is_detected() {
    //  0 <-> 1 <- 2
    let r = Executor::new((), 3)
        .state(StateInfo::new("s0", quiet).parent_idx(1))
        .state(StateInfo::new("s1", quiet).parent_idx(0))
        .state(StateInfo::new("s2", quiet).parent_idx(1))
        .build(2);
    match r {
        Ok(_) => panic!("a cycle was not detected"),
        Err(e) => {
            assert!(matches!(e, BuildError::CycleDetected));
            assert_eq!(e.to_string(), "Cycle detected");
        }
    }
}

#[test]
fn test_deep_chain_and_wide_tree_have_no_cycle() {
    // 0 <- 1 <- 2 <- 3 <- 4, and 5, 6, 7 under 0.
    let mut registry = Executor::new((), 8).state(StateInfo::new("s0", quiet));
    for idx in 1..5 {
        registry = registry.state(StateInfo::new("chain", quiet).parent_idx(idx - 1));
    }
    for _ in 5..8 {
        registry = registry.state(StateInfo::new("wide", jump).parent_idx(0));
    }
    let mut sme = registry.build(4).expect("no cycle");
    assert_eq!(sme.get_state_name(4), "chain");
    assert!(!sme.dispatch(&4));
    for idx in 0..5 {
        assert_eq!(sme.get_state_process_cnt(idx), if idx == 4 { 1 } else { 0 });
    }
}

#[test]
fn test_state_info_starts_inactive_and_uncounted() {
    let info: StateInfo<(), usize> = StateInfo::new("state1", quiet);
    assert_eq!(info.name, "state1");
    assert_eq!(info.parent, None);
    assert!(info.enter.is_none());
    assert!(info.exit.is_none());
    assert!(!info.active);
    assert_eq!((info.enter_cnt, info.process_cnt, info.exit_cnt), (0, 0, 0));
    let info = info
        .parent_idx(7)
        .enter_fn(|_sm: &mut (), _msg: &usize| {})
        .exit_fn(|_sm: &mut (), _msg: &usize| {});
    assert_eq!(info.parent, Some(7));
    assert!(info.enter.is_some());
    assert!(info.exit.is_some());
}

#[test]
fn test_checked_build_refuses_what_build_may_not_get() {
    // A parent that is no state.
    let registry = Executor::new((), 2)
        .state(StateInfo::new("a", quiet))
        .state(StateInfo::new("b", quiet).parent_idx(2));
    assert!(registry.checked_build(0).is_none());
    // An initial state that is no state, or no leaf, where there is no cycle.
    let registry = Executor::new((), 2)
        .state(StateInfo::new("a", quiet))
        .state(StateInfo::new("b", quiet).parent_idx(0));
    assert!(registry.checked_build(2).is_none());
    let registry = Executor::new((), 2)
        .state(StateInfo::new("a", quiet))
        .state(StateInfo::new("b", quiet).parent_idx(0));
    assert!(registry.checked_build(0).is_none());
    // No state at all.
    let registry: Executor<(), usize> = Executor::new((), 0);
    assert!(registry.checked_build(0).is_none());
}

#[test]
fn test_checked_build_reports_a_cycle_before_the_initial_state() {
    //  0 <-> 1     2
    let registry = Executor::new((), 3)
        .state(StateInfo::new("s0", quiet).parent_idx(1))
        .state(StateInfo::new("s1", quiet).parent_idx(0))
        .state(StateInfo::new("s2", quiet));
    assert!(matches!(
        registry.checked_build(0),
        Some(Err(BuildError::CycleDetected))
    ));
    // A cycle and no leaf at all.
    let registry = Executor::new((), 2)
        .state(StateInfo::new("s0", quiet).parent_idx(1))
        .state(StateInfo::new("s1", quiet).parent_idx(0));
    assert!(matches!(
        registry.checked_build(5),
        Some(Err(BuildError::CycleDetected))
    ));
}

#[test]
fn test_checked_build_builds_what_build_builds() {
    let registry = Executor::new((), 2)
        .state(StateInfo::new("a", quiet))
        .state(StateInfo::new("b", jump).parent_idx(0));
    let mut sme = registry
        .checked_build(1)
        .expect("the initial state is a leaf")
        .expect("no cycle");
    assert_eq!(sme.get_current_state_name(), "b");
    assert!(sme.dispatch(&1));
    assert_eq!(sme.get_state_process_cnt(1), 1);
    assert_eq!(sme.get_state_process_cnt(0), 0);
}

#[test]
fn test_states_are_added_inactive() {
    let mut parent: StateInfo<(), usize> = StateInfo::new("parent", quiet)
        .enter_fn(|_sm: &mut (), _msg: &usize| {})
        .exit_fn(|_sm: &mut (), _msg: &usize| {});
    parent.active = true;
    let mut sme = Executor::new((), 3)
        .state(parent)
        .state(StateInfo::new("a", jump).parent_idx(0))
        .state(StateInfo::new("b", jump))
        .build(2)
        .expect("no cycle");
    // The parent is entered on the way from b to a, whatever its flag said.
    assert!(sme.dispatch(&1));
    assert_eq!(sme.get_state_enter_cnt(0), 0);
    assert!(sme.dispatch(&2));
    assert_eq!(sme.get_state_enter_cnt(0), 1);
    assert_eq!(sme.get_state_exit_cnt(0), 1);
}
