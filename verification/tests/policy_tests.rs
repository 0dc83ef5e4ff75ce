use block_sleep::duration::WaitDuration;
use block_sleep::policy::{
    check_preconditions, decide_tick, first_exited, run, PreconditionError, RaceOutcome,
    RunConfig, WaitMode,
};

#[test]
fn run_selects_single_process_mode() {
    let plan = run(RunConfig {
        pid: Some(42),
        pid_first: None,
        pid_all: None,
        time: Some(WaitDuration { secs: 9, nanos: 0 }),
    });
    assert_eq!(plan.mode, WaitMode::SingleProcess(42));
    assert_eq!(plan.timer, Some(WaitDuration { secs: 9, nanos: 0 }));
}

#[test]
fn run_selects_any_of_set_mode() {
    let plan = run(RunConfig {
        pid: None,
        pid_first: Some(vec![1, 2, 3]),
        pid_all: None,
        time: None,
    });
    assert_eq!(plan.mode, WaitMode::AnyOfSet(vec![1, 2, 3]));
    assert_eq!(plan.timer, None);
}

#[test]
fn run_selects_all_of_set_mode() {
    let plan = run(RunConfig {
        pid: None,
        pid_first: None,
        pid_all: Some(vec![7, 8]),
        time: None,
    });
    assert_eq!(plan.mode, WaitMode::AllOfSet(vec![7, 8]));
    assert_eq!(plan.timer, None);
}

#[test]
fn run_selects_duration_only_mode() {
    let plan = run(RunConfig {
        pid: None,
        pid_first: None,
        pid_all: None,
        time: Some(WaitDuration { secs: 0, nanos: 0 }),
    });
    assert_eq!(plan.mode, WaitMode::DurationOnly);
    assert_eq!(plan.timer, Some(WaitDuration { secs: 0, nanos: 0 }));
}

#[test]
fn run_selects_indefinite_mode() {
    let plan = run(RunConfig { pid: None, pid_first: None, pid_all: None, time: None });
    assert_eq!(plan.mode, WaitMode::Indefinite);
    assert_eq!(plan.timer, None);
}

#[test]
fn single_process_dead_at_start_is_fatal() {
    // The run must fail before any lease is taken.
    let mode = WaitMode::SingleProcess(4242);
    let r = check_preconditions(&mode, &vec![false]);
    assert_eq!(r, Err(PreconditionError::NoSuchProcess(4242)));
}

#[test]
fn single_process_alive_at_start_passes() {
    let mode = WaitMode::SingleProcess(1);
    let r = check_preconditions(&mode, &vec![true]);
    assert_eq!(r, Ok(vec![]));
}

#[test]
fn any_of_set_dead_member_at_start_is_fatal() {
    let mode = WaitMode::AnyOfSet(vec![10, 20, 30]);
    let r = check_preconditions(&mode, &vec![true, false, false]);
    assert_eq!(r, Err(PreconditionError::NoSuchProcess(20)));
}

#[test]
fn all_of_set_dead_member_at_start_only_warns() {
    let mode = WaitMode::AllOfSet(vec![10, 20, 30]);
    let r = check_preconditions(&mode, &vec![false, true, false]);
    assert_eq!(r, Ok(vec![10, 30]));
}

#[test]
fn timer_modes_have_no_preconditions() {
    assert_eq!(check_preconditions(&WaitMode::DurationOnly, &vec![]), Ok(vec![]));
    assert_eq!(check_preconditions(&WaitMode::Indefinite, &vec![]), Ok(vec![]));
}

#[test]
fn single_process_exit_satisfies() {
    let mode = WaitMode::SingleProcess(5);
    assert_eq!(decide_tick(&mode, false, &vec![true]), RaceOutcome::StillWaiting);
    assert_eq!(decide_tick(&mode, false, &vec![false]), RaceOutcome::ConditionSatisfied);
}

#[test]
fn any_of_set_first_exit_satisfies_without_waiting_for_the_rest() {
    // A gone, B still running: the tick after A's exit already wins.
    let mode = WaitMode::AnyOfSet(vec![100, 200]);
    assert_eq!(decide_tick(&mode, false, &vec![true, true]), RaceOutcome::StillWaiting);
    assert_eq!(decide_tick(&mode, false, &vec![false, true]), RaceOutcome::ConditionSatisfied);
    assert_eq!(first_exited(&vec![false, true]), Some(0));
    assert_eq!(first_exited(&vec![true, true]), None);
}

#[test]
fn all_of_set_waits_for_every_exit() {
    // A missing from the start only warns; the wait goes on until B is
    // gone too.
    let mode = WaitMode::AllOfSet(vec![100, 200]);
    assert_eq!(
        check_preconditions(&mode, &vec![false, true]),
        Ok(vec![100])
    );
    assert_eq!(decide_tick(&mode, false, &vec![false, true]), RaceOutcome::StillWaiting);
    assert_eq!(decide_tick(&mode, false, &vec![false, true]), RaceOutcome::StillWaiting);
    assert_eq!(decide_tick(&mode, false, &vec![false, true]), RaceOutcome::StillWaiting);
    assert_eq!(decide_tick(&mode, false, &vec![false, false]), RaceOutcome::ConditionSatisfied);
}

#[test]
fn duration_only_times_out_as_soon_as_the_timer_fires() {
    let mode = WaitMode::DurationOnly;
    assert_eq!(decide_tick(&mode, true, &vec![]), RaceOutcome::TimedOut);
    assert_eq!(decide_tick(&mode, false, &vec![]), RaceOutcome::StillWaiting);
}

#[test]
fn indefinite_mode_never_ends_on_its_own() {
    let mode = WaitMode::Indefinite;
    for _ in 0..1000 {
        assert_eq!(decide_tick(&mode, false, &vec![]), RaceOutcome::StillWaiting);
        assert_eq!(decide_tick(&mode, true, &vec![]), RaceOutcome::StillWaiting);
    }
}

#[test]
fn timeout_tie_break_is_deterministic() {
    // The watched process exits in the very tick the timer fires: the
    // timeout wins, every time.
    let single = WaitMode::SingleProcess(9);
    let any = WaitMode::AnyOfSet(vec![9, 10]);
    let all = WaitMode::AllOfSet(vec![9, 10]);
    for _ in 0..1000 {
        assert_eq!(decide_tick(&single, true, &vec![false]), RaceOutcome::TimedOut);
        assert_eq!(decide_tick(&any, true, &vec![false, false]), RaceOutcome::TimedOut);
        assert_eq!(decide_tick(&all, true, &vec![false, false]), RaceOutcome::TimedOut);
    }
}
