//! The wait policy: which condition ends the wait, what one polling
//! tick decides, and which checks run before the wait begins.
//!
//! The loop that sleeps between ticks, the timer thread and the probes
//! live outside; they hand this module the timer signal and the
//! liveness samples of one tick, and it decides.

use crate::duration::WaitDuration;
use vstd::prelude::*;

verus! {

/// Which condition ends the wait. Exactly one mode is active per run.
#[derive(Debug, PartialEq)]
pub enum WaitMode {
    /// Wait until the one process is gone.
    SingleProcess(u32),
    /// Wait until any one of the processes is gone.
    AnyOfSet(Vec<u32>),
    /// Wait until all of the processes are gone.
    AllOfSet(Vec<u32>),
    /// Wait for the timer alone.
    DurationOnly,
    /// Wait until something outside ends the run.
    Indefinite,
}

/// What one polling tick concluded.
#[derive(Debug, Clone, Copy, PartialEq, Eq, Structural)]
pub enum RaceOutcome {
    /// The timer fired before the process condition held.
    TimedOut,
    /// The process condition holds.
    ConditionSatisfied,
    /// Neither ended the wait; poll again.
    StillWaiting,
}

/// Why the run refuses to start.
#[derive(Debug, Clone, Copy, PartialEq, Eq, Structural)]
pub enum PreconditionError {
    /// The named process was not running when the run began.
    NoSuchProcess(u32),
}

impl WaitMode {
    /// How many liveness samples one tick of this mode reads.
    pub open spec fn pid_count(&self) -> nat {
        match self {
            WaitMode::SingleProcess(_) => 1,
            WaitMode::AnyOfSet(v) => v@.len(),
            WaitMode::AllOfSet(v) => v@.len(),
            WaitMode::DurationOnly => 0,
            WaitMode::Indefinite => 0,
        }
    }
}

/// The process condition of the mode, over one tick's liveness
/// samples: the one process is gone, some process is gone, or all
/// processes are gone. The timer-only and indefinite modes have none.
pub open spec fn spec_condition_satisfied(mode: WaitMode, running: Seq<bool>) -> bool {
    match mode {
        WaitMode::SingleProcess(_) => running.len() > 0 && !running[0],
        WaitMode::AnyOfSet(_) => exists|i: int| 0 <= i < running.len() && !running[i],
        WaitMode::AllOfSet(_) => forall|i: int| 0 <= i < running.len() ==> !running[i],
        WaitMode::DurationOnly => false,
        WaitMode::Indefinite => false,
    }
}

/// What one tick decides. The timer is read first, so when the timer
/// fires in the same tick in which the process condition first holds,
/// the tick reports the timeout: that is the documented tie-break. The
/// indefinite mode has no timer and never ends on its own.
pub open spec fn spec_tick_outcome(mode: WaitMode, timer_fired: bool, running: Seq<bool>)
    -> RaceOutcome {
    if timer_fired && !(mode is Indefinite) {
        RaceOutcome::TimedOut
    } else if spec_condition_satisfied(mode, running) {
        RaceOutcome::ConditionSatisfied
    } else {
        RaceOutcome::StillWaiting
    }
}

/// Decides one polling tick from the timer signal and the liveness
/// samples, exactly as [`spec_tick_outcome`] says.
#[verifier::loop_isolation(false)]
pub fn decide_tick(mode: &WaitMode, timer_fired: bool, running: &Vec<bool>) -> (r: RaceOutcome)
    requires
        running@.len() == mode.pid_count(),
    ensures
        r == spec_tick_outcome(*mode, timer_fired, running@),
{
    if timer_fired && !(matches!(mode, WaitMode::Indefinite)) {
        return RaceOutcome::TimedOut;
    }
    match mode {
        WaitMode::SingleProcess(_) => {
            if !running[0] {
                RaceOutcome::ConditionSatisfied
            } else {
                RaceOutcome::StillWaiting
            }
        },
        WaitMode::AnyOfSet(_) => {
            let mut i: usize = 0;
            while i < running.len()
                invariant
                    i <= running@.len(),
                    forall|k: int| 0 <= k < i ==> running@[k],
                decreases running@.len() - i,
            {
                if !running[i] {
                    return RaceOutcome::ConditionSatisfied;
                }
                i = i + 1;
            }
            RaceOutcome::StillWaiting
        },
        WaitMode::AllOfSet(_) => {
            let mut i: usize = 0;
            while i < running.len()
                invariant
                    i <= running@.len(),
                    forall|k: int| 0 <= k < i ==> !running@[k],
                decreases running@.len() - i,
            {
                if running[i] {
                    return RaceOutcome::StillWaiting;
                }
                i = i + 1;
            }
            RaceOutcome::ConditionSatisfied
        },
        WaitMode::DurationOnly => RaceOutcome::StillWaiting,
        WaitMode::Indefinite => RaceOutcome::StillWaiting,
    }
}

/// Index of the first process observed gone, with everything before it
/// still running; `None` when every process still runs. Names which
/// process ended an any-of wait.
#[verifier::loop_isolation(false)]
pub fn first_exited(running: &Vec<bool>) -> (r: Option<usize>)
    ensures
        match r {
            Some(i) => i < running@.len() && !running@[i as int] && forall|k: int|
                0 <= k < i ==> running@[k],
            None => forall|k: int| 0 <= k < running@.len() ==> running@[k],
        },
{
    let mut i: usize = 0;
    while i < running.len()
        invariant
            i <= running@.len(),
            forall|k: int| 0 <= k < i ==> running@[k],
        decreases running@.len() - i,
    {
        if !running[i] {
            return Some(i);
        }
        i = i + 1;
    }
    None
}

/// Index of the first `false` in a sample sequence; the length when
/// there is none.
pub open spec fn first_false(s: Seq<bool>) -> int
    decreases s.len(),
{
    if s.len() == 0 {
        0
    } else if !s[0] {
        0
    } else {
        1 + first_false(s.drop_first())
    }
}

proof fn lemma_first_false_at(s: Seq<bool>, i: int)
    requires
        0 <= i < s.len(),
        !s[i],
        forall|k: int| 0 <= k < i ==> s[k],
    ensures
        first_false(s) == i,
    decreases i,
{
    if i == 0 {
    } else {
        assert(s[0]);
        assert(s.drop_first()[i - 1] == s[i]);
        assert(forall|k: int| 0 <= k < i - 1 ==> s.drop_first()[k] == s[k + 1]);
        lemma_first_false_at(s.drop_first(), i - 1);
    }
}

/// The pids an all-of wait warns about before it starts: those not
/// running at entry, in the order given.
pub open spec fn spec_warn_list(pids: Seq<u32>, running: Seq<bool>) -> Seq<u32>
    decreases pids.len(),
{
    if pids.len() == 0 || running.len() != pids.len() {
        Seq::<u32>::empty()
    } else {
        let init = spec_warn_list(pids.drop_last(), running.drop_last());
        if running.last() {
            init
        } else {
            init.push(pids.last())
        }
    }
}

/// The checks that run once, before any lease is taken. A process
/// already gone is fatal when waiting on one process or on the first of
/// a set, and only worth a warning when waiting on all of a set; the
/// returned list holds the pids to warn about, in order.
#[verifier::loop_isolation(false)]
pub fn check_preconditions(mode: &WaitMode, running: &Vec<bool>) -> (r: Result<
    Vec<u32>,
    PreconditionError,
>)
    requires
        running@.len() == mode.pid_count(),
    ensures
        *mode matches WaitMode::SingleProcess(p) ==> (if running@[0] {
            r matches Ok(w) && w@ == Seq::<u32>::empty()
        } else {
            r == Err::<Vec<u32>, PreconditionError>(PreconditionError::NoSuchProcess(p))
        }),
        *mode matches WaitMode::AnyOfSet(v) ==> (if (forall|k: int|
            0 <= k < running@.len() ==> running@[k]) {
            r matches Ok(w) && w@ == Seq::<u32>::empty()
        } else {
            r == Err::<Vec<u32>, PreconditionError>(
                PreconditionError::NoSuchProcess(v@[first_false(running@)]),
            )
        }),
        *mode matches WaitMode::AllOfSet(v) ==> (r matches Ok(w) && w@ == spec_warn_list(
            v@,
            running@,
        )),
        (*mode is DurationOnly || *mode is Indefinite) ==> (r matches Ok(w) && w@
            == Seq::<u32>::empty()),
{
    match mode {
        WaitMode::SingleProcess(p) => {
            if running[0] {
                Ok(Vec::new())
            } else {
                Err(PreconditionError::NoSuchProcess(*p))
            }
        },
        WaitMode::AnyOfSet(v) => {
            let mut i: usize = 0;
            while i < running.len()
                invariant
                    i <= running@.len(),
                    running@.len() == v@.len(),
                    forall|k: int| 0 <= k < i ==> running@[k],
                decreases running@.len() - i,
            {
                if !running[i] {
                    proof {
                        lemma_first_false_at(running@, i as int);
                    }
                    return Err(PreconditionError::NoSuchProcess(v[i]));
                }
                i = i + 1;
            }
            Ok(Vec::new())
        },
        WaitMode::AllOfSet(v) => {
            let mut w: Vec<u32> = Vec::new();
            let mut i: usize = 0;
            while i < running.len()
                invariant
                    i <= running@.len(),
                    running@.len() == v@.len(),
                    w@ == spec_warn_list(v@.take(i as int), running@.take(i as int)),
                decreases running@.len() - i,
            {
                proof {
                    assert(v@.take(i as int + 1).drop_last() =~= v@.take(i as int));
                    assert(running@.take(i as int + 1).drop_last() =~= running@.take(i as int));
                    assert(v@.take(i as int + 1).last() == v@[i as int]);
                    assert(running@.take(i as int + 1).last() == running@[i as int]);
                }
                if !running[i] {
                    w.push(v[i]);
                }
                i = i + 1;
            }
            proof {
                assert(v@.take(v@.len() as int) =~= v@);
                assert(running@.take(running@.len() as int) =~= running@);
            }
            Ok(w)
        },
        WaitMode::DurationOnly => Ok(Vec::new()),
        WaitMode::Indefinite => Ok(Vec::new()),
    }
}

/// The arguments a run starts from, already parsed: at most one of the
/// three process selections, and an optional time limit.
pub struct RunConfig {
    pub pid: Option<u32>,
    pub pid_first: Option<Vec<u32>>,
    pub pid_all: Option<Vec<u32>>,
    pub time: Option<WaitDuration>,
}

/// What a run will do: its mode, and the timer to start if any.
pub struct WaitPlan {
    pub mode: WaitMode,
    pub timer: Option<WaitDuration>,
}

/// Decides what the run does: a single pid selects the one-process
/// wait, else a first-of set, else an all-of set, else a plain timed
/// wait when a time is given, else the indefinite wait. The timer is
/// the given time, and no timer at all in the indefinite case.
pub fn run(config: RunConfig) -> (r: WaitPlan)
    ensures
        match config.pid {
            Some(p) => r.mode == WaitMode::SingleProcess(p) && r.timer == config.time,
            None => match config.pid_first {
                Some(v) => r.mode matches WaitMode::AnyOfSet(w) && w@ == v@ && r.timer
                    == config.time,
                None => match config.pid_all {
                    Some(v) => r.mode matches WaitMode::AllOfSet(w) && w@ == v@ && r.timer
                        == config.time,
                    None => match config.time {
                        Some(t) => r.mode is DurationOnly && r.timer == Some(t),
                        None => r.mode is Indefinite && r.timer is None,
                    },
                },
            },
        },
{
    match config.pid {
        Some(p) => WaitPlan { mode: WaitMode::SingleProcess(p), timer: config.time },
        None => {
            match config.pid_first {
                Some(v) => WaitPlan { mode: WaitMode::AnyOfSet(v), timer: config.time },
                None => {
                    match config.pid_all {
                        Some(v) => WaitPlan { mode: WaitMode::AllOfSet(v), timer: config.time },
                        None => {
                            match config.time {
                                Some(t) => WaitPlan {
                                    mode: WaitMode::DurationOnly,
                                    timer: Some(t),
                                },
                                None => WaitPlan { mode: WaitMode::Indefinite, timer: None },
                            }
                        },
                    }
                },
            }
        },
    }
}

/// The indefinite mode never ends on its own: whatever a tick observes,
/// it reports that the wait goes on.
pub proof fn lemma_indefinite_never_exits(timer_fired: bool, running: Seq<bool>)
    ensures
        spec_tick_outcome(WaitMode::Indefinite, timer_fired, running)
            == RaceOutcome::StillWaiting,
{
}

/// The tie-break is deterministic: in every mode that can time out, a
/// tick in which the timer has fired reports the timeout, even when the
/// process condition holds in the same tick.
pub proof fn lemma_timeout_tie_break(mode: WaitMode, running: Seq<bool>)
    requires
        !(mode is Indefinite),
    ensures
        spec_tick_outcome(mode, true, running) == RaceOutcome::TimedOut,
{
}

} // verus!
