//! Enter / exit transitions of widgets with an opening and a closing animation.
use vstd::prelude::*;

verus! {

/// Tracks an enter / exit transition.
#[derive(Clone, Copy, PartialEq, Eq, Debug)]
pub enum BistableTransitionState {
    /// Opening animation.
    Entering,
    /// Fully open.
    Entered,
    /// Closing animation.
    Exiting,
    /// Fully closed.
    Exited,
}

impl BistableTransitionState {
    /// Converts the state into a readable name.
    pub fn as_name(&self) -> (r: &'static str)
        ensures
            r@ == match *self {
                BistableTransitionState::Entering => "entering"@,
                BistableTransitionState::Entered => "entered"@,
                BistableTransitionState::Exiting => "exiting"@,
                BistableTransitionState::Exited => "exited"@,
            },
    {
        match self {
            BistableTransitionState::Entering => "entering",
            BistableTransitionState::Entered => "entered",
            BistableTransitionState::Exiting => "exiting",
            BistableTransitionState::Exited => "exited",
        }
    }
}

impl Default for BistableTransitionState {
    /// The default state: fully closed.
    fn default() -> (r: Self)
        ensures
            r == BistableTransitionState::Exited,
    {
        BistableTransitionState::Exited
    }
}

/// The state a new transition starts in: opening if it is open, otherwise fully closed.
pub open spec fn spec_initial_state(open: bool) -> BistableTransitionState {
    if open {
        BistableTransitionState::Entering
    } else {
        BistableTransitionState::Exited
    }
}

/// The state a new transition starts in: opening if it is open, otherwise fully closed.
pub fn initial_state(open: bool) -> (r: BistableTransitionState)
    ensures
        r == spec_initial_state(open),
{
    if open {
        BistableTransitionState::Entering
    } else {
        BistableTransitionState::Exited
    }
}

/// Whether a dialog driven by the transition is on screen: in every phase but `Exited`.
pub fn is_shown(state: BistableTransitionState) -> (r: bool)
    ensures
        r == (state != BistableTransitionState::Exited),
{
    match state {
        BistableTransitionState::Exited => false,
        _ => true,
    }
}

/// Whether a dialog's backdrop fades towards opaque (entering or entered) rather than
/// towards transparent (exiting or exited).
pub fn backdrop_opaque(state: BistableTransitionState) -> (r: bool)
    ensures
        r == (state == BistableTransitionState::Entering || state
            == BistableTransitionState::Entered),
{
    match state {
        BistableTransitionState::Entering | BistableTransitionState::Entered => true,
        BistableTransitionState::Exiting | BistableTransitionState::Exited => false,
    }
}

/// The scale a dialog animates from and to in a phase, each either zero (`false`) or full
/// size (`true`): it grows while entering, shrinks while exiting, and holds otherwise.
pub fn dialog_scale(state: BistableTransitionState) -> (r: (bool, bool))
    ensures
        r == match state {
            BistableTransitionState::Entering => (false, true),
            BistableTransitionState::Exiting => (true, false),
            BistableTransitionState::Entered => (true, true),
            BistableTransitionState::Exited => (false, false),
        },
{
    match state {
        BistableTransitionState::Entering => (false, true),
        BistableTransitionState::Exiting => (true, false),
        BistableTransitionState::Entered => (true, true),
        BistableTransitionState::Exited => (false, false),
    }
}

/// What happens to the transition's timer in one frame.
#[derive(Clone, Copy, PartialEq, Eq, Debug)]
pub enum TimerAction {
    /// Leave the timer as it is.
    Keep,
    /// Add the frame's duration to the timer.
    Advance,
    /// Set the timer to zero.
    Reset,
}

/// The outcome of one frame of a transition.
#[derive(Clone, Copy, PartialEq, Eq, Debug)]
pub struct TransitionStep {
    pub state: BistableTransitionState,
    pub timer: TimerAction,
    /// Run the "exited" callback.
    pub notify_exited: bool,
}

/// One frame of a transition. `expired` says whether the timer, advanced by this frame's
/// duration, would exceed the transition's delay.
pub open spec fn spec_transition_step(
    state: BistableTransitionState,
    open: bool,
    expired: bool,
) -> TransitionStep {
    match state {
        BistableTransitionState::Entering => if open {
            TransitionStep {
                state: if expired {
                    BistableTransitionState::Entered
                } else {
                    BistableTransitionState::Entering
                },
                timer: TimerAction::Advance,
                notify_exited: false,
            }
        } else {
            TransitionStep {
                state: BistableTransitionState::Exiting,
                timer: TimerAction::Reset,
                notify_exited: false,
            }
        },
        BistableTransitionState::Entered => if !open {
            TransitionStep {
                state: BistableTransitionState::Exiting,
                timer: TimerAction::Reset,
                notify_exited: false,
            }
        } else {
            TransitionStep { state, timer: TimerAction::Keep, notify_exited: false }
        },
        BistableTransitionState::Exiting => if open {
            TransitionStep {
                state: BistableTransitionState::Entering,
                timer: TimerAction::Reset,
                notify_exited: false,
            }
        } else if expired {
            TransitionStep {
                state: BistableTransitionState::Exited,
                timer: TimerAction::Advance,
                notify_exited: true,
            }
        } else {
            TransitionStep { state, timer: TimerAction::Advance, notify_exited: false }
        },
        BistableTransitionState::Exited => if open {
            TransitionStep {
                state: BistableTransitionState::Entering,
                timer: TimerAction::Reset,
                notify_exited: false,
            }
        } else {
            TransitionStep { state, timer: TimerAction::Keep, notify_exited: false }
        },
    }
}

/// Runs one frame of the enter / exit state machine.
pub fn transition_step(state: BistableTransitionState, open: bool, expired: bool) -> (r:
    TransitionStep)
    ensures
        r == spec_transition_step(state, open, expired),
{
    match state {
        BistableTransitionState::Entering => {
            if open {
                TransitionStep {
                    state: if expired {
                        BistableTransitionState::Entered
                    } else {
                        BistableTransitionState::Entering
                    },
                    timer: TimerAction::Advance,
                    notify_exited: false,
                }
            } else {
                TransitionStep {
                    state: BistableTransitionState::Exiting,
                    timer: TimerAction::Reset,
                    notify_exited: false,
                }
            }
        },
        BistableTransitionState::Entered => {
            if !open {
                TransitionStep {
                    state: BistableTransitionState::Exiting,
                    timer: TimerAction::Reset,
                    notify_exited: false,
                }
            } else {
                TransitionStep { state, timer: TimerAction::Keep, notify_exited: false }
            }
        },
        BistableTransitionState::Exiting => {
            if open {
                TransitionStep {
                    state: BistableTransitionState::Entering,
                    timer: TimerAction::Reset,
                    notify_exited: false,
                }
            } else if expired {
                TransitionStep {
                    state: BistableTransitionState::Exited,
                    timer: TimerAction::Advance,
                    notify_exited: true,
                }
            } else {
                TransitionStep { state, timer: TimerAction::Advance, notify_exited: false }
            }
        },
        BistableTransitionState::Exited => {
            if open {
                TransitionStep {
                    state: BistableTransitionState::Entering,
                    timer: TimerAction::Reset,
                    notify_exited: false,
                }
            } else {
                TransitionStep { state, timer: TimerAction::Keep, notify_exited: false }
            }
        },
    }
}

/// The resting state for an open flag: fully open or fully closed.
pub open spec fn resting_state(open: bool) -> BistableTransitionState {
    if open {
        BistableTransitionState::Entered
    } else {
        BistableTransitionState::Exited
    }
}

/// Law: when the delay has elapsed, a transition reaches the resting state of its open
/// flag within two frames, from any state, and then stays there.
pub proof fn law_transition_settles(state: BistableTransitionState, open: bool)
    ensures
        ({
            let s1 = spec_transition_step(state, open, true).state;
            let s2 = spec_transition_step(s1, open, true).state;
            &&& s2 == resting_state(open)
            &&& spec_transition_step(s2, open, true).state == resting_state(open)
            &&& spec_transition_step(s2, open, false).state == resting_state(open)
        }),
{
}

/// Law: the "exited" callback runs exactly when a closing transition completes, and a
/// transition never moves toward closed while it is open, nor toward open while closed.
pub proof fn law_transition_direction(state: BistableTransitionState, open: bool, expired: bool)
    ensures
        spec_transition_step(state, open, expired).notify_exited <==> (state
            == BistableTransitionState::Exiting && !open && expired),
        open ==> spec_transition_step(state, open, expired).state != BistableTransitionState::Exiting
            && spec_transition_step(state, open, expired).state != BistableTransitionState::Exited,
        !open ==> spec_transition_step(state, open, expired).state
            != BistableTransitionState::Entering && spec_transition_step(
            state,
            open,
            expired,
        ).state != BistableTransitionState::Entered,
{
}

/// Law: a dialog driven by a transition disappears exactly in the frame in which its
/// exiting phase runs out (the frame that runs the "exited" callback), and an open one is
/// always on screen.
pub proof fn law_dialog_visibility(state: BistableTransitionState, open: bool, expired: bool)
    ensures
        (state != BistableTransitionState::Exited && spec_transition_step(state, open, expired).state
            == BistableTransitionState::Exited) <==> spec_transition_step(
            state,
            open,
            expired,
        ).notify_exited,
        open ==> spec_transition_step(state, open, expired).state
            != BistableTransitionState::Exited,
{
}

/// Law: while a transition is in a timed phase (opening while open, or closing while
/// closed) every frame advances its timer, whether or not the delay runs out in it.
pub proof fn law_timed_phases_advance(expired: bool)
    ensures
        spec_transition_step(BistableTransitionState::Entering, true, expired).timer
            == TimerAction::Advance,
        spec_transition_step(BistableTransitionState::Exiting, false, expired).timer
            == TimerAction::Advance,
{
}

/// The timer after one frame of duration `dt`.
pub open spec fn apply_timer(timer: int, action: TimerAction, dt: int) -> int {
    match action {
        TimerAction::Keep => timer,
        TimerAction::Advance => timer + dt,
        TimerAction::Reset => 0,
    }
}

/// State and timer after `n` frames of duration `dt` with a fixed open flag: each frame
/// finds the delay run out when the timer advanced by the frame exceeds `delay`. Durations
/// are counted in whole units of one fixed size.
pub open spec fn run_frames(
    state: BistableTransitionState,
    timer: int,
    open: bool,
    delay: int,
    dt: int,
    n: nat,
) -> (BistableTransitionState, int)
    decreases n,
{
    if n == 0 {
        (state, timer)
    } else {
        let step = spec_transition_step(state, open, timer + dt > delay);
        run_frames(step.state, apply_timer(timer, step.timer, dt), open, delay, dt, (n - 1) as nat)
    }
}

proof fn lemma_run_frames_split(
    state: BistableTransitionState,
    timer: int,
    open: bool,
    delay: int,
    dt: int,
    a: nat,
    b: nat,
)
    ensures
        ({
            let mid = run_frames(state, timer, open, delay, dt, a);
            run_frames(state, timer, open, delay, dt, a + b) == run_frames(
                mid.0,
                mid.1,
                open,
                delay,
                dt,
                b,
            )
        }),
    decreases a,
{
    if a > 0 {
        let step = spec_transition_step(state, open, timer + dt > delay);
        lemma_run_frames_split(
            step.state,
            apply_timer(timer, step.timer, dt),
            open,
            delay,
            dt,
            (a - 1) as nat,
            b,
        );
        assert((a + b - 1) as nat == ((a - 1) as nat + b) as nat);
    }
}

/// A timed phase with positive frames runs out: the number of frames after which an
/// opening (`open`) or closing (`!open`) transition reaches its resting state.
proof fn lemma_timed_phase_ends(open: bool, timer: int, delay: int, dt: int) -> (n: nat)
    requires
        dt > 0,
    ensures
        run_frames(timed_phase(open), timer, open, delay, dt, n).0 == resting_state(open),
    decreases (if delay - timer > 0 { delay - timer } else { 0 }),
{
    let state = timed_phase(open);
    if timer + dt > delay {
        assert(run_frames(state, timer, open, delay, dt, 1).0 == resting_state(open)) by {
            let step = spec_transition_step(state, open, true);
            assert(run_frames(step.state, timer + dt, open, delay, dt, 0).0 == step.state);
        }
        1
    } else {
        let m = lemma_timed_phase_ends(open, timer + dt, delay, dt);
        lemma_run_frames_split(state, timer, open, delay, dt, 1, m);
        assert(run_frames(state, timer, open, delay, dt, 1) == (state, timer + dt)) by {
            assert(run_frames(state, timer + dt, open, delay, dt, 0) == (state, timer + dt));
        }
        1 + m
    }
}

/// Law: with frames of positive duration and an open flag that stays as it is, a
/// transition reaches the resting state of that flag from any state and any timer value:
/// a closing dialog is eventually fully closed (and leaves the screen), an opening one
/// eventually fully open.
pub proof fn law_transition_completes(
    state: BistableTransitionState,
    timer: int,
    open: bool,
    delay: int,
    dt: int,
)
    requires
        dt > 0,
    ensures
        exists|n: nat| #[trigger] run_frames(state, timer, open, delay, dt, n).0 == resting_state(open),
{
    let timed = timed_phase(open);
    if state == resting_state(open) {
        assert(run_frames(state, timer, open, delay, dt, 0).0 == resting_state(open));
    } else if state == timed {
        let n = lemma_timed_phase_ends(open, timer, delay, dt);
        assert(run_frames(state, timer, open, delay, dt, n).0 == resting_state(open));
    } else {
        // One frame moves any other state into the timed phase with a reset timer.
        let step = spec_transition_step(state, open, timer + dt > delay);
        assert(step.state == timed && step.timer == TimerAction::Reset);
        let m = lemma_timed_phase_ends(open, 0, delay, dt);
        lemma_run_frames_split(state, timer, open, delay, dt, 1, m);
        assert(run_frames(state, timer, open, delay, dt, 1) == (timed, 0int)) by {
            assert(run_frames(timed, 0, open, delay, dt, 0) == (timed, 0int));
        }
        assert(run_frames(state, timer, open, delay, dt, 1 + m).0 == resting_state(open));
    }
}

/// The phase that times a transition toward the open flag: opening while open, closing
/// while closed.
pub open spec fn timed_phase(open: bool) -> BistableTransitionState {
    if open {
        BistableTransitionState::Entering
    } else {
        BistableTransitionState::Exiting
    }
}

/// Law: the timer advances exactly in the timed phase of the open flag, restarts exactly
/// when a frame turns the transition around (moves it into the timed phase from another
/// state), and is left alone otherwise (at rest).
pub proof fn law_timer_actions(state: BistableTransitionState, open: bool, expired: bool)
    ensures
        (spec_transition_step(state, open, expired).timer == TimerAction::Advance) <==> (state
            == timed_phase(open)),
        (spec_transition_step(state, open, expired).timer == TimerAction::Reset) <==> (state
            != timed_phase(open) && spec_transition_step(state, open, expired).state
            == timed_phase(open)),
        (spec_transition_step(state, open, expired).timer == TimerAction::Keep) <==> (state
            == resting_state(open)),
{
}

/// Law: a transition in its timed phase reaches its resting state in exactly the first
/// frame at which the timer, advanced by every frame so far, exceeds the delay; until
/// then it stays in the timed phase.
pub proof fn law_timed_phase_duration(open: bool, timer: int, delay: int, dt: int, n: nat)
    requires
        dt > 0,
        n > 0,
    ensures
        run_frames(timed_phase(open), timer, open, delay, dt, n).0 == if timer + n * dt > delay {
            resting_state(open)
        } else {
            timed_phase(open)
        },
    decreases n,
{
    let state = timed_phase(open);
    let m = (n - 1) as nat;
    let step = spec_transition_step(state, open, timer + dt > delay);
    assert(step.timer == TimerAction::Advance);
    assert(run_frames(state, timer, open, delay, dt, n) == run_frames(
        step.state,
        timer + dt,
        open,
        delay,
        dt,
        m,
    ));
    if timer + dt > delay {
        assert(step.state == resting_state(open));
        lemma_rest_stays(open, timer + dt, delay, dt, m);
        assert(timer + n * dt > delay) by (nonlinear_arith)
            requires
                timer + dt > delay,
                n > 0,
                dt > 0,
        ;
    } else if n == 1 {
        assert(step.state == state);
        assert(run_frames(state, timer + dt, open, delay, dt, 0).0 == state);
    } else {
        assert(step.state == state);
        law_timed_phase_duration(open, timer + dt, delay, dt, m);
        assert(timer + dt + m * dt == timer + n * dt) by (nonlinear_arith)
            requires
                m == n - 1,
        ;
    }
}

/// At rest with an unchanged open flag, a transition stays at rest.
proof fn lemma_rest_stays(open: bool, timer: int, delay: int, dt: int, n: nat)
    ensures
        run_frames(resting_state(open), timer, open, delay, dt, n).0 == resting_state(open),
    decreases n,
{
    if n > 0 {
        lemma_rest_stays(open, timer, delay, dt, (n - 1) as nat);
    }
}

} // verus!
