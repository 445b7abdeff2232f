//! The periodic worker's decision core: coalescing a drained batch of
//! control messages into at most one step, the atomically replaced state
//! snapshot, and the idempotent shutdown of the task.

use vstd::prelude::*;

verus! {

/// A control message for a periodic task. A forced update carries the
/// caller's notify handle.
#[derive(Clone, Copy, PartialEq, Eq, Structural)]
pub enum Control {
    /// Stop the task.
    Stop,
    /// An ordinary tick.
    Update,
    /// A forced update; the handle is signalled after the step.
    ForceUpdate(u64),
}

/// Is a stop among the drained messages?
pub open spec fn spec_has_stop(cs: Seq<Control>) -> bool {
    exists|i: int| 0 <= i < cs.len() && (#[trigger] cs[i]) is Stop
}

/// The notify handles of the drained forced updates, in arrival order.
pub open spec fn spec_notify_handles(cs: Seq<Control>) -> Seq<u64>
    decreases cs.len(),
{
    if cs.len() == 0 {
        Seq::empty()
    } else {
        let rest = spec_notify_handles(cs.drop_last());
        match cs.last() {
            Control::ForceUpdate(h) => rest.push(h),
            _ => rest,
        }
    }
}

/// What one drained batch amounts to: stop, or one step; every collected
/// notify handle is signalled afterwards.
pub struct ControlDecision {
    pub stop: bool,
    pub run_step: bool,
    pub notifies: Vec<u64>,
}

/// Coalesce one drained batch: any stop wins; otherwise a non-empty batch
/// triggers exactly one step; the notify handles of all forced updates are
/// collected in order.
pub fn coalesce_controls(controls: &Vec<Control>) -> (d: ControlDecision)
    ensures
        d.stop == spec_has_stop(controls@),
        d.run_step == (!d.stop && controls@.len() > 0),
        d.notifies@ == spec_notify_handles(controls@),
{
    let mut stop = false;
    let mut notifies: Vec<u64> = Vec::new();
    let n = controls.len();
    let mut i: usize = 0;
    proof {
        assert(controls@.take(0) =~= Seq::<Control>::empty());
    }
    while i < n
        invariant
            i <= n,
            n == controls.len(),
            stop == spec_has_stop(controls@.take(i as int)),
            notifies@ == spec_notify_handles(controls@.take(i as int)),
        decreases n - i,
    {
        proof {
            assert(controls@.take(i as int + 1).drop_last() =~= controls@.take(i as int));
            assert(controls@.take(i as int + 1).last() == controls@[i as int]);
        }
        let ghost pre = controls@.take(i as int);
        match controls[i] {
            Control::Stop => {
                stop = true;
                proof {
                    assert(controls@.take(i as int + 1)[i as int] is Stop);
                }
            },
            Control::Update => {},
            Control::ForceUpdate(h) => {
                notifies.push(h);
            },
        }
        proof {
            let nxt = controls@.take(i as int + 1);
            assert(spec_has_stop(nxt) == (spec_has_stop(pre) || controls@[i as int] is Stop)) by {
                if spec_has_stop(pre) {
                    let j = choose|j: int| 0 <= j < pre.len() && (#[trigger] pre[j]) is Stop;
                    assert(nxt[j] is Stop);
                }
                if spec_has_stop(nxt) {
                    let j = choose|j: int| 0 <= j < nxt.len() && (#[trigger] nxt[j]) is Stop;
                    if j < i as int {
                        assert(pre[j] is Stop);
                    }
                }
            }
        }
        i += 1;
    }
    proof {
        assert(controls@.take(n as int) =~= controls@);
    }
    ControlDecision { stop, run_step: !stop && n > 0, notifies }
}

/// Force-update coalescing: when the drained batch consists of forced
/// updates only, it triggers exactly one step, and every caller's notify
/// handle is collected exactly once, in order.
pub proof fn lemma_force_update_coalescing(cs: Seq<Control>)
    requires
        cs.len() > 0,
        forall|i: int| 0 <= i < cs.len() ==> (#[trigger] cs[i]) is ForceUpdate,
    ensures
        !spec_has_stop(cs),
        spec_notify_handles(cs).len() == cs.len(),
        forall|i: int|
            0 <= i < cs.len() ==> #[trigger] spec_notify_handles(cs)[i] == cs[i]->ForceUpdate_0,
    decreases cs.len(),
{
    assert(cs.drop_last() =~= cs.take(cs.len() - 1));
    assert(cs.last() is ForceUpdate);
    let rest = spec_notify_handles(cs.drop_last());
    assert(spec_notify_handles(cs) == rest.push(cs.last()->ForceUpdate_0));
    if cs.len() > 1 {
        lemma_force_update_coalescing(cs.drop_last());
        assert forall|i: int|
            0 <= i < cs.len() implies #[trigger] spec_notify_handles(cs)[i]
            == cs[i]->ForceUpdate_0 by {
            if i < cs.len() - 1 {
                assert(spec_notify_handles(cs)[i] == rest[i]);
                assert(cs.drop_last()[i] == cs[i]);
            }
        }
    } else {
        assert(rest =~= Seq::<u64>::empty());
        assert(spec_notify_handles(cs)[0] == cs[0]->ForceUpdate_0);
    }
}

/// The lifecycle phase of a periodic task.
#[derive(Clone, Copy, PartialEq, Eq, Structural, Debug)]
pub enum PeriodicPhase {
    /// The task runs; a shutdown must stop it and await its exit.
    Running,
    /// The task has already been stopped or was never running.
    Stopped,
}

/// What a shutdown request has to do in each phase.
#[derive(Clone, Copy, PartialEq, Eq, Structural, Debug)]
pub enum ShutdownAction {
    /// Post a stop and await the task's exit.
    StopAndJoin,
    /// Nothing: shutting down an already stopped task is a no-op.
    Nothing,
}

/// One shutdown request: the phase after it, and what it must do.
pub open spec fn spec_shutdown(phase: PeriodicPhase) -> (PeriodicPhase, ShutdownAction) {
    match phase {
        PeriodicPhase::Running => (PeriodicPhase::Stopped, ShutdownAction::StopAndJoin),
        PeriodicPhase::Stopped => (PeriodicPhase::Stopped, ShutdownAction::Nothing),
    }
}

/// Take one shutdown request.
pub fn shutdown_step(phase: PeriodicPhase) -> (r: (PeriodicPhase, ShutdownAction))
    ensures
        r == spec_shutdown(phase),
{
    match phase {
        PeriodicPhase::Running => (PeriodicPhase::Stopped, ShutdownAction::StopAndJoin),
        PeriodicPhase::Stopped => (PeriodicPhase::Stopped, ShutdownAction::Nothing),
    }
}

/// Shutdown idempotence: after any first shutdown the task is stopped, and
/// a second shutdown does nothing and does not fail.
pub proof fn lemma_shutdown_idempotent(phase: PeriodicPhase)
    ensures
        spec_shutdown(phase).0 == PeriodicPhase::Stopped,
        spec_shutdown(spec_shutdown(phase).0) == (PeriodicPhase::Stopped, ShutdownAction::Nothing),
{
}

/// The periodic's state snapshot slot: one writer replaces the value, any
/// reader sees the value most recently written.
pub struct StateHolder<S> {
    state: S,
}

impl<S> StateHolder<S> {
    /// The currently held snapshot.
    pub closed spec fn spec_state(&self) -> S {
        self.state
    }

    pub fn new(state: S) -> (r: Self)
        ensures
            r.spec_state() == state,
    {
        StateHolder { state }
    }

    /// Replace the snapshot.
    pub fn set(&mut self, state: S)
        ensures
            final(self).spec_state() == state,
    {
        self.state = state;
    }

    /// Read the current snapshot.
    pub fn get(&self) -> (r: &S)
        ensures
            *r == self.spec_state(),
    {
        &self.state
    }
}

/// What one step leaves in the snapshot slot: the step's new state, or the
/// previous one when the step failed.
pub fn resolve_step<S, E>(prev: S, result: Result<S, E>) -> (r: S)
    ensures
        match result {
            Ok(next) => r == next,
            Err(_) => r == prev,
        },
{
    match result {
        Ok(next) => next,
        Err(_) => prev,
    }
}

} // verus!
