//! The strategy runner's tick: advance one strategy over its aligned candle
//! packs, buffering one context per processed tick, moving the cursor only
//! forward, and driving the status machine — `Failed` on a critical error,
//! `Finished` once a bounded window is exhausted, `Running` otherwise.

use vstd::prelude::*;

use crate::instruments::Figi;
use crate::market_data::Candle;
use crate::strategy::{
    spec_execute, StrategyExecution, StrategyExecutionError, StrategyExecutionStatus,
    StrategyInstance, StrategyState, StrategyStateView,
};

verus! {

/// What a run over a pack sequence produces: the buffered contexts, the
/// final cursor, and whether a critical failure ended it.
pub struct TickRun {
    pub contexts: Seq<(i64, StrategyStateView)>,
    pub cursor: i64,
    pub failed: bool,
}

/// Run the strategy over the packs in order: each successful tick buffers a
/// context and moves the cursor forward to the tick's timestamp; a critical
/// failure stops the run as failed; a retryable failure stops it quietly.
pub open spec fn spec_run_ticks(
    s: StrategyInstance,
    cursor: i64,
    state: StrategyStateView,
    packs: Seq<(i64, Vec<(Figi, Candle)>)>,
) -> TickRun
    decreases packs.len(),
{
    if packs.len() == 0 {
        TickRun { contexts: Seq::empty(), cursor, failed: false }
    } else {
        let ts = packs.first().0;
        match spec_execute(s, ts, packs.first().1@, state) {
            Ok(st) => {
                let ncur = if ts > cursor {
                    ts
                } else {
                    cursor
                };
                let rest = spec_run_ticks(s, ncur, st, packs.drop_first());
                TickRun {
                    contexts: seq![(ts, st)] + rest.contexts,
                    cursor: rest.cursor,
                    failed: rest.failed,
                }
            },
            Err(StrategyExecutionError::CriticalFailure) => TickRun {
                contexts: Seq::empty(),
                cursor,
                failed: true,
            },
            Err(StrategyExecutionError::ExecutionFailure) => TickRun {
                contexts: Seq::empty(),
                cursor,
                failed: false,
            },
        }
    }
}

/// A run never moves the cursor back, buffers contexts for a prefix of the
/// packs in order, and ends at the last buffered timestamp or where it
/// began.
pub proof fn lemma_run_ticks_shape(
    s: StrategyInstance,
    cursor: i64,
    state: StrategyStateView,
    packs: Seq<(i64, Vec<(Figi, Candle)>)>,
)
    ensures
        ({
            let run = spec_run_ticks(s, cursor, state, packs);
            &&& run.cursor >= cursor
            &&& run.contexts.len() <= packs.len()
            &&& forall|k: int|
                0 <= k < run.contexts.len() ==> (#[trigger] run.contexts[k]).0 == packs[k].0
        }),
    decreases packs.len(),
{
    if packs.len() > 0 {
        let ts = packs.first().0;
        match spec_execute(s, ts, packs.first().1@, state) {
            Ok(st) => {
                let ncur: i64 = if ts > cursor {
                    ts
                } else {
                    cursor
                };
                lemma_run_ticks_shape(s, ncur, st, packs.drop_first());
                let rest = spec_run_ticks(s, ncur, st, packs.drop_first());
                let run = spec_run_ticks(s, cursor, state, packs);
                assert forall|k: int| 0 <= k < run.contexts.len() implies (
                #[trigger] run.contexts[k]).0 == packs[k].0 by {
                    if k > 0 {
                        assert(rest.contexts[k - 1].0 == packs.drop_first()[k - 1].0);
                    }
                }
            },
            Err(_) => {},
        }
    }
}

/// The timestamps of buffered contexts, with the states as abstract values.
pub open spec fn context_views(contexts: Seq<(i64, StrategyState)>) -> Seq<
    (i64, StrategyStateView),
> {
    Seq::new(contexts.len(), |k: int| (contexts[k].0, contexts[k].1@))
}

/// One runner tick for one strategy. A strategy that is not `Running` is
/// left untouched. Otherwise the strategy runs over the packs; the record's
/// cursor follows the run, the status becomes `Failed` on a critical
/// failure, `Finished` when the window is bounded and exhausted, and stays
/// `Running` otherwise. The cursor never moves back.
pub fn exec_strategy(
    strategy: &StrategyInstance,
    execution: &mut StrategyExecution,
    time_to: Option<i64>,
    last_state: StrategyState,
    packs: &Vec<(i64, Vec<(Figi, Candle)>)>,
) -> (contexts: Vec<(i64, StrategyState)>)
    requires
        last_state.well_formed(),
    ensures
        final(execution).last_execution_timestamp >= old(execution).last_execution_timestamp,
        old(execution).status != StrategyExecutionStatus::Running ==> *final(execution) == *old(
            execution,
        ) && contexts@.len() == 0,
        old(execution).status == StrategyExecutionStatus::Running ==> ({
            let run = spec_run_ticks(
                *strategy,
                old(execution).last_execution_timestamp,
                last_state@,
                packs@,
            );
            &&& context_views(contexts@) == run.contexts
            &&& final(execution).last_execution_timestamp == run.cursor
            &&& final(execution).status == (if run.failed {
                StrategyExecutionStatus::Failed
            } else if time_to is Some && run.cursor >= time_to->0 {
                StrategyExecutionStatus::Finished
            } else {
                StrategyExecutionStatus::Running
            })
        }),
        forall|k: int|
            0 <= k < contexts@.len() ==> (#[trigger] contexts@[k]).1.well_formed(),
{
    let mut contexts: Vec<(i64, StrategyState)> = Vec::new();
    match execution.status() {
        StrategyExecutionStatus::Running => {},
        _ => {
            return contexts;
        },
    }
    let ghost cursor0 = execution.last_execution_timestamp;
    let ghost full = spec_run_ticks(*strategy, execution.last_execution_timestamp, last_state@, packs@);
    proof {
        lemma_run_ticks_shape(
            *strategy,
            execution.last_execution_timestamp,
            last_state@,
            packs@,
        );
    }
    let n = packs.len();
    let mut i: usize = 0;
    let mut state = last_state;
    proof {
        assert(packs@.skip(0) =~= packs@);
        assert(context_views(contexts@) + full.contexts =~= full.contexts);
    }
    while i < n
        invariant_except_break
            i <= n,
            n == packs.len(),
            state.well_formed(),
            execution.status == StrategyExecutionStatus::Running,
            execution.last_execution_timestamp >= cursor0,
            ({
                let rest = spec_run_ticks(
                    *strategy,
                    execution.last_execution_timestamp,
                    state@,
                    packs@.skip(i as int),
                );
                &&& full.contexts == context_views(contexts@) + rest.contexts
                &&& full.cursor == rest.cursor
                &&& full.failed == rest.failed
            }),
            forall|k: int|
                0 <= k < contexts@.len() ==> (#[trigger] contexts@[k]).1.well_formed(),
        ensures
            full.contexts == context_views(contexts@),
            full.cursor == execution.last_execution_timestamp,
            full.failed == (execution.status == StrategyExecutionStatus::Failed),
            execution.status == StrategyExecutionStatus::Running || execution.status
                == StrategyExecutionStatus::Failed,
            execution.last_execution_timestamp >= cursor0,
            forall|k: int|
                0 <= k < contexts@.len() ==> (#[trigger] contexts@[k]).1.well_formed(),
        decreases n - i,
    {
        let ts = packs[i].0;
        let ghost rem = packs@.skip(i as int);
        proof {
            assert(rem.first() == packs@[i as int]);
            assert(rem.drop_first() =~= packs@.skip(i as int + 1));
        }
        let result = strategy.execute(ts, &packs[i].1, state);
        match result {
            Ok(st) => {
                let ghost pre_contexts = contexts@;
                contexts.push((ts, st.clone()));
                if ts > execution.last_execution_timestamp() {
                    execution.set_last_execution_timestamp(ts);
                }
                proof {
                    assert(context_views(contexts@) =~= context_views(pre_contexts).push(
                        (ts, st@),
                    ));
                    let rest = spec_run_ticks(
                        *strategy,
                        execution.last_execution_timestamp,
                        st@,
                        packs@.skip(i as int + 1),
                    );
                    assert(full.contexts =~= context_views(contexts@) + rest.contexts);
                }
                state = st;
            },
            Err(StrategyExecutionError::CriticalFailure) => {
                execution.set_status(StrategyExecutionStatus::Failed);
                proof {
                    assert(context_views(contexts@) =~= context_views(contexts@)
                        + Seq::<(i64, StrategyStateView)>::empty());
                }
                break ;
            },
            Err(StrategyExecutionError::ExecutionFailure) => {
                proof {
                    assert(context_views(contexts@) =~= context_views(contexts@)
                        + Seq::<(i64, StrategyStateView)>::empty());
                }
                break ;
            },
        }
        i += 1;
    }
    proof {
        if execution.status == StrategyExecutionStatus::Running {
            assert(packs@.skip(n as int) =~= Seq::<(i64, Vec<(Figi, Candle)>)>::empty());
        }
    }
    if let StrategyExecutionStatus::Running = execution.status() {
        if let Some(tt) = time_to {
            if execution.last_execution_timestamp() >= tt {
                execution.set_status(StrategyExecutionStatus::Finished);
            }
        }
    }
    contexts
}

/// Load or initialise the execution record before a tick: a strategy never
/// run starts `Running` at its window's start; the freshest durable context
/// at or after the cursor resumes the state and may pull the cursor forward.
pub fn init_execution(
    stored: Option<StrategyExecution>,
    time_from: i64,
    recent: Vec<(i64, StrategyState)>,
) -> (r: (StrategyExecution, StrategyState))
    requires
        forall|k: int| 0 <= k < recent@.len() ==> (#[trigger] recent@[k]).1.well_formed(),
    ensures
        r.1.well_formed(),
        ({
            let base = match stored {
                Some(e) => e,
                None => StrategyExecution {
                    status: StrategyExecutionStatus::Running,
                    last_execution_timestamp: time_from,
                },
            };
            if recent@.len() > 0 {
                let last = recent@.last();
                &&& r.1@ == last.1@
                &&& r.0.status == base.status
                &&& r.0.last_execution_timestamp == (if last.0 > base.last_execution_timestamp {
                    last.0
                } else {
                    base.last_execution_timestamp
                })
            } else {
                &&& r.0 == base
                &&& r.1.signals@.len() == 0
                &&& r.1.indicators@.len() == 0
            }
        }),
{
    let mut execution = match stored {
        Some(e) => e,
        None => StrategyExecution::new(StrategyExecutionStatus::Running, time_from),
    };
    let mut contexts = recent;
    let n = contexts.len();
    if n == 0 {
        return (execution, StrategyState::new());
    }
    let (ts, state) = contexts.remove(n - 1);
    if ts > execution.last_execution_timestamp() {
        execution.set_last_execution_timestamp(ts);
    }
    (execution, state)
}

/// The end of a tick's window: a bounded definition ends at its bound, an
/// open one at the present.
pub fn window_end(time_to: Option<i64>, now: i64) -> (r: i64)
    ensures
        r == match time_to {
            Some(t) => t,
            None => now,
        },
{
    match time_to {
        Some(t) => t,
        None => now,
    }
}

} // verus!
