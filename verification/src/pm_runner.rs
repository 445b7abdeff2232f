//! The position-manager runner's tick: decide the window from the
//! strategies' cursors, gather each strategy's contexts inside it, join them
//! by timestamp into buckets, and move the manager's cursor forward.

use vstd::prelude::*;

use crate::position_manager::{PositionManagerExecutionState, PositionManagerInstanceOptions};
use crate::strategy::StrategyState;

verus! {

/// The context a strategy's timeline holds at `ts`, if any.
pub open spec fn ctx_lookup(tl: Seq<(i64, StrategyState)>, ts: int) -> Option<StrategyState>
    decreases tl.len(),
{
    if tl.len() == 0 {
        None
    } else if tl.last().0 as int == ts {
        Some(tl.last().1)
    } else {
        ctx_lookup(tl.drop_last(), ts)
    }
}

/// The timelines of `entries`, as sequences.
pub open spec fn ctx_timeline_views(entries: Seq<(u128, Vec<(i64, StrategyState)>)>) -> Seq<
    (u128, Seq<(i64, StrategyState)>),
> {
    Seq::new(entries.len(), |i: int| (entries[i].0, entries[i].1@))
}

/// The bucket at `ts`: for each strategy that has a context there, in entry
/// order, its id paired with that context.
pub open spec fn bucket_at(entries: Seq<(u128, Seq<(i64, StrategyState)>)>, ts: int) -> Seq<
    (u128, StrategyState),
>
    decreases entries.len(),
{
    if entries.len() == 0 {
        Seq::empty()
    } else {
        let rest = bucket_at(entries.drop_last(), ts);
        match ctx_lookup(entries.last().1, ts) {
            Some(c) => rest.push((entries.last().0, c)),
            None => rest,
        }
    }
}

/// Strictly ascending timestamps.
pub open spec fn ctx_tl_ascending(tl: Seq<(i64, StrategyState)>) -> bool {
    forall|i: int, j: int| 0 <= i < j < tl.len() ==> (#[trigger] tl[i]).0 < (#[trigger] tl[j]).0
}

/// Some bucket of `out` carries timestamp `ts`.
pub open spec fn bucket_key_in(out: Seq<(i64, Vec<(u128, StrategyState)>)>, ts: i64) -> bool {
    exists|k: int| 0 <= k < out.len() && (#[trigger] out[k]).0 == ts
}

/// `out` is `entries` joined by timestamp: one bucket per timestamp some
/// strategy holds, ascending, each bucket carrying exactly the strategies
/// with a context there.
pub open spec fn is_joined(
    out: Seq<(i64, Vec<(u128, StrategyState)>)>,
    entries: Seq<(u128, Seq<(i64, StrategyState)>)>,
) -> bool {
    &&& forall|k: int, l: int|
        0 <= k < l < out.len() ==> (#[trigger] out[k]).0 < (#[trigger] out[l]).0
    &&& forall|k: int|
        0 <= k < out.len() ==> (#[trigger] out[k]).1@ == bucket_at(entries, out[k].0 as int)
            && out[k].1@.len() > 0
    &&& forall|e: int, r: int|
        #![trigger entries[e].1[r]]
        0 <= e < entries.len() && 0 <= r < entries[e].1.len() ==> bucket_key_in(
            out,
            entries[e].1[r].0,
        )
}

/// A lookup hit is an element of the timeline; a miss means no element
/// carries that timestamp.
proof fn lemma_ctx_lookup_members(tl: Seq<(i64, StrategyState)>, ts: int)
    ensures
        ctx_lookup(tl, ts) is Some ==> exists|r: int|
            0 <= r < tl.len() && (#[trigger] tl[r]).0 as int == ts && tl[r].1 == ctx_lookup(
                tl,
                ts,
            )->0,
        ctx_lookup(tl, ts) is None ==> forall|r: int|
            0 <= r < tl.len() ==> (#[trigger] tl[r]).0 as int != ts,
    decreases tl.len(),
{
    if tl.len() > 0 {
        if tl.last().0 as int == ts {
            assert((tl[tl.len() - 1]).0 as int == ts && tl[tl.len() - 1].1 == ctx_lookup(
                tl,
                ts,
            )->0);
        } else {
            assert(tl.drop_last() =~= tl.take(tl.len() - 1));
            lemma_ctx_lookup_members(tl.drop_last(), ts);
            if ctx_lookup(tl, ts) is Some {
                let r = choose|r: int|
                    0 <= r < tl.drop_last().len() && (#[trigger] tl.drop_last()[r]).0 as int == ts
                        && tl.drop_last()[r].1 == ctx_lookup(tl.drop_last(), ts)->0;
                assert((tl[r]).0 as int == ts && tl[r].1 == ctx_lookup(tl, ts)->0);
            } else {
                assert forall|r: int| 0 <= r < tl.len() implies (#[trigger] tl[r]).0 as int
                    != ts by {
                    if r < tl.len() - 1 {
                        assert(tl.drop_last()[r] == tl[r]);
                    }
                }
            }
        }
    }
}

/// Adding one more entry leaves buckets at other timestamps unchanged and
/// appends to buckets the new entry covers.
proof fn lemma_bucket_at_push(
    entries: Seq<(u128, Seq<(i64, StrategyState)>)>,
    x: (u128, Seq<(i64, StrategyState)>),
    ts: int,
)
    ensures
        bucket_at(entries.push(x), ts) == match ctx_lookup(x.1, ts) {
            Some(c) => bucket_at(entries, ts).push((x.0, c)),
            None => bucket_at(entries, ts),
        },
{
    assert(entries.push(x).drop_last() =~= entries);
    assert(entries.push(x).last() == x);
}

/// A timestamp no element carries is not found.
proof fn lemma_ctx_lookup_absent(tl: Seq<(i64, StrategyState)>, ts: int)
    requires
        forall|r: int| 0 <= r < tl.len() ==> (#[trigger] tl[r]).0 as int != ts,
    ensures
        ctx_lookup(tl, ts) is None,
    decreases tl.len(),
{
    if tl.len() > 0 {
        assert(tl.drop_last() =~= tl.take(tl.len() - 1));
        lemma_ctx_lookup_absent(tl.drop_last(), ts);
    }
}

/// A timestamp no entry's timeline holds has an empty bucket.
proof fn lemma_bucket_at_absent(entries: Seq<(u128, Seq<(i64, StrategyState)>)>, ts: int)
    requires
        forall|e: int| 0 <= e < entries.len() ==> ctx_lookup((#[trigger] entries[e]).1, ts) is None,
    ensures
        bucket_at(entries, ts).len() == 0,
    decreases entries.len(),
{
    if entries.len() > 0 {
        assert(entries.drop_last() =~= entries.take(entries.len() - 1));
        lemma_bucket_at_absent(entries.drop_last(), ts);
    }
}

/// Join per-strategy context timelines (each ascending in time) into
/// per-timestamp buckets, ascending in time, strategies in input order.
pub fn join_contexts(entries: Vec<(u128, Vec<(i64, StrategyState)>)>) -> (out: Vec<
    (i64, Vec<(u128, StrategyState)>),
>)
    requires
        forall|e: int| 0 <= e < entries@.len() ==> ctx_tl_ascending((#[trigger] entries@[e]).1@),
    ensures
        is_joined(out@, ctx_timeline_views(entries@)),
{
    let ghost eviews = ctx_timeline_views(entries@);
    let mut out: Vec<(i64, Vec<(u128, StrategyState)>)> = Vec::new();
    let mut remaining = entries;
    let m = remaining.len();
    let mut e: usize = 0;
    while e < m
        invariant
            e <= m,
            m == eviews.len(),
            remaining@.len() == m - e,
            forall|e2: int|
                0 <= e2 < remaining@.len() ==> #[trigger] remaining@[e2] == (
                eviews[e + e2].0,
                remaining@[e2].1,
                ) && remaining@[e2].1@ == eviews[e + e2].1,
            forall|e2: int| 0 <= e2 < eviews.len() ==> ctx_tl_ascending((#[trigger] eviews[e2]).1),
            forall|k: int, l: int|
                0 <= k < l < out@.len() ==> (#[trigger] out@[k]).0 < (#[trigger] out@[l]).0,
            forall|k: int|
                0 <= k < out@.len() ==> (#[trigger] out@[k]).1@ == bucket_at(
                    eviews.take(e as int),
                    out@[k].0 as int,
                ) && out@[k].1@.len() > 0,
            forall|e2: int, r: int|
                #![trigger eviews[e2].1[r]]
                0 <= e2 < e && 0 <= r < eviews[e2].1.len() ==> bucket_key_in(
                    out@,
                    eviews[e2].1[r].0,
                ),
        decreases m - e,
    {
        let (sid, tl_vec) = remaining.remove(0);
        let ghost tl = eviews[e as int].1;
        let ghost prefix = eviews.take(e as int);
        let ghost next_prefix = eviews.take(e as int + 1);
        proof {
            assert(next_prefix =~= prefix.push(eviews[e as int]));
            assert(tl_vec@ == tl);
            assert(sid == eviews[e as int].0);
        }
        let tl_len = tl_vec.len();
        let mut rows = tl_vec;
        let mut r: usize = 0;
        proof {
            assert(tl.take(0) =~= Seq::<(i64, StrategyState)>::empty());
        }
        while r < tl_len
            invariant
                r <= tl_len,
                tl_len == tl.len(),
                rows@.len() == tl_len - r,
                forall|r2: int|
                    0 <= r2 < rows@.len() ==> #[trigger] rows@[r2] == tl[r + r2],
                ctx_tl_ascending(tl),
                prefix == eviews.take(e as int),
                next_prefix == prefix.push((sid, tl)),
                eviews[e as int] == (sid, tl),
                e < m,
                m == eviews.len(),
                forall|e2: int| 0 <= e2 < eviews.len() ==> ctx_tl_ascending(
                    (#[trigger] eviews[e2]).1,
                ),
                forall|k: int, l: int|
                    0 <= k < l < out@.len() ==> (#[trigger] out@[k]).0 < (#[trigger] out@[l]).0,
                forall|k: int|
                    0 <= k < out@.len() ==> (#[trigger] out@[k]).1@ == (match ctx_lookup(
                        tl.take(r as int),
                        out@[k].0 as int,
                    ) {
                        Some(c) => bucket_at(prefix, out@[k].0 as int).push((sid, c)),
                        None => bucket_at(prefix, out@[k].0 as int),
                    }) && out@[k].1@.len() > 0,
                forall|e2: int, r2: int|
                    #![trigger eviews[e2].1[r2]]
                    0 <= e2 < e && 0 <= r2 < eviews[e2].1.len() ==> bucket_key_in(
                        out@,
                        eviews[e2].1[r2].0,
                    ),
                forall|r2: int|
                    #![trigger tl[r2]]
                    0 <= r2 < r ==> bucket_key_in(out@, tl[r2].0),
            decreases tl_len - r,
        {
            let row = rows.remove(0);
            let ts = row.0;
            let c = row.1;
            proof {
                assert(row == tl[r as int]);
                assert(tl.take(r as int + 1) =~= tl.take(r as int).push((ts, c)));
                assert(tl.take(r as int + 1).drop_last() =~= tl.take(r as int));
                assert forall|r2: int| 0 <= r2 < tl.take(r as int).len() implies (#[trigger] tl.take(
                    r as int,
                )[r2]).0 as int != ts as int by {
                    assert(tl[r2].0 < tl[r as int].0);
                }
                lemma_ctx_lookup_absent(tl.take(r as int), ts as int);
            }
            let mut p: usize = 0;
            while p < out.len() && out[p].0 < ts
                invariant
                    p <= out.len(),
                    forall|k: int| 0 <= k < p ==> (#[trigger] out@[k]).0 < ts,
                decreases out.len() - p,
            {
                p += 1;
            }
            if p < out.len() && out[p].0 == ts {
                let ghost pre_out = out@;
                let bucket = &mut out[p];
                bucket.1.push((sid, c));
                proof {
                    assert forall|k: int| 0 <= k < out@.len() implies (#[trigger] out@[k]).1@ == (
                    match ctx_lookup(tl.take(r as int + 1), out@[k].0 as int) {
                        Some(cc) => bucket_at(prefix, out@[k].0 as int).push((sid, cc)),
                        None => bucket_at(prefix, out@[k].0 as int),
                    }) && out@[k].1@.len() > 0 by {
                        if k != p as int {
                            assert(out@[k] == pre_out[k]);
                            assert(out@[k].0 != ts);
                        } else {
                            assert(ctx_lookup(tl.take(r as int + 1), ts as int) == Some(c));
                        }
                    }
                    assert forall|r2: int| #![trigger tl[r2]] 0 <= r2 < r as int + 1 implies bucket_key_in(
                        out@,
                        tl[r2].0,
                    ) by {
                        if r2 < r as int {
                            assert(bucket_key_in(pre_out, tl[r2].0));
                            let k = choose|k: int|
                                0 <= k < pre_out.len() && (#[trigger] pre_out[k]).0 == tl[r2].0;
                            assert(out@[k].0 == tl[r2].0);
                        } else {
                            assert(out@[p as int].0 == tl[r2].0);
                        }
                    }
                    assert forall|e2: int, r2: int|
                        #![trigger eviews[e2].1[r2]]
                        0 <= e2 < e && 0 <= r2 < eviews[e2].1.len() implies bucket_key_in(
                        out@,
                        eviews[e2].1[r2].0,
                    ) by {
                        assert(bucket_key_in(pre_out, eviews[e2].1[r2].0));
                        let k = choose|k: int|
                            0 <= k < pre_out.len() && (#[trigger] pre_out[k]).0
                                == eviews[e2].1[r2].0;
                        assert(out@[k].0 == eviews[e2].1[r2].0);
                    }
                }
            } else {
                proof {
                    assert forall|k: int| 0 <= k < out@.len() implies (#[trigger] out@[k]).0 as int
                        != ts as int by {
                        if k >= p as int {
                            assert(out@[p as int].0 <= out@[k].0);
                        }
                    }
                    assert forall|e2: int| 0 <= e2 < prefix.len() implies ctx_lookup(
                        (#[trigger] prefix[e2]).1,
                        ts as int,
                    ) is None by {
                        assert(prefix[e2] == eviews[e2]);
                        if ctx_lookup(eviews[e2].1, ts as int) is Some {
                            lemma_ctx_lookup_members(eviews[e2].1, ts as int);
                            let r2 = choose|r2: int|
                                0 <= r2 < eviews[e2].1.len() && (#[trigger] eviews[e2].1[r2]).0
                                    as int == ts as int && eviews[e2].1[r2].1 == ctx_lookup(
                                    eviews[e2].1,
                                    ts as int,
                                )->0;
                            assert(bucket_key_in(out@, eviews[e2].1[r2].0));
                            let k = choose|k: int|
                                0 <= k < out@.len() && (#[trigger] out@[k]).0
                                    == eviews[e2].1[r2].0;
                        }
                    }
                    lemma_bucket_at_absent(prefix, ts as int);
                }
                let mut bucket: Vec<(u128, StrategyState)> = Vec::new();
                bucket.push((sid, c));
                let ghost new_bucket_view = bucket@;
                let ghost pre_out = out@;
                out.insert(p, (ts, bucket));
                proof {
                    assert(new_bucket_view =~= bucket_at(prefix, ts as int).push(
                        (sid, new_bucket_view[0].1),
                    ));
                    assert(ctx_lookup(tl.take(r as int + 1), ts as int) == Some(
                        new_bucket_view[0].1,
                    ));
                    assert forall|k: int, l: int| 0 <= k < l < out@.len() implies (
                    #[trigger] out@[k]).0 < (#[trigger] out@[l]).0 by {
                        if l < p as int {
                            assert(out@[k] == pre_out[k] && out@[l] == pre_out[l]);
                        } else if k > p as int {
                            assert(out@[k] == pre_out[k - 1] && out@[l] == pre_out[l - 1]);
                        } else if k < p as int && l == p as int {
                            assert(out@[k] == pre_out[k]);
                        } else if k == p as int && l > p as int {
                            assert(out@[l] == pre_out[l - 1]);
                            assert(!(pre_out[p as int].0 < ts));
                            if l - 1 > p as int {
                                assert(pre_out[p as int].0 < pre_out[l - 1].0);
                            }
                        } else {
                            assert(out@[k] == pre_out[k] && out@[l] == pre_out[l - 1]);
                            if k < l - 1 {
                                assert(pre_out[k].0 < pre_out[l - 1].0);
                            }
                        }
                    }
                    assert forall|k: int| 0 <= k < out@.len() implies (#[trigger] out@[k]).1@ == (
                    match ctx_lookup(tl.take(r as int + 1), out@[k].0 as int) {
                        Some(cc) => bucket_at(prefix, out@[k].0 as int).push((sid, cc)),
                        None => bucket_at(prefix, out@[k].0 as int),
                    }) && out@[k].1@.len() > 0 by {
                        if k < p as int {
                            assert(out@[k] == pre_out[k]);
                        } else if k > p as int {
                            assert(out@[k] == pre_out[k - 1]);
                        }
                    }
                    assert forall|r2: int| #![trigger tl[r2]] 0 <= r2 < r as int + 1 implies bucket_key_in(
                        out@,
                        tl[r2].0,
                    ) by {
                        if r2 < r as int {
                            assert(bucket_key_in(pre_out, tl[r2].0));
                            let k = choose|k: int|
                                0 <= k < pre_out.len() && (#[trigger] pre_out[k]).0 == tl[r2].0;
                            if k < p as int {
                                assert(out@[k].0 == tl[r2].0);
                            } else {
                                assert(out@[k + 1].0 == tl[r2].0);
                            }
                        } else {
                            assert(out@[p as int].0 == tl[r2].0);
                        }
                    }
                    assert forall|e2: int, r2: int|
                        #![trigger eviews[e2].1[r2]]
                        0 <= e2 < e && 0 <= r2 < eviews[e2].1.len() implies bucket_key_in(
                        out@,
                        eviews[e2].1[r2].0,
                    ) by {
                        assert(bucket_key_in(pre_out, eviews[e2].1[r2].0));
                        let k = choose|k: int|
                            0 <= k < pre_out.len() && (#[trigger] pre_out[k]).0
                                == eviews[e2].1[r2].0;
                        if k < p as int {
                            assert(out@[k].0 == eviews[e2].1[r2].0);
                        } else {
                            assert(out@[k + 1].0 == eviews[e2].1[r2].0);
                        }
                    }
                }
            }
            r += 1;
        }
        proof {
            assert(tl.take(tl_len as int) =~= tl);
            assert forall|k: int| 0 <= k < out@.len() implies (#[trigger] out@[k]).1@ == bucket_at(
                next_prefix,
                out@[k].0 as int,
            ) by {
                lemma_bucket_at_push(prefix, (sid, tl), out@[k].0 as int);
            }
        }
        e += 1;
    }
    proof {
        assert(eviews.take(m as int) =~= eviews);
    }
    out
}

/// What one manager tick decides before any context is read.
pub enum PmTickPlan {
    /// Backtest instances are skipped entirely.
    SkipBacktest,
    /// A referenced strategy has no execution state yet: skip this tick.
    SkipMissingStrategy,
    /// Read contexts on `(time_from, time_to]` and run the manager.
    Run { time_from: i64, time_to: i64 },
}

/// The smallest strategy cursor, if every referenced strategy has one.
pub open spec fn spec_min_cursor(cursors: Seq<Option<i64>>) -> Option<i64>
    decreases cursors.len(),
{
    if cursors.len() == 0 {
        None
    } else {
        match (spec_min_cursor(cursors.drop_last()), cursors.last()) {
            (_, Option::None) => None,
            (None, Some(c)) => if cursors.len() == 1 {
                Some(c)
            } else {
                None
            },
            (Some(m), Some(c)) => if c < m {
                Some(c)
            } else {
                Some(m)
            },
        }
    }
}

/// Decide one manager tick: backtest instances are skipped; a missing
/// strategy cursor skips the tick; otherwise the window runs from the
/// manager's cursor — but no further back than the context age bound — up to
/// the smallest strategy cursor.
pub fn plan_pm_tick(
    options: &PositionManagerInstanceOptions,
    state: &PositionManagerExecutionState,
    strategy_cursors: &Vec<Option<i64>>,
    now: i64,
    max_execution_context_age: i64,
) -> (r: PmTickPlan)
    requires
        0 <= max_execution_context_age,
        i64::MIN + max_execution_context_age <= now,
    ensures
        options is Backtest ==> r is SkipBacktest,
        options is Realtime ==> match spec_min_cursor(strategy_cursors@) {
            None => r is SkipMissingStrategy,
            Some(tt) => r is Run && r->Run_time_to == tt && r->Run_time_from == (
            if state.cursor >= now - max_execution_context_age {
                state.cursor
            } else {
                (now - max_execution_context_age) as i64
            }),
        },
{
    match options {
        PositionManagerInstanceOptions::Backtest => PmTickPlan::SkipBacktest,
        PositionManagerInstanceOptions::Realtime { account_id: _ } => {
            let n = strategy_cursors.len();
            if n == 0 {
                proof {
                    assert(spec_min_cursor(strategy_cursors@) is None);
                }
                return PmTickPlan::SkipMissingStrategy;
            }
            let mut time_to: i64 = 0;
            let mut have: bool = false;
            let mut i: usize = 0;
            proof {
                assert(strategy_cursors@.take(0) =~= Seq::<Option<i64>>::empty());
            }
            while i < n
                invariant
                    i <= n,
                    n == strategy_cursors@.len(),
                    options is Realtime,
                    have ==> spec_min_cursor(strategy_cursors@.take(i as int)) == Some(time_to)
                        && i > 0,
                    !have ==> i == 0,
                decreases n - i,
            {
                proof {
                    assert(strategy_cursors@.take(i as int + 1).drop_last()
                        =~= strategy_cursors@.take(i as int));
                    assert(strategy_cursors@.take(i as int + 1).last() == strategy_cursors@[
                        i as int]);
                }
                match strategy_cursors[i] {
                    Some(c) => {
                        if !have {
                            time_to = c;
                            have = true;
                        } else if c < time_to {
                            time_to = c;
                        }
                    },
                    None => {
                        proof {
                            lemma_min_cursor_none(strategy_cursors@, i as int);
                        }
                        return PmTickPlan::SkipMissingStrategy;
                    },
                }
                i += 1;
            }
            proof {
                assert(strategy_cursors@.take(n as int) =~= strategy_cursors@);
            }
            let floor = now - max_execution_context_age;
            let time_from: i64 = if state.cursor() >= floor {
                state.cursor()
            } else {
                floor
            };
            PmTickPlan::Run { time_from, time_to }
        },
    }
}

/// A missing cursor anywhere makes the minimum undefined.
proof fn lemma_min_cursor_none(cursors: Seq<Option<i64>>, i: int)
    requires
        0 <= i < cursors.len(),
        cursors[i] is None,
    ensures
        spec_min_cursor(cursors) is None,
    decreases cursors.len(),
{
    if cursors.len() > 0 {
        if i == cursors.len() - 1 {
        } else {
            assert(cursors.drop_last() =~= cursors.take(cursors.len() - 1));
            lemma_min_cursor_none(cursors.drop_last(), i);
        }
    }
}

/// The cursor the manager persists after a tick: it never moves back.
pub fn pm_new_cursor(time_to: i64, state: &PositionManagerExecutionState) -> (r:
    PositionManagerExecutionState)
    ensures
        r.cursor == if time_to > state.cursor {
            time_to
        } else {
            state.cursor
        },
        r.cursor >= state.cursor,
{
    if time_to > state.cursor() {
        PositionManagerExecutionState::new(time_to)
    } else {
        PositionManagerExecutionState::new(state.cursor())
    }
}

/// Keep the contexts inside the half-open window `(time_from, time_to]`.
pub fn filter_context_window(tl: Vec<(i64, StrategyState)>, time_from: i64, time_to: i64) -> (out:
    Vec<(i64, StrategyState)>)
    ensures
        out@ == tl@.filter(|row: (i64, StrategyState)| time_from < row.0 <= time_to),
{
    let ghost pred = |row: (i64, StrategyState)| time_from < row.0 <= time_to;
    let ghost orig = tl@;
    let mut rows = tl;
    let mut out: Vec<(i64, StrategyState)> = Vec::new();
    let mut i: usize = 0;
    let n = rows.len();
    proof {
        reveal(Seq::filter);
        assert(orig.take(0) =~= Seq::<(i64, StrategyState)>::empty());
        assert(orig.take(0).filter(pred) =~= Seq::<(i64, StrategyState)>::empty());
    }
    while i < n
        invariant
            i <= n,
            n == orig.len(),
            rows@.len() == n - i,
            forall|r2: int| 0 <= r2 < rows@.len() ==> #[trigger] rows@[r2] == orig[i + r2],
            pred == (|row: (i64, StrategyState)| time_from < row.0 <= time_to),
            out@ == orig.take(i as int).filter(pred),
        decreases n - i,
    {
        let row = rows.remove(0);
        proof {
            reveal(Seq::filter);
            assert(row == orig[i as int]);
            assert(orig.take(i as int + 1).drop_last() =~= orig.take(i as int));
            assert(orig.take(i as int + 1).last() == orig[i as int]);
        }
        if time_from < row.0 && row.0 <= time_to {
            out.push(row);
        }
        i += 1;
    }
    proof {
        assert(orig.take(n as int) =~= orig);
    }
    out
}

/// Every filtered element is an element of the sequence it was taken from.
proof fn lemma_filter_members(s: Seq<(i64, StrategyState)>, pred: spec_fn((i64, StrategyState)) -> bool)
    ensures
        forall|k: int|
            0 <= k < s.filter(pred).len() ==> s.contains(#[trigger] s.filter(pred)[k]),
    decreases s.len(),
{
    reveal(Seq::filter);
    if s.len() > 0 {
        lemma_filter_members(s.drop_last(), pred);
        assert forall|k: int| 0 <= k < s.filter(pred).len() implies s.contains(
            #[trigger] s.filter(pred)[k],
        ) by {
            let fd = s.drop_last().filter(pred);
            if k < fd.len() {
                assert(s.drop_last().contains(fd[k]));
                let w = choose|w: int| 0 <= w < s.drop_last().len() && s.drop_last()[w] == fd[k];
                assert(s[w] == fd[k]);
            } else {
                assert(s.filter(pred)[k] == s.last());
            }
        }
    }
}

/// Filtering a window out of an ascending timeline leaves it ascending.
pub proof fn lemma_filter_window_ascending(
    tl: Seq<(i64, StrategyState)>,
    time_from: i64,
    time_to: i64,
)
    requires
        ctx_tl_ascending(tl),
    ensures
        ctx_tl_ascending(tl.filter(|row: (i64, StrategyState)| time_from < row.0 <= time_to)),
    decreases tl.len(),
{
    reveal(Seq::filter);
    let pred = |row: (i64, StrategyState)| time_from < row.0 <= time_to;
    if tl.len() > 0 {
        assert(tl.drop_last() =~= tl.take(tl.len() - 1));
        lemma_filter_window_ascending(tl.drop_last(), time_from, time_to);
        let fd = tl.drop_last().filter(pred);
        lemma_filter_members(tl.drop_last(), pred);
        assert forall|k: int| 0 <= k < fd.len() implies (#[trigger] fd[k]).0 < tl.last().0 by {
            assert(tl.drop_last().contains(fd[k]));
            let w = choose|w: int| 0 <= w < tl.drop_last().len() && tl.drop_last()[w] == fd[k];
            assert(tl[w].0 < tl.last().0);
        }
    }
}

/// Every row a window filter keeps lies inside the half-open window.
pub proof fn lemma_filter_window_members(
    tl: Seq<(i64, StrategyState)>,
    time_from: i64,
    time_to: i64,
)
    ensures
        ({
            let kept = tl.filter(|row: (i64, StrategyState)| time_from < row.0 <= time_to);
            forall|r: int| 0 <= r < kept.len() ==> time_from < (#[trigger] kept[r]).0 <= time_to
        }),
    decreases tl.len(),
{
    reveal(Seq::filter);
    let pred = |row: (i64, StrategyState)| time_from < row.0 <= time_to;
    if tl.len() > 0 {
        lemma_filter_window_members(tl.drop_last(), time_from, time_to);
        let kept = tl.filter(pred);
        let kept_prev = tl.drop_last().filter(pred);
        assert forall|r: int| 0 <= r < kept.len() implies time_from < (#[trigger] kept[r]).0
            <= time_to by {
            if r < kept_prev.len() {
                assert(kept[r] == kept_prev[r]);
            } else {
                assert(kept[r] == tl.last());
            }
        }
    }
}

/// The general window law of the join: when every context handed to the
/// join lies inside `(time_from, time_to]`, every joined bucket does too —
/// so a manager is invoked only for timestamps inside its window, once per
/// distinct timestamp, in ascending order, on exactly the strategies with a
/// context there.
pub proof fn lemma_join_keys_in_window(
    out: Seq<(i64, Vec<(u128, StrategyState)>)>,
    entries: Seq<(u128, Seq<(i64, StrategyState)>)>,
    time_from: i64,
    time_to: i64,
)
    requires
        is_joined(out, entries),
        forall|e: int, r: int|
            #![trigger entries[e].1[r]]
            0 <= e < entries.len() && 0 <= r < entries[e].1.len() ==> time_from
                < entries[e].1[r].0 <= time_to,
    ensures
        forall|k: int| 0 <= k < out.len() ==> time_from < (#[trigger] out[k]).0 <= time_to,
{
    assert forall|k: int| 0 <= k < out.len() implies time_from < (#[trigger] out[k]).0
        <= time_to by {
        let ts = out[k].0 as int;
        if !(time_from < out[k].0 <= time_to) {
            // No timeline holds a timestamp outside the window, so the
            // bucket there would be empty.
            assert forall|e: int| 0 <= e < entries.len() implies ctx_lookup(
                (#[trigger] entries[e]).1,
                ts,
            ) is None by {
                assert forall|r: int| 0 <= r < entries[e].1.len() implies (
                #[trigger] entries[e].1[r]).0 as int != ts by {
                    assert(time_from < entries[e].1[r].0 <= time_to);
                }
                lemma_ctx_lookup_absent(entries[e].1, ts);
            }
            lemma_bucket_at_absent(entries, ts);
            assert(out[k].1@.len() == 0);
            assert(false);
        }
    }
}

/// The join a position manager sees for two strategies: with contexts at
/// `{t1, t2, t3}` and `{t2, t3, t4}`, the window ending at the smaller
/// cursor `t3` and beginning inside `[t1, t2)`, the buckets sit at `t2` and
/// `t3` only, and each holds both strategies.
pub proof fn lemma_pm_join_two_strategies(
    a_id: u128,
    b_id: u128,
    tl_a: Seq<(i64, StrategyState)>,
    tl_b: Seq<(i64, StrategyState)>,
    t1: i64,
    t2: i64,
    t3: i64,
    t4: i64,
    time_from: i64,
)
    requires
        tl_a.len() == 3,
        tl_a[0].0 == t1,
        tl_a[1].0 == t2,
        tl_a[2].0 == t3,
        tl_b.len() == 3,
        tl_b[0].0 == t2,
        tl_b[1].0 == t3,
        tl_b[2].0 == t4,
        t1 < t2 < t3 < t4,
        t1 <= time_from < t2,
    ensures
        ({
            let pred = |row: (i64, StrategyState)| time_from < row.0 <= t3;
            let entries = seq![(a_id, tl_a.filter(pred)), (b_id, tl_b.filter(pred))];
            &&& bucket_at(entries, t2 as int) =~= seq![(a_id, tl_a[1].1), (b_id, tl_b[0].1)]
            &&& bucket_at(entries, t3 as int) =~= seq![(a_id, tl_a[2].1), (b_id, tl_b[1].1)]
            &&& forall|ts: int|
                ts != t2 as int && ts != t3 as int ==> bucket_at(entries, ts).len() == 0
        }),
{
    reveal_with_fuel(Seq::filter, 5);
    reveal_with_fuel(ctx_lookup, 5);
    reveal_with_fuel(bucket_at, 4);
    let pred = |row: (i64, StrategyState)| time_from < row.0 <= t3;
    let fa = tl_a.filter(pred);
    let fb = tl_b.filter(pred);
    let empty = Seq::<(i64, StrategyState)>::empty();
    assert(empty.filter(pred) =~= empty);
    // The windows keep the middle of each timeline: `t1` lies at or before
    // the window's open start, `t4` beyond its end.
    assert(tl_a.drop_last().drop_last().drop_last() =~= Seq::<(i64, StrategyState)>::empty());
    assert(tl_a.drop_last().drop_last() =~= seq![tl_a[0]]);
    assert(tl_a.drop_last() =~= seq![tl_a[0], tl_a[1]]);
    assert(!pred(tl_a[0]));
    assert(pred(tl_a[1]));
    assert(pred(tl_a[2]));
    assert(tl_a.drop_last().drop_last().filter(pred) =~= empty);
    assert(tl_a.drop_last().filter(pred) =~= seq![tl_a[1]]);
    assert(fa =~= seq![tl_a[1], tl_a[2]]);
    assert(tl_b.drop_last().drop_last().drop_last() =~= Seq::<(i64, StrategyState)>::empty());
    assert(tl_b.drop_last().drop_last() =~= seq![tl_b[0]]);
    assert(tl_b.drop_last() =~= seq![tl_b[0], tl_b[1]]);
    assert(pred(tl_b[0]));
    assert(pred(tl_b[1]));
    assert(!pred(tl_b[2]));
    assert(tl_b.drop_last().drop_last().filter(pred) =~= seq![tl_b[0]]);
    assert(tl_b.drop_last().filter(pred) =~= seq![tl_b[0], tl_b[1]]);
    assert(fb =~= seq![tl_b[0], tl_b[1]]);
    let entries = seq![(a_id, fa), (b_id, fb)];
    assert(entries.drop_last() =~= seq![(a_id, fa)]);
    assert(entries.drop_last().drop_last() =~= Seq::<(u128, Seq<(i64, StrategyState)>)>::empty());
    // Lookups on the two-element windows.
    assert(fa.drop_last() =~= seq![tl_a[1]]);
    assert(fa.drop_last().drop_last() =~= Seq::<(i64, StrategyState)>::empty());
    assert(fb.drop_last() =~= seq![tl_b[0]]);
    assert(fb.drop_last().drop_last() =~= Seq::<(i64, StrategyState)>::empty());
    assert(ctx_lookup(fa, t2 as int) == Some(tl_a[1].1));
    assert(ctx_lookup(fa, t3 as int) == Some(tl_a[2].1));
    assert(ctx_lookup(fb, t2 as int) == Some(tl_b[0].1));
    assert(ctx_lookup(fb, t3 as int) == Some(tl_b[1].1));
    assert(bucket_at(entries, t2 as int) =~= seq![(a_id, tl_a[1].1), (b_id, tl_b[0].1)]);
    assert(bucket_at(entries, t3 as int) =~= seq![(a_id, tl_a[2].1), (b_id, tl_b[1].1)]);
    assert forall|ts: int| ts != t2 as int && ts != t3 as int implies bucket_at(
        entries,
        ts,
    ).len() == 0 by {
        assert forall|r: int| 0 <= r < fa.len() implies (#[trigger] fa[r]).0 as int != ts by {}
        assert forall|r: int| 0 <= r < fb.len() implies (#[trigger] fb[r]).0 as int != ts by {}
        lemma_ctx_lookup_absent(fa, ts);
        lemma_ctx_lookup_absent(fb, ts);
    }
}

} // verus!
