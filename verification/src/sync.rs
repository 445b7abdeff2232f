//! Market-data sync decisions: which fetch cursors the availability records
//! demand for the required ranges, how many of them one tick may fetch, and
//! what a day's availability becomes after a fetch.

use vstd::prelude::*;

use crate::market_data::DataAvailability;
use crate::ranges::{RequirementsCollector, TimeRange};
use crate::read_window::avail_of;
use crate::strategy::{StrategyInstance, StrategyInstanceDefinition};
use crate::time::{day_of, spec_day_of, SECONDS_PER_DAY};

verus! {

/// The fetch cursor one day demands: the day's start when nothing was ever
/// fetched, the instant a partial day ends, nothing when the day is
/// complete.
pub open spec fn spec_cursor_of(m: Seq<(i64, DataAvailability)>, day: int) -> Option<i64> {
    match avail_of(m, day) {
        DataAvailability::Unavailable => Some((day * (SECONDS_PER_DAY as int)) as i64),
        DataAvailability::Available => None,
        DataAvailability::PartiallyAvailable { available_up_to } => Some(available_up_to),
    }
}

/// Does some covered day demand this cursor?
pub open spec fn cursor_justified(
    ranges: Seq<TimeRange>,
    m: Seq<(i64, DataAvailability)>,
    c: i64,
) -> bool {
    exists|day: int| day_in_ranges(ranges, day) && #[trigger] spec_cursor_of(m, day) == Some(c)
}

/// Does the list hold this cursor?
pub open spec fn cursor_in(out: Seq<i64>, c: i64) -> bool {
    exists|k: int| 0 <= k < out.len() && #[trigger] out[k] == c
}

/// Does some required range cover this day?
pub open spec fn day_in_ranges(ranges: Seq<TimeRange>, day: int) -> bool {
    exists|i: int|
        0 <= i < ranges.len() && spec_day_of((#[trigger] ranges[i]).0 as int) <= day <= spec_day_of(
            ranges[i].1 as int,
        )
}

/// Walk every day of every required range and collect the fetch cursors the
/// availability records demand, each once.
pub fn collect_cursors(
    ranges: &Vec<TimeRange>,
    availability: &Vec<(i64, DataAvailability)>,
) -> (out: Vec<i64>)
    requires
        forall|i: int|
            0 <= i < ranges@.len() ==> i64::MIN + SECONDS_PER_DAY <= (#[trigger] ranges@[i]).0
                && (i64::MIN + SECONDS_PER_DAY <= ranges@[i].1),
    ensures
        forall|k: int, l: int| 0 <= k < l < out@.len() ==> #[trigger] out@[k] != #[trigger] out@[l],
        forall|k: int|
            0 <= k < out@.len() ==> cursor_justified(ranges@, availability@, #[trigger] out@[k]),
        forall|day: int|
            day_in_ranges(ranges@, day) && spec_cursor_of(availability@, day) is Some
                ==> cursor_in(out@, spec_cursor_of(availability@, day)->0),
{
    let mut out: Vec<i64> = Vec::new();
    let n = ranges.len();
    let mut i: usize = 0;
    while i < n
        invariant
            i <= n,
            n == ranges@.len(),
            forall|i2: int|
                0 <= i2 < ranges@.len() ==> i64::MIN + SECONDS_PER_DAY <= (
                #[trigger] ranges@[i2]).0 && (i64::MIN + SECONDS_PER_DAY <= ranges@[i2].1),
            forall|k: int, l: int|
                0 <= k < l < out@.len() ==> #[trigger] out@[k] != #[trigger] out@[l],
            forall|k: int|
                0 <= k < out@.len() ==> cursor_justified(ranges@, availability@, #[trigger] out@[k]),
            forall|i2: int, day: int|
                #![trigger spec_day_of((ranges@[i2]).0 as int), spec_cursor_of(availability@, day)]
                0 <= i2 < i && spec_day_of((ranges@[i2]).0 as int) <= day <= spec_day_of(
                    (ranges@[i2]).1 as int,
                ) && spec_cursor_of(availability@, day) is Some ==> cursor_in(
                    out@,
                    spec_cursor_of(availability@, day)->0,
                ),
        decreases n - i,
    {
        let range = ranges[i];
        let d_end = day_of(range.1);
        let mut d = day_of(range.0);
        proof {
            let day = SECONDS_PER_DAY as int;
            vstd::arithmetic::div_mod::lemma_fundamental_div_mod(range.1 as int, day);
            assert(d_end < i64::MAX) by (nonlinear_arith)
                requires
                    range.1 == (SECONDS_PER_DAY as int) * d_end + range.1 as int % (
                    SECONDS_PER_DAY as int),
                    0 <= range.1 as int % (SECONDS_PER_DAY as int),
                    range.1 <= i64::MAX,
            ;
        }
        while d <= d_end
            invariant
                spec_day_of((ranges@[i as int]).0 as int) <= d,
                d_end == spec_day_of((ranges@[i as int]).1 as int),
                d_end < i64::MAX,
                i64::MIN + SECONDS_PER_DAY <= range.0,
                i64::MIN + SECONDS_PER_DAY <= range.1,
                i < n,
                n == ranges@.len(),
                range == ranges@[i as int],
                forall|k: int, l: int|
                    0 <= k < l < out@.len() ==> #[trigger] out@[k] != #[trigger] out@[l],
                forall|k: int|
                    0 <= k < out@.len() ==> cursor_justified(
                        ranges@,
                        availability@,
                        #[trigger] out@[k],
                    ),
                forall|i2: int, day: int|
                    #![trigger spec_day_of((ranges@[i2]).0 as int), spec_cursor_of(availability@, day)]
                    0 <= i2 < i && spec_day_of((ranges@[i2]).0 as int) <= day <= spec_day_of(
                        (ranges@[i2]).1 as int,
                    ) && spec_cursor_of(availability@, day) is Some ==> cursor_in(
                        out@,
                        spec_cursor_of(availability@, day)->0,
                    ),
                forall|day: int|
                    spec_day_of((ranges@[i as int]).0 as int) <= day < d && spec_cursor_of(
                        availability@,
                        day,
                    ) is Some ==> cursor_in(out@, spec_cursor_of(availability@, day)->0),
            decreases d_end + 1 - d,
        {
            let cursor: Option<i64> = match crate::read_window::avail_lookup(availability, d) {
                DataAvailability::Unavailable => {
                    proof {
                        // The day start fits: the day lies inside a range
                        // whose bounds fit.
                        let day = SECONDS_PER_DAY as int;
                        vstd::arithmetic::div_mod::lemma_fundamental_div_mod(range.1 as int, day);
                        vstd::arithmetic::div_mod::lemma_fundamental_div_mod(range.0 as int, day);
                        let dl = spec_day_of(range.0 as int);
                        let dh = spec_day_of(range.1 as int);
                        assert(d * day <= range.1 as int) by (nonlinear_arith)
                            requires
                                d <= dh,
                                range.1 == day * dh + range.1 as int % day,
                                0 <= range.1 as int % day,
                                day == 86400,
                        ;
                        assert(d * day >= range.0 - day) by (nonlinear_arith)
                            requires
                                dl <= d,
                                range.0 == day * dl + range.0 as int % day,
                                range.0 as int % day < day,
                                day == 86400,
                        ;
                    }
                    Some(d * SECONDS_PER_DAY)
                },
                DataAvailability::Available => None,
                DataAvailability::PartiallyAvailable { available_up_to } => Some(available_up_to),
            };
            if let Some(c) = cursor {
                let mut present = false;
                let m = out.len();
                let mut k: usize = 0;
                while k < m
                    invariant
                        k <= m,
                        m == out@.len(),
                        present ==> cursor_in(out@, c),
                        !present ==> forall|l: int| 0 <= l < k ==> #[trigger] out@[l] != c,
                    decreases m - k,
                {
                    if out[k] == c {
                        present = true;
                    }
                    k += 1;
                }
                if !present {
                    let ghost pre = out@;
                    out.push(c);
                    proof {
                        assert(out@[out@.len() - 1] == c);
                        assert forall|a: int, b: int| 0 <= a < b < out@.len() implies
                            #[trigger] out@[a] != #[trigger] out@[b] by {
                            if b < out@.len() - 1 {
                                assert(pre[a] != pre[b]);
                            } else {
                                assert(out@[a] == pre[a]);
                            }
                        }
                        assert forall|k2: int| 0 <= k2 < out@.len() implies cursor_justified(
                            ranges@,
                            availability@,
                            #[trigger] out@[k2],
                        ) by {
                            if k2 < out@.len() - 1 {
                                assert(out@[k2] == pre[k2]);
                            } else {
                                assert(day_in_ranges(ranges@, d as int));
                                assert(spec_cursor_of(availability@, d as int) == Some(c));
                            }
                        }
                        assert forall|x: i64| cursor_in(pre, x) implies #[trigger] cursor_in(
                            out@,
                            x,
                        ) by {
                            let w = choose|w: int| 0 <= w < pre.len() && #[trigger] pre[w] == x;
                            assert(out@[w] == x);
                        }
                    }
                }
                proof {
                    assert(cursor_in(out@, c));
                }
            }
            d += 1;
        }
        i += 1;
    }
    out
}

/// A tick fetches at most this many cursors per instrument: the plan is the
/// first `max_chunks` of the collected cursors.
pub fn plan_fetches(cursors: Vec<i64>, max_chunks: usize) -> (out: Vec<i64>)
    ensures
        out@.len() <= max_chunks,
        out@.len() == if cursors@.len() < max_chunks {
            cursors@.len()
        } else {
            max_chunks as nat
        },
        forall|k: int| 0 <= k < out@.len() ==> #[trigger] out@[k] == cursors@[k],
{
    let mut out = cursors;
    if out.len() > max_chunks {
        out.truncate(max_chunks);
        proof {
            assert(out@.len() == max_chunks);
        }
    }
    out
}

/// The availability a day reaches after its fetch: complete for a day
/// strictly before today, otherwise partial up to the last fetched candle,
/// or up to the cursor itself when nothing came back.
pub fn post_fetch_availability(cursor: i64, today_day: i64, last_candle_ts: Option<i64>) -> (r:
    DataAvailability)
    ensures
        spec_day_of(cursor as int) < today_day ==> r is Available,
        spec_day_of(cursor as int) >= today_day ==> r is PartiallyAvailable
            && r->PartiallyAvailable_available_up_to == match last_candle_ts {
            Some(ts) => ts,
            None => cursor,
        },
{
    let cursor_day = day_of(cursor);
    if cursor_day < today_day {
        DataAvailability::Available
    } else {
        let up_to: i64 = match last_candle_ts {
            Some(ts) => ts,
            None => cursor,
        };
        DataAvailability::PartiallyAvailable { available_up_to: up_to }
    }
}

/// Is the requirement `(figi, range)` recorded in the collector's entries?
pub open spec fn requirement_recorded(
    entries: Seq<(crate::instruments::Figi, Vec<TimeRange>)>,
    figi: Seq<char>,
    range: TimeRange,
) -> bool {
    exists|k: int, j: int|
        #![trigger entries[k].1@[j]]
        0 <= k < entries.len() && entries[k].0@ == figi && 0 <= j < entries[k].1@.len()
            && entries[k].1@[j] == range
}

/// The range one strategy requires: from its window start to its bound, or
/// to the present when unbounded.
pub open spec fn spec_required_range(def: StrategyInstanceDefinition, now: i64) -> TimeRange {
    (
        def.time_from,
        match def.time_to {
            Some(t) => t,
            None => now,
        },
    )
}

/// Gather the data requirements of every cached strategy: for each
/// instrument a strategy needs, its window is recorded under that
/// instrument.
pub fn collect_requirements(
    strategies: &Vec<(u128, (StrategyInstanceDefinition, StrategyInstance))>,
    now: i64,
) -> (r: RequirementsCollector)
    ensures
        r.well_formed(),
        forall|e: int, q: int|
            #![trigger (strategies@[e]).1.1.spec_data_requirements()[q]]
            0 <= e < strategies@.len() && 0 <= q < (
            strategies@[e]).1.1.spec_data_requirements().len() ==> requirement_recorded(
                r.entries_view(),
                (strategies@[e]).1.1.spec_data_requirements()[q]@,
                spec_required_range((strategies@[e]).1.0, now),
            ),
{
    let mut collector = RequirementsCollector::new();
    let n = strategies.len();
    let mut e: usize = 0;
    while e < n
        invariant
            e <= n,
            n == strategies@.len(),
            collector.well_formed(),
            forall|e2: int, q: int|
                #![trigger (strategies@[e2]).1.1.spec_data_requirements()[q]]
                0 <= e2 < e && 0 <= q < (strategies@[e2]).1.1.spec_data_requirements().len()
                    ==> requirement_recorded(
                    collector.entries_view(),
                    (strategies@[e2]).1.1.spec_data_requirements()[q]@,
                    spec_required_range((strategies@[e2]).1.0, now),
                ),
        decreases n - e,
    {
        let def = &strategies[e].1 .0;
        let instance = &strategies[e].1 .1;
        let reqs = instance.data_requirements();
        let m = reqs.len();
        let mut q: usize = 0;
        while q < m
            invariant
                q <= m,
                e < n,
                n == strategies@.len(),
                m == (strategies@[e as int]).1.1.spec_data_requirements().len(),
                reqs@ == (strategies@[e as int]).1.1.spec_data_requirements(),
                *def == (strategies@[e as int]).1.0,
                collector.well_formed(),
                forall|e2: int, q2: int|
                    #![trigger (strategies@[e2]).1.1.spec_data_requirements()[q2]]
                    0 <= e2 < e && 0 <= q2 < (strategies@[e2]).1.1.spec_data_requirements().len()
                        ==> requirement_recorded(
                        collector.entries_view(),
                        (strategies@[e2]).1.1.spec_data_requirements()[q2]@,
                        spec_required_range((strategies@[e2]).1.0, now),
                    ),
                forall|q2: int|
                    #![trigger reqs@[q2]]
                    0 <= q2 < q ==> requirement_recorded(
                        collector.entries_view(),
                        reqs@[q2]@,
                        spec_required_range((strategies@[e as int]).1.0, now),
                    ),
            decreases m - q,
        {
            let ghost pre = collector.entries_view();
            collector.push(&reqs[q], def.time_from(), def.time_to(), now);
            proof {
                let rng = spec_required_range((strategies@[e as int]).1.0, now);
                assert(rng == (
                    def.time_from,
                    if def.time_to is Some {
                        def.time_to->0
                    } else {
                        now
                    },
                ));
                lemma_push_records(pre, collector.entries_view(), reqs@[q as int]@, rng);
            }
            q += 1;
        }
        e += 1;
    }
    collector
}

/// After one push the requirement is recorded, and everything recorded
/// before still is.
proof fn lemma_push_records(
    pre: Seq<(crate::instruments::Figi, Vec<TimeRange>)>,
    cur: Seq<(crate::instruments::Figi, Vec<TimeRange>)>,
    figi: Seq<char>,
    range: TimeRange,
)
    requires
        forall|j: int|
            0 <= j < pre.len() ==> (#[trigger] cur[j]).0 == pre[j].0 && cur[j].1@ == (if pre[j].0@
                == figi {
                pre[j].1@.push(range)
            } else {
                pre[j].1@
            }),
        crate::ranges::has_figi(pre, figi) ==> cur.len() == pre.len(),
        !crate::ranges::has_figi(pre, figi) ==> cur.len() == pre.len() + 1 && cur.last().0@
            == figi && cur.last().1@ == seq![range],
    ensures
        requirement_recorded(cur, figi, range),
        forall|f2: Seq<char>, r2: TimeRange|
            #[trigger] requirement_recorded(pre, f2, r2) ==> requirement_recorded(cur, f2, r2),
{
    if crate::ranges::has_figi(pre, figi) {
        let k = choose|k: int| 0 <= k < pre.len() && (#[trigger] pre[k]).0@ == figi;
        assert(cur[k].0@ == figi);
        assert(cur[k].1@[cur[k].1@.len() - 1] == range);
        assert(requirement_recorded(cur, figi, range));
    } else {
        assert(cur[cur.len() - 1].0@ == figi);
        assert(cur[cur.len() - 1].1@[0] == range);
        assert(requirement_recorded(cur, figi, range));
    }
    assert forall|f2: Seq<char>, r2: TimeRange|
        #[trigger] requirement_recorded(pre, f2, r2) implies requirement_recorded(cur, f2, r2) by {
        let (k2, j2) = choose|k2: int, j2: int|
            #![trigger pre[k2].1@[j2]]
            0 <= k2 < pre.len() && pre[k2].0@ == f2 && 0 <= j2 < pre[k2].1@.len() && pre[k2].1@[j2]
                == r2;
        assert(cur[k2].0@ == f2);
        if pre[k2].0@ == figi {
            assert(cur[k2].1@[j2] == r2);
        } else {
            assert(cur[k2].1@[j2] == r2);
        }
    }
}

} // verus!
