//! Clamping a read window to the data that is actually available: walking
//! the days of the window per instrument, the window's end moves back to the
//! first day never fetched, or to the instant a partially fetched day ends.

use vstd::prelude::*;

use crate::market_data::DataAvailability;
use crate::time::{day_of, spec_day_of, SECONDS_PER_DAY};

verus! {

/// The recorded availability of `day`, a day never recorded being
/// `Unavailable`.
pub open spec fn avail_of(m: Seq<(i64, DataAvailability)>, day: int) -> DataAvailability
    decreases m.len(),
{
    if m.len() == 0 {
        DataAvailability::Unavailable
    } else if m.last().0 as int == day {
        m.last().1
    } else {
        avail_of(m.drop_last(), day)
    }
}

/// Walk the days `d ..= d_end`, the window's final day included; stop the
/// window at the first day with no data, at the end of a partially available
/// day, or leave it at `time_to`.
pub open spec fn spec_clamp(m: Seq<(i64, DataAvailability)>, d: int, d_end: int, time_to: int) -> int
    decreases (if d <= d_end {
        d_end + 1 - d
    } else {
        0
    }),
{
    if d > d_end {
        time_to
    } else {
        match avail_of(m, d) {
            DataAvailability::Unavailable => if d * (SECONDS_PER_DAY as int) < time_to {
                d * (SECONDS_PER_DAY as int)
            } else {
                time_to
            },
            DataAvailability::Available => spec_clamp(m, d + 1, d_end, time_to),
            DataAvailability::PartiallyAvailable { available_up_to } => ({
                if (available_up_to as int) < time_to {
                    available_up_to as int
                } else {
                    time_to
                }
            }),
        }
    }
}

/// Clamping never extends the window.
pub proof fn lemma_clamp_le(m: Seq<(i64, DataAvailability)>, d: int, d_end: int, time_to: int)
    ensures
        spec_clamp(m, d, d_end, time_to) <= time_to,
    decreases (if d <= d_end {
        d_end + 1 - d
    } else {
        0
    }),
{
    if d <= d_end {
        if avail_of(m, d) is Available {
            lemma_clamp_le(m, d + 1, d_end, time_to);
        }
    }
}

/// Look up the recorded availability of `day`.
pub fn avail_lookup(m: &Vec<(i64, DataAvailability)>, day: i64) -> (r: DataAvailability)
    ensures
        r == avail_of(m@, day as int),
{
    let mut idx = m.len();
    proof {
        assert(m@.take(m@.len() as int) =~= m@);
    }
    while idx > 0
        invariant
            idx <= m.len(),
            avail_of(m@, day as int) == avail_of(m@.take(idx as int), day as int),
        decreases idx,
    {
        idx -= 1;
        proof {
            assert(m@.take(idx as int + 1).drop_last() =~= m@.take(idx as int));
            assert(m@.take(idx as int + 1).last() == m@[idx as int]);
        }
        if m[idx].0 == day {
            return m[idx].1;
        }
    }
    proof {
        assert(m@.take(0) =~= Seq::<(i64, DataAvailability)>::empty());
    }
    DataAvailability::Unavailable
}

/// Clamp `time_to` by one instrument's availability, walking every day of
/// the window, the final day included.
pub fn clamp_window(
    m: &Vec<(i64, DataAvailability)>,
    time_from: i64,
    time_to: i64,
) -> (r: i64)
    requires
        i64::MIN + SECONDS_PER_DAY <= time_from,
    ensures
        r == spec_clamp(
            m@,
            spec_day_of(time_from as int),
            spec_day_of(time_to as int),
            time_to as int,
        ),
        r <= time_to,
{
    let d_end = day_of(time_to);
    let mut d = day_of(time_from);
    proof {
        lemma_clamp_le(m@, d as int, d_end as int, time_to as int);
        let day = SECONDS_PER_DAY as int;
        vstd::arithmetic::div_mod::lemma_fundamental_div_mod(time_to as int, day);
        assert(d_end < i64::MAX) by (nonlinear_arith)
            requires
                time_to == (SECONDS_PER_DAY as int) * d_end + time_to as int % (
                SECONDS_PER_DAY as int),
                0 <= time_to as int % (SECONDS_PER_DAY as int),
                time_to <= i64::MAX,
        ;
    }
    while d <= d_end
        invariant
            spec_clamp(m@, spec_day_of(time_from as int), d_end as int, time_to as int)
                == spec_clamp(m@, d as int, d_end as int, time_to as int),
            d_end == spec_day_of(time_to as int),
            d_end < i64::MAX,
            spec_day_of(time_from as int) <= d,
            i64::MIN + SECONDS_PER_DAY <= time_from,
            spec_clamp(m@, d as int, d_end as int, time_to as int) <= time_to,
        decreases d_end + 1 - d,
    {
        match avail_lookup(m, d) {
            DataAvailability::Unavailable => {
                proof {
                    // The day start fits the machine range: the day lies at or
                    // after `time_from`'s day and no later than `time_to`'s.
                    let day = SECONDS_PER_DAY as int;
                    vstd::arithmetic::div_mod::lemma_fundamental_div_mod(time_to as int, day);
                    vstd::arithmetic::div_mod::lemma_fundamental_div_mod(time_from as int, day);
                    let d_from = spec_day_of(time_from as int);
                    assert(d * day <= time_to) by (nonlinear_arith)
                        requires
                            d <= d_end,
                            time_to == day * d_end + time_to as int % day,
                            0 <= time_to as int % day,
                            day == 86400,
                    ;
                    assert(d * day >= time_from - day) by (nonlinear_arith)
                        requires
                            d_from <= d,
                            time_from == day * d_from + time_from as int % day,
                            time_from as int % day < day,
                            day == 86400,
                    ;
                }
                let day_start = d * SECONDS_PER_DAY;
                return if day_start < time_to {
                    day_start
                } else {
                    time_to
                };
            },
            DataAvailability::Available => {
                d += 1;
            },
            DataAvailability::PartiallyAvailable { available_up_to } => {
                return if available_up_to < time_to {
                    available_up_to
                } else {
                    time_to
                };
            },
        }
    }
    time_to
}

} // verus!
