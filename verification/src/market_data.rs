//! Market-data model: candles over price units, candle resolutions, and
//! per-day data availability. Prices are integers in a fixed sub-unit scale;
//! the core only orders and copies them, so the scale never matters here.

use vstd::prelude::*;
use crate::time::SECONDS_PER_DAY;

verus! {

/// OHLCV aggregate anchored at a time bucket. Prices are integer price
/// units; `volume` counts lots.
#[derive(Clone, Copy, PartialEq, Eq, Structural)]
pub struct Candle {
    pub open: i64,
    pub high: i64,
    pub low: i64,
    pub close: i64,
    pub volume: u64,
}

impl Candle {
    /// The candle's low bounds both its open and close from below, its high
    /// from above.
    pub open spec fn well_formed(self) -> bool {
        &&& self.low <= self.open <= self.high
        &&& self.low <= self.close <= self.high
    }
}

/// The width of a candle bucket.
#[derive(Clone, Copy, PartialEq, Eq, Structural)]
pub enum CandleResolution {
    OneMinute,
    OneHour,
    OneDay,
}

impl CandleResolution {
    /// Bucket width in seconds.
    pub open spec fn spec_interval_seconds(self) -> int {
        match self {
            CandleResolution::OneMinute => 60,
            CandleResolution::OneHour => 3600,
            CandleResolution::OneDay => SECONDS_PER_DAY as int,
        }
    }

    /// Bucket width in seconds.
    pub fn interval_seconds(self) -> (r: i64)
        ensures
            r == self.spec_interval_seconds(),
            0 < r <= SECONDS_PER_DAY,
            (SECONDS_PER_DAY as int) % (r as int) == 0,
    {
        proof {
            assert(86400int % 60 == 0 && 86400int % 3600 == 0 && 86400int % 86400 == 0);
        }
        match self {
            CandleResolution::OneMinute => 60,
            CandleResolution::OneHour => 3600,
            CandleResolution::OneDay => SECONDS_PER_DAY,
        }
    }

    /// The stable name used in durable identities.
    pub fn name(self) -> (r: String)
        ensures
            self is OneMinute ==> r@ == "oneMinute"@,
            self is OneHour ==> r@ == "oneHour"@,
            self is OneDay ==> r@ == "oneDay"@,
    {
        match self {
            CandleResolution::OneMinute => "oneMinute".to_owned(),
            CandleResolution::OneHour => "oneHour".to_owned(),
            CandleResolution::OneDay => "oneDay".to_owned(),
        }
    }
}

/// What part of one instrument's trading day has been ingested.
#[derive(Clone, Copy, PartialEq, Eq, Structural)]
pub enum DataAvailability {
    /// Never fetched.
    Unavailable,
    /// The complete trading day is present.
    Available,
    /// Candles exist on `[00:00, available_up_to)` only.
    PartiallyAvailable { available_up_to: i64 },
}

/// Volumes add with saturation at the integer's top, so that folding candles
/// is total.
pub open spec fn spec_volume_add(a: u64, b: u64) -> u64 {
    if a + b > u64::MAX {
        u64::MAX
    } else {
        (a + b) as u64
    }
}

/// Fold a later candle into an accumulated bucket: the open stays, the close
/// follows the newcomer, high and low widen, volumes add.
pub open spec fn spec_merge_candle(acc: Candle, x: Candle) -> Candle {
    Candle {
        open: acc.open,
        close: x.close,
        high: if x.high > acc.high {
            x.high
        } else {
            acc.high
        },
        low: if x.low < acc.low {
            x.low
        } else {
            acc.low
        },
        volume: spec_volume_add(acc.volume, x.volume),
    }
}

/// The bucket candle of a non-empty run: open of the first, close of the
/// last, extremes and total volume over all.
pub open spec fn spec_fold_candles(s: Seq<Candle>) -> Candle
    decreases s.len(),
{
    if s.len() <= 1 {
        s[0]
    } else {
        spec_merge_candle(spec_fold_candles(s.drop_last()), s.last())
    }
}

/// Fold a later candle into an accumulated bucket.
pub fn merge_candle(acc: Candle, x: Candle) -> (r: Candle)
    ensures
        r == spec_merge_candle(acc, x),
{
    Candle {
        open: acc.open,
        close: x.close,
        high: if x.high > acc.high {
            x.high
        } else {
            acc.high
        },
        low: if x.low < acc.low {
            x.low
        } else {
            acc.low
        },
        volume: acc.volume.saturating_add(x.volume),
    }
}

/// Folding keeps candle well-formedness.
pub proof fn lemma_merge_candle_well_formed(acc: Candle, x: Candle)
    requires
        acc.well_formed(),
        x.well_formed(),
    ensures
        spec_merge_candle(acc, x).well_formed(),
{
}

} // verus!
