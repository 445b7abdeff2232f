//! Market data: interpolation folds, open-bucket exclusion, availability
//! clamping, packing, and the sync decisions.

use candlerunner::instruments::Figi;
use candlerunner::market_data::{Candle, CandleResolution, DataAvailability};
use candlerunner::interpolate::interpolate;
use candlerunner::pack::pack_timelines;
use candlerunner::read_window::clamp_window;
use candlerunner::sync::{collect_cursors, plan_fetches, post_fetch_availability};
use candlerunner::time::{align_down, day_of, floor_div, SECONDS_PER_DAY};

// Prices in this suite use the library's fixed-point scale: one million
// units stand for the real number one.
const ONE: i64 = 1_000_000;

fn candle(open: i64, high: i64, low: i64, close: i64, volume: u64) -> Candle {
    Candle { open, high, low, close, volume }
}

#[test]
fn time_arithmetic() {
    assert_eq!(floor_div(7, 2), 3);
    assert_eq!(floor_div(-7, 2), -4);
    assert_eq!(day_of(0), 0);
    assert_eq!(day_of(86_399), 0);
    assert_eq!(day_of(86_400), 1);
    assert_eq!(day_of(-1), -1);
    assert_eq!(align_down(3_725, 3600), 3_600);
    assert_eq!(align_down(3_725, 60), 3_720);
}

#[test]
fn interpolation_folds_one_hour_bucket() {
    // Three one-minute candles inside one hour fold into a single bucket:
    // first open, last close, running extremes, summed volume.
    let day: i64 = 19_358 * SECONDS_PER_DAY;
    let data = vec![
        (day, candle(10 * ONE, 11 * ONE, 9 * ONE, 10 * ONE + ONE / 2, 1)),
        (day + 60, candle(10 * ONE + ONE / 2, 12 * ONE, 8 * ONE, 11 * ONE, 2)),
        (day + 120, candle(11 * ONE, 11 * ONE + ONE / 2, 10 * ONE, 10 * ONE + 8 * ONE / 10, 3)),
    ];
    let now = day + 10 * 3600;
    let out = interpolate(CandleResolution::OneHour, &data, now);
    assert_eq!(out.len(), 1);
    assert_eq!(out[0].0, day);
    let folded = out[0].1;
    assert_eq!(folded.open, 10 * ONE);
    assert_eq!(folded.high, 12 * ONE);
    assert_eq!(folded.low, 8 * ONE);
    assert_eq!(folded.close, 10 * ONE + 8 * ONE / 10);
    assert_eq!(folded.volume, 6);
}

#[test]
fn interpolation_excludes_open_bucket() {
    // With `now` inside the current hourly bucket, that bucket stays out.
    let day: i64 = 19_358 * SECONDS_PER_DAY;
    let data = vec![
        (day, candle(ONE, ONE, ONE, ONE, 1)),
        (day + 3600, candle(2 * ONE, 2 * ONE, 2 * ONE, 2 * ONE, 1)),
    ];
    let now = day + 3600 + 30 * 60;
    let out = interpolate(CandleResolution::OneHour, &data, now);
    assert_eq!(out.len(), 1);
    assert_eq!(out[0].0, day);
}

#[test]
fn clamp_stops_at_partial_then_unavailable() {
    // Availability: day 0 complete, day 1 partial up to noon, day 2 never
    // fetched. A read over all three days ends at the partial boundary.
    let noon_day1 = SECONDS_PER_DAY + 12 * 3600;
    let availability = vec![
        (0i64, DataAvailability::Available),
        (1i64, DataAvailability::PartiallyAvailable { available_up_to: noon_day1 }),
        (2i64, DataAvailability::Unavailable),
    ];
    let clamped = clamp_window(&availability, 0, 3 * SECONDS_PER_DAY);
    assert_eq!(clamped, noon_day1);
}

#[test]
fn clamp_stops_at_unavailable_day_start() {
    let availability = vec![(0i64, DataAvailability::Available)];
    let clamped = clamp_window(&availability, 0, 3 * SECONDS_PER_DAY);
    assert_eq!(clamped, SECONDS_PER_DAY);
}

#[test]
fn clamp_consults_the_window_final_day() {
    // The day the window ends in is walked too: never fetched, it cuts the
    // window at that day's start even though the window ends inside it.
    let availability = vec![
        (0i64, DataAvailability::Available),
        (1i64, DataAvailability::Available),
    ];
    let clamped = clamp_window(&availability, 0, 2 * SECONDS_PER_DAY + 100);
    assert_eq!(clamped, 2 * SECONDS_PER_DAY);
}

#[test]
fn packs_carry_every_instrument_with_a_candle() {
    let f1 = Figi("BBG000B9XRY4".to_string());
    let f2 = Figi("BBG000BVPV84".to_string());
    let c1 = candle(ONE, ONE, ONE, ONE, 1);
    let c2 = candle(2 * ONE, 2 * ONE, 2 * ONE, 2 * ONE, 2);
    let c3 = candle(3 * ONE, 3 * ONE, 3 * ONE, 3 * ONE, 3);
    let entries = vec![
        (f1, vec![(100i64, c1), (200i64, c2)]),
        (f2, vec![(200i64, c3)]),
    ];
    let packs = pack_timelines(&entries);
    assert_eq!(packs.len(), 2);
    assert_eq!(packs[0].0, 100);
    assert_eq!(packs[0].1.len(), 1);
    assert_eq!(packs[0].1[0].0 .0, "BBG000B9XRY4");
    assert_eq!(packs[1].0, 200);
    assert_eq!(packs[1].1.len(), 2);
    assert_eq!(packs[1].1[0].0 .0, "BBG000B9XRY4");
    assert_eq!(packs[1].1[1].0 .0, "BBG000BVPV84");
    assert_eq!(packs[1].1[1].1.volume, 3);
}

#[test]
fn sync_emits_one_cursor_for_the_missing_day() {
    // A required range over two days, the first complete, the second never
    // fetched: exactly one fetch at the missing day's start.
    let availability = vec![(19_358i64, DataAvailability::Available)];
    let ranges = vec![(19_358 * SECONDS_PER_DAY, 19_359 * SECONDS_PER_DAY + 3600)];
    let cursors = collect_cursors(&ranges, &availability);
    assert_eq!(cursors, vec![19_359 * SECONDS_PER_DAY]);
}

#[test]
fn sync_resumes_partial_days_at_their_boundary() {
    let cut = 19_358 * SECONDS_PER_DAY + 7 * 3600;
    let availability = vec![
        (19_358i64, DataAvailability::PartiallyAvailable { available_up_to: cut }),
    ];
    let ranges = vec![(19_358 * SECONDS_PER_DAY, 19_358 * SECONDS_PER_DAY + 10)];
    let cursors = collect_cursors(&ranges, &availability);
    assert_eq!(cursors, vec![cut]);
}

#[test]
fn fetch_plan_is_bounded() {
    let planned = plan_fetches(vec![1, 2, 3, 4, 5], 3);
    assert_eq!(planned, vec![1, 2, 3]);
    let all = plan_fetches(vec![1, 2], 3);
    assert_eq!(all, vec![1, 2]);
}

#[test]
fn post_fetch_availability_past_and_today() {
    let today: i64 = 19_400;
    let past_cursor = 19_399 * SECONDS_PER_DAY;
    assert!(matches!(
        post_fetch_availability(past_cursor, today, Some(past_cursor + 60)),
        DataAvailability::Available
    ));
    let today_cursor = 19_400 * SECONDS_PER_DAY;
    match post_fetch_availability(today_cursor, today, Some(today_cursor + 300)) {
        DataAvailability::PartiallyAvailable { available_up_to } => {
            assert_eq!(available_up_to, today_cursor + 300);
        }
        _ => panic!("expected a partial day"),
    }
    match post_fetch_availability(today_cursor, today, None) {
        DataAvailability::PartiallyAvailable { available_up_to } => {
            assert_eq!(available_up_to, today_cursor);
        }
        _ => panic!("expected a partial day"),
    }
}
