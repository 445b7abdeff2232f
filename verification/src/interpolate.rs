//! Folding raw candles into buckets of the target resolution: each candle is
//! assigned to the bucket its timestamp aligns down to, buckets still open at
//! `now` are left out, and candles within one bucket fold in time order.

use vstd::prelude::*;

use crate::market_data::{Candle, CandleResolution, merge_candle, spec_fold_candles, spec_merge_candle};
use crate::time::{align_down, spec_align, SECONDS_PER_DAY};

verus! {

/// Timestamps strictly ascending.
pub open spec fn ascending_ts(data: Seq<(i64, Candle)>) -> bool {
    forall|i: int, j: int| 0 <= i < j < data.len() ==> (#[trigger] data[i]).0 < (#[trigger] data[j]).0
}

/// Every timestamp far enough above the integer floor that alignment cannot
/// underflow.
pub open spec fn ts_in_range(data: Seq<(i64, Candle)>) -> bool {
    forall|i: int| 0 <= i < data.len() ==> i64::MIN + SECONDS_PER_DAY <= (#[trigger] data[i]).0
}

/// The candles of `data` whose timestamp aligns down to bucket `b`, in input
/// order.
pub open spec fn bucket_members(data: Seq<(i64, Candle)>, b: int, step: int) -> Seq<Candle>
    decreases data.len(),
{
    if data.len() == 0 {
        Seq::empty()
    } else {
        let rest = bucket_members(data.drop_last(), b, step);
        if spec_align(data.last().0 as int, step) == b {
            rest.push(data.last().1)
        } else {
            rest
        }
    }
}

/// `out` is `data` folded to buckets of width `step`, closed before `now`:
/// one entry per closed bucket that has members, in ascending order, carrying
/// the fold of exactly its members.
pub open spec fn is_interpolated(
    out: Seq<(i64, Candle)>,
    data: Seq<(i64, Candle)>,
    step: int,
    now: int,
) -> bool {
    &&& forall|k: int, l: int|
        0 <= k < l < out.len() ==> (#[trigger] out[k]).0 < (#[trigger] out[l]).0
    &&& forall|k: int|
        0 <= k < out.len() ==> {
            let b = (#[trigger] out[k]).0 as int;
            &&& b == spec_align(b, step)
            &&& b + step <= now
            &&& bucket_members(data, b, step).len() > 0
            &&& out[k].1 == spec_fold_candles(bucket_members(data, b, step))
        }
    &&& forall|i: int|
        0 <= i < data.len() && spec_align((#[trigger] data[i]).0 as int, step) + step <= now
            ==> exists|k: int|
            0 <= k < out.len() && (#[trigger] out[k]).0 == spec_align(data[i].0 as int, step)
}

/// One more candle extends its own bucket's members and no other's.
proof fn lemma_bucket_members_push(data: Seq<(i64, Candle)>, x: (i64, Candle), b: int, step: int)
    ensures
        bucket_members(data.push(x), b, step) == if spec_align(x.0 as int, step) == b {
            bucket_members(data, b, step).push(x.1)
        } else {
            bucket_members(data, b, step)
        },
{
    assert(data.push(x).drop_last() =~= data);
    assert(data.push(x).last() == x);
}

/// A bucket no candle aligns to has no members.
proof fn lemma_bucket_members_absent(data: Seq<(i64, Candle)>, b: int, step: int)
    requires
        forall|i: int| 0 <= i < data.len() ==> spec_align((#[trigger] data[i]).0 as int, step) != b,
    ensures
        bucket_members(data, b, step).len() == 0,
    decreases data.len(),
{
    if data.len() > 0 {
        assert(data.drop_last() =~= data.take(data.len() - 1));
        lemma_bucket_members_absent(data.drop_last(), b, step);
    }
}

/// Folding one more candle merges it into the fold of the rest.
proof fn lemma_fold_push(s: Seq<Candle>, x: Candle)
    requires
        s.len() >= 1,
    ensures
        spec_fold_candles(s.push(x)) == spec_merge_candle(spec_fold_candles(s), x),
{
    assert(s.push(x).drop_last() =~= s);
    assert(s.push(x).last() == x);
}

/// Alignment is monotone in the timestamp.
proof fn lemma_align_monotone(a: int, b: int, step: int)
    requires
        a <= b,
        0 < step,
    ensures
        spec_align(a, step) <= spec_align(b, step),
{
    vstd::arithmetic::div_mod::lemma_div_is_ordered(a, b, step);
    let qa = a / step;
    let qb = b / step;
    assert(qa * step <= qb * step) by (nonlinear_arith)
        requires
            qa <= qb,
            0 < step,
    ;
}

/// Fold raw candles (strictly ascending in time) into buckets of the target
/// resolution, skipping the bucket that is still open at `now`.
pub fn interpolate(resolution: CandleResolution, data: &Vec<(i64, Candle)>, now: i64) -> (out: Vec<
    (i64, Candle),
>)
    requires
        ascending_ts(data@),
        ts_in_range(data@),
    ensures
        is_interpolated(out@, data@, resolution.spec_interval_seconds(), now as int),
{
    let step = resolution.interval_seconds();
    let ghost dseq = data@;
    let ghost stepg = step as int;
    let n = data.len();
    let mut out: Vec<(i64, Candle)> = Vec::new();
    let mut i: usize = 0;
    while i < n
        invariant
            i <= n,
            n == data.len(),
            data@ == dseq,
            ascending_ts(dseq),
            ts_in_range(dseq),
            stepg == step,
            0 < step <= SECONDS_PER_DAY,
            stepg == resolution.spec_interval_seconds(),
            forall|k: int, l: int|
                0 <= k < l < out@.len() ==> (#[trigger] out@[k]).0 < (#[trigger] out@[l]).0,
            forall|k: int|
                0 <= k < out@.len() ==> {
                    let b = (#[trigger] out@[k]).0 as int;
                    &&& b == spec_align(b, stepg)
                    &&& b + stepg <= now
                    &&& bucket_members(dseq.take(i as int), b, stepg).len() > 0
                    &&& out@[k].1 == spec_fold_candles(bucket_members(dseq.take(i as int), b, stepg))
                },
            forall|j: int|
                0 <= j < i && spec_align((#[trigger] dseq[j]).0 as int, stepg) + stepg <= now
                    ==> exists|k: int|
                    0 <= k < out@.len() && (#[trigger] out@[k]).0 == spec_align(
                        dseq[j].0 as int,
                        stepg,
                    ),
            forall|j: int|
                0 <= j < i ==> (spec_align((#[trigger] dseq[j]).0 as int, stepg) + stepg > now) || (
                out@.len() > 0 && spec_align(dseq[j].0 as int, stepg) <= out@.last().0),
            out@.len() > 0 ==> exists|j: int|
                0 <= j < i && out@.last().0 == spec_align((#[trigger] dseq[j]).0 as int, stepg),
        decreases n - i,
    {
        let (ts, candle) = data[i];
        let b = align_down(ts, step);
        let ghost prefix = dseq.take(i as int);
        let ghost next_prefix = dseq.take(i as int + 1);
        proof {
            // A bucket boundary aligns to itself.
            vstd::arithmetic::div_mod::lemma_fundamental_div_mod(b as int, stepg);
            assert(b as int == spec_align(b as int, stepg));
            assert(next_prefix =~= prefix.push((ts, candle)));
            assert forall|bb: int| true implies bucket_members(next_prefix, bb, stepg) == (if b == bb {
                bucket_members(prefix, bb, stepg).push(candle)
            } else {
                bucket_members(prefix, bb, stepg)
            }) by {
                lemma_bucket_members_push(prefix, (ts, candle), bb, stepg);
            }
        }
        let still_open: bool = match b.checked_add(step) {
            Some(end) => end > now,
            None => true,
        };
        if still_open {
            proof {
                // The open bucket is not any recorded (closed) bucket, so no
                // recorded bucket gains members.
                assert(b as int + stepg > now as int);
                assert forall|k: int| 0 <= k < out@.len() implies {
                    let bb = (#[trigger] out@[k]).0 as int;
                    bucket_members(next_prefix, bb, stepg) == bucket_members(prefix, bb, stepg)
                } by {
                    let bb = out@[k].0 as int;
                    assert(bb + stepg <= now as int);
                    assert(bb != b as int);
                }
            }
        } else {
            if out.len() == 0 {
                proof {
                    assert forall|j: int| 0 <= j < prefix.len() implies spec_align(
                        (#[trigger] prefix[j]).0 as int,
                        stepg,
                    ) != b as int by {
                        assert(prefix[j] == dseq[j]);
                    }
                    lemma_bucket_members_absent(prefix, b as int, stepg);
                }
                let ghost pre_out = out@;
                out.push((b, candle));
                proof {
                    assert(bucket_members(next_prefix, b as int, stepg) =~= Seq::empty().push(
                        candle,
                    ));
                    assert(spec_fold_candles(seq![candle]) == candle);

                    assert forall|k: int| 0 <= k < out@.len() - 1 implies {
                        let bb = (#[trigger] out@[k]).0 as int;
                        bucket_members(next_prefix, bb, stepg) == bucket_members(prefix, bb, stepg)
                    } by {
                        let bb = out@[k].0 as int;
                        assert(out@[k] == pre_out[k]);
                        assert(bb != b as int);
                    }
                }

        proof {
            assert forall|j: int|
                0 <= j <= i as int && spec_align((#[trigger] dseq[j]).0 as int, stepg) + stepg
                    <= now implies exists|k: int|
                0 <= k < out@.len() && (#[trigger] out@[k]).0 == spec_align(
                    dseq[j].0 as int,
                    stepg,
                ) by {
                if j < i as int {
                    let k = choose|k: int|
                        0 <= k < pre_out.len() && (#[trigger] pre_out[k]).0 == spec_align(
                            dseq[j].0 as int,
                            stepg,
                        );
                    assert(out@[k].0 == spec_align(dseq[j].0 as int, stepg));
                } else {
                    assert(out@[out@.len() - 1].0 == spec_align(dseq[j].0 as int, stepg));
                }
            }
        }
            } else {
                let last_pos = out.len() - 1;
                let last_b = out[last_pos].0;
                proof {
                    let j = choose|j: int|
                        0 <= j < i && out@.last().0 == spec_align((#[trigger] dseq[j]).0 as int, stepg);
                    lemma_align_monotone(dseq[j].0 as int, ts as int, stepg);
                }
                if last_b < b {
                    proof {
                        assert forall|j: int| 0 <= j < prefix.len() implies spec_align(
                            (#[trigger] prefix[j]).0 as int,
                            stepg,
                        ) != b as int by {
                            assert(prefix[j] == dseq[j]);
                        }
                        lemma_bucket_members_absent(prefix, b as int, stepg);
                    }
                    let ghost pre_out = out@;
                    out.push((b, candle));
                    proof {
                        assert(bucket_members(next_prefix, b as int, stepg) =~= Seq::empty().push(
                            candle,
                        ));
                        assert(spec_fold_candles(seq![candle]) == candle);

                    assert forall|k: int| 0 <= k < out@.len() - 1 implies {
                        let bb = (#[trigger] out@[k]).0 as int;
                        bucket_members(next_prefix, bb, stepg) == bucket_members(prefix, bb, stepg)
                    } by {
                        let bb = out@[k].0 as int;
                        assert(out@[k] == pre_out[k]);
                        assert(bb != b as int);
                    }
                    }

        proof {
            assert forall|j: int|
                0 <= j <= i as int && spec_align((#[trigger] dseq[j]).0 as int, stepg) + stepg
                    <= now implies exists|k: int|
                0 <= k < out@.len() && (#[trigger] out@[k]).0 == spec_align(
                    dseq[j].0 as int,
                    stepg,
                ) by {
                if j < i as int {
                    let k = choose|k: int|
                        0 <= k < pre_out.len() && (#[trigger] pre_out[k]).0 == spec_align(
                            dseq[j].0 as int,
                            stepg,
                        );
                    assert(out@[k].0 == spec_align(dseq[j].0 as int, stepg));
                } else {
                    assert(out@[out@.len() - 1].0 == spec_align(dseq[j].0 as int, stepg));
                }
            }
        }
                } else {
                    // Ascending input: the bucket can only be the current tail.
                    let prev = out[last_pos];
                    proof {
                        assert(last_b == b);
                        lemma_fold_push(bucket_members(prefix, b as int, stepg), candle);
                    }
                    let ghost pre_out = out@;
                    out[last_pos] = (b, merge_candle(prev.1, candle));
                    proof {
                        assert forall|k: int| 0 <= k < out@.len() - 1 implies {
                            let bb = (#[trigger] out@[k]).0 as int;
                            bucket_members(next_prefix, bb, stepg) == bucket_members(
                                prefix,
                                bb,
                                stepg,
                            )
                        } by {
                            let bb = out@[k].0 as int;
                            assert(out@[k] == pre_out[k]);
                            assert(pre_out[k].0 < pre_out[out@.len() - 1].0);
                            assert(bb != b as int);
                        }
                        assert(out@[out@.len() - 1].1 == spec_fold_candles(
                            bucket_members(next_prefix, b as int, stepg),
                        ));
                    }

        proof {
            assert forall|j: int|
                0 <= j <= i as int && spec_align((#[trigger] dseq[j]).0 as int, stepg) + stepg
                    <= now implies exists|k: int|
                0 <= k < out@.len() && (#[trigger] out@[k]).0 == spec_align(
                    dseq[j].0 as int,
                    stepg,
                ) by {
                if j < i as int {
                    let k = choose|k: int|
                        0 <= k < pre_out.len() && (#[trigger] pre_out[k]).0 == spec_align(
                            dseq[j].0 as int,
                            stepg,
                        );
                    assert(out@[k].0 == spec_align(dseq[j].0 as int, stepg));
                } else {
                    assert(out@[out@.len() - 1].0 == spec_align(dseq[j].0 as int, stepg));
                }
            }
        }
                }
            }
        }
        i += 1;
    }
    proof {
        assert(dseq.take(n as int) =~= dseq);
    }
    out
}

} // verus!
