//! Packing per-instrument candle timelines into per-timestamp candle packs:
//! a mapping from bucket timestamp to the candle each instrument has there.

use vstd::prelude::*;

use crate::instruments::Figi;
use crate::interpolate::{interpolate, is_interpolated, ts_in_range};
use crate::market_data::{Candle, CandleResolution};

verus! {

/// The candle a timeline holds at `ts`, if any.
pub open spec fn tl_lookup(tl: Seq<(i64, Candle)>, ts: int) -> Option<Candle>
    decreases tl.len(),
{
    if tl.len() == 0 {
        None
    } else if tl.last().0 as int == ts {
        Some(tl.last().1)
    } else {
        tl_lookup(tl.drop_last(), ts)
    }
}

/// The timelines of `entries`, as sequences.
pub open spec fn timeline_views(entries: Seq<(Figi, Vec<(i64, Candle)>)>) -> Seq<
    (Figi, Seq<(i64, Candle)>),
> {
    Seq::new(entries.len(), |i: int| (entries[i].0, entries[i].1@))
}

/// The pack at `ts`: for each entry that has a candle at `ts`, in entry
/// order, the instrument paired with that candle.
pub open spec fn pack_at(entries: Seq<(Figi, Seq<(i64, Candle)>)>, ts: int) -> Seq<(Figi, Candle)>
    decreases entries.len(),
{
    if entries.len() == 0 {
        Seq::empty()
    } else {
        let rest = pack_at(entries.drop_last(), ts);
        match tl_lookup(entries.last().1, ts) {
            Some(c) => rest.push((entries.last().0, c)),
            None => rest,
        }
    }
}

/// Strictly ascending timestamps.
pub open spec fn tl_ascending(tl: Seq<(i64, Candle)>) -> bool {
    forall|i: int, j: int| 0 <= i < j < tl.len() ==> (#[trigger] tl[i]).0 < (#[trigger] tl[j]).0
}

/// Some row of `out` carries timestamp `ts`.
pub open spec fn key_in_out(out: Seq<(i64, Vec<(Figi, Candle)>)>, ts: i64) -> bool {
    exists|k: int| 0 <= k < out.len() && (#[trigger] out[k]).0 == ts
}

/// `out` is `entries` packed: one row per timestamp that some entry holds,
/// ascending, each row carrying exactly the instruments that have a candle
/// there.
pub open spec fn is_packed(
    out: Seq<(i64, Vec<(Figi, Candle)>)>,
    entries: Seq<(Figi, Seq<(i64, Candle)>)>,
) -> bool {
    &&& forall|k: int, l: int|
        0 <= k < l < out.len() ==> (#[trigger] out[k]).0 < (#[trigger] out[l]).0
    &&& forall|k: int|
        0 <= k < out.len() ==> (#[trigger] out[k]).1@ == pack_at(entries, out[k].0 as int)
            && out[k].1@.len() > 0
    &&& forall|e: int, r: int|
        #![trigger entries[e].1[r]]
        0 <= e < entries.len() && 0 <= r < entries[e].1.len() ==> key_in_out(
            out,
            entries[e].1[r].0,
        )
}

/// A lookup hit is an element of the timeline; a miss means no element
/// carries that timestamp.
proof fn lemma_tl_lookup_members(tl: Seq<(i64, Candle)>, ts: int)
    ensures
        tl_lookup(tl, ts) is Some ==> exists|r: int|
            0 <= r < tl.len() && (#[trigger] tl[r]).0 as int == ts && tl[r].1 == tl_lookup(
                tl,
                ts,
            )->0,
        tl_lookup(tl, ts) is None ==> forall|r: int|
            0 <= r < tl.len() ==> (#[trigger] tl[r]).0 as int != ts,
    decreases tl.len(),
{
    if tl.len() > 0 {
        if tl.last().0 as int == ts {
            assert((tl[tl.len() - 1]).0 as int == ts && tl[tl.len() - 1].1 == tl_lookup(
                tl,
                ts,
            )->0);
        } else {
            assert(tl.drop_last() =~= tl.take(tl.len() - 1));
            lemma_tl_lookup_members(tl.drop_last(), ts);
            if tl_lookup(tl, ts) is Some {
                let r = choose|r: int|
                    0 <= r < tl.drop_last().len() && (#[trigger] tl.drop_last()[r]).0 as int == ts
                        && tl.drop_last()[r].1 == tl_lookup(tl.drop_last(), ts)->0;
                assert((tl[r]).0 as int == ts && tl[r].1 == tl_lookup(tl, ts)->0);
            } else {
                assert forall|r: int| 0 <= r < tl.len() implies (#[trigger] tl[r]).0 as int
                    != ts by {
                    if r < tl.len() - 1 {
                        assert(tl.drop_last()[r] == tl[r]);
                    }
                }
            }
        }
    }
}

/// Adding one more entry leaves packs at other timestamps unchanged and
/// appends to packs the new entry covers.
proof fn lemma_pack_at_push(
    entries: Seq<(Figi, Seq<(i64, Candle)>)>,
    x: (Figi, Seq<(i64, Candle)>),
    ts: int,
)
    ensures
        pack_at(entries.push(x), ts) == match tl_lookup(x.1, ts) {
            Some(c) => pack_at(entries, ts).push((x.0, c)),
            None => pack_at(entries, ts),
        },
{
    assert(entries.push(x).drop_last() =~= entries);
    assert(entries.push(x).last() == x);
}

/// A timestamp no element carries is not found.
proof fn lemma_tl_lookup_absent(tl: Seq<(i64, Candle)>, ts: int)
    requires
        forall|r: int| 0 <= r < tl.len() ==> (#[trigger] tl[r]).0 as int != ts,
    ensures
        tl_lookup(tl, ts) is None,
    decreases tl.len(),
{
    if tl.len() > 0 {
        assert(tl.drop_last() =~= tl.take(tl.len() - 1));
        lemma_tl_lookup_absent(tl.drop_last(), ts);
    }
}

/// A timestamp no entry's timeline holds has an empty pack.
proof fn lemma_pack_at_absent(entries: Seq<(Figi, Seq<(i64, Candle)>)>, ts: int)
    requires
        forall|e: int| 0 <= e < entries.len() ==> tl_lookup((#[trigger] entries[e]).1, ts) is None,
    ensures
        pack_at(entries, ts).len() == 0,
    decreases entries.len(),
{
    if entries.len() > 0 {
        assert(entries.drop_last() =~= entries.take(entries.len() - 1));
        lemma_pack_at_absent(entries.drop_last(), ts);
    }
}

/// Pack per-instrument candle timelines (each ascending in time) into
/// per-timestamp packs, ascending in time, instruments in input order.
pub fn pack_timelines(entries: &Vec<(Figi, Vec<(i64, Candle)>)>) -> (out: Vec<
    (i64, Vec<(Figi, Candle)>),
>)
    requires
        forall|e: int| 0 <= e < entries@.len() ==> tl_ascending((#[trigger] entries@[e]).1@),
    ensures
        is_packed(out@, timeline_views(entries@)),
{
    let ghost eviews = timeline_views(entries@);
    let mut out: Vec<(i64, Vec<(Figi, Candle)>)> = Vec::new();
    let m = entries.len();
    let mut e: usize = 0;
    while e < m
        invariant
            e <= m,
            m == entries.len(),
            eviews == timeline_views(entries@),
            forall|e2: int| 0 <= e2 < entries@.len() ==> tl_ascending((#[trigger] entries@[e2]).1@),
            forall|k: int, l: int|
                0 <= k < l < out@.len() ==> (#[trigger] out@[k]).0 < (#[trigger] out@[l]).0,
            forall|k: int|
                0 <= k < out@.len() ==> (#[trigger] out@[k]).1@ == pack_at(
                    eviews.take(e as int),
                    out@[k].0 as int,
                ) && out@[k].1@.len() > 0,
            forall|e2: int, r: int|
                #![trigger eviews[e2].1[r]]
                0 <= e2 < e && 0 <= r < eviews[e2].1.len() ==> key_in_out(
                    out@,
                    eviews[e2].1[r].0,
                ),
        decreases m - e,
    {
        let tl_len = entries[e].1.len();
        let ghost tl = entries@[e as int].1@;
        let ghost prefix = eviews.take(e as int);
        let ghost next_prefix = eviews.take(e as int + 1);
        proof {
            assert(next_prefix =~= prefix.push(eviews[e as int]));
            assert(eviews[e as int].1 == tl);
        }
        let mut r: usize = 0;
        proof {
            assert(tl.take(0) =~= Seq::empty());
        }
        while r < tl_len
            invariant
                r <= tl_len,
                e < m,
                m == entries.len(),
                eviews == timeline_views(entries@),
                tl_len == entries@[e as int].1@.len(),
                tl == entries@[e as int].1@,
                prefix == eviews.take(e as int),
                next_prefix == eviews.take(e as int + 1),
                next_prefix == prefix.push(eviews[e as int]),
                eviews[e as int] == (entries@[e as int].0, tl),
                forall|e2: int| 0 <= e2 < entries@.len() ==> tl_ascending(
                    (#[trigger] entries@[e2]).1@,
                ),
                forall|k: int, l: int|
                    0 <= k < l < out@.len() ==> (#[trigger] out@[k]).0 < (#[trigger] out@[l]).0,
                forall|k: int|
                    0 <= k < out@.len() ==> (#[trigger] out@[k]).1@ == (match tl_lookup(
                        tl.take(r as int),
                        out@[k].0 as int,
                    ) {
                        Some(c) => pack_at(prefix, out@[k].0 as int).push(
                            (entries@[e as int].0, c),
                        ),
                        None => pack_at(prefix, out@[k].0 as int),
                    }) && out@[k].1@.len() > 0,
                forall|e2: int, r2: int|
                    #![trigger eviews[e2].1[r2]]
                    0 <= e2 < e && 0 <= r2 < eviews[e2].1.len() ==> key_in_out(
                        out@,
                        eviews[e2].1[r2].0,
                    ),
                forall|r2: int|
                    #![trigger tl[r2]]
                    0 <= r2 < r ==> key_in_out(out@, tl[r2].0),
            decreases tl_len - r,
        {
            let (ts, c) = entries[e].1[r];
            proof {
                assert(tl.take(r as int + 1) =~= tl.take(r as int).push((ts, c)));
                assert(tl.take(r as int + 1).drop_last() =~= tl.take(r as int));
                // Rows before `r` sit strictly earlier, so the prefix does not
                // hold this timestamp yet.
                assert forall|r2: int| 0 <= r2 < tl.take(r as int).len() implies (#[trigger] tl.take(
                    r as int,
                )[r2]).0 as int != ts as int by {
                    assert(tl[r2].0 < tl[r as int].0);
                }
                lemma_tl_lookup_absent(tl.take(r as int), ts as int);
            }
            let mut p: usize = 0;
            while p < out.len() && out[p].0 < ts
                invariant
                    p <= out.len(),
                    forall|k: int| 0 <= k < p ==> (#[trigger] out@[k]).0 < ts,
                decreases out.len() - p,
            {
                p += 1;
            }
            if p < out.len() && out[p].0 == ts {
                let ghost pre_out = out@;
                let figi = entries[e].0.clone();
                let row = &mut out[p];
                row.1.push((figi, c));
                proof {
                    assert forall|k: int| 0 <= k < out@.len() implies (#[trigger] out@[k]).1@ == (
                    match tl_lookup(tl.take(r as int + 1), out@[k].0 as int) {
                        Some(cc) => pack_at(prefix, out@[k].0 as int).push(
                            (entries@[e as int].0, cc),
                        ),
                        None => pack_at(prefix, out@[k].0 as int),
                    }) && out@[k].1@.len() > 0 by {
                        if k != p as int {
                            assert(out@[k] == pre_out[k]);
                            assert(out@[k].0 != ts);
                        } else {
                            assert(tl_lookup(tl.take(r as int + 1), ts as int) == Some(c));
                        }
                    }
                    assert forall|r2: int| #![trigger tl[r2]] 0 <= r2 < r as int + 1 implies key_in_out(
                        out@,
                        tl[r2].0,
                    ) by {
                        if r2 < r as int {
                            assert(key_in_out(pre_out, tl[r2].0));
                            let k = choose|k: int|
                                0 <= k < pre_out.len() && (#[trigger] pre_out[k]).0 == tl[r2].0;
                            assert(out@[k].0 == tl[r2].0);
                        } else {
                            assert(out@[p as int].0 == tl[r2].0);
                        }
                    }
                    assert forall|e2: int, r2: int|
                        #![trigger eviews[e2].1[r2]]
                        0 <= e2 < e && 0 <= r2 < eviews[e2].1.len() implies key_in_out(
                        out@,
                        eviews[e2].1[r2].0,
                    ) by {
                        assert(key_in_out(pre_out, eviews[e2].1[r2].0));
                        let k = choose|k: int|
                            0 <= k < pre_out.len() && (#[trigger] pre_out[k]).0
                                == eviews[e2].1[r2].0;
                        assert(out@[k].0 == eviews[e2].1[r2].0);
                    }
                }
            } else {
                proof {
                    // No pack holds this timestamp, so no processed entry does.
                    assert forall|k: int| 0 <= k < out@.len() implies (#[trigger] out@[k]).0 as int
                        != ts as int by {
                        if k >= p as int {
                            assert(out@[p as int].0 <= out@[k].0);
                        }
                    }
                    assert forall|e2: int| 0 <= e2 < prefix.len() implies tl_lookup(
                        (#[trigger] prefix[e2]).1,
                        ts as int,
                    ) is None by {
                        assert(prefix[e2] == eviews[e2]);
                        assert(eviews[e2].1 == entries@[e2].1@);
                        if tl_lookup(eviews[e2].1, ts as int) is Some {
                            lemma_tl_lookup_members(eviews[e2].1, ts as int);
                            let r2 = choose|r2: int|
                                0 <= r2 < eviews[e2].1.len() && (#[trigger] eviews[e2].1[r2]).0
                                    as int == ts as int && eviews[e2].1[r2].1 == tl_lookup(
                                    eviews[e2].1,
                                    ts as int,
                                )->0;
                            assert(key_in_out(out@, eviews[e2].1[r2].0));
                            let k = choose|k: int|
                                0 <= k < out@.len() && (#[trigger] out@[k]).0
                                    == eviews[e2].1[r2].0;
                        }
                    }
                    lemma_pack_at_absent(prefix, ts as int);
                }
                let figi = entries[e].0.clone();
                let mut pack: Vec<(Figi, Candle)> = Vec::new();
                pack.push((figi, c));
                let ghost pre_out = out@;
                let ghost new_pack_view = pack@;
                out.insert(p, (ts, pack));
                proof {
                    assert(new_pack_view =~= pack_at(prefix, ts as int).push(
                        (entries@[e as int].0, c),
                    ));
                    assert(tl_lookup(tl.take(r as int + 1), ts as int) == Some(c));
                    assert forall|k: int, l: int| 0 <= k < l < out@.len() implies (
                    #[trigger] out@[k]).0 < (#[trigger] out@[l]).0 by {
                        if l < p as int {
                            assert(out@[k] == pre_out[k] && out@[l] == pre_out[l]);
                        } else if k > p as int {
                            assert(out@[k] == pre_out[k - 1] && out@[l] == pre_out[l - 1]);
                        } else if k < p as int && l == p as int {
                            assert(out@[k] == pre_out[k]);
                        } else if k == p as int && l > p as int {
                            assert(out@[l] == pre_out[l - 1]);
                            assert(!(pre_out[p as int].0 < ts));
                            if l - 1 > p as int {
                                assert(pre_out[p as int].0 < pre_out[l - 1].0);
                            }
                        } else {
                            assert(out@[k] == pre_out[k] && out@[l] == pre_out[l - 1]);
                            if k < l - 1 {
                                assert(pre_out[k].0 < pre_out[l - 1].0);
                            }
                        }
                    }
                    assert forall|k: int| 0 <= k < out@.len() implies (#[trigger] out@[k]).1@ == (
                    match tl_lookup(tl.take(r as int + 1), out@[k].0 as int) {
                        Some(cc) => pack_at(prefix, out@[k].0 as int).push(
                            (entries@[e as int].0, cc),
                        ),
                        None => pack_at(prefix, out@[k].0 as int),
                    }) && out@[k].1@.len() > 0 by {
                        if k < p as int {
                            assert(out@[k] == pre_out[k]);
                        } else if k > p as int {
                            assert(out@[k] == pre_out[k - 1]);
                        }
                    }
                    assert forall|r2: int| #![trigger tl[r2]] 0 <= r2 < r as int + 1 implies key_in_out(
                        out@,
                        tl[r2].0,
                    ) by {
                        if r2 < r as int {
                            assert(key_in_out(pre_out, tl[r2].0));
                            let k = choose|k: int|
                                0 <= k < pre_out.len() && (#[trigger] pre_out[k]).0 == tl[r2].0;
                            if k < p as int {
                                assert(out@[k].0 == tl[r2].0);
                            } else {
                                assert(out@[k + 1].0 == tl[r2].0);
                            }
                        } else {
                            assert(out@[p as int].0 == tl[r2].0);
                        }
                    }
                    assert forall|e2: int, r2: int|
                        #![trigger eviews[e2].1[r2]]
                        0 <= e2 < e && 0 <= r2 < eviews[e2].1.len() implies key_in_out(
                        out@,
                        eviews[e2].1[r2].0,
                    ) by {
                        assert(key_in_out(pre_out, eviews[e2].1[r2].0));
                        let k = choose|k: int|
                            0 <= k < pre_out.len() && (#[trigger] pre_out[k]).0
                                == eviews[e2].1[r2].0;
                        if k < p as int {
                            assert(out@[k].0 == eviews[e2].1[r2].0);
                        } else {
                            assert(out@[k + 1].0 == eviews[e2].1[r2].0);
                        }
                    }
                }
            }
            r += 1;
        }
        proof {
            assert(tl.take(tl_len as int) =~= tl);
            assert forall|k: int| 0 <= k < out@.len() implies (#[trigger] out@[k]).1@ == pack_at(
                next_prefix,
                out@[k].0 as int,
            ) by {
                lemma_pack_at_push(prefix, eviews[e as int], out@[k].0 as int);
            }
        }
        e += 1;
    }
    proof {
        assert(eviews.take(m as int) =~= eviews);
    }
    out
}

/// Read market data for a set of instruments: each instrument's raw candles
/// (strictly ascending in time) are folded to the target resolution with the
/// open bucket left out, and the folded timelines are packed by timestamp.
pub fn read_market_data(
    entries: &Vec<(Figi, Vec<(i64, Candle)>)>,
    resolution: CandleResolution,
    now: i64,
) -> (out: Vec<(i64, Vec<(Figi, Candle)>)>)
    requires
        forall|e: int|
            0 <= e < entries@.len() ==> crate::interpolate::ascending_ts(
                (#[trigger] entries@[e]).1@,
            ) && ts_in_range(entries@[e].1@),
    ensures
        exists|folded: Seq<(Figi, Seq<(i64, Candle)>)>|
            {
                &&& folded.len() == entries@.len()
                &&& forall|e: int|
                    0 <= e < folded.len() ==> (#[trigger] folded[e]).0 == entries@[e].0
                        && is_interpolated(
                        folded[e].1,
                        entries@[e].1@,
                        resolution.spec_interval_seconds(),
                        now as int,
                    )
                &&& #[trigger] is_packed(out@, folded)
            },
{
    let mut folded: Vec<(Figi, Vec<(i64, Candle)>)> = Vec::new();
    let n = entries.len();
    let mut e: usize = 0;
    while e < n
        invariant
            e <= n,
            n == entries@.len(),
            folded@.len() == e,
            forall|e2: int|
                0 <= e2 < entries@.len() ==> crate::interpolate::ascending_ts(
                    (#[trigger] entries@[e2]).1@,
                ) && ts_in_range(entries@[e2].1@),
            forall|e2: int|
                0 <= e2 < e ==> (#[trigger] folded@[e2]).0 == entries@[e2].0 && is_interpolated(
                    folded@[e2].1@,
                    entries@[e2].1@,
                    resolution.spec_interval_seconds(),
                    now as int,
                ),
        decreases n - e,
    {
        let timeline = interpolate(resolution, &entries[e].1, now);
        let figi = entries[e].0.clone();
        folded.push((figi, timeline));
        e += 1;
    }
    proof {
        assert forall|e2: int| 0 <= e2 < folded@.len() implies tl_ascending(
            (#[trigger] folded@[e2]).1@,
        ) by {
            assert(is_interpolated(
                folded@[e2].1@,
                entries@[e2].1@,
                resolution.spec_interval_seconds(),
                now as int,
            ));
        }
    }
    let out = pack_timelines(&folded);
    proof {
        let ghost witness = timeline_views(folded@);
        assert(is_packed(out@, witness));
        assert forall|e2: int| 0 <= e2 < witness.len() implies (#[trigger] witness[e2]).0
            == entries@[e2].0 && is_interpolated(
            witness[e2].1,
            entries@[e2].1@,
            resolution.spec_interval_seconds(),
            now as int,
        ) by {
            assert(witness[e2].1 == folded@[e2].1@);
        }
    }
    out
}

} // verus!
