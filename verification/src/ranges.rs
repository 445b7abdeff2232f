//! Merging per-instrument time requirements into a minimal list of disjoint,
//! non-touching closed ranges covering the union of the inputs.

use vstd::prelude::*;

use crate::instruments::Figi;

verus! {

/// A closed time range `[from, to]`, in epoch seconds.
pub type TimeRange = (i64, i64);

/// Does some range of `rs` cover the instant `t`?
pub open spec fn covers(rs: Seq<TimeRange>, t: int) -> bool {
    exists|i: int| #![trigger rs[i]] 0 <= i < rs.len() && rs[i].0 <= t <= rs[i].1
}

/// Ranges in ascending order, each ending strictly before the next begins:
/// disjoint and non-touching.
pub open spec fn disjoint_ascending(rs: Seq<TimeRange>) -> bool {
    forall|i: int| 0 <= i < rs.len() - 1 ==> #[trigger] rs[i].1 < rs[i + 1].0
}

/// Some range of `src` starts at `v`.
pub open spec fn has_start(src: Seq<TimeRange>, v: i64) -> bool {
    exists|j: int| #![trigger src[j]] 0 <= j < src.len() && src[j].0 == v
}

/// Some range of `src` ends at `v`.
pub open spec fn has_end(src: Seq<TimeRange>, v: i64) -> bool {
    exists|j: int| #![trigger src[j]] 0 <= j < src.len() && src[j].1 == v
}

/// Every start of `rs` is a start of `src`, and every end an end of `src`:
/// merging invents no new endpoints.
pub open spec fn endpoints_from(rs: Seq<TimeRange>, src: Seq<TimeRange>) -> bool {
    forall|i: int|
        0 <= i < rs.len() ==> has_start(src, (#[trigger] rs[i]).0) && has_end(src, rs[i].1)
}

/// `out` is the merge of `src`: the same instants covered by disjoint,
/// non-touching ranges whose endpoints all come from `src`.
pub open spec fn is_merged_of(out: Seq<TimeRange>, src: Seq<TimeRange>) -> bool {
    &&& forall|t: int| covers(out, t) == covers(src, t)
    &&& disjoint_ascending(out)
    &&& endpoints_from(out, src)
    &&& out.len() <= src.len()
    &&& (src.len() > 0 ==> out.len() > 0)
}

/// Ranges sorted by their start, ascending.
pub open spec fn sorted_by_start(rs: Seq<TimeRange>) -> bool {
    forall|i: int, j: int| 0 <= i < j < rs.len() ==> #[trigger] rs[i].0 <= #[trigger] rs[j].0
}

/// Insert a range into a start-sorted list, after every range starting no
/// later.
pub open spec fn spec_insert_by_start(s: Seq<TimeRange>, x: TimeRange) -> Seq<TimeRange>
    decreases s.len(),
{
    if s.len() == 0 {
        seq![x]
    } else if s.first().0 <= x.0 {
        seq![s.first()] + spec_insert_by_start(s.drop_first(), x)
    } else {
        seq![x] + s
    }
}

/// The canonical start-sorted order of the input ranges: each range inserted
/// in turn.
pub open spec fn spec_sort_by_start(s: Seq<TimeRange>) -> Seq<TimeRange>
    decreases s.len(),
{
    if s.len() == 0 {
        Seq::empty()
    } else {
        spec_insert_by_start(spec_sort_by_start(s.drop_last()), s.last())
    }
}

/// Fold a start-sorted list: a range starting no later than the tail ends
/// extends the tail to the later of the two ends; any other range opens a
/// new tail.
pub open spec fn spec_merge_fold(s: Seq<TimeRange>) -> Seq<TimeRange>
    decreases s.len(),
{
    if s.len() == 0 {
        Seq::empty()
    } else {
        let prev = spec_merge_fold(s.drop_last());
        let x = s.last();
        if prev.len() > 0 && prev.last().1 >= x.0 {
            prev.update(
                prev.len() - 1,
                (
                    prev.last().0,
                    if x.1 > prev.last().1 {
                        x.1
                    } else {
                        prev.last().1
                    },
                ),
            )
        } else {
            prev.push(x)
        }
    }
}

/// Inserting at the first position whose start is later is the canonical
/// insertion.
proof fn lemma_insert_by_start_at(s: Seq<TimeRange>, x: TimeRange, p: int)
    requires
        0 <= p <= s.len(),
        forall|k: int| 0 <= k < p ==> (#[trigger] s[k]).0 <= x.0,
        p < s.len() ==> !(s[p].0 <= x.0),
    ensures
        spec_insert_by_start(s, x) == s.insert(p, x),
    decreases s.len(),
{
    if s.len() == 0 {
        assert(spec_insert_by_start(s, x) =~= s.insert(0, x));
    } else if p == 0 {
        assert(!(s[0].0 <= x.0));
        assert(spec_insert_by_start(s, x) =~= s.insert(0, x));
    } else {
        assert(s[0].0 <= x.0);
        let rest = s.drop_first();
        assert forall|k: int| 0 <= k < p - 1 implies (#[trigger] rest[k]).0 <= x.0 by {
            assert(rest[k] == s[k + 1]);
        }
        if p - 1 < rest.len() {
            assert(rest[p - 1] == s[p]);
        }
        lemma_insert_by_start_at(rest, x, p - 1);
        assert(spec_insert_by_start(s, x) =~= s.insert(p, x));
    }
}

/// Appending one range extends the covered instants by exactly that range.
proof fn lemma_covers_push(s: Seq<TimeRange>, x: TimeRange, t: int)
    ensures
        covers(s.push(x), t) == (covers(s, t) || (x.0 <= t <= x.1)),
{
    let s2 = s.push(x);
    if covers(s, t) {
        let i = choose|i: int| #![trigger s[i]] 0 <= i < s.len() && s[i].0 <= t <= s[i].1;
        assert(s2[i].0 <= t <= s2[i].1);
    }
    if x.0 <= t <= x.1 {
        assert(s2[s.len() as int].0 <= t <= s2[s.len() as int].1);
    }
    if covers(s2, t) {
        let i = choose|i: int| #![trigger s2[i]] 0 <= i < s2.len() && s2[i].0 <= t <= s2[i].1;
        if i < s.len() {
            assert(s[i].0 <= t <= s[i].1);
        }
    }
}

/// Both endpoint predicates persist when a range is appended.
proof fn lemma_endpoints_push(src: Seq<TimeRange>, x: TimeRange)
    ensures
        forall|v: i64| has_start(src, v) ==> #[trigger] has_start(src.push(x), v),
        forall|v: i64| has_end(src, v) ==> #[trigger] has_end(src.push(x), v),
        has_start(src.push(x), x.0),
        has_end(src.push(x), x.1),
{
    let s2 = src.push(x);
    assert forall|v: i64| has_start(src, v) implies #[trigger] has_start(s2, v) by {
        let j = choose|j: int| #![trigger src[j]] 0 <= j < src.len() && src[j].0 == v;
        assert(s2[j].0 == v);
    }
    assert forall|v: i64| has_end(src, v) implies #[trigger] has_end(s2, v) by {
        let j = choose|j: int| #![trigger src[j]] 0 <= j < src.len() && src[j].1 == v;
        assert(s2[j].1 == v);
    }
    assert(s2[src.len() as int] == x);
}

/// Sequences with equal multisets cover the same instants and offer the same
/// endpoints.
proof fn lemma_ranges_of_multiset(a: Seq<TimeRange>, b: Seq<TimeRange>)
    requires
        a.to_multiset() == b.to_multiset(),
    ensures
        forall|t: int| #[trigger] covers(a, t) == covers(b, t),
        forall|v: i64| #[trigger] has_start(a, v) ==> has_start(b, v),
        forall|v: i64| #[trigger] has_end(a, v) ==> has_end(b, v),
        a.len() == b.len(),
{
    broadcast use vstd::seq_lib::group_to_multiset_ensures;

    vstd::seq_lib::to_multiset_len(a);
    vstd::seq_lib::to_multiset_len(b);
    assert forall|t: int| #[trigger] covers(a, t) == covers(b, t) by {
        if covers(a, t) {
            let i = choose|i: int| #![trigger a[i]] 0 <= i < a.len() && a[i].0 <= t <= a[i].1;
            assert(a.contains(a[i]));
            assert(a.to_multiset().count(a[i]) > 0);
            assert(b.contains(a[i]));
            let j = choose|j: int| 0 <= j < b.len() && b[j] == a[i];
            assert(b[j].0 <= t <= b[j].1);
        }
        if covers(b, t) {
            let i = choose|i: int| #![trigger b[i]] 0 <= i < b.len() && b[i].0 <= t <= b[i].1;
            assert(b.contains(b[i]));
            assert(b.to_multiset().count(b[i]) > 0);
            assert(a.contains(b[i]));
            let j = choose|j: int| 0 <= j < a.len() && a[j] == b[i];
            assert(a[j].0 <= t <= a[j].1);
        }
    }
    assert forall|v: i64| #[trigger] has_start(a, v) implies has_start(b, v) by {
        let i = choose|i: int| #![trigger a[i]] 0 <= i < a.len() && a[i].0 == v;
        assert(a.contains(a[i]));
        assert(a.to_multiset().count(a[i]) > 0);
        assert(b.contains(a[i]));
        let j = choose|j: int| 0 <= j < b.len() && b[j] == a[i];
        assert(b[j].0 == v);
    }
    assert forall|v: i64| #[trigger] has_end(a, v) implies has_end(b, v) by {
        let i = choose|i: int| #![trigger a[i]] 0 <= i < a.len() && a[i].1 == v;
        assert(a.contains(a[i]));
        assert(a.to_multiset().count(a[i]) > 0);
        assert(b.contains(a[i]));
        let j = choose|j: int| 0 <= j < b.len() && b[j] == a[i];
        assert(b[j].1 == v);
    }
}

/// Sort ranges by their start, ascending, keeping the multiset of ranges.
fn sort_by_range_start(input: Vec<TimeRange>) -> (out: Vec<TimeRange>)
    ensures
        out@ == spec_sort_by_start(input@),
        out@.to_multiset() == input@.to_multiset(),
        sorted_by_start(out@),
{
    let mut out: Vec<TimeRange> = Vec::new();
    let n = input.len();
    let mut idx: usize = 0;
    proof {
        assert(input@.take(0) =~= out@);
    }
    while idx < n
        invariant
            idx <= n,
            n == input.len(),
            out@ == spec_sort_by_start(input@.take(idx as int)),
            out@.to_multiset() == input@.take(idx as int).to_multiset(),
            sorted_by_start(out@),
        decreases n - idx,
    {
        let elem = input[idx];
        let mut p: usize = 0;
        while p < out.len() && out[p].0 <= elem.0
            invariant
                p <= out.len(),
                forall|k: int| 0 <= k < p ==> #[trigger] out@[k].0 <= elem.0,
            decreases out.len() - p,
        {
            p += 1;
        }
        proof {
            assert(input@.take(idx as int + 1) =~= input@.take(idx as int).push(elem));
            assert(input@.take(idx as int + 1).drop_last() =~= input@.take(idx as int));
            vstd::seq_lib::to_multiset_build(input@.take(idx as int), elem);
            vstd::seq_lib::to_multiset_insert(out@, p as int, elem);
            lemma_insert_by_start_at(out@, elem, p as int);
        }
        let ghost pre_insert = out@;
        out.insert(p, elem);
        proof {
            assert forall|a: int, b: int| 0 <= a < b < out@.len() implies #[trigger] out@[a].0
                <= #[trigger] out@[b].0 by {
                if b < p {
                    assert(out@[a] == pre_insert[a] && out@[b] == pre_insert[b]);
                } else if a > p {
                    assert(out@[a] == pre_insert[a - 1] && out@[b] == pre_insert[b - 1]);
                } else if a < p && b == p {
                    assert(out@[a] == pre_insert[a]);
                } else if a == p && b > p {
                    // Elements at and after the insertion point were not below `elem`.
                    assert(out@[b] == pre_insert[b - 1]);
                    if p < pre_insert.len() {
                        assert(!(pre_insert[p as int].0 <= elem.0));
                        if b - 1 > p {
                            assert(pre_insert[p as int].0 <= pre_insert[b - 1].0);
                        }
                    }
                } else if a < p && b > p {
                    assert(out@[a] == pre_insert[a] && out@[b] == pre_insert[b - 1]);
                    if a < b - 1 {
                        assert(pre_insert[a].0 <= pre_insert[b - 1].0);
                    }
                }
            }
        }
        idx += 1;
    }
    proof {
        assert(input@.take(n as int) =~= input@);
    }
    out
}

/// Merge closed ranges into a minimal covering list: sort by start, then fold,
/// extending the current tail whenever the next range starts no later than the
/// tail ends, and starting a new range otherwise. The result is pinned: it is
/// the fold of the canonically start-sorted input.
#[verifier::rlimit(60)]
pub fn merge_ranges(input: Vec<TimeRange>) -> (out: Vec<TimeRange>)
    ensures
        out@ == spec_merge_fold(spec_sort_by_start(input@)),
        is_merged_of(out@, input@),
{
    let ghost input_seq = input@;
    let sorted = sort_by_range_start(input);
    let ghost sorted_seq = sorted@;

    let mut out: Vec<TimeRange> = Vec::new();
    let n = sorted.len();
    let mut idx: usize = 0;
    while idx < n
        invariant
            idx <= n,
            n == sorted.len(),
            sorted@ == sorted_seq,
            sorted_by_start(sorted_seq),
            out@ == spec_merge_fold(sorted_seq.take(idx as int)),
            forall|t: int| #[trigger] covers(out@, t) == covers(sorted_seq.take(idx as int), t),
            disjoint_ascending(out@),
            endpoints_from(out@, sorted_seq.take(idx as int)),
            out@.len() <= idx,
            idx > 0 ==> out@.len() > 0,
            out@.len() > 0 ==> forall|k: int|
                idx <= k < n ==> out@.last().0 <= #[trigger] sorted_seq[k].0,
        decreases n - idx,
    {
        let elem = sorted[idx];
        let ghost prefix = sorted_seq.take(idx as int);
        let ghost next_prefix = sorted_seq.take(idx as int + 1);
        proof {
            assert(next_prefix =~= prefix.push(elem));
            assert(next_prefix.drop_last() =~= prefix);
            assert(next_prefix.last() == elem);
            lemma_endpoints_push(prefix, elem);
        }
        if out.len() == 0 {
            let ghost old_out = out@;
            out.push(elem);
            proof {
                assert forall|t: int| #[trigger] covers(out@, t) == covers(next_prefix, t) by {
                    lemma_covers_push(old_out, elem, t);
                    lemma_covers_push(prefix, elem, t);
                }
                assert(out@[0] == elem);
                assert(endpoints_from(out@, next_prefix));
            }
        } else {
            let last_pos = out.len() - 1;
            let last = out[last_pos];
            if last.1 >= elem.0 {
                let new_to: i64 = if elem.1 > last.1 {
                    elem.1
                } else {
                    last.1
                };
                let ghost old_out = out@;
                out[last_pos] = (last.0, new_to);
                proof {
                    assert forall|t: int| #[trigger] covers(out@, t) == covers(next_prefix, t) by {
                        lemma_covers_push(prefix, elem, t);
                        assert(covers(old_out, t) == covers(prefix, t));
                        if covers(old_out, t) {
                            let i = choose|i: int|
                                #![trigger old_out[i]]
                                0 <= i < old_out.len() && old_out[i].0 <= t <= old_out[i].1;
                            assert(out@[i].0 <= t <= out@[i].1);
                        }
                        if elem.0 <= t <= elem.1 {
                            // The tail starts no later than `elem` and now ends
                            // no earlier than `elem` ends.
                            assert(out@[last_pos as int].0 <= t <= out@[last_pos as int].1);
                        }
                        if covers(out@, t) {
                            let i = choose|i: int|
                                #![trigger out@[i]]
                                0 <= i < out@.len() && out@[i].0 <= t <= out@[i].1;
                            if i < last_pos as int {
                                assert(old_out[i].0 <= t <= old_out[i].1);
                            } else {
                                if t <= last.1 {
                                    assert(old_out[last_pos as int].0 <= t <= old_out[
                                        last_pos as int].1);
                                } else {
                                    assert(elem.0 <= t <= elem.1);
                                }
                            }
                        }
                    }
                    // Endpoints: unchanged entries keep theirs; the changed
                    // tail keeps its start, and ends at the old end or at the
                    // end of `elem`.
                    assert forall|i: int| 0 <= i < out@.len() implies has_start(
                        next_prefix,
                        (#[trigger] out@[i]).0,
                    ) && has_end(next_prefix, out@[i].1) by {
                        if i < last_pos as int {
                            assert(out@[i] == old_out[i]);
                            assert(has_start(prefix, old_out[i].0));
                            assert(has_end(prefix, old_out[i].1));
                        } else {
                            assert(old_out[i].0 == out@[i].0);
                            assert(has_start(prefix, old_out[i].0));
                            if new_to == elem.1 {
                                assert(has_end(next_prefix, elem.1));
                            } else {
                                assert(out@[i].1 == old_out[i].1);
                                assert(has_end(prefix, old_out[i].1));
                            }
                        }
                    }
                }
            } else {
                let ghost old_out = out@;
                out.push(elem);
                proof {
                    assert forall|t: int| #[trigger] covers(out@, t) == covers(next_prefix, t) by {
                        lemma_covers_push(old_out, elem, t);
                        lemma_covers_push(prefix, elem, t);
                        assert(covers(old_out, t) == covers(prefix, t));
                    }
                    assert(out@[out@.len() - 1] == elem);
                    assert forall|i: int| 0 <= i < out@.len() implies has_start(
                        next_prefix,
                        (#[trigger] out@[i]).0,
                    ) && has_end(next_prefix, out@[i].1) by {
                        if i < out@.len() - 1 {
                            assert(out@[i] == old_out[i]);
                            assert(has_start(prefix, old_out[i].0));
                            assert(has_end(prefix, old_out[i].1));
                        }
                    }
                    assert forall|i: int| 0 <= i < out@.len() - 1 implies #[trigger] out@[i].1
                        < out@[i + 1].0 by {
                        if i < out@.len() - 2 {
                            assert(old_out[i].1 < old_out[i + 1].0);
                        } else {
                            assert(out@[i] == old_out[last_pos as int]);
                        }
                    }
                }
            }
        }
        idx += 1;
    }
    proof {
        assert(sorted_seq.take(n as int) =~= sorted_seq);
        lemma_ranges_of_multiset(sorted_seq, input_seq);
        lemma_ranges_of_multiset(input_seq, sorted_seq);
        assert forall|t: int| #[trigger] covers(out@, t) == covers(input_seq, t) by {
            assert(covers(out@, t) == covers(sorted_seq, t));
        }
        assert forall|i: int| 0 <= i < out@.len() implies has_start(
            input_seq,
            (#[trigger] out@[i]).0,
        ) && has_end(input_seq, out@[i].1) by {
            assert(has_start(sorted_seq, out@[i].0));
            assert(has_end(sorted_seq, out@[i].1));
        }
    }
    out
}

/// Pairwise distinct FIGI keys.
pub open spec fn distinct_figis(entries: Seq<(Figi, Vec<TimeRange>)>) -> bool {
    forall|i: int, j: int|
        0 <= i < j < entries.len() ==> (#[trigger] entries[i]).0@ != (#[trigger] entries[j]).0@
}

/// Is there an entry for this FIGI?
pub open spec fn has_figi(entries: Seq<(Figi, Vec<TimeRange>)>, f: Seq<char>) -> bool {
    exists|i: int| 0 <= i < entries.len() && (#[trigger] entries[i]).0@ == f
}

/// Gathers the time ranges each instrument is required on, then merges them
/// per instrument into a minimal covering list.
pub struct RequirementsCollector {
    entries: Vec<(Figi, Vec<TimeRange>)>,
}

impl RequirementsCollector {
    /// One entry per instrument.
    pub closed spec fn entries_view(&self) -> Seq<(Figi, Vec<TimeRange>)> {
        self.entries@
    }

    /// No instrument appears twice.
    pub closed spec fn well_formed(&self) -> bool {
        distinct_figis(self.entries@)
    }

    pub fn new() -> (r: Self)
        ensures
            r.well_formed(),
            r.entries_view().len() == 0,
    {
        RequirementsCollector { entries: Vec::new() }
    }

    /// Record that `figi` is required on `[time_from, time_to]`; an absent
    /// `time_to` means "now".
    pub fn push(&mut self, figi: &Figi, time_from: i64, time_to: Option<i64>, now: i64)
        requires
            old(self).well_formed(),
        ensures
            final(self).well_formed(),
            ({
                let range = (time_from, if time_to is Some { time_to->0 } else { now });
                let prev = old(self).entries_view();
                let cur = final(self).entries_view();
                &&& (if has_figi(prev, figi@) {
                    cur.len() == prev.len()
                } else {
                    &&& cur.len() == prev.len() + 1
                    &&& cur.last().0@ == figi@
                    &&& cur.last().1@ == seq![range]
                })
                &&& forall|j: int|
                    0 <= j < prev.len() ==> (#[trigger] cur[j]).0 == prev[j].0 && cur[j].1@ == (
                    if prev[j].0@ == figi@ {
                        prev[j].1@.push(range)
                    } else {
                        prev[j].1@
                    })
            }),
    {
        let to: i64 = match time_to {
            Some(t) => t,
            None => now,
        };
        let range = (time_from, to);
        let n = self.entries.len();
        let mut k: usize = 0;
        while k < n
            invariant
                k <= n,
                n == self.entries.len(),
                *self == *old(self),
                old(self).well_formed(),
                range == (time_from, if time_to is Some { time_to->0 } else { now }),
                forall|j: int| 0 <= j < k ==> (#[trigger] self.entries@[j]).0@ != figi@,
            decreases n - k,
        {
            if self.entries[k].0.matches(figi) {
                let ghost prev = old(self).entries_view();
                let entry = &mut self.entries[k];
                entry.1.push(range);
                proof {
                    let cur = self.entries@;
                    assert(has_figi(prev, figi@));
                    assert forall|j: int| 0 <= j < prev.len() implies (#[trigger] cur[j]).0
                        == prev[j].0 && cur[j].1@ == (if prev[j].0@ == figi@ {
                        prev[j].1@.push(range)
                    } else {
                        prev[j].1@
                    }) by {
                        if j != k as int {
                            assert(cur[j] == prev[j]);
                            // Distinct keys: only entry `k` carries this FIGI.
                            if j < k as int {
                                assert(prev[j].0@ != prev[k as int].0@);
                            } else {
                                assert(prev[k as int].0@ != prev[j].0@);
                            }
                        }
                    }
                    assert forall|i: int, j: int| 0 <= i < j < cur.len() implies (
                    #[trigger] cur[i]).0@ != (#[trigger] cur[j]).0@ by {
                        assert(prev[i].0@ != prev[j].0@);
                    }
                }
                return ;
            }
            k += 1;
        }
        let mut ranges: Vec<TimeRange> = Vec::new();
        ranges.push(range);
        proof {
            assert(ranges@ =~= seq![range]);
        }
        let ghost prev = old(self).entries_view();
        self.entries.push((figi.clone(), ranges));
        proof {
            let cur = self.entries@;
            assert(!has_figi(prev, figi@));
            assert(forall|j: int| 0 <= j < prev.len() ==> #[trigger] cur[j] == prev[j]);
            assert forall|i: int, j: int| 0 <= i < j < cur.len() implies (#[trigger] cur[i]).0@
                != (#[trigger] cur[j]).0@ by {
                if j < cur.len() - 1 {
                    assert(prev[i].0@ != prev[j].0@);
                } else {
                    assert(cur[i] == prev[i]);
                }
            }
        }
    }

    /// Merge each instrument's recorded ranges into a minimal covering list:
    /// per instrument, exactly the fold of its canonically start-sorted
    /// ranges.
    pub fn finalize(self) -> (out: Vec<(Figi, Vec<TimeRange>)>)
        requires
            self.well_formed(),
        ensures
            distinct_figis(out@),
            out@.len() == self.entries_view().len(),
            forall|i: int|
                0 <= i < out@.len() ==> (#[trigger] out@[i]).0 == self.entries_view()[i].0
                    && out@[i].1@ == spec_merge_fold(
                    spec_sort_by_start(self.entries_view()[i].1@),
                ) && is_merged_of(out@[i].1@, self.entries_view()[i].1@),
    {
        let ghost orig = self.entries@;
        let mut remaining = self.entries;
        let mut out: Vec<(Figi, Vec<TimeRange>)> = Vec::new();
        while remaining.len() > 0
            invariant
                out@.len() + remaining@.len() == orig.len(),
                remaining@ =~= orig.skip(out@.len() as int),
                forall|i: int|
                    0 <= i < out@.len() ==> (#[trigger] out@[i]).0 == orig[i].0 && out@[i].1@
                        == spec_merge_fold(spec_sort_by_start(orig[i].1@)) && is_merged_of(
                        out@[i].1@,
                        orig[i].1@,
                    ),
            decreases remaining@.len(),
        {
            let ghost k = out@.len() as int;
            let (figi, raw) = remaining.remove(0);
            proof {
                assert(figi == orig[k].0 && raw == orig[k].1);
                assert(remaining@ =~= orig.skip(k + 1));
            }
            let merged = merge_ranges(raw);
            out.push((figi, merged));
        }
        proof {
            assert forall|i: int, j: int| 0 <= i < j < out@.len() implies (#[trigger] out@[i]).0@
                != (#[trigger] out@[j]).0@ by {
                assert(orig[i].0@ != orig[j].0@);
            }
        }
        out
    }
}

} // verus!
