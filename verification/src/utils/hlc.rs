use vstd::prelude::*;
use vstd::relations::{sorted_by, total_ordering};

use crate::clock::current_time_ms;

verus! {

/// State of a hybrid logical clock: a logical counter and the last physical
/// time seen, in milliseconds.
#[derive(Debug, Clone)]
pub struct HlcState {
    pub logical_clock: u64,
    pub last_physical_ms: u64,
}

impl Default for HlcState {
    fn default() -> (res: Self)
        ensures
            res.logical_clock == 0,
            res.last_physical_ms == 0,
    {
        HlcState { logical_clock: 0, last_physical_ms: 0 }
    }
}

/// The order in which timestamps are sorted.
pub open spec fn ts_leq() -> spec_fn(u64, u64) -> bool {
    |a: u64, b: u64| a <= b
}

/// The middle of the sorted timestamps: the middle element for an odd count,
/// the rounded-down mean of the two middle elements for an even count.
pub open spec fn median_spec(ts: Seq<u64>) -> int
    recommends
        ts.len() > 0,
{
    let s = ts.sort_by(ts_leq());
    let mid = s.len() / 2;
    if s.len() % 2 == 1 {
        s[mid as int] as int
    } else {
        (s[mid - 1] + s[mid as int]) / 2
    }
}

proof fn lemma_ts_leq_total()
    ensures
        total_ordering(ts_leq()),
{
}

/// `s` with `x` placed at `p` has the multiset of `s` plus `x`.
proof fn lemma_insert_multiset(s: Seq<u64>, p: int, x: u64)
    requires
        0 <= p <= s.len(),
    ensures
        s.insert(p, x).to_multiset() == s.to_multiset().insert(x),
{
    broadcast use vstd::seq_lib::group_to_multiset_ensures;
    let a = s.take(p);
    let b = s.skip(p);
    assert(s =~= a + b);
    assert(s.insert(p, x) =~= a.push(x) + b);
    vstd::seq_lib::lemma_multiset_commutative(a, b);
    vstd::seq_lib::lemma_multiset_commutative(a.push(x), b);
}

/// The timestamps in ascending order (insertion sort).
fn sort_timestamps(ts: &[u64]) -> (res: Vec<u64>)
    ensures
        res@ == ts@.sort_by(ts_leq()),
{
    broadcast use vstd::seq_lib::group_to_multiset_ensures;
    let mut sorted: Vec<u64> = Vec::new();
    let n = ts.len();
    let mut i: usize = 0;
    assert(ts@.take(0) =~= Seq::<u64>::empty());
    while i < n
        invariant
            n == ts@.len(),
            i <= n,
            sorted_by(sorted@, ts_leq()),
            sorted@.to_multiset() == ts@.take(i as int).to_multiset(),
        decreases n - i,
    {
        let x = ts[i];
        let mut pos = sorted.len();
        while pos > 0 && sorted[pos - 1] > x
            invariant
                pos <= sorted@.len(),
                forall|j: int| pos <= j < sorted@.len() ==> #[trigger] sorted@[j] > x,
            decreases pos,
        {
            pos = pos - 1;
        }
        let ghost old_sorted = sorted@;
        proof {
            lemma_insert_multiset(old_sorted, pos as int, x);
            assert(ts@.take(i + 1) =~= ts@.take(i as int).push(x));
        }
        sorted.insert(pos, x);
        proof {
            assert(sorted@ == old_sorted.insert(pos as int, x));
            assert forall|a: int, b: int| 0 <= a < b < sorted@.len() implies #[trigger] (ts_leq())(sorted@[a], sorted@[b]) by {
                if b < pos {
                    assert((ts_leq())(old_sorted[a], old_sorted[b]));
                } else if b == pos {
                    if pos > 0 {
                        assert((ts_leq())(old_sorted[a], old_sorted[pos - 1]) || a == pos - 1);
                    }
                } else if a == pos {
                    assert(old_sorted[b - 1] > x);
                } else if a < pos {
                    assert((ts_leq())(old_sorted[a], old_sorted[b - 1]));
                } else {
                    assert((ts_leq())(old_sorted[a - 1], old_sorted[b - 1]));
                }
            }
        }
        proof {
            ts@.take(i as int).to_multiset_ensures();
            assert(sorted@.to_multiset() == ts@.take(i + 1).to_multiset());
        }
        i = i + 1;
    }
    proof {
        assert(ts@.take(n as int) =~= ts@);
        lemma_ts_leq_total();
        ts@.lemma_sort_by_ensures(ts_leq());
        vstd::seq_lib::lemma_sorted_unique(sorted@, ts@.sort_by(ts_leq()), ts_leq());
    }
    sorted
}

/// Aggregates timestamps (for example answers of several time servers) to
/// their median; with no timestamps at all it answers with the local clock,
/// of which nothing is promised.
pub fn aggregate_time(timestamps: &[u64]) -> (res: u64)
    ensures
        timestamps@.len() > 0 ==> res == median_spec(timestamps@),
        timestamps@.len() > 0 ==> at_least_smallest(timestamps@, res as int) && at_most_largest(timestamps@, res as int),
{
    if timestamps.len() > 0 {
        proof {
            lemma_median_within_range(timestamps@);
        }
    }
    if timestamps.len() == 0 {
        return current_time_ms();
    }
    let tmp = sort_timestamps(timestamps);
    proof {
        broadcast use vstd::seq_lib::group_to_multiset_ensures;
        lemma_ts_leq_total();
        timestamps@.lemma_sort_by_ensures(ts_leq());
        tmp@.to_multiset_ensures();
        timestamps@.to_multiset_ensures();
        assert(tmp@.len() == timestamps@.len());
    }
    let mid = tmp.len() / 2;
    if tmp.len() % 2 == 1 {
        tmp[mid]
    } else {
        let v1 = tmp[mid - 1];
        let v2 = tmp[mid];
        let r = v1 / 2 + v2 / 2 + (v1 % 2 + v2 % 2) / 2;
        assert(r == (v1 + v2) / 2) by (nonlinear_arith)
            requires
                r == v1 / 2 + v2 / 2 + (v1 % 2 + v2 % 2) / 2,
        ;
        r
    }
}

/// The clock's next state after an event stamped `remote_time`, with the
/// local physical time `local_ms`: the physical part becomes the largest
/// time seen, and the logical counter is bumped when that time lies behind
/// the last one recorded and reset to 0 otherwise.
pub fn update_hlc(logical_clock: &mut u64, last_physical_ms: &mut u64, remote_time: u64, local_ms: u64)
    requires
        (if local_ms >= remote_time { local_ms } else { remote_time }) < *old(last_physical_ms)
            ==> *old(logical_clock) < u64::MAX,
    ensures
        ({
            let physical_now = if local_ms >= remote_time { local_ms } else { remote_time };
            &&& *final(logical_clock) == if physical_now < *old(last_physical_ms) {
                *old(logical_clock) + 1
            } else {
                0
            }
            &&& *final(last_physical_ms) == if physical_now >= *old(last_physical_ms) {
                physical_now
            } else {
                *old(last_physical_ms)
            }
        }),
        *final(last_physical_ms) >= *old(last_physical_ms),
        *final(last_physical_ms) >= remote_time,
        *final(last_physical_ms) >= local_ms,
{
    let physical_now = if local_ms >= remote_time { local_ms } else { remote_time };
    if physical_now < *last_physical_ms {
        *logical_clock = *logical_clock + 1;
    } else {
        *logical_clock = 0;
    }
    let new_ts = if physical_now >= *last_physical_ms { physical_now } else { *last_physical_ms };
    *last_physical_ms = new_ts;
}


/// `x` is at least the smallest element of `ts`: some element is at most `x`.
pub open spec fn at_least_smallest(ts: Seq<u64>, x: int) -> bool {
    exists|i: int| 0 <= i < ts.len() && ts[i] <= x
}

/// `x` is at most the largest element of `ts`: some element is at least `x`.
pub open spec fn at_most_largest(ts: Seq<u64>, x: int) -> bool {
    exists|j: int| 0 <= j < ts.len() && x <= ts[j]
}

/// Where the median sits among the sorted timestamps: for an odd count it
/// is the middle one (so it is one of the timestamps); for an even count it
/// lies between the two middle ones.
pub proof fn lemma_median_between_middles(ts: Seq<u64>)
    requires
        ts.len() > 0,
    ensures
        ({
            let s = ts.sort_by(ts_leq());
            let mid = (ts.len() / 2) as int;
            &&& s.len() == ts.len()
            &&& ts.len() % 2 == 1 ==> median_spec(ts) == s[mid] && ts.contains(s[mid])
            &&& ts.len() % 2 == 0 ==> s[mid - 1] <= median_spec(ts) <= s[mid]
        }),
{
    broadcast use vstd::seq_lib::group_to_multiset_ensures;
    lemma_ts_leq_total();
    ts.lemma_sort_by_ensures(ts_leq());
    let s = ts.sort_by(ts_leq());
    ts.to_multiset_ensures();
    s.to_multiset_ensures();
    assert(s.len() == ts.len());
    let mid = (s.len() / 2) as int;
    assert(s.contains(s[mid]));
    if s.len() % 2 == 0 {
        assert((ts_leq())(s[mid - 1], s[mid]));
    }
}

/// The median of timestamps (what `aggregate_time` returns for a non-empty
/// input) lies between the smallest and the largest of them: some timestamp
/// is at most it and some timestamp is at least it.
pub proof fn lemma_median_within_range(ts: Seq<u64>)
    requires
        ts.len() > 0,
    ensures
        at_least_smallest(ts, median_spec(ts)),
        at_most_largest(ts, median_spec(ts)),
{
    broadcast use vstd::seq_lib::group_to_multiset_ensures;
    lemma_ts_leq_total();
    ts.lemma_sort_by_ensures(ts_leq());
    let s = ts.sort_by(ts_leq());
    ts.to_multiset_ensures();
    s.to_multiset_ensures();
    assert(s.len() == ts.len());
    let mid = s.len() / 2;
    let lo: int = if s.len() % 2 == 1 { mid as int } else { mid - 1 };
    let hi: int = mid as int;
    assert(s.contains(s[lo]));
    assert(s.contains(s[hi]));
    assert(ts.contains(s[lo]));
    assert(ts.contains(s[hi]));
    if s.len() % 2 == 0 {
        assert((ts_leq())(s[lo], s[hi]));
    }
    let i = choose|i: int| 0 <= i < ts.len() && ts[i] == s[lo];
    let j = choose|j: int| 0 <= j < ts.len() && ts[j] == s[hi];
    assert(ts[i] <= median_spec(ts));
    assert(median_spec(ts) <= ts[j]);
}

/// The median does not depend on the order of the timestamps: any
/// rearrangement of them has the same median, so `aggregate_time` answers
/// the same for every permutation of its input.
pub proof fn lemma_median_order_free(a: Seq<u64>, b: Seq<u64>)
    requires
        a.to_multiset() == b.to_multiset(),
    ensures
        median_spec(a) == median_spec(b),
{
    lemma_ts_leq_total();
    a.lemma_sort_by_ensures(ts_leq());
    b.lemma_sort_by_ensures(ts_leq());
    vstd::seq_lib::lemma_sorted_unique(a.sort_by(ts_leq()), b.sort_by(ts_leq()), ts_leq());
}

} // verus!
