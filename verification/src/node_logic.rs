use vstd::prelude::*;
use vstd::relations::{sorted_by, total_ordering};

verus! {

/// Which side of the book an order request is on.
#[derive(Clone, Copy, Debug, PartialEq, Eq, Structural)]
pub enum OrderSide {
    Buy,
    Sell,
}

/// The order in which clock offsets are sorted.
pub open spec fn offset_leq() -> spec_fn(i64, i64) -> bool {
    |a: i64, b: i64| a <= b
}

/// The offset chosen among several servers' answers: the element at
/// position `len / 2` of the sorted offsets (the upper middle for an even
/// count).
pub open spec fn median_offset_spec(offsets: Seq<i64>) -> i64
    recommends
        offsets.len() > 0,
{
    offsets.sort_by(offset_leq())[(offsets.len() / 2) as int]
}

/// How far a time server's clock (`server_secs`) is ahead of the local one
/// (`local_secs`, taken as a signed 64-bit count), in seconds.
pub fn ntp_offset(server_secs: u32, local_secs: u64) -> (res: i64)
    requires
        server_secs - (local_secs as i64) <= i64::MAX,
    ensures
        res == server_secs - (local_secs as i64),
{
    server_secs as i64 - local_secs as i64
}

proof fn lemma_offset_leq_total()
    ensures
        total_ordering(offset_leq()),
{
}

proof fn lemma_insert_multiset_i64(s: Seq<i64>, p: int, x: i64)
    requires
        0 <= p <= s.len(),
    ensures
        s.insert(p, x).to_multiset() == s.to_multiset().insert(x),
{
    broadcast use vstd::seq_lib::group_to_multiset_ensures;
    let a = s.take(p);
    let b = s.skip(p);
    assert(s =~= a + b);
    assert(s.insert(p, x) =~= a.push(x) + b);
    vstd::seq_lib::lemma_multiset_commutative(a, b);
    vstd::seq_lib::lemma_multiset_commutative(a.push(x), b);
}

/// The offsets in ascending order (insertion sort).
fn sort_offsets(offsets: &[i64]) -> (res: Vec<i64>)
    ensures
        res@ == offsets@.sort_by(offset_leq()),
{
    broadcast use vstd::seq_lib::group_to_multiset_ensures;
    let mut sorted: Vec<i64> = Vec::new();
    let n = offsets.len();
    let mut i: usize = 0;
    assert(offsets@.take(0) =~= Seq::<i64>::empty());
    while i < n
        invariant
            n == offsets@.len(),
            i <= n,
            sorted_by(sorted@, offset_leq()),
            sorted@.to_multiset() == offsets@.take(i as int).to_multiset(),
        decreases n - i,
    {
        let x = offsets[i];
        let mut pos = sorted.len();
        while pos > 0 && sorted[pos - 1] > x
            invariant
                pos <= sorted@.len(),
                forall|j: int| pos <= j < sorted@.len() ==> #[trigger] sorted@[j] > x,
            decreases pos,
        {
            pos = pos - 1;
        }
        let ghost old_sorted = sorted@;
        proof {
            lemma_insert_multiset_i64(old_sorted, pos as int, x);
            assert(offsets@.take(i + 1) =~= offsets@.take(i as int).push(x));
        }
        sorted.insert(pos, x);
        proof {
            assert(sorted@ == old_sorted.insert(pos as int, x));
            assert forall|a: int, b: int| 0 <= a < b < sorted@.len() implies #[trigger] (offset_leq())(sorted@[a], sorted@[b]) by {
                if b < pos {
                    assert((offset_leq())(old_sorted[a], old_sorted[b]));
                } else if b == pos {
                    if pos > 0 {
                        assert((offset_leq())(old_sorted[a], old_sorted[pos - 1]) || a == pos - 1);
                    }
                } else if a == pos {
                    assert(old_sorted[b - 1] > x);
                } else if a < pos {
                    assert((offset_leq())(old_sorted[a], old_sorted[b - 1]));
                } else {
                    assert((offset_leq())(old_sorted[a - 1], old_sorted[b - 1]));
                }
            }
            offsets@.take(i as int).to_multiset_ensures();
            assert(sorted@.to_multiset() == offsets@.take(i + 1).to_multiset());
        }
        i = i + 1;
    }
    proof {
        assert(offsets@.take(n as int) =~= offsets@);
        lemma_offset_leq_total();
        offsets@.lemma_sort_by_ensures(offset_leq());
        vstd::seq_lib::lemma_sorted_unique(sorted@, offsets@.sort_by(offset_leq()), offset_leq());
    }
    sorted
}

/// The clock offset to adopt from the servers' answered offsets: `None`
/// when no server answered, otherwise the middle one (the upper middle for
/// an even count).
pub fn median_offset(offsets: &[i64]) -> (res: Option<i64>)
    ensures
        offsets@.len() == 0 ==> res is None,
        offsets@.len() > 0 ==> res == Some(median_offset_spec(offsets@)),
{
    if offsets.len() == 0 {
        return None;
    }
    let sorted = sort_offsets(offsets);
    proof {
        broadcast use vstd::seq_lib::group_to_multiset_ensures;
        lemma_offset_leq_total();
        offsets@.lemma_sort_by_ensures(offset_leq());
        sorted@.to_multiset_ensures();
        offsets@.to_multiset_ensures();
        assert(sorted@.len() == offsets@.len());
    }
    Some(sorted[sorted.len() / 2])
}

} // verus!
