use vstd::prelude::*;

use crate::clock::current_time_ms;

verus! {

/// The token count after refilling: one refill of `refill_rate` tokens per
/// whole second elapsed since `last_refill` (milliseconds), capped at
/// `capacity`; a clock that went backwards refills nothing.
pub open spec fn refilled_tokens(tokens: u64, capacity: u64, refill_rate: u64, last_refill: u64, now: u64) -> int {
    let elapsed = if now > last_refill { (now - last_refill) / 1000 } else { 0 };
    if elapsed > 0 {
        if tokens + elapsed * refill_rate < capacity {
            tokens + elapsed * refill_rate
        } else {
            capacity as int
        }
    } else {
        tokens as int
    }
}

/// Whether a refill happens at `now`: at least one whole second has passed.
pub open spec fn refill_due(last_refill: u64, now: u64) -> bool {
    now > last_refill && (now - last_refill) / 1000 > 0
}

/// A token bucket rate limiter: `capacity` tokens at most, refilled at
/// `refill_rate` tokens per second, one token spent per admitted request.
#[derive(Debug, Clone, Copy)]
pub struct TokenBucket {
    capacity: u64,
    tokens: u64,
    refill_rate: u64,
    last_refill: u64,
}

impl TokenBucket {
    pub closed spec fn capacity(&self) -> u64 {
        self.capacity
    }

    pub closed spec fn tokens(&self) -> u64 {
        self.tokens
    }

    pub closed spec fn refill_rate(&self) -> u64 {
        self.refill_rate
    }

    /// When the bucket was last refilled (milliseconds since the Unix epoch).
    pub closed spec fn last_refill(&self) -> u64 {
        self.last_refill
    }

    /// A full bucket; the refill clock starts now.
    pub fn new(capacity: u64, refill_rate: u64) -> (res: Self)
        ensures
            res.capacity() == capacity,
            res.tokens() == capacity,
            res.refill_rate() == refill_rate,
    {
        TokenBucket { capacity, tokens: capacity, refill_rate, last_refill: current_time_ms() }
    }

    /// A full bucket whose refill clock starts at `now` (milliseconds since
    /// the Unix epoch).
    pub fn new_at(capacity: u64, refill_rate: u64, now: u64) -> (res: Self)
        ensures
            res.capacity() == capacity,
            res.tokens() == capacity,
            res.refill_rate() == refill_rate,
            res.last_refill() == now,
    {
        TokenBucket { capacity, tokens: capacity, refill_rate, last_refill: now }
    }

    /// Refills for the time elapsed and spends one token if there is one;
    /// returns whether the request is admitted. The clock is read here.
    pub fn try_consume(&mut self) -> (admitted: bool)
        requires
            old(self).tokens() <= old(self).capacity(),
        ensures
            exists|now: u64| Self::consume_post(*old(self), *final(self), now, admitted),
    {
        let now = current_time_ms();
        self.try_consume_at(now)
    }

    /// What a request at time `now` does to the bucket.
    pub open spec fn consume_post(pre: Self, post: Self, now: u64, admitted: bool) -> bool {
        let t = refilled_tokens(pre.tokens(), pre.capacity(), pre.refill_rate(), pre.last_refill(), now);
        &&& admitted == (t > 0)
        &&& post.tokens() == if admitted { t - 1 } else { t }
        &&& post.capacity() == pre.capacity()
        &&& post.refill_rate() == pre.refill_rate()
        &&& post.last_refill() == if refill_due(pre.last_refill(), now) { now } else { pre.last_refill() }
    }

    /// A request at time `now` (milliseconds since the Unix epoch): refill one
    /// `refill_rate` per whole second since the last refill, capped at the
    /// capacity, then admit the request if a token is left and spend it.
    pub fn try_consume_at(&mut self, now: u64) -> (admitted: bool)
        requires
            old(self).tokens() <= old(self).capacity(),
        ensures
            Self::consume_post(*old(self), *final(self), now, admitted),
            final(self).tokens() <= final(self).capacity(),
    {
        let elapsed: u64 = if now > self.last_refill { (now - self.last_refill) / 1000 } else { 0 };
        if elapsed > 0 {
            let refill: u64 = match elapsed.checked_mul(self.refill_rate) {
                Some(r) => r,
                None => u64::MAX,
            };
            let sum = self.tokens.saturating_add(refill);
            proof {
                if elapsed * self.refill_rate > u64::MAX {
                    assert(refill == u64::MAX);
                } else {
                    assert(refill == elapsed * self.refill_rate);
                }
            }
            self.tokens = if sum < self.capacity { sum } else { self.capacity };
            self.last_refill = now;
        }
        if self.tokens > 0 {
            self.tokens = self.tokens - 1;
            true
        } else {
            false
        }
    }
}

/// Within the same second no tokens come back: a request is admitted exactly
/// when a token is left, and each admitted request spends one; so a full
/// bucket admits `capacity` requests in a burst and refuses the next.
pub proof fn lemma_burst_spends_tokens(pre: TokenBucket, post: TokenBucket, now: u64, admitted: bool)
    requires
        TokenBucket::consume_post(pre, post, now, admitted),
        !refill_due(pre.last_refill(), now),
    ensures
        admitted == (pre.tokens() > 0),
        post.tokens() == if admitted { pre.tokens() - 1 } else { pre.tokens() as int },
        post.last_refill() == pre.last_refill(),
{
}


/// A refill adds `refill_rate` tokens for every whole second elapsed since
/// the last refill, capped at the capacity; less than a second adds none.
/// The request is admitted when a token is then available, and spends it.
pub proof fn lemma_refill_per_second(pre: TokenBucket, post: TokenBucket, now: u64, admitted: bool)
    requires
        TokenBucket::consume_post(pre, post, now, admitted),
        pre.last_refill() <= now,
    ensures
        ({
            let secs = (now - pre.last_refill()) / 1000;
            let avail = if secs == 0 {
                pre.tokens() as int
            } else if pre.tokens() + secs * pre.refill_rate() < pre.capacity() {
                pre.tokens() + secs * pre.refill_rate()
            } else {
                pre.capacity() as int
            };
            &&& admitted == (avail > 0)
            &&& post.tokens() == if admitted { avail - 1 } else { avail }
            &&& post.last_refill() == if secs > 0 { now } else { pre.last_refill() }
        }),
{
}

/// One second after the bucket was emptied, `min(refill_rate, capacity)`
/// tokens are back: the first request then is admitted exactly when that
/// number is positive, and leaves the rest.
pub proof fn lemma_one_second_after_empty(pre: TokenBucket, post: TokenBucket, admitted: bool)
    requires
        pre.tokens() == 0,
        pre.last_refill() + 1000 <= u64::MAX,
        TokenBucket::consume_post(pre, post, (pre.last_refill() + 1000) as u64, admitted),
    ensures
        ({
            let back = if pre.refill_rate() < pre.capacity() { pre.refill_rate() as int } else { pre.capacity() as int };
            &&& admitted == (back > 0)
            &&& post.tokens() == if admitted { back - 1 } else { back }
        }),
{
    let now = (pre.last_refill() + 1000) as u64;
    lemma_refill_per_second(pre, post, now, admitted);
    assert((now - pre.last_refill()) / 1000 == 1);
    assert(1 * pre.refill_rate() == pre.refill_rate());
}


/// Two requests one second after the bucket was emptied: both are admitted
/// exactly when at least two tokens came back, that is when both the refill
/// rate and the capacity are at least 2.
pub proof fn lemma_two_requests_after_empty(
    b0: TokenBucket,
    b1: TokenBucket,
    b2: TokenBucket,
    a1: bool,
    a2: bool,
)
    requires
        b0.tokens() == 0,
        b0.last_refill() + 1000 <= u64::MAX,
        TokenBucket::consume_post(b0, b1, (b0.last_refill() + 1000) as u64, a1),
        TokenBucket::consume_post(b1, b2, (b0.last_refill() + 1000) as u64, a2),
    ensures
        (a1 && a2) <==> (b0.refill_rate() >= 2 && b0.capacity() >= 2),
{
    let now = (b0.last_refill() + 1000) as u64;
    lemma_one_second_after_empty(b0, b1, a1);
    lemma_refill_per_second(b0, b1, now, a1);
    assert((now - b0.last_refill()) / 1000 == 1);
    lemma_refill_per_second(b1, b2, now, a2);
}

} // verus!
