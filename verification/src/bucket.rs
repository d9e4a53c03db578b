//! The token bucket of one client, in whole numbers.
//!
//! Time is counted in nanoseconds on a clock of the caller's choice, and the
//! content of a bucket in billionths of a token. At a rate of `r` tokens per
//! second one nanosecond then refills exactly `r` billionths, so nothing is
//! ever rounded.

use vstd::prelude::*;

verus! {

/// One token, in billionths; also one second, in nanoseconds.
pub const BILLION: u64 = 1_000_000_000;

/// The limits that hold for every client alike. They are fixed at startup.
#[derive(Clone, Copy, Debug, PartialEq, Eq, Structural)]
pub struct Quota {
    /// Tokens refilled per second: the sustained rate of admissions.
    pub per_second: u32,
    /// Tokens that a bucket holds at most: the largest burst.
    pub burst_size: u32,
}

/// The bucket of one client.
#[derive(Clone, Copy, Debug, PartialEq, Eq, Structural)]
pub struct Bucket {
    /// What the bucket holds, in billionths of a token.
    pub level: u64,
    /// The latest time at which the bucket was refilled, in nanoseconds.
    pub last_refill: u64,
}

/// The answer to one admission check.
#[derive(Clone, Copy, Debug, PartialEq, Eq, Structural)]
pub enum Decision {
    /// The request may pass.
    Allow,
    /// The request is refused; a token will be there after this many
    /// nanoseconds.
    Deny { retry_after: u64 },
}

/// The whole seconds that `nanos` nanoseconds come to, rounded up: the
/// fewest seconds that are no shorter.
pub open spec fn seconds_up(nanos: u64) -> int {
    (nanos + BILLION - 1) / (BILLION as int)
}

/// Rounds `nanos` nanoseconds up to whole seconds, as a wait is told to a
/// client.
pub fn whole_seconds(nanos: u64) -> (seconds: u64)
    ensures
        seconds == seconds_up(nanos),
        seconds * BILLION >= nanos,
        nanos > 0 ==> (seconds - 1) * BILLION < nanos,
{
    if nanos % BILLION == 0 {
        nanos / BILLION
    } else {
        nanos / BILLION + 1
    }
}

impl Quota {
    /// Whether both limits are above zero.
    pub open spec fn wf(self) -> bool {
        self.per_second > 0 && self.burst_size > 0
    }

    /// What a full bucket holds, in billionths of a token.
    pub open spec fn capacity(self) -> int {
        self.burst_size * BILLION
    }

    /// A quota of `per_second` tokens a second and bursts of `burst_size`,
    /// or nothing if either is zero.
    pub fn new(per_second: u32, burst_size: u32) -> (quota: Option<Quota>)
        ensures
            quota == if per_second > 0 && burst_size > 0 {
                Some(Quota { per_second, burst_size })
            } else {
                None
            },
            quota is Some ==> quota->0.wf(),
    {
        if per_second > 0 && burst_size > 0 {
            Some(Quota { per_second, burst_size })
        } else {
            None
        }
    }

    /// What a full bucket holds, in billionths of a token.
    pub fn full_level(&self) -> (level: u64)
        ensures
            level == self.capacity(),
    {
        (self.burst_size as u64) * BILLION
    }
}

impl Bucket {
    /// Whether the bucket holds no more than `quota` allows. A level cannot be
    /// negative.
    pub open spec fn wf(self, quota: Quota) -> bool {
        self.level <= quota.capacity()
    }

    /// A full bucket that was last refilled at `now`.
    pub open spec fn spec_full(quota: Quota, now: u64) -> Bucket {
        Bucket { level: quota.capacity() as u64, last_refill: now }
    }

    /// The time that counts as passed at `now`: none if the clock reads
    /// earlier than at the last refill.
    pub open spec fn elapsed(self, now: u64) -> int {
        if now > self.last_refill {
            now - self.last_refill
        } else {
            0
        }
    }

    /// The level at `now`, before a token is taken: what was there, and
    /// `per_second` billionths for each nanosecond passed, up to the capacity.
    pub open spec fn refilled_level(self, quota: Quota, now: u64) -> int {
        let filled = self.level + self.elapsed(now) * quota.per_second;
        if filled >= quota.capacity() {
            quota.capacity()
        } else {
            filled
        }
    }

    /// Whether a check at `now` admits: the refilled bucket holds a token.
    pub open spec fn admits(self, quota: Quota, now: u64) -> bool {
        self.refilled_level(quota, now) >= BILLION
    }

    /// The bucket after a check at `now`: refilled, one token less if the
    /// check admits, and with the later of `now` and the last refill as the
    /// time of its refill.
    pub open spec fn after_check(self, quota: Quota, now: u64) -> Bucket {
        Bucket {
            level: if self.admits(quota, now) {
                (self.refilled_level(quota, now) - BILLION) as u64
            } else {
                self.refilled_level(quota, now) as u64
            },
            last_refill: if now > self.last_refill {
                now
            } else {
                self.last_refill
            },
        }
    }

    /// How long a refused check at `now` has to wait for a token: what is
    /// missing to one token, divided by the rate, rounded up to a whole
    /// nanosecond.
    pub open spec fn wait(self, quota: Quota, now: u64) -> int {
        (BILLION - self.refilled_level(quota, now) + quota.per_second - 1) / (
        quota.per_second as int)
    }

    /// The answer of a check at `now`.
    pub open spec fn decision(self, quota: Quota, now: u64) -> Decision {
        if self.admits(quota, now) {
            Decision::Allow
        } else {
            Decision::Deny { retry_after: self.wait(quota, now) as u64 }
        }
    }

    /// The whole tokens that the bucket holds, as the remaining requests are
    /// told to a client.
    pub fn whole_tokens(&self) -> (tokens: u64)
        ensures
            tokens == self.level / BILLION,
    {
        self.level / BILLION
    }

    /// A full bucket that was last refilled at `now`.
    pub fn full(quota: &Quota, now: u64) -> (bucket: Bucket)
        ensures
            bucket == Self::spec_full(*quota, now),
            bucket.wf(*quota),
    {
        Bucket { level: quota.full_level(), last_refill: now }
    }

    /// What the bucket would hold at `now`, in billionths of a token.
    pub fn level_at(&self, quota: &Quota, now: u64) -> (level: u64)
        requires
            self.wf(*quota),
        ensures
            level == self.refilled_level(*quota, now),
            level <= quota.capacity(),
    {
        let elapsed: u64 = if now > self.last_refill {
            now - self.last_refill
        } else {
            0
        };
        let room: u64 = quota.full_level() - self.level;
        assert(elapsed * quota.per_second <= 0xffff_ffff_ffff_ffff * 0xffff_ffff)
            by (nonlinear_arith)
            requires
                elapsed <= 0xffff_ffff_ffff_ffff,
                quota.per_second <= 0xffff_ffff,
        ;
        let gained: u128 = (elapsed as u128) * (quota.per_second as u128);
        if gained >= room as u128 {
            quota.full_level()
        } else {
            self.level + (gained as u64)
        }
    }

    /// Checks one request at `now`: refills the bucket for the time passed,
    /// and takes one token if there is one.
    pub fn check(&mut self, quota: &Quota, now: u64) -> (decision: Decision)
        requires
            quota.wf(),
            old(self).wf(*quota),
        ensures
            decision == old(self).decision(*quota, now),
            *final(self) == old(self).after_check(*quota, now),
            final(self).wf(*quota),
            final(self).last_refill >= old(self).last_refill,
    {
        let level: u64 = self.level_at(quota, now);
        if now > self.last_refill {
            self.last_refill = now;
        }
        if level >= BILLION {
            self.level = level - BILLION;
            Decision::Allow
        } else {
            self.level = level;
            let rate: u64 = quota.per_second as u64;
            Decision::Deny { retry_after: (BILLION - level + rate - 1) / rate }
        }
    }
}

impl Bucket {
    /// The bucket after one check at each of `times`, in that order.
    pub open spec fn after_checks(self, quota: Quota, times: Seq<u64>) -> Bucket
        decreases times.len(),
    {
        if times.len() == 0 {
            self
        } else {
            self.after_checks(quota, times.drop_last()).after_check(quota, times.last())
        }
    }

    /// How many of the checks at `times`, made in that order, admit.
    pub open spec fn admissions(self, quota: Quota, times: Seq<u64>) -> nat
        decreases times.len(),
    {
        if times.len() == 0 {
            0
        } else {
            let before = self.after_checks(quota, times.drop_last());
            self.admissions(quota, times.drop_last()) + if before.admits(quota, times.last()) {
                1nat
            } else {
                0nat
            }
        }
    }
}

/// One check leaves a bucket within its bounds: the level is not negative and
/// not above the capacity, and the time of the last refill does not go back.
pub proof fn law_check_keeps_bounds(bucket: Bucket, quota: Quota, now: u64)
    requires
        quota.wf(),
        bucket.wf(quota),
    ensures
        0 <= bucket.refilled_level(quota, now) <= quota.capacity(),
        bucket.after_check(quota, now).wf(quota),
        bucket.after_check(quota, now).last_refill >= bucket.last_refill,
{
    assert(bucket.elapsed(now) * quota.per_second >= 0) by (nonlinear_arith)
        requires
            bucket.elapsed(now) >= 0,
            quota.per_second >= 0,
    ;
}

/// Whatever checks are made of a bucket, at whatever times and in whatever
/// order: its level never leaves the range from zero to the capacity.
pub proof fn law_level_stays_in_bounds(bucket: Bucket, quota: Quota, times: Seq<u64>)
    requires
        quota.wf(),
        bucket.wf(quota),
    ensures
        0 <= bucket.after_checks(quota, times).level <= quota.capacity(),
        bucket.after_checks(quota, times).wf(quota),
    decreases times.len(),
{
    if times.len() > 0 {
        law_level_stays_in_bounds(bucket, quota, times.drop_last());
        law_check_keeps_bounds(
            bucket.after_checks(quota, times.drop_last()),
            quota,
            times.last(),
        );
    }
}

/// A refused check names the shortest wait: a check that comes `retry_after`
/// nanoseconds later and finds the bucket untouched admits, and one that
/// comes any sooner does not. The clock must not have gone back at `now`.
pub proof fn law_retry_after_is_shortest_wait(
    bucket: Bucket,
    quota: Quota,
    now: u64,
    later: u64,
)
    requires
        quota.wf(),
        bucket.wf(quota),
        now >= bucket.last_refill,
        !bucket.admits(quota, now),
        later >= now,
    ensures
        bucket.wait(quota, now) >= 1,
        bucket.wait(quota, now) <= BILLION,
        bucket.after_check(quota, now).admits(quota, later) <==> later - now >= bucket.wait(
            quota,
            now,
        ),
{
    let level = bucket.refilled_level(quota, now);
    let rate = quota.per_second as int;
    let missing = BILLION - level;
    let wait = bucket.wait(quota, now);
    let after = bucket.after_check(quota, now);
    law_check_keeps_bounds(bucket, quota, now);
    assert(after.level == level);
    assert(after.last_refill == now);
    assert(wait == (missing + rate - 1) / rate);
    assert(wait * rate >= missing && (wait - 1) * rate < missing && wait >= 1 && wait <= missing)
        by (nonlinear_arith)
        requires
            wait == (missing + rate - 1) / rate,
            rate >= 1,
            missing >= 1,
    ;
    let gap = later - now;
    assert(after.elapsed(later) == gap);
    if gap >= wait {
        assert(gap * rate >= missing) by (nonlinear_arith)
            requires
                gap >= wait,
                wait * rate >= missing,
                rate >= 1,
        ;
    } else {
        assert(gap * rate < missing) by (nonlinear_arith)
            requires
                gap <= wait - 1,
                (wait - 1) * rate < missing,
                rate >= 1,
                gap >= 0,
        ;
    }
}

/// A bucket that is full at `now`, and was not refilled later than `now`,
/// behaves from then on as if it had never been: a check at `later` answers
/// and leaves behind just what it does for a client seen for the first time.
/// So to forget such a bucket grants nothing.
pub proof fn law_full_bucket_may_be_forgotten(bucket: Bucket, quota: Quota, now: u64, later: u64)
    requires
        quota.wf(),
        bucket.wf(quota),
        bucket.last_refill <= now <= later,
        bucket.refilled_level(quota, now) == quota.capacity(),
    ensures
        bucket.decision(quota, later) == Bucket::spec_full(quota, later).decision(quota, later),
        bucket.after_check(quota, later) == Bucket::spec_full(quota, later).after_check(
            quota,
            later,
        ),
{
    let rate = quota.per_second as int;
    assert(bucket.elapsed(later) * rate >= bucket.elapsed(now) * rate) by (nonlinear_arith)
        requires
            bucket.elapsed(later) >= bucket.elapsed(now),
            rate >= 0,
    ;
    assert(bucket.refilled_level(quota, later) == quota.capacity());
    assert(Bucket::spec_full(quota, later).refilled_level(quota, later) == quota.capacity());
}

/// Whether all of `times` lie so close together that less than one token is
/// refilled between any two of them.
pub open spec fn within_one_token(quota: Quota, times: Seq<u64>) -> bool {
    forall|i: int, j: int|
        0 <= i < times.len() && 0 <= j < times.len() ==> (#[trigger] times[i] - #[trigger] times[j])
            * quota.per_second < BILLION
}

/// What holds after the first `k` of the checks at `times`, for a bucket of
/// one token that was full before them.
proof fn lemma_burst_of_one(bucket: Bucket, quota: Quota, times: Seq<u64>, k: int)
    requires
        quota.wf(),
        quota.burst_size == 1,
        bucket.level == quota.capacity(),
        within_one_token(quota, times),
        1 <= k <= times.len(),
    ensures
        bucket.admissions(quota, times.take(k)) == 1,
        ({
            let first = if times[0] > bucket.last_refill {
                times[0]
            } else {
                bucket.last_refill
            };
            let state = bucket.after_checks(quota, times.take(k));
            &&& state.last_refill >= first
            &&& state.level == (state.last_refill - first) * quota.per_second
            &&& state.level < BILLION
            &&& state.last_refill == first || (state.last_refill - times[0]) * quota.per_second
                < BILLION
        }),
    decreases k,
{
    let rate = quota.per_second as int;
    let prefix = times.take(k);
    assert(prefix.drop_last() =~= times.take(k - 1));
    assert(prefix.last() == times[k - 1]);
    if k == 1 {
        assert(times.take(0) =~= Seq::<u64>::empty());
        assert(bucket.after_checks(quota, times.take(0)) == bucket);
        assert(bucket.admissions(quota, times.take(0)) == 0);
        assert(bucket.elapsed(times[0]) * rate >= 0) by (nonlinear_arith)
            requires
                bucket.elapsed(times[0]) >= 0,
                rate >= 0,
        ;
        assert(bucket.refilled_level(quota, times[0]) == BILLION);
    } else {
        lemma_burst_of_one(bucket, quota, times, k - 1);
        let first = if times[0] > bucket.last_refill {
            times[0]
        } else {
            bucket.last_refill
        };
        let before = bucket.after_checks(quota, times.take(k - 1));
        let t = times[k - 1];
        assert((times[k - 1] - times[0]) * rate < BILLION);
        if t > before.last_refill {
            assert(before.level + (t - before.last_refill) * rate == (t - first) * rate)
                by (nonlinear_arith)
                requires
                    before.level == (before.last_refill - first) * rate,
            ;
            assert((t - first) * rate <= (t - times[0]) * rate) by (nonlinear_arith)
                requires
                    first >= times[0],
                    rate >= 0,
            ;
            assert((t - first) * rate >= 0) by (nonlinear_arith)
                requires
                    t >= first,
                    rate >= 0,
            ;
        }
    }
}

/// Of any number of checks that reach a full bucket of one token within less
/// than the time that refills a token, in whatever order their clock readings
/// come, exactly one admits: the first.
pub proof fn law_burst_of_one_admits_once(bucket: Bucket, quota: Quota, times: Seq<u64>)
    requires
        quota.wf(),
        quota.burst_size == 1,
        bucket.level == quota.capacity(),
        times.len() >= 1,
        within_one_token(quota, times),
    ensures
        bucket.admissions(quota, times) == 1,
        bucket.admits(quota, times[0]),
        forall|k: int|
            1 <= k < times.len() ==> !(#[trigger] bucket.after_checks(quota, times.take(k))).admits(
                quota,
                times[k],
            ),
{
    let rate = quota.per_second as int;
    lemma_burst_of_one(bucket, quota, times, times.len() as int);
    assert(times.take(times.len() as int) =~= times);
    assert(bucket.elapsed(times[0]) * rate >= 0) by (nonlinear_arith)
        requires
            bucket.elapsed(times[0]) >= 0,
            rate >= 0,
    ;
    assert forall|k: int| 1 <= k < times.len() implies !(#[trigger] bucket.after_checks(
        quota,
        times.take(k),
    )).admits(quota, times[k]) by {
        lemma_burst_of_one(bucket, quota, times, k);
        lemma_burst_of_one(bucket, quota, times, k + 1);
        let longer = times.take(k + 1);
        assert(longer.drop_last() =~= times.take(k));
        assert(longer.last() == times[k]);
        let before = bucket.after_checks(quota, times.take(k));
        if before.admits(quota, times[k]) {
            assert(bucket.admissions(quota, longer) == bucket.admissions(quota, times.take(k)) + 1);
        }
    }
}

} // verus!
