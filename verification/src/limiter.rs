//! Admission: one bucket for each client seen, and a whitelist that passes
//! around them.

use crate::address::IpAddress;
use crate::bucket::law_burst_of_one_admits_once;
use crate::bucket::within_one_token;
use crate::bucket::Bucket;
use crate::bucket::Decision;
use crate::bucket::Quota;
use std::collections::HashMap;
use std::hash::Hash;
use vstd::prelude::*;

verus! {

broadcast use vstd::std_specs::hash::group_hash_axioms;

/// The rate limit state of a service: the buckets of all clients that were
/// checked, under one quota, and the clients that are never limited.
///
/// A client without a bucket is one whose bucket is full. Checks take the
/// state by `&mut`, so each is one step that no other check can come into.
pub struct RateLimiter {
    quota: Quota,
    whitelist: Vec<IpAddress>,
    v4: HashMap<u32, Bucket>,
    v6: HashMap<u128, Bucket>,
}

impl RateLimiter {
    /// The quota that holds for every client.
    pub closed spec fn quota(&self) -> Quota {
        self.quota
    }

    /// The clients that are never limited.
    pub closed spec fn whitelist(&self) -> Set<IpAddress> {
        self.whitelist@.to_set()
    }

    /// The bucket of each client that has one.
    pub closed spec fn buckets(&self) -> Map<IpAddress, Bucket> {
        Map::new(
            |ip: IpAddress|
                match ip {
                    IpAddress::V4(bits) => self.v4@.contains_key(bits),
                    IpAddress::V6(bits) => self.v6@.contains_key(bits),
                },
            |ip: IpAddress|
                match ip {
                    IpAddress::V4(bits) => self.v4@[bits],
                    IpAddress::V6(bits) => self.v6@[bits],
                },
        )
    }

    /// Whether the quota is valid and no bucket holds more than it allows.
    pub open spec fn wf(&self) -> bool {
        &&& self.quota().wf()
        &&& forall|ip: IpAddress| #[trigger]
            self.buckets().contains_key(ip) ==> self.buckets()[ip].wf(self.quota())
    }

    /// The bucket that a check of `ip` at `now` starts from: the client's
    /// own, or a full one if the client has none yet.
    pub open spec fn bucket_of(&self, ip: IpAddress, now: u64) -> Bucket {
        if self.buckets().contains_key(ip) {
            self.buckets()[ip]
        } else {
            Bucket::spec_full(self.quota(), now)
        }
    }

    /// The answer that a check of `ip` at `now` gives.
    pub open spec fn answer(&self, ip: IpAddress, now: u64) -> Decision {
        if self.whitelist().contains(ip) {
            Decision::Allow
        } else {
            self.bucket_of(ip, now).decision(self.quota(), now)
        }
    }

    /// The buckets after a check of `ip` at `now`: unchanged for a client on
    /// the whitelist, else with the checked bucket of `ip` in place.
    pub open spec fn buckets_after(&self, ip: IpAddress, now: u64) -> Map<IpAddress, Bucket> {
        if self.whitelist().contains(ip) {
            self.buckets()
        } else {
            self.buckets().insert(ip, self.bucket_of(ip, now).after_check(self.quota(), now))
        }
    }

    /// A limiter without buckets: every client starts with a full one.
    pub fn new(quota: Quota, whitelist: Vec<IpAddress>) -> (limiter: RateLimiter)
        requires
            quota.wf(),
        ensures
            limiter.wf(),
            limiter.quota() == quota,
            limiter.whitelist() == whitelist@.to_set(),
            limiter.buckets() == Map::<IpAddress, Bucket>::empty(),
    {
        let limiter = RateLimiter { quota, whitelist, v4: HashMap::new(), v6: HashMap::new() };
        proof {
            assert(limiter.buckets() =~= Map::<IpAddress, Bucket>::empty());
        }
        limiter
    }

    /// Whether `ip` is on the whitelist.
    pub fn is_whitelisted(&self, ip: IpAddress) -> (b: bool)
        ensures
            b == self.whitelist().contains(ip),
    {
        let mut i: usize = 0;
        while i < self.whitelist.len()
            invariant
                i <= self.whitelist@.len(),
                forall|k: int| 0 <= k < i ==> self.whitelist@[k] != ip,
            decreases self.whitelist@.len() - i,
        {
            if self.whitelist[i] == ip {
                return true;
            }
            i = i + 1;
        }
        false
    }

    /// The bucket of `ip`, if the client has one.
    pub fn bucket(&self, ip: IpAddress) -> (bucket: Option<Bucket>)
        ensures
            bucket == if self.buckets().contains_key(ip) {
                Some(self.buckets()[ip])
            } else {
                None
            },
    {
        match ip {
            IpAddress::V4(bits) => match self.v4.get(&bits) {
                Some(b) => Some(*b),
                None => None,
            },
            IpAddress::V6(bits) => match self.v6.get(&bits) {
                Some(b) => Some(*b),
                None => None,
            },
        }
    }

    /// Puts `bucket` in place as the bucket of `ip`.
    fn store(&mut self, ip: IpAddress, bucket: Bucket)
        ensures
            final(self).buckets() == old(self).buckets().insert(ip, bucket),
            final(self).quota() == old(self).quota(),
            final(self).whitelist() == old(self).whitelist(),
    {
        match ip {
            IpAddress::V4(bits) => {
                self.v4.insert(bits, bucket);
            },
            IpAddress::V6(bits) => {
                self.v6.insert(bits, bucket);
            },
        }
        proof {
            assert(final(self).buckets() =~= old(self).buckets().insert(ip, bucket));
        }
    }

    /// Decides whether a request of the client `ip` may pass at `now`.
    ///
    /// A client on the whitelist always passes and no bucket is touched.
    /// Any other client pays one token from its bucket, which is first
    /// refilled for the time since its last check; without a token to pay
    /// the request is refused.
    pub fn check(&mut self, ip: IpAddress, now: u64) -> (decision: Decision)
        requires
            old(self).wf(),
        ensures
            decision == old(self).answer(ip, now),
            final(self).buckets() == old(self).buckets_after(ip, now),
            final(self).quota() == old(self).quota(),
            final(self).whitelist() == old(self).whitelist(),
            final(self).wf(),
    {
        if self.is_whitelisted(ip) {
            return Decision::Allow;
        }
        let quota = self.quota;
        let mut bucket = match self.bucket(ip) {
            Some(b) => b,
            None => Bucket::full(&quota, now),
        };
        let decision = bucket.check(&quota, now);
        self.store(ip, bucket);
        decision
    }
}

/// The shard, of `shards`, in which the bucket of `ip` is kept: the address
/// as a number, modulo the number of shards. One client is always in one
/// shard, so that a lock for each shard keeps the checks of a client in a
/// row and lets clients in other shards pass meanwhile.
pub open spec fn spec_shard_of(ip: IpAddress, shards: usize) -> int {
    match ip {
        IpAddress::V4(bits) => bits as int % shards as int,
        IpAddress::V6(bits) => bits as int % shards as int,
    }
}

/// Picks the shard for the bucket of `ip` among `shards`.
pub fn shard_of(ip: IpAddress, shards: usize) -> (shard: usize)
    requires
        shards > 0,
    ensures
        shard == spec_shard_of(ip, shards),
        shard < shards,
{
    match ip {
        IpAddress::V4(bits) => ((bits as u64) % (shards as u64)) as usize,
        IpAddress::V6(bits) => (bits % (shards as u128)) as usize,
    }
}

/// Whether a bucket may be forgotten at `now`: it is full then, and the
/// clock has not gone back since its last refill.
pub open spec fn is_idle(bucket: Bucket, quota: Quota, now: u64) -> bool {
    bucket.last_refill <= now && bucket.refilled_level(quota, now) == quota.capacity()
}

/// The keys of `table` whose buckets are idle at `now`.
fn idle_keys<K: Copy + Eq + Hash>(table: &HashMap<K, Bucket>, quota: &Quota, now: u64) -> (keys:
    Vec<K>)
    requires
        vstd::std_specs::hash::obeys_key_model::<K>(),
        forall|k: K| #[trigger] table@.contains_key(k) ==> table@[k].wf(*quota),
    ensures
        forall|k: K|
            keys@.contains(k) <==> table@.contains_key(k) && is_idle(table@[k], *quota, now),
{
    let mut keys: Vec<K> = Vec::new();
    let ghost all: Seq<K> = vstd::std_specs::iter::IteratorSpec::remaining(
        &vstd::std_specs::hash::spec_keys_iter(table),
    ).unref();
    for key in it: table.keys()
        invariant
            vstd::std_specs::hash::obeys_key_model::<K>(),
            forall|k: K| #[trigger] table@.contains_key(k) ==> table@[k].wf(*quota),
            it.seq().unref() == all,
            all.to_set() == table@.dom(),
            forall|k: K|
                keys@.contains(k) ==> table@.contains_key(k) && is_idle(table@[k], *quota, now),
            forall|i: int|
                0 <= i < it.index() && is_idle(table@[all[i]], *quota, now) ==> keys@.contains(
                    #[trigger] all[i],
                ),
    {
        let ghost before = keys@;
        proof {
            assert(all[it.index() as int] == *key);
            assert(all.to_set().contains(*key));
            assert(table@.contains_key(*key));
        }
        let bucket = table.get(key);
        match bucket {
            Some(b) => {
                if b.last_refill <= now && b.level_at(quota, now) == quota.full_level() {
                    keys.push(*key);
                    proof {
                        assert(keys@[before.len() as int] == *key);
                        assert forall|k: K| keys@.contains(k) implies table@.contains_key(k)
                            && is_idle(table@[k], *quota, now) by {
                            if k != *key {
                                let i = choose|i: int| 0 <= i < keys@.len() && keys@[i] == k;
                                assert(before[i] == k);
                                assert(before.contains(k));
                            } else {
                                assert(table@[k] == *b);
                            }
                        }
                    }
                }
            },
            None => {},
        }
        proof {
            assert forall|i: int|
                0 <= i < it.index() + 1 && is_idle(
                    table@[all[i]],
                    *quota,
                    now,
                ) implies keys@.contains(#[trigger] all[i]) by {
                if i < it.index() {
                    assert(before.contains(all[i]));
                    let j = choose|j: int| 0 <= j < before.len() && before[j] == all[i];
                    assert(keys@[j] == all[i]);
                } else {
                    assert(keys@[before.len() as int] == *key);
                }
            }
        }
    }
    proof {
        assert forall|k: K| table@.contains_key(k) && is_idle(
            table@[k],
            *quota,
            now,
        ) implies keys@.contains(k) by {
            assert(all.to_set().contains(k));
            let i = choose|i: int| 0 <= i < all.len() && all[i] == k;
            assert(all[i] == k);
        }
    }
    keys
}

/// Takes the buckets of `keys` out of `table`.
fn forget<K: Copy + Eq + Hash>(table: &mut HashMap<K, Bucket>, keys: &Vec<K>)
    requires
        vstd::std_specs::hash::obeys_key_model::<K>(),
    ensures
        final(table)@ == old(table)@.remove_keys(keys@.to_set()),
{
    let ghost start = table@;
    let mut i: usize = 0;
    proof {
        assert(table@ =~= start.remove_keys(keys@.take(0).to_set()));
    }
    while i < keys.len()
        invariant
            vstd::std_specs::hash::obeys_key_model::<K>(),
            i <= keys@.len(),
            table@ == start.remove_keys(keys@.take(i as int).to_set()),
        decreases keys@.len() - i,
    {
        let key = keys[i];
        let ghost before = table@;
        table.remove(&key);
        proof {
            let shorter = keys@.take(i as int);
            let longer = keys@.take(i + 1);
            assert(table@ == before.remove(key));
            assert forall|k: K| longer.to_set().contains(k) <==> shorter.to_set().contains(k) || k
                == key by {
                if shorter.to_set().contains(k) {
                    let j = choose|j: int| 0 <= j < shorter.len() && shorter[j] == k;
                    assert(longer[j] == k);
                }
                if k == key {
                    assert(longer[i as int] == k);
                }
                if longer.to_set().contains(k) && k != key {
                    let j = choose|j: int| 0 <= j < longer.len() && longer[j] == k;
                    assert(shorter[j] == k);
                }
            }
            assert(table@ =~= start.remove_keys(longer.to_set()));
        }
        i = i + 1;
    }
    proof {
        assert(keys@.take(keys@.len() as int) =~= keys@);
    }
}

impl RateLimiter {
    /// The clients whose buckets may be forgotten at `now`.
    pub open spec fn idle(&self, now: u64) -> Set<IpAddress> {
        Set::new(
            |ip: IpAddress|
                self.buckets().contains_key(ip) && is_idle(self.buckets()[ip], self.quota(), now),
        )
    }

    /// Forgets every bucket that is idle at `now`, so that the state does not
    /// grow with every client ever seen. No later answer changes by it.
    pub fn sweep(&mut self, now: u64)
        requires
            old(self).wf(),
        ensures
            final(self).buckets() == old(self).buckets().remove_keys(old(self).idle(now)),
            final(self).quota() == old(self).quota(),
            final(self).whitelist() == old(self).whitelist(),
            final(self).wf(),
    {
        let quota = self.quota;
        proof {
            assert forall|k: u32| #[trigger] self.v4@.contains_key(k) implies self.v4@[k].wf(
                quota,
            ) by {
                assert(self.buckets().contains_key(IpAddress::V4(k)));
            }
            assert forall|k: u128| #[trigger] self.v6@.contains_key(k) implies self.v6@[k].wf(
                quota,
            ) by {
                assert(self.buckets().contains_key(IpAddress::V6(k)));
            }
        }
        let old_v4 = idle_keys(&self.v4, &quota, now);
        let old_v6 = idle_keys(&self.v6, &quota, now);
        forget(&mut self.v4, &old_v4);
        forget(&mut self.v6, &old_v6);
        proof {
            assert(final(self).buckets() =~= old(self).buckets().remove_keys(old(self).idle(now)));
        }
    }
}

/// After idle buckets were forgotten at `now`, every check from then on
/// answers as it would have, and leaves the checked client's bucket as it
/// would have.
pub proof fn law_sweep_changes_no_answer(
    before: RateLimiter,
    after: RateLimiter,
    now: u64,
    ip: IpAddress,
    later: u64,
)
    requires
        before.wf(),
        after.quota() == before.quota(),
        after.whitelist() == before.whitelist(),
        after.buckets() == before.buckets().remove_keys(before.idle(now)),
        later >= now,
    ensures
        after.answer(ip, later) == before.answer(ip, later),
        after.bucket_of(ip, later).after_check(after.quota(), later) == before.bucket_of(
            ip,
            later,
        ).after_check(before.quota(), later),
{
    if before.buckets().contains_key(ip) && before.idle(now).contains(ip) {
        crate::bucket::law_full_bucket_may_be_forgotten(
            before.buckets()[ip],
            before.quota(),
            now,
            later,
        );
    }
}

/// A client on the whitelist is admitted by every check, whatever came
/// before, and its checks change nothing.
pub proof fn law_whitelisted_always_admitted(limiter: RateLimiter, ip: IpAddress, now: u64)
    requires
        limiter.whitelist().contains(ip),
    ensures
        limiter.answer(ip, now) == Decision::Allow,
        limiter.buckets_after(ip, now) == limiter.buckets(),
{
}

/// A check of one client leaves the bucket of every other client as it was.
pub proof fn law_clients_do_not_interfere(
    limiter: RateLimiter,
    ip: IpAddress,
    other: IpAddress,
    now: u64,
)
    requires
        ip != other,
    ensures
        limiter.buckets_after(ip, now).contains_key(other) == limiter.buckets().contains_key(other),
        limiter.buckets().contains_key(other) ==> limiter.buckets_after(ip, now)[other]
            == limiter.buckets()[other],
{
}

/// A check of a client that is not on the whitelist is a check of its
/// bucket: it answers as the bucket does, and leaves the checked bucket as
/// the client's own.
pub proof fn law_check_is_of_the_bucket(limiter: RateLimiter, ip: IpAddress, now: u64)
    requires
        !limiter.whitelist().contains(ip),
    ensures
        limiter.answer(ip, now) == limiter.bucket_of(ip, now).decision(limiter.quota(), now),
        limiter.buckets_after(ip, now).contains_key(ip),
        limiter.buckets_after(ip, now)[ip] == limiter.bucket_of(ip, now).after_check(
            limiter.quota(),
            now,
        ),
{
}

/// With a burst of one, a client whose bucket is full or who has none yet is
/// admitted exactly once by any number of checks that come within less than
/// the time that refills a token: by the first of them.
pub proof fn law_burst_of_one_admits_one_request(
    limiter: RateLimiter,
    ip: IpAddress,
    times: Seq<u64>,
)
    requires
        limiter.wf(),
        limiter.quota().burst_size == 1,
        !limiter.whitelist().contains(ip),
        limiter.bucket_of(ip, times[0]).level == limiter.quota().capacity(),
        times.len() >= 1,
        within_one_token(limiter.quota(), times),
    ensures
        limiter.answer(ip, times[0]) == Decision::Allow,
        limiter.bucket_of(ip, times[0]).admissions(limiter.quota(), times) == 1,
{
    law_burst_of_one_admits_once(limiter.bucket_of(ip, times[0]), limiter.quota(), times);
}

} // verus!
