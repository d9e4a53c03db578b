use ingress_guard::bucket::whole_seconds;
use ingress_guard::bucket::Bucket;
use ingress_guard::bucket::Decision;
use ingress_guard::bucket::Quota;
use ingress_guard::bucket::BILLION;

const MS: u64 = 1_000_000;

#[test]
fn quota_needs_both_limits() {
    assert_eq!(Quota::new(10, 2), Some(Quota { per_second: 10, burst_size: 2 }));
    assert_eq!(Quota::new(0, 2), None);
    assert_eq!(Quota::new(10, 0), None);
    assert_eq!(Quota::new(0, 0), None);
}

#[test]
fn full_bucket_holds_the_burst() {
    let quota = Quota::new(10, 2).unwrap();
    assert_eq!(quota.full_level(), 2 * BILLION);
    assert_eq!(Bucket::full(&quota, 7), Bucket { level: 2 * BILLION, last_refill: 7 });
    let largest = Quota::new(u32::MAX, u32::MAX).unwrap();
    assert_eq!(largest.full_level(), 4_294_967_295_000_000_000);
}

#[test]
fn burst_of_two_then_refusal_then_refill() {
    let quota = Quota::new(10, 2).unwrap();
    let mut bucket = Bucket::full(&quota, 0);
    assert_eq!(bucket.check(&quota, 0), Decision::Allow);
    assert_eq!(bucket.check(&quota, MS / 2), Decision::Allow);
    assert_eq!(bucket.check(&quota, MS), Decision::Deny { retry_after: 99 * MS });
    assert_eq!(bucket, Bucket { level: 10 * MS, last_refill: MS });
    assert_eq!(bucket.check(&quota, 101 * MS), Decision::Allow);
    assert_eq!(bucket, Bucket { level: 10 * MS, last_refill: 101 * MS });
}

#[test]
fn retry_after_is_the_shortest_wait() {
    let quota = Quota::new(10, 1).unwrap();
    let mut bucket = Bucket { level: 0, last_refill: 0 };
    assert_eq!(bucket.check(&quota, 0), Decision::Deny { retry_after: 100 * MS });
    let mut early = bucket;
    assert_eq!(early.check(&quota, 100 * MS - 1), Decision::Deny { retry_after: 1 });
    let mut on_time = bucket;
    assert_eq!(on_time.check(&quota, 100 * MS), Decision::Allow);
    assert_eq!(on_time.level, 0);
}

#[test]
fn retry_after_rounds_up() {
    let quota = Quota::new(3, 2).unwrap();
    let mut bucket = Bucket { level: 0, last_refill: 0 };
    assert_eq!(bucket.check(&quota, 0), Decision::Deny { retry_after: 333_333_334 });
    let mut early = bucket;
    assert_eq!(early.check(&quota, 333_333_333), Decision::Deny { retry_after: 1 });
    let mut on_time = bucket;
    assert_eq!(on_time.check(&quota, 333_333_334), Decision::Allow);
    assert_eq!(on_time.level, 2);
}

#[test]
fn level_is_capped_at_the_burst() {
    let quota = Quota::new(10, 2).unwrap();
    let bucket = Bucket { level: 0, last_refill: 0 };
    assert_eq!(bucket.level_at(&quota, 0), 0);
    assert_eq!(bucket.level_at(&quota, 50 * MS), BILLION / 2);
    assert_eq!(bucket.level_at(&quota, 200 * MS), 2 * BILLION);
    assert_eq!(bucket.level_at(&quota, u64::MAX), 2 * BILLION);
    let fast = Quota::new(u32::MAX, u32::MAX).unwrap();
    assert_eq!(bucket.level_at(&fast, u64::MAX), fast.full_level());
}

#[test]
fn level_stays_in_bounds_over_many_checks() {
    let quota = Quota::new(7, 3).unwrap();
    let mut bucket = Bucket::full(&quota, 0);
    let mut now: u64 = 0;
    let mut admitted = 0;
    for step in 0..10_000u64 {
        now += (step * 7919) % (300 * MS);
        if bucket.check(&quota, now) == Decision::Allow {
            admitted += 1;
        }
        assert!(bucket.level <= quota.full_level());
    }
    assert!(admitted >= 3);
}

#[test]
fn clock_going_back_counts_as_no_time() {
    let quota = Quota::new(10, 1).unwrap();
    let mut bucket = Bucket { level: 0, last_refill: 500 * MS };
    assert_eq!(bucket.check(&quota, 100 * MS), Decision::Deny { retry_after: 100 * MS });
    assert_eq!(bucket, Bucket { level: 0, last_refill: 500 * MS });
    assert_eq!(bucket.check(&quota, 550 * MS), Decision::Deny { retry_after: 50 * MS });
    assert_eq!(bucket, Bucket { level: BILLION / 2, last_refill: 550 * MS });
}

#[test]
fn burst_of_one_admits_exactly_one() {
    let quota = Quota::new(10, 1).unwrap();
    let times = [40 * MS, 10 * MS, 99 * MS, 10 * MS, 0, 109 * MS - 1, 50 * MS];
    let mut bucket = Bucket::full(&quota, 0);
    let mut admitted = Vec::new();
    for (i, t) in times.iter().enumerate() {
        if bucket.check(&quota, *t) == Decision::Allow {
            admitted.push(i);
        }
    }
    assert_eq!(admitted, vec![0]);
}

#[test]
fn waits_are_told_in_whole_seconds() {
    assert_eq!(whole_seconds(0), 0);
    assert_eq!(whole_seconds(1), 1);
    assert_eq!(whole_seconds(99 * MS), 1);
    assert_eq!(whole_seconds(BILLION), 1);
    assert_eq!(whole_seconds(BILLION + 1), 2);
    assert_eq!(whole_seconds(u64::MAX), 18_446_744_074);
}

#[test]
fn remaining_requests_are_whole_tokens() {
    assert_eq!(Bucket { level: 0, last_refill: 0 }.whole_tokens(), 0);
    assert_eq!(Bucket { level: BILLION - 1, last_refill: 0 }.whole_tokens(), 0);
    assert_eq!(Bucket { level: BILLION, last_refill: 0 }.whole_tokens(), 1);
    assert_eq!(Bucket { level: 2 * BILLION + 5, last_refill: 0 }.whole_tokens(), 2);
}
