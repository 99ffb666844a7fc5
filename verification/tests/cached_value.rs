use coredump_bot::cached_value::{
    remove_flagged, remove_flagged_deque, CacheContainer, CachedValue,
};
use std::collections::VecDeque;
use std::time::{Duration, Instant};

/// Waits until the clock has advanced by `ms` milliseconds.
fn wait(ms: u64) {
    let start = Instant::now();
    while start.elapsed() <= Duration::from_millis(ms) {}
}

#[test]
fn expired_cache() {
    let c = CachedValue::new(42, Duration::new(0, 0));

    wait(1);

    assert_eq!(true, c.has_expired());
}

#[test]
fn deref() {
    let c = CachedValue::new(42, Duration::new(0, 0));

    assert_eq!(42, *c);
}

#[test]
fn deref_mut() {
    let mut c = CachedValue::new(42, Duration::new(0, 0));

    let expires_0 = c.renewed();

    wait(42);
    *c = 23;

    let expires_1 = c.renewed();

    assert_eq!(23, *c);
    assert!(expires_0 < expires_1);
}

#[test]
fn deref_mut_changes_the_value_and_renews_it() {
    let mut c = CachedValue::new(42, Duration::from_millis(40));

    wait(41);
    assert!(c.has_expired());
    *c = 23;

    assert_eq!(23, *c);
    assert!(c.has_expired() == false);
}

#[test]
fn renew_starts_the_lifetime_anew() {
    let mut c = CachedValue::new(7, Duration::from_millis(40));
    wait(41);
    assert!(c.has_expired());
    c.renew();
    assert!(c.has_expired() == false);
    assert_eq!(7, *c);
}

#[test]
fn expired_after_compares_with_the_lifetime() {
    let c = CachedValue::new("x", Duration::from_millis(5));
    assert!(c.expired_after(Duration::from_millis(4)) == false);
    assert!(c.expired_after(Duration::from_millis(5)) == false);
    assert!(c.expired_after(Duration::new(0, 5_000_001)));
    assert!(c.expired_after(Duration::from_secs(1)));
}

#[test]
fn a_long_lifetime_has_not_expired() {
    let c = CachedValue::new(1, Duration::from_secs(3600));
    assert!(c.has_expired() == false);
    assert!(c.expired_after(Duration::from_secs(3600)) == false);
    assert!(c.expired_after(Duration::from_secs(3601)));
}

#[test]
fn vec_drops_what_has_expired() {
    let mut v = vec![
        CachedValue::new(21, Duration::from_millis(1)),
        CachedValue::new(42, Duration::from_secs(3600)),
    ];

    wait(2);
    v.remove_expired();

    assert_eq!(1, v.len());
    assert_eq!(42, *v[0]);
}

#[test]
fn use_with_vec_deque() {
    let mut v: VecDeque<_> = vec![
        CachedValue::new(21, Duration::from_millis(1)),
        CachedValue::new(42, Duration::from_millis(42)),
    ]
    .into_iter()
    .collect();

    wait(2);
    v.remove_expired();

    assert_eq!(1, v.len());
    assert_eq!(42, *v[0]);
}

#[test]
fn remove_expired_keeps_the_order() {
    let mut v = vec![
        CachedValue::new(1, Duration::from_secs(3600)),
        CachedValue::new(2, Duration::new(0, 0)),
        CachedValue::new(3, Duration::from_secs(3600)),
        CachedValue::new(4, Duration::new(0, 0)),
        CachedValue::new(5, Duration::from_secs(3600)),
    ];
    wait(1);
    v.remove_expired();
    let left: Vec<i32> = v.iter().map(|c| **c).collect();
    assert_eq!(vec![1, 3, 5], left);

    let mut none: Vec<CachedValue<i32>> = Vec::new();
    none.remove_expired();
    assert!(none.is_empty());
}

#[test]
fn remove_flagged_takes_out_what_is_flagged() {
    let mut v = vec!["a", "b", "c", "d", "e"];
    remove_flagged(&mut v, &vec![true, false, false, true, true]);
    assert_eq!(vec!["b", "c"], v);
    remove_flagged(&mut v, &vec![false, false]);
    assert_eq!(vec!["b", "c"], v);
    remove_flagged(&mut v, &vec![true, true]);
    assert!(v.is_empty());
    remove_flagged(&mut v, &vec![]);
    assert!(v.is_empty());

    let mut d: VecDeque<u8> = (1..=6).collect();
    d.rotate_left(2);
    remove_flagged_deque(&mut d, &vec![false, true, false, true, false, true]);
    assert_eq!(vec![3, 5, 1], d.into_iter().collect::<Vec<u8>>());
}

#[test]
fn renew_at_lets_the_lifetime_run_from_the_reading() {
    let mut c = CachedValue::new(7, Duration::from_secs(3600));
    let made = c.renewed();
    wait(1);
    let later = Instant::now();
    assert!(made < later);
    c.renew_at(later);
    assert_eq!(later, c.renewed());
    assert_eq!(7, *c);
    assert!(c.expired_after(Duration::from_secs(3601)));
    c.renew_at(made);
    assert_eq!(made, c.renewed());

    let mut old = CachedValue::new(1, Duration::from_millis(20));
    wait(21);
    assert!(old.has_expired());
    old.renew_at(Instant::now());
    assert!(old.has_expired() == false);
}

#[test]
fn deref_mut_renews_from_the_reading_of_the_clock() {
    let mut c = CachedValue::new(42, Duration::from_secs(3600));
    let made = c.renewed();
    wait(1);
    let before = Instant::now();
    *c += 1;
    let after = Instant::now();
    assert_eq!(43, *c);
    assert!(made < c.renewed());
    assert!(before <= c.renewed() && c.renewed() <= after);
    assert!(c.expired_after(Duration::from_secs(3600)) == false);
    assert!(c.expired_after(Duration::from_secs(3601)));
}
