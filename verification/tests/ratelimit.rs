use sonum::ratelimit::{ClientAddr, Decision, RateLimiter};

const SECOND: u64 = 1_000_000_000;

fn ip(n: u8) -> ClientAddr {
    ClientAddr::V4(u32::from_be_bytes([127, 0, 0, n]))
}

#[test]
fn allows_up_to_the_limit_then_denies() {
    let mut limiter = RateLimiter::new(3, 60 * SECOND);
    let now = 5 * SECOND;
    let addr = ip(1);

    assert_eq!(limiter.check_at(addr, now), Decision::Allow);
    assert_eq!(limiter.check_at(addr, now), Decision::Allow);
    assert_eq!(limiter.check_at(addr, now), Decision::Allow);

    match limiter.check_at(addr, now) {
        Decision::Deny { retry_after_secs } => assert!(retry_after_secs >= 1),
        Decision::Allow => panic!("expected the 4th request in the window to be denied"),
    }
}

#[test]
fn resets_after_the_window_elapses() {
    let mut limiter = RateLimiter::new(1, 10 * SECOND);
    let now = 5 * SECOND;
    let addr = ip(2);

    assert_eq!(limiter.check_at(addr, now), Decision::Allow);
    assert!(matches!(limiter.check_at(addr, now), Decision::Deny { .. }));

    let later = now + 11 * SECOND;
    assert_eq!(limiter.check_at(addr, later), Decision::Allow);
}

#[test]
fn tracks_each_ip_independently() {
    let mut limiter = RateLimiter::new(1, 60 * SECOND);
    let now = 5 * SECOND;

    assert_eq!(limiter.check_at(ip(1), now), Decision::Allow);
    // a different IP has its own, untouched budget
    assert_eq!(limiter.check_at(ip(2), now), Decision::Allow);
    assert!(matches!(
        limiter.check_at(ip(1), now),
        Decision::Deny { .. }
    ));
}

#[test]
fn disabled_limiter_always_allows() {
    let mut limiter = RateLimiter::new(0, 60 * SECOND);
    let now = 5 * SECOND;
    let addr = ip(3);
    for _ in 0..1000 {
        assert_eq!(limiter.check_at(addr, now), Decision::Allow);
    }
}

#[test]
fn a_denied_client_is_told_what_is_left_of_the_window() {
    let mut limiter = RateLimiter::new(1, 60 * SECOND);
    assert_eq!(limiter.check_at(ip(1), 0), Decision::Allow);
    assert_eq!(
        limiter.check_at(ip(1), 15 * SECOND + 1),
        Decision::Deny { retry_after_secs: 45 }
    );
    assert_eq!(
        limiter.check_at(ip(1), 60 * SECOND - 1),
        Decision::Deny { retry_after_secs: 1 }
    );
    assert_eq!(limiter.check_at(ip(1), 60 * SECOND), Decision::Allow);
}

#[test]
fn a_client_that_waits_as_told_is_let_in() {
    for denied_at in [1, SECOND, SECOND + 1, 3 * SECOND - 1, 9 * SECOND + 7] {
        let mut limiter = RateLimiter::new(1, 10 * SECOND);
        assert_eq!(limiter.check_at(ip(1), 0), Decision::Allow);
        match limiter.check_at(ip(1), denied_at) {
            Decision::Deny { retry_after_secs } => {
                let later = denied_at + retry_after_secs * SECOND;
                assert_eq!(limiter.check_at(ip(1), later), Decision::Allow);
            }
            Decision::Allow => panic!("expected a second request to be denied"),
        }
    }
}

#[test]
fn addresses_of_both_kinds_do_not_meet() {
    let mut limiter = RateLimiter::new(1, 60 * SECOND);
    assert_eq!(limiter.check_at(ClientAddr::V4(1), 0), Decision::Allow);
    assert_eq!(limiter.check_at(ClientAddr::V6(1), 0), Decision::Allow);
    assert!(matches!(limiter.check_at(ClientAddr::V6(1), 0), Decision::Deny { .. }));
}

#[test]
fn pruning_drops_only_old_windows() {
    let mut limiter = RateLimiter::new(1, 1000 * SECOND);
    limiter.check_at(ip(1), 0);
    limiter.prune_stale(3999 * SECOND);
    limiter.check_at(ip(2), 3999 * SECOND);
    limiter.prune_stale(4000 * SECOND);
    assert!(matches!(limiter.check_at(ip(2), 4000 * SECOND), Decision::Deny { .. }));
    assert_eq!(limiter.check_at(ip(1), 1), Decision::Allow);
}

#[test]
fn pruning_changes_no_later_decision() {
    let mut kept = RateLimiter::new(1, SECOND);
    let mut pruned = RateLimiter::new(1, SECOND);
    kept.check_at(ip(1), 0);
    pruned.check_at(ip(1), 0);
    pruned.prune_stale(4 * SECOND);
    for now in [4 * SECOND, 4 * SECOND + 1, 5 * SECOND] {
        assert_eq!(kept.check_at(ip(1), now), pruned.check_at(ip(1), now));
    }
}
