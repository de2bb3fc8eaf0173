use signal_bot::rate_limit::RateLimiter;

const SEC: u128 = 1_000_000_000;

#[test]
fn window_allows_the_limit_then_refuses() {
    let mut rl = RateLimiter::new(3, 10);
    assert!(rl.check_at("g", 0));
    assert!(rl.check_at("g", SEC));
    assert!(rl.check_at("g", 2 * SEC));
    assert!(!rl.check_at("g", 3 * SEC));
    assert!(!rl.check_at("g", 10 * SEC - 1));
}

#[test]
fn cooldown_refills_the_bucket() {
    let mut rl = RateLimiter::new(1, 5);
    assert!(rl.check_at("k", 0));
    assert!(!rl.check_at("k", 4 * SEC));
    assert!(rl.check_at("k", 5 * SEC));
    assert!(!rl.check_at("k", 6 * SEC));
}

#[test]
fn keys_are_limited_independently() {
    let mut rl = RateLimiter::new(1, 60);
    assert!(rl.check_at("a", 0));
    assert!(rl.check_at("b", 0));
    assert!(!rl.check_at("a", SEC));
    assert!(!rl.check_at("b", SEC));
}

#[test]
fn zero_limit_refuses_everything() {
    let mut rl = RateLimiter::new(0, 60);
    assert!(!rl.check_at("a", 0));
}

#[test]
fn zero_cooldown_refills_every_time() {
    let mut rl = RateLimiter::new(1, 0);
    assert!(rl.check_at("a", 0));
    assert!(rl.check_at("a", 0));
}

#[test]
fn clock_checks_share_the_limit() {
    let mut rl = RateLimiter::new(2, 3600);
    assert!(rl.check("g"));
    assert!(rl.check("g"));
    assert!(!rl.check("g"));
    assert!(rl.check("dm-user"));
}

#[test]
fn each_window_allows_its_first_calls() {
    // Windows start at 0 s, 11 s and 30 s; two calls allowed in each.
    let times = [0, 1, 2, 11, 12, 13, 20, 30, 31, 32];
    let expected = [true, true, false, true, true, false, false, true, true, false];
    let mut alone = RateLimiter::new(2, 10);
    let mut mixed = RateLimiter::new(2, 10);
    for (t, want) in times.iter().zip(expected.iter()) {
        assert_eq!(alone.check_at("k", t * SEC), *want);
        // Calls for other keys in between change nothing for "k".
        mixed.check_at("other", t * SEC);
        mixed.check_at("third", t * SEC + 1);
        assert_eq!(mixed.check_at("k", t * SEC), *want);
    }
}

#[test]
fn clock_never_runs_backwards() {
    let mut rl = RateLimiter::new(1, 3600);
    assert!(rl.check("k"));
    assert!(!rl.check("k"));
}
