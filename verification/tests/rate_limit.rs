use uncovr::rate_limit::client_key;
use uncovr::rate_limit::RateLimit;
use uncovr::text::str_eq;

#[test]
fn three_per_minute_scenario() {
    // max_requests = 3 within a 60-unit window, one key.
    let mut limiter = RateLimit::new(3, 60);
    assert!(limiter.check_rate_limit("1.2.3.4", 0));
    assert!(limiter.check_rate_limit("1.2.3.4", 1));
    assert!(limiter.check_rate_limit("1.2.3.4", 2));
    assert!(!limiter.check_rate_limit("1.2.3.4", 3));
    assert!(limiter.check_rate_limit("1.2.3.4", 61));
}

#[test]
fn second_key_keeps_its_quota() {
    // Key "A" exhausts its quota of one; key "B" is still admitted.
    let mut limiter = RateLimit::new(1, 60);
    assert!(limiter.check_rate_limit("A", 0));
    assert!(!limiter.check_rate_limit("A", 1));
    assert!(limiter.check_rate_limit("B", 1));
    assert!(!limiter.check_rate_limit("B", 2));
}

#[test]
fn denies_after_quota_of_consecutive_calls() {
    let max: usize = 5;
    let mut limiter = RateLimit::new(max, 1000);
    for i in 0..max {
        assert!(limiter.check_rate_limit("k", i as u64));
    }
    assert!(!limiter.check_rate_limit("k", max as u64));
}

#[test]
fn window_elapse_restores_exact_quota() {
    let mut limiter = RateLimit::new(2, 10);
    assert!(limiter.check_rate_limit("k", 0));
    assert!(limiter.check_rate_limit("k", 1));
    assert!(!limiter.check_rate_limit("k", 2));
    // Both recorded instants (0 and 1) have left the window at 11.
    assert!(limiter.check_rate_limit("k", 11));
    assert!(limiter.check_rate_limit("k", 11));
    assert!(!limiter.check_rate_limit("k", 11));
}

#[test]
fn denied_calls_are_not_recorded() {
    let mut limiter = RateLimit::new(1, 60);
    assert!(limiter.check_rate_limit("k", 0));
    // Repeating a denied call under the same conditions keeps returning
    // false, and the denials do not extend the recorded history: the key
    // becomes free again exactly when the one admitted instant expires.
    assert!(!limiter.check_rate_limit("k", 30));
    assert!(!limiter.check_rate_limit("k", 30));
    assert!(!limiter.check_rate_limit("k", 59));
    assert!(limiter.check_rate_limit("k", 60));
}

#[test]
fn rolling_window_drops_instants_one_by_one() {
    let mut limiter = RateLimit::new(2, 10);
    assert!(limiter.check_rate_limit("k", 0));
    assert!(limiter.check_rate_limit("k", 5));
    assert!(!limiter.check_rate_limit("k", 9));
    // At 10 the instant 0 has expired, but 5 is still live.
    assert!(limiter.check_rate_limit("k", 10));
    assert!(!limiter.check_rate_limit("k", 11));
}

#[test]
fn unknown_fallback_key_shares_one_bucket() {
    // Clients without a derivable address share the one sentinel bucket.
    let mut limiter = RateLimit::new(2, 60);
    assert!(limiter.check_rate_limit("unknown", 0));
    assert!(limiter.check_rate_limit("unknown", 1));
    assert!(!limiter.check_rate_limit("unknown", 2));
}

#[test]
fn client_key_takes_first_forwarded_token() {
    assert_eq!(client_key(Some("1.2.3.4")), "1.2.3.4");
    assert_eq!(client_key(Some("1.2.3.4,5.6.7.8")), "1.2.3.4");
    assert_eq!(client_key(Some("1.2.3.4, 5.6.7.8")), "1.2.3.4");
    assert_eq!(client_key(Some("")), "");
    assert_eq!(client_key(Some(",5.6.7.8")), "");
    assert_eq!(client_key(None), "unknown");
}

#[test]
fn str_eq_compares_by_characters() {
    assert!(str_eq("", ""));
    assert!(str_eq("abc", "abc"));
    assert!(!str_eq("abc", "abd"));
    assert!(!str_eq("abc", "ab"));
    assert!(str_eq("naïve", "naïve"));
    assert!(!str_eq("naïve", "naive"));
}
