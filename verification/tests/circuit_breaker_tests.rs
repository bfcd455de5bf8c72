use axon::circuit_breaker::{open_after, CircuitBreaker, MAX_FAILURES, RESET_TIMEOUT_SECS};

#[test]
fn test_circuit_opens_after_max_failures() {
    let mut cb = CircuitBreaker::new();
    let key = "model_a@v1";

    assert!(!cb.is_open(key));
    cb.record_failure(key);
    cb.record_failure(key);
    assert!(!cb.is_open(key));
    cb.record_failure(key);
    assert!(cb.is_open(key));
}

#[test]
fn test_success_resets() {
    let mut cb = CircuitBreaker::new();
    let key = "model_b@v1";

    cb.record_failure(key);
    cb.record_failure(key);
    cb.record_failure(key);
    assert!(cb.is_open(key));

    cb.record_success(key);
    assert!(!cb.is_open(key));
}

#[test]
fn failures_are_counted_per_key() {
    let mut cb = CircuitBreaker::new();
    cb.record_failure("a@v1");
    cb.record_failure("a@v1");
    cb.record_failure("b@v1");
    assert_eq!(cb.failures("a@v1"), 2);
    assert_eq!(cb.failures("b@v1"), 1);
    assert_eq!(cb.failures("c@v1"), 0);
    cb.record_success("a@v1");
    assert_eq!(cb.failures("a@v1"), 0);
    assert_eq!(cb.failures("b@v1"), 1);
}

#[test]
fn one_key_tripping_leaves_others_closed() {
    let mut cb = CircuitBreaker::new();
    for _ in 0..MAX_FAILURES {
        cb.record_failure("bad@v1");
    }
    cb.record_failure("good@v1");
    assert!(cb.is_open("bad@v1"));
    assert!(!cb.is_open("good@v1"));
}

#[test]
fn open_after_rule() {
    let timeout = (RESET_TIMEOUT_SECS as u128) * 1_000_000_000;
    assert!(open_after(3, 0));
    assert!(open_after(7, timeout - 1));
    assert!(!open_after(3, timeout));
    assert!(!open_after(2, 0));
    assert!(!open_after(0, 0));
}

#[test]
fn failures_keep_their_time_and_a_new_failure_reopens_after_the_timeout() {
    let mut cb = CircuitBreaker::new();
    let key = "model_c@v1";
    let long_ago = std::time::Instant::now()
        .checked_sub(std::time::Duration::from_secs(RESET_TIMEOUT_SECS + 100))
        .unwrap();
    for _ in 0..MAX_FAILURES {
        cb.record_failure_at(key, long_ago);
    }
    // Tripped, but the last failure lies beyond the timeout.
    assert_eq!(cb.failures(key), MAX_FAILURES);
    assert!(!cb.is_open(key));
    // One new failure is stamped now, and the key is closed off again.
    cb.record_failure(key);
    assert_eq!(cb.failures(key), MAX_FAILURES + 1);
    assert!(cb.is_open(key));
}

#[test]
fn a_failure_of_one_key_leaves_the_others_alone() {
    let mut cb = CircuitBreaker::new();
    let long_ago = std::time::Instant::now()
        .checked_sub(std::time::Duration::from_secs(RESET_TIMEOUT_SECS + 100))
        .unwrap();
    for _ in 0..MAX_FAILURES {
        cb.record_failure_at("old@v1", long_ago);
    }
    for _ in 0..MAX_FAILURES {
        cb.record_failure("new@v1");
    }
    assert!(cb.is_open("new@v1"));
    assert!(!cb.is_open("old@v1"));
    assert_eq!(cb.failures("old@v1"), MAX_FAILURES);
}
