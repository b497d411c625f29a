use score_engine::retry::{after_attempt, backoff_delay, pause_after, RetryStep};

#[test]
fn backoff_doubles_per_attempt() {
    assert_eq!(backoff_delay(500, 1, 0), 1000);
    assert_eq!(backoff_delay(500, 3, 7), 4007);
    assert_eq!(backoff_delay(500, 0, 0), 500);
}

#[test]
fn backoff_saturates() {
    assert_eq!(backoff_delay(u64::MAX, 2, 0), u64::MAX);
    assert_eq!(backoff_delay(1, 70, 0), u64::MAX);
    assert_eq!(backoff_delay(4, 1, u64::MAX), u64::MAX);
}

#[test]
fn retry_steps() {
    assert!(matches!(after_attempt(5, 500, 1, true, 3), RetryStep::Succeeded { attempts: 1 }));
    assert!(matches!(
        after_attempt(5, 500, 2, false, 3),
        RetryStep::RetryAfter { attempts: 2, delay_ms: 2003 }
    ));
    assert!(matches!(after_attempt(5, 500, 5, false, 3), RetryStep::Failed { attempts: 5 }));
}

#[test]
fn pacing_only_after_first_try() {
    assert_eq!(pause_after(true, 1, 200), 200);
    assert_eq!(pause_after(true, 3, 200), 0);
    assert_eq!(pause_after(false, 1, 200), 0);
}
