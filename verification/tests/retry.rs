use fkst_framework::delivery_retry::{
    backoff_delay, bounded_jitter, error_excerpt, ERROR_EXCERPT_LIMIT,
};
use fkst_framework::duration::Duration;

#[test]
fn backoff_delay_is_capped() {
    assert_eq!(
        backoff_delay(Duration::from_millis(100), Duration::from_millis(250), 4),
        Duration::from_millis(250)
    );
}

#[test]
fn bounded_jitter_is_deterministic_and_bounded() {
    let base = Duration::from_millis(100);
    let first = bounded_jitter("one", 2, base);
    let second = bounded_jitter("one", 2, base);

    assert_eq!(first, second);
    assert!(first <= Duration::from_millis(25));
}

#[test]
fn delivery_store_error_excerpt_truncates_on_utf8_boundary() {
    let excerpt = error_excerpt(&"é".repeat(300));

    assert!(excerpt.len() <= ERROR_EXCERPT_LIMIT);
    assert!(excerpt.is_char_boundary(excerpt.len()));
}
