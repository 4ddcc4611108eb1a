use std::time::Duration;

use fusiongraph::circuit_breaker::{epoch_millis, CircuitBreaker, CircuitBreakerConfig, CircuitState};
use fusiongraph::error::GraphError;

#[test]
fn starts_closed() {
    let mut cb = CircuitBreaker::with_defaults();
    assert_eq!(cb.state(), CircuitState::Closed);
    assert!(cb.check().is_ok());
}

#[test]
fn opens_after_failures() {
    let config = CircuitBreakerConfig {
        failure_threshold: 3,
        ..Default::default()
    };
    let mut cb = CircuitBreaker::new(config);

    cb.record_failure();
    cb.record_failure();
    assert_eq!(cb.state(), CircuitState::Closed);

    cb.record_failure();
    assert_eq!(cb.state(), CircuitState::Open);
    assert!(cb.check().is_err());
}

#[test]
fn success_resets_failure_count() {
    let config = CircuitBreakerConfig {
        failure_threshold: 3,
        ..Default::default()
    };
    let mut cb = CircuitBreaker::new(config);

    cb.record_failure();
    cb.record_failure();
    assert_eq!(cb.failure_count(), 2);

    cb.record_success();
    assert_eq!(cb.failure_count(), 0);
}

#[test]
fn reset_closes_circuit() {
    let config = CircuitBreakerConfig {
        failure_threshold: 1,
        ..Default::default()
    };
    let mut cb = CircuitBreaker::new(config);

    cb.record_failure();
    assert_eq!(cb.state(), CircuitState::Open);

    cb.reset();
    assert_eq!(cb.state(), CircuitState::Closed);
    assert!(cb.check().is_ok());
}

#[test]
fn half_open_closes_on_success() {
    let config = CircuitBreakerConfig {
        failure_threshold: 1,
        success_threshold: 2,
        reset_timeout: Duration::from_millis(0),
    };
    let mut cb = CircuitBreaker::new(config);

    cb.record_failure();
    assert_eq!(cb.state(), CircuitState::Open);

    assert!(cb.check().is_ok());
    assert_eq!(cb.state(), CircuitState::HalfOpen);

    cb.record_success();
    assert_eq!(cb.state(), CircuitState::HalfOpen);

    cb.record_success();
    assert_eq!(cb.state(), CircuitState::Closed);
}

#[test]
fn half_open_opens_on_failure() {
    // The breaker is brought to half-open through its own transitions: open
    // at time 1000 ms, then checked once the default 30 s timeout elapsed.
    let mut cb = CircuitBreaker::with_defaults();
    for _ in 0..5 {
        cb.record_failure_at(1_000);
    }
    assert_eq!(cb.state(), CircuitState::Open);
    assert!(cb.check_at(31_000).is_ok());
    assert_eq!(cb.state(), CircuitState::HalfOpen);

    cb.record_failure();
    assert_eq!(cb.state(), CircuitState::Open);
}

#[test]
fn open_failures_do_not_extend_reset_timeout() {
    let config = CircuitBreakerConfig {
        failure_threshold: 1,
        ..Default::default()
    };
    let mut cb = CircuitBreaker::new(config);

    cb.record_failure();
    let opened_at = cb.last_failure_time();
    let failures = cb.failure_count();

    cb.record_failure();

    assert_eq!(cb.failure_count(), failures);
    assert_eq!(cb.last_failure_time(), opened_at);
}

#[test]
fn circuit_open_error_is_retryable() {
    let err = GraphError::CircuitOpen;
    assert!(err.is_retryable());
    assert_eq!(err.code(), "FG-SYS-E001");
}

#[test]
fn open_circuit_rejects_until_timeout_then_probes() {
    let config = CircuitBreakerConfig {
        failure_threshold: 2,
        reset_timeout: Duration::from_millis(500),
        success_threshold: 1,
    };
    let mut cb = CircuitBreaker::new(config);
    cb.record_failure_at(100);
    cb.record_failure_at(200);
    assert_eq!(cb.state(), CircuitState::Open);
    assert_eq!(cb.last_failure_time(), 200);

    let err = cb.check_at(699).unwrap_err();
    assert!(matches!(err, GraphError::CircuitOpen));
    assert_eq!(cb.state(), CircuitState::Open);

    assert!(cb.check_at(700).is_ok());
    assert_eq!(cb.state(), CircuitState::HalfOpen);
    cb.record_success();
    assert_eq!(cb.state(), CircuitState::Closed);
    assert_eq!(cb.failure_count(), 0);
}

#[test]
fn circuit_state_from_u8() {
    assert_eq!(CircuitState::from(0u8), CircuitState::Closed);
    assert_eq!(CircuitState::from(1u8), CircuitState::Open);
    assert_eq!(CircuitState::from(2u8), CircuitState::HalfOpen);
    assert_eq!(CircuitState::from(7u8), CircuitState::Closed);
}

#[test]
fn default_config_values() {
    let config = CircuitBreakerConfig::default();
    assert_eq!(config.failure_threshold, 5);
    assert_eq!(config.reset_timeout, Duration::from_secs(30));
    assert_eq!(config.success_threshold, 2);
}

#[test]
fn reset_timeout_counts_in_whole_milliseconds() {
    let mut cb = CircuitBreaker::with_defaults();
    for _ in 0..5 {
        cb.record_failure_at(1_000);
    }
    assert!(cb.check_at(30_999).is_err());
    assert_eq!(cb.state(), CircuitState::Open);
    assert!(cb.check_at(31_000).is_ok());

    let config = CircuitBreakerConfig {
        failure_threshold: 1,
        reset_timeout: Duration::from_micros(1_500_900),
        success_threshold: 1,
    };
    let mut cb = CircuitBreaker::new(config);
    cb.record_failure_at(10);
    assert!(cb.check_at(1_509).is_err());
    assert!(cb.check_at(1_510).is_ok());
}

#[test]
fn epoch_millis_of_readings() {
    let after: Result<std::time::Duration, std::time::SystemTimeError> =
        Ok(std::time::Duration::new(3, 250_000_000));
    assert_eq!(epoch_millis(&after), 3_250);
    let before = std::time::SystemTime::UNIX_EPOCH
        .duration_since(std::time::SystemTime::UNIX_EPOCH + std::time::Duration::from_secs(1));
    assert!(before.is_err());
    assert_eq!(epoch_millis(&before), 0);
}
