use cdio_paranoia::backoff::{
    determine_backoff_action, BackoffAction, BackoffStrategy, MAX_BACKOFF_DELAY_MS, MAX_BACKOFF_SECTORS,
};

#[test]
fn test_backoff_creation() {
    let strategy = BackoffStrategy::new();
    assert_eq!(strategy.error_count(), 0);
    assert_eq!(strategy.backoff_count(), 0);
    assert_eq!(strategy.total_errors(), 0);
}

#[test]
fn test_error_threshold() {
    let mut strategy = BackoffStrategy::new();

    // First two errors shouldn't trigger backoff
    assert!(!strategy.record_error(100));
    assert!(!strategy.record_error(100));

    // Third error should trigger backoff (default threshold is 3)
    assert!(strategy.record_error(100));

    assert_eq!(strategy.error_count(), 3);
    assert_eq!(strategy.total_errors(), 3);
}

#[test]
fn test_different_sector_resets() {
    let mut strategy = BackoffStrategy::new();

    strategy.record_error(100);
    strategy.record_error(100);

    // Error at different sector resets count
    assert!(!strategy.record_error(200));
    assert_eq!(strategy.error_count(), 1);
}

#[test]
fn test_backoff_escalation() {
    let mut strategy = BackoffStrategy::new();

    let (initial_sectors, initial_delay) = strategy.get_backoff_params();

    strategy.record_backoff();

    let (new_sectors, new_delay) = strategy.get_backoff_params();

    // Should have doubled
    assert_eq!(new_sectors.abs(), initial_sectors.abs() * 2);
    assert_eq!(new_delay, initial_delay * 2);
}

#[test]
fn test_backoff_max_limits() {
    let mut strategy = BackoffStrategy::new();

    for _ in 0..10 {
        strategy.record_backoff();
    }

    let (sectors, delay) = strategy.get_backoff_params();

    // Should be capped at maximums
    assert!(sectors.abs() <= MAX_BACKOFF_SECTORS);
    assert!(delay.as_millis() <= MAX_BACKOFF_DELAY_MS as u128);
}

#[test]
fn test_should_give_up() {
    let mut strategy = BackoffStrategy::new();

    assert!(!strategy.should_give_up(3));

    strategy.record_backoff();
    strategy.record_backoff();
    strategy.record_backoff();

    assert!(strategy.should_give_up(3));
}

#[test]
fn test_success_resets() {
    let mut strategy = BackoffStrategy::new();

    strategy.record_error(100);
    strategy.record_error(100);
    strategy.record_backoff();

    // Success past error location resets
    strategy.record_success(101);

    assert_eq!(strategy.error_count(), 0);
    assert_eq!(strategy.backoff_count(), 0);
    assert_eq!(strategy.last_error_sector(), None);
}

#[test]
fn test_determine_backoff_action() {
    let mut strategy = BackoffStrategy::new();

    assert_eq!(determine_backoff_action(&strategy, false, 3), BackoffAction::Continue);

    assert!(matches!(determine_backoff_action(&strategy, true, 3), BackoffAction::Backoff { .. }));

    strategy.record_backoff();
    strategy.record_backoff();
    strategy.record_backoff();

    assert_eq!(determine_backoff_action(&strategy, true, 3), BackoffAction::GiveUp);
}

#[test]
fn backoff_exact_parameters_and_doubling() {
    let mut strategy = BackoffStrategy::new();
    let (sectors, delay) = strategy.get_backoff_params();
    assert_eq!(sectors, -16);
    assert_eq!(delay.as_millis(), 50);
    strategy.record_backoff();
    strategy.record_backoff();
    let (sectors, delay) = strategy.get_backoff_params();
    assert_eq!(sectors, -64);
    assert_eq!(delay.as_millis(), 200);
    strategy.record_backoff();
    strategy.record_backoff();
    let (sectors, delay) = strategy.get_backoff_params();
    assert_eq!(sectors, -128);
    assert_eq!(delay.as_millis(), 500);
    assert_eq!(strategy.total_backoffs(), 4);
    assert!(strategy.time_since_backoff().is_some());
}

#[test]
fn backoff_action_carries_distance_and_delay() {
    let strategy = BackoffStrategy::with_settings(2, 8, 30);
    match determine_backoff_action(&strategy, true, 3) {
        BackoffAction::Backoff { sectors, delay } => {
            assert_eq!(sectors, 8);
            assert_eq!(delay.as_millis(), 30);
        }
        other => panic!("unexpected action {other:?}"),
    }
}

#[test]
fn backoff_threshold_reached_after_n_errors() {
    let mut strategy = BackoffStrategy::with_settings(4, 16, 50);
    assert!(!strategy.record_error(7));
    assert!(!strategy.record_error(7));
    assert!(!strategy.record_error(7));
    assert!(strategy.record_error(7));
    assert_eq!(strategy.last_error_sector(), Some(7));
}

#[test]
fn backoff_success_before_error_keeps_state() {
    let mut strategy = BackoffStrategy::new();
    strategy.record_error(100);
    strategy.record_success(100);
    assert_eq!(strategy.error_count(), 1);
    strategy.record_success(99);
    assert_eq!(strategy.last_error_sector(), Some(100));
}

#[test]
fn backoff_setters_clamp() {
    let mut strategy = BackoffStrategy::new();
    strategy.set_error_threshold(0);
    strategy.set_backoff_sectors(-5);
    strategy.set_backoff_delay(10);
    assert!(strategy.record_error(1) == false);
    assert!(strategy.record_error(1));
    let (sectors, delay) = strategy.get_backoff_params();
    assert_eq!(sectors, -1);
    assert_eq!(delay.as_millis(), 10);
    strategy.reset_error_state();
    assert_eq!(strategy.error_count(), 0);
}

#[test]
fn backoff_counts_every_error_and_stays_bounded() {
    let mut s = BackoffStrategy::new();
    let mut k = 0u64;
    for round in 0..6 {
        s.record_error(100);
        k += 1;
        s.record_error(100);
        k += 1;
        s.record_success(50);
        s.record_backoff();
        if round == 2 {
            s.set_backoff_sectors(128);
            s.set_backoff_delay(500);
            s.reset_error_state();
        }
        s.record_error(200 + round);
        k += 1;
        s.set_error_threshold(0);
        let (off, d) = s.get_backoff_params();
        assert!((-128..=-1).contains(&off));
        assert!(d.as_millis() <= 500);
    }
    assert_eq!(s.total_errors(), k);
    assert!(u64::from(s.error_count()) <= k);
}

#[test]
fn backoff_action_without_need_on_any_distance() {
    let s = BackoffStrategy::with_settings(3, i32::MIN, 50);
    assert_eq!(determine_backoff_action(&s, false, 3), BackoffAction::Continue);
}
