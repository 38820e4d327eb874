use iroh_sdht::adaptive::{AdaptiveParams, QUERY_STATS_WINDOW};

#[test]
fn initial_parameters_are_kept_until_churn_is_observed() {
    let mut params = AdaptiveParams::new(20, 3);
    assert_eq!(params.current_k(), 20);
    assert_eq!(params.current_alpha(), 3);
    params.update_k();
    params.update_alpha();
    assert_eq!(params.current_k(), 20);
    assert_eq!(params.current_alpha(), 3);
}

#[test]
fn the_bucket_size_follows_the_churn_rate() {
    let mut params = AdaptiveParams::new(10, 3);
    assert!(params.record_churn(false));
    assert_eq!(params.current_k(), 30);
    assert!(params.record_churn(true));
    assert_eq!(params.current_k(), 20);
    assert!(params.record_churn(true));
    assert_eq!(params.current_k(), 17);
    assert!(params.record_churn(true));
    assert_eq!(params.current_k(), 15);
}

#[test]
fn the_parallelism_follows_the_churn_rate() {
    let mut params = AdaptiveParams::new(10, 7);
    assert_eq!(params.current_alpha(), 7);
    params.record_churn(false);
    assert_eq!(params.current_alpha(), 5);
    params.record_churn(true);
    assert_eq!(params.current_alpha(), 4);
    params.record_churn(true);
    assert_eq!(params.current_alpha(), 3);
    for _ in 0..4 {
        params.record_churn(true);
    }
    assert_eq!(params.current_alpha(), 2);
}

#[test]
fn the_parallelism_stays_between_two_and_five() {
    for alpha in [0usize, 1, 3, 9] {
        for success in [true, false] {
            let mut params = AdaptiveParams::new(20, alpha);
            params.record_churn(success);
            assert_eq!(params.current_alpha(), if success { 2 } else { 5 });
        }
    }
}

#[test]
fn halves_are_rounded_up() {
    let mut params = AdaptiveParams::new(10, 3);
    params.record_churn(false);
    for _ in 0..7 {
        params.record_churn(true);
    }
    assert_eq!(params.current_k(), 13);
}

#[test]
fn an_unchanged_bucket_size_is_reported() {
    let mut params = AdaptiveParams::new(30, 3);
    assert!(!params.record_churn(false));
    assert!(!params.record_churn(false));
    assert_eq!(params.current_k(), 30);
}

#[test]
fn old_outcomes_leave_the_window() {
    let mut params = AdaptiveParams::new(20, 3);
    params.record_churn(false);
    for _ in 0..QUERY_STATS_WINDOW - 1 {
        params.record_churn(true);
    }
    assert_eq!(params.current_k(), 10);
    for _ in 0..QUERY_STATS_WINDOW {
        params.record_churn(false);
    }
    assert_eq!(params.current_k(), 30);
    for _ in 0..QUERY_STATS_WINDOW {
        params.record_churn(true);
    }
    assert_eq!(params.current_k(), 10);
}

#[test]
fn the_integer_formula_matches_the_rounded_rate() {
    for failures in 0..=20usize {
        let mut params = AdaptiveParams::new(20, 3);
        for _ in 0..failures {
            params.record_churn(false);
        }
        for _ in failures..20 {
            params.record_churn(true);
        }
        let rate = failures as f32 / 20.0;
        let expected = (10.0 + (20.0 * rate).round()).clamp(10.0, 30.0) as usize;
        assert_eq!(params.current_k(), expected);
    }
}
