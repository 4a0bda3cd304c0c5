use chainkit::state_helper::{classify_peer_speed, describe_sync_height, fallback_slot};

#[test]
fn when_given_none_value_then_return_no_blocks_yet() {
    let height: Option<u64> = None;
    let result = describe_sync_height(height);
    assert_eq!(result, "No blocks yet".to_string());
}

#[test]
fn when_given_some_value_then_return_current_height() {
    let height: Option<u64> = Some(100);
    let result = describe_sync_height(height);
    assert_eq!(result, "Current height: 100".to_string());
}

#[test]
fn when_error_then_return_zero() {
    let slot: Result<u64, String> = Err(String::new());
    let result = fallback_slot(slot);
    assert_eq!(result, 0);
}

#[test]
fn when_ok_then_return_u64() {
    let slot: Result<u64, String> = Ok(200);
    let result = fallback_slot(slot);
    assert_eq!(result, 200);
}

#[test]
fn when_ms_under_150_then_result_is_instant() {
    let ms: u64 = 150;
    let result = classify_peer_speed(ms);
    assert_eq!(result, "Instant");
}

#[test]
fn when_ms_151_then_result_is_acceptable() {
    let ms: u64 = 151;
    let result = classify_peer_speed(ms);
    assert_eq!(result, "Acceptable");
}

#[test]
fn when_ms_under_400_then_result_is_acceptable() {
    let ms: u64 = 400;
    let result = classify_peer_speed(ms);
    assert_eq!(result, "Acceptable");
}

#[test]
fn when_ms_over_400_then_result_is_lagging() {
    let ms: u64 = 401;
    let result = classify_peer_speed(ms);
    assert_eq!(result, "Lagging");
}

#[test]
fn describe_sync_height_renders_zero_and_the_largest_height() {
    assert_eq!(describe_sync_height(Some(0)), "Current height: 0");
    assert_eq!(
        describe_sync_height(Some(u64::MAX)),
        "Current height: 18446744073709551615"
    );
    assert_eq!(describe_sync_height(Some(1_000_000)), "Current height: 1000000");
}

#[test]
fn classify_peer_speed_at_zero_and_far_out() {
    assert_eq!(classify_peer_speed(0), "Instant");
    assert_eq!(classify_peer_speed(u64::MAX), "Lagging");
}
