use jev_quantum::record::{
    action_from_choice, action_name, classify_status, RequestRecord, ERR_AUTH, ERR_HTTP, ERR_OK,
    ERR_RATE_LIMIT,
};

#[test]
fn memory_budget_for_million_records() {
    let rec = RequestRecord {
        offset_ns: 0,
        latency_ns: 1,
        throttle_ns: 0,
        status: 200,
        action: 0,
        error: 0,
        bytes: 1,
    };
    let bytes = std::mem::size_of_val(&rec) * 1_000_000;
    assert!(
        bytes < 32 * 1024 * 1024,
        "1M records should stay under 32MiB, got {bytes}"
    );
}

#[test]
fn statuses_are_classified() {
    assert_eq!(classify_status(200), ERR_OK);
    assert_eq!(classify_status(299), ERR_OK);
    assert_eq!(classify_status(401), ERR_AUTH);
    assert_eq!(classify_status(403), ERR_AUTH);
    assert_eq!(classify_status(429), ERR_RATE_LIMIT);
    assert_eq!(classify_status(500), ERR_HTTP);
    assert_eq!(classify_status(302), ERR_HTTP);
}

#[test]
fn error_names() {
    assert_eq!(RequestRecord::error_name(0), "ok");
    assert_eq!(RequestRecord::error_name(5), "rate_limit");
    assert_eq!(RequestRecord::error_name(6), "network");
    assert_eq!(RequestRecord::error_name(7), "unknown");
}

#[test]
fn move_labels_round_trip_ignoring_case() {
    for a in 0..4u8 {
        assert_eq!(action_from_choice(action_name(a)), a);
    }
    assert_eq!(action_from_choice("north"), 0);
    assert_eq!(action_from_choice("East"), 1);
    assert_eq!(action_from_choice("SOUTH"), 2);
    assert_eq!(action_from_choice("wEsT"), 3);
    assert_eq!(action_from_choice(" up"), 255);
    assert_eq!(action_name(9), "UNKNOWN");
}
