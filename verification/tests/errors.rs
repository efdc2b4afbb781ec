use clickhouse_utils::ClickhouseUtilsError;

#[test]
fn new_carries_message_and_no_cause() {
    let e = ClickhouseUtilsError::new("migrations folder does not exist".to_string());
    assert_eq!(e.message(), "migrations folder does not exist");
    assert!(e.into_inner().is_none());
}

#[test]
fn with_cause_preserves_the_underlying_failure() {
    let e = ClickhouseUtilsError::with_cause(
        "Clickhouse error: connection refused".to_string(),
        "connection refused".to_string(),
    );
    assert_eq!(e.message(), "Clickhouse error: connection refused");
    assert_eq!(e.into_inner(), Some("connection refused".to_string()));
}
