use zmq_kv_store::logline::{banner_line, request_log_line};

#[test]
fn banner() {
    assert_eq!(
        banner_line("2023-11-14T22:13:20.123456Z"),
        "2023-11-14T22:13:20.123456Z - Server started"
    );
}

#[test]
fn log_line_of_a_request() {
    assert_eq!(
        request_log_line("2023-11-14T22:13:20.123456Z", "SET color blue sky", 42),
        "2023-11-14T22:13:20.123456Z - Processed request: SET color (42\u{b5}s)"
    );
    assert_eq!(
        request_log_line("T", "  GET \t k  ", 0),
        "T - Processed request: GET k (0\u{b5}s)"
    );
}

#[test]
fn log_line_agrees_with_std_formatting() {
    for micros in [0u64, 9, 10, 1234567, u64::MAX] {
        let expected = format!("{} - Processed request: {} {} ({}µs)", "ts", "PING", "key", micros);
        assert_eq!(request_log_line("ts", "PING key", micros), expected);
    }
}

#[test]
fn log_line_of_a_request_without_a_key() {
    assert_eq!(request_log_line("T", "GET", 7), "T - Processed request: GET  (7\u{b5}s)");
    assert_eq!(request_log_line("T", "", 7), "T - Processed request:   (7\u{b5}s)");
}
