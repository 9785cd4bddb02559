use sqelf::metrics::{increment, Metrics};

#[test]
fn fresh_counters_are_zero() {
    let metrics = Metrics::new();
    assert_eq!(metrics, Metrics::default());
    assert_eq!(metrics.receive_ok, 0);
    assert_eq!(metrics.receive_err, 0);
    assert_eq!(metrics.process_ok, 0);
    assert_eq!(metrics.process_err, 0);
    assert_eq!(metrics.tcp_conn_accept, 0);
    assert_eq!(metrics.tcp_conn_close, 0);
    assert_eq!(metrics.tcp_conn_timeout, 0);
    assert_eq!(metrics.tcp_msg_overflow, 0);
    assert_eq!(metrics.open_sessions(), 0);
}

#[test]
fn a_counter_goes_up_by_one() {
    let mut counter = 41;
    increment(&mut counter);
    assert_eq!(counter, 42);
}

#[test]
fn a_counter_wraps_around_at_the_top() {
    let mut counter = u64::MAX;
    increment(&mut counter);
    assert_eq!(counter, 0);
}

#[test]
fn open_sessions_are_the_difference_of_the_counters() {
    let mut metrics = Metrics::new();
    metrics.tcp_conn_accept = 10;
    metrics.tcp_conn_close = 7;
    assert_eq!(metrics.open_sessions(), 3);
}

#[test]
fn open_sessions_are_right_after_the_counters_have_wrapped() {
    let mut metrics = Metrics::new();
    metrics.tcp_conn_accept = 2;
    metrics.tcp_conn_close = u64::MAX;
    assert_eq!(metrics.open_sessions(), 3);
}
