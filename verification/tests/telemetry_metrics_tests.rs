use walrq::metrics::WalrMetrics;

#[test]
fn test_telemetry_metrics_accumulation() {
    let mut metrics = WalrMetrics::default();
    let initial_push = metrics.messages_pushed_total;
    let initial_ack = metrics.messages_acked_total;
    let initial_poll = metrics.messages_polled_total;

    metrics.record_push(10);
    metrics.record_poll(10);
    metrics.record_ack(10);
    metrics.record_wal_compact();

    assert_eq!(metrics.messages_pushed_total, initial_push + 10);
    assert_eq!(metrics.messages_polled_total, initial_poll + 10);
    assert_eq!(metrics.messages_acked_total, initial_ack + 10);
    assert!(metrics.wal_compaction_count >= 1);
}
