use matrix_engine::metrics::amap_metrics::{AMapMetrics, MetricsError};

#[test]
fn test_metrics_inc_known_key() {
    let metrics = AMapMetrics::new(&["calls", "errors"]);
    assert_eq!(metrics.inc("calls"), Ok(()));
    assert_eq!(metrics.inc("errors"), Ok(()));
    assert_eq!(metrics.inc("calls"), Ok(()));
}

#[test]
fn test_metrics_inc_unknown_key() {
    let metrics = AMapMetrics::new(&["calls"]);
    assert_eq!(metrics.inc("latency"), Err(MetricsError::KeyNotFound));
}

#[test]
fn test_metrics_empty_table() {
    let metrics = AMapMetrics::new(&[]);
    assert_eq!(metrics.inc("anything"), Err(MetricsError::KeyNotFound));
}
