use metrics_datadog::exporter::{DataDogExporter, Snapshot};
use metrics_datadog::metric::{DataDogMetric, Label, MetricKey, MetricValue};

fn key(name: &str, labels: &[(&str, &str)]) -> MetricKey {
    MetricKey::new(
        name.to_string(),
        labels.iter().map(|(k, v)| Label::new(k.to_string(), v.to_string())).collect(),
    )
}

fn exporter(tags: &[(&str, &str)]) -> DataDogExporter {
    DataDogExporter::new(
        false,
        true,
        "https://api.example.com/api/v1".to_string(),
        Some("key".to_string()),
        tags.iter().map(|(k, v)| Label::new(k.to_string(), v.to_string())).collect(),
        false,
    )
}

fn tag_pairs(m: &DataDogMetric) -> Vec<(String, String)> {
    m.tags.iter().map(|l| (l.key.clone(), l.value.clone())).collect()
}

#[test]
fn same_counter_key_sums_to_one_point() {
    let mut snap = Snapshot::new();
    snap.counters.push((key("requests", &[("path", "/")]), 3));
    snap.counters.push((key("requests", &[("path", "/")]), 4));
    let out = exporter(&[]).collect(&snap, 100);
    assert_eq!(out.len(), 1);
    assert!(matches!(out[0].value, MetricValue::Count(7)));
    assert_eq!(out[0].key.name, "requests");
    assert_eq!(out[0].timestamp, 100);
}

#[test]
fn histogram_observations_are_kept_for_statistics() {
    let obs: Vec<u64> = [1.0f64, 2.0, 3.0, 4.0, 5.0].iter().map(|v| v.to_bits()).collect();
    let mut snap = Snapshot::new();
    snap.histograms.push((key("latency", &[]), obs[..2].to_vec()));
    snap.histograms.push((key("latency", &[]), obs[2..].to_vec()));
    let out = exporter(&[]).collect(&snap, 1);
    assert_eq!(out.len(), 1);
    assert_eq!(out[0].sample_count(), 5);
    match &out[0].value {
        MetricValue::Histogram(o) => {
            let vals: Vec<f64> = o.iter().map(|b| f64::from_bits(*b)).collect();
            assert_eq!(vals.iter().sum::<f64>(), 15.0);
            assert_eq!(vals.iter().cloned().fold(f64::INFINITY, f64::min), 1.0);
            assert_eq!(vals.iter().cloned().fold(f64::NEG_INFINITY, f64::max), 5.0);
        }
        _ => panic!("not a histogram"),
    }
}

#[test]
fn empty_snapshot_collects_nothing() {
    let out = exporter(&[("env", "test")]).collect(&Snapshot::new(), 5);
    assert!(out.is_empty());
}

#[test]
fn gauge_keeps_last_value() {
    let mut snap = Snapshot::new();
    snap.gauges.push((key("temp", &[]), 1.5f64.to_bits()));
    snap.gauges.push((key("temp", &[]), 2.5f64.to_bits()));
    let out = exporter(&[]).collect(&snap, 5);
    assert_eq!(out.len(), 1);
    assert!(matches!(out[0].value, MetricValue::Gauge(b) if b == 2.5f64.to_bits()));
}

#[test]
fn kinds_come_in_order_and_distinct_keys_stay_apart() {
    let mut snap = Snapshot::new();
    snap.histograms.push((key("h", &[]), vec![]));
    snap.gauges.push((key("g", &[]), 0));
    snap.counters.push((key("c", &[("a", "1")]), 1));
    snap.counters.push((key("c", &[("a", "2")]), 2));
    let out = exporter(&[]).collect(&snap, 5);
    let names: Vec<&str> = out.iter().map(|m| m.key.name.as_str()).collect();
    assert_eq!(names, vec!["c", "c", "g", "h"]);
    assert!(matches!(out[0].value, MetricValue::Count(1)));
    assert!(matches!(out[1].value, MetricValue::Count(2)));
    assert_eq!(out[3].sample_count(), 0);
}

#[test]
fn static_tags_come_before_key_labels() {
    let mut snap = Snapshot::new();
    snap.counters.push((key("c", &[("path", "/x")]), 1));
    let out = exporter(&[("env", "prod")]).collect(&snap, 5);
    assert_eq!(
        tag_pairs(&out[0]),
        vec![("env".to_string(), "prod".to_string()), ("path".to_string(), "/x".to_string())]
    );
}

#[test]
fn counter_sum_saturates() {
    let mut snap = Snapshot::new();
    snap.counters.push((key("c", &[]), u64::MAX - 1));
    snap.counters.push((key("c", &[]), 5));
    let out = exporter(&[]).collect(&snap, 5);
    assert!(matches!(out[0].value, MetricValue::Count(u64::MAX)));
}

#[test]
fn same_key_compares_name_and_labels() {
    assert!(key("a", &[("x", "1")]).same_key(&key("a", &[("x", "1")])));
    assert!(!key("a", &[("x", "1")]).same_key(&key("a", &[("x", "2")])));
    assert!(!key("a", &[]).same_key(&key("b", &[])));
    assert!(!key("a", &[]).same_key(&key("a", &[("x", "1")])));
}
