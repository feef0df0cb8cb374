use matmul::Metrics;

fn count(m: &Metrics, key: &str) -> Option<i64> {
    let snap = m.snapshot().expect("snapshot error");
    snap.iter().find(|(k, _)| k == key).map(|(_, v)| *v)
}

#[test]
fn inc_creates_counter_at_one() {
    let mut m = Metrics::new();
    m.inc("req.page".to_string()).expect("inc error");
    assert_eq!(count(&m, "req.page"), Some(1));
}

#[test]
fn inc_twice_counts_to_two() {
    let mut m = Metrics::new();
    m.inc("calls".to_string()).expect("inc error");
    m.inc("calls".to_string()).expect("inc error");
    assert_eq!(count(&m, "calls"), Some(2));
}

#[test]
fn dec_creates_counter_at_minus_one() {
    let mut m = Metrics::new();
    m.dec("drain".to_string()).expect("dec error");
    assert_eq!(count(&m, "drain"), Some(-1));
}

#[test]
fn dec_after_inc_returns_to_zero() {
    let mut m = Metrics::new();
    m.inc("jobs".to_string()).expect("inc error");
    m.dec("jobs".to_string()).expect("dec error");
    assert_eq!(count(&m, "jobs"), Some(0));
}

#[test]
fn keys_are_counted_independently() {
    let mut m = Metrics::new();
    m.inc("a".to_string()).expect("inc error");
    m.inc("a".to_string()).expect("inc error");
    m.inc("b".to_string()).expect("inc error");
    m.dec("c".to_string()).expect("dec error");
    assert_eq!(count(&m, "a"), Some(2));
    assert_eq!(count(&m, "b"), Some(1));
    assert_eq!(count(&m, "c"), Some(-1));
}

#[test]
fn snapshot_of_new_metrics_is_empty() {
    let m = Metrics::new();
    assert!(m.snapshot().expect("snapshot error").is_empty());
}

#[test]
fn default_metrics_is_empty() {
    let m = Metrics::default();
    assert!(m.snapshot().expect("snapshot error").is_empty());
}

#[test]
fn missing_key_is_absent_from_snapshot() {
    let mut m = Metrics::new();
    m.inc("present".to_string()).expect("inc error");
    assert_eq!(count(&m, "absent"), None);
}
