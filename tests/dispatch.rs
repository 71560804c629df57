use ckb_analyzer::dispatch::{Dispatcher, METRICS_CHANNEL_CAPACITY};
use ckb_analyzer::measurement::{FieldValue, Measurement};

fn tag(m: &Measurement, key: &str) -> Option<String> {
    m.tags().iter().find(|(k, _)| k == key).map(|(_, v)| v.clone())
}

#[test]
fn builtin_tags_override_producer_network() {
    let m = Measurement::new("blocks".to_string(), 42)
        .with_tag("network".to_string(), "producer-net".to_string())
        .with_tag("kind".to_string(), "x".to_string())
        .with_field("number".to_string(), FieldValue::UInt(7));
    let d = Dispatcher::new("mainnet".to_string(), "host-a".to_string());
    let r = d.attach_builtin_tags(m);
    assert_eq!(tag(&r, "network"), Some("mainnet".to_string()));
    assert_eq!(tag(&r, "hostname"), Some("host-a".to_string()));
    assert_eq!(tag(&r, "kind"), Some("x".to_string()));
    assert_eq!(r.tags().len(), 3);
    assert_eq!(r.name(), "blocks");
    assert_eq!(r.time_ms(), 42);
    assert_eq!(r.fields().len(), 1);
}

#[test]
fn builtin_tags_added_when_absent() {
    let d = Dispatcher::new("testnet".to_string(), "h".to_string());
    let r = d.attach_builtin_tags(Measurement::new("m".to_string(), 1));
    assert_eq!(tag(&r, "network"), Some("testnet".to_string()));
    assert_eq!(tag(&r, "hostname"), Some("h".to_string()));
    assert_eq!(r.tags().len(), 2);
}

#[test]
fn with_tag_replaces_earlier_value() {
    let m = Measurement::new("m".to_string(), 1)
        .with_tag("a".to_string(), "1".to_string())
        .with_tag("b".to_string(), "2".to_string())
        .with_tag("a".to_string(), "3".to_string());
    assert_eq!(m.tags().len(), 2);
    assert_eq!(tag(&m, "a"), Some("3".to_string()));
    assert_eq!(tag(&m, "b"), Some("2".to_string()));
}

#[test]
fn with_field_replaces_earlier_value() {
    let m = Measurement::new("m".to_string(), 1)
        .with_field("f".to_string(), FieldValue::Int(-1))
        .with_field("g".to_string(), FieldValue::Flag(true))
        .with_field("f".to_string(), FieldValue::Text("t".to_string()));
    assert_eq!(m.fields().len(), 2);
    let f = m.fields().iter().find(|(k, _)| k == "f").map(|(_, v)| v.clone());
    assert_eq!(f, Some(FieldValue::Text("t".to_string())));
}

#[test]
fn channel_blocks_producer_when_full() {
    let (tx, rx) = crossbeam::channel::bounded::<Measurement>(METRICS_CHANNEL_CAPACITY);
    for i in 0..METRICS_CHANNEL_CAPACITY {
        tx.try_send(Measurement::new("m".to_string(), i as u64)).unwrap();
    }
    let extra = tx.try_send(Measurement::new("m".to_string(), 9999));
    assert!(matches!(extra, Err(crossbeam::channel::TrySendError::Full(_))));
    let first = rx.recv().unwrap();
    assert_eq!(first.time_ms(), 0);
    tx.try_send(Measurement::new("m".to_string(), 9999)).unwrap();
    assert_eq!(rx.len(), METRICS_CHANNEL_CAPACITY);
}
