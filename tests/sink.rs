use ckb_analyzer::dispatch::Dispatcher;
use ckb_analyzer::measurement::{FieldValue, Measurement};
use ckb_analyzer::sink::to_write_query;
use influxdb::Query;

#[test]
fn write_query_carries_name_tags_fields_and_time() {
    let m = Measurement::new("pool_transaction".to_string(), 5000)
        .with_tag("event".to_string(), "commit".to_string())
        .with_field("waiting_duration".to_string(), FieldValue::UInt(4000));
    let line = to_write_query(&m).build().unwrap().get();
    assert!(line.starts_with("pool_transaction,event=commit waiting_duration=4000"), "{}", line);
    assert!(line.ends_with(" 5000"), "{}", line);
}

#[test]
fn write_query_with_builtin_tags_and_all_field_kinds() {
    let m = Measurement::new("m".to_string(), 1)
        .with_tag("network".to_string(), "producer".to_string())
        .with_field("a".to_string(), FieldValue::Int(-3))
        .with_field("b".to_string(), FieldValue::Flag(true))
        .with_field("c".to_string(), FieldValue::Text("x".to_string()));
    let m = Dispatcher::new("mainnet".to_string(), "h1".to_string()).attach_builtin_tags(m);
    let line = to_write_query(&m).build().unwrap().get();
    assert!(line.starts_with("m,network=mainnet,hostname=h1 a=-3"), "{}", line);
    assert!(line.contains("b=true"), "{}", line);
    assert!(line.contains("c=\"x\""), "{}", line);
    assert!(!line.contains("producer"), "{}", line);
}
