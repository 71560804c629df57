use ckb_analyzer::measurement::FieldValue;
use ckb_analyzer::pool_transaction::{
    settlement_measurement, sweep_due, EntityId, EntityStatus, PoolEvent, PoolTransaction, Settlement,
    StatusReport,
};
use ckb_types::prelude::{IntoTransactionView, Unpack};

fn id(b: u8) -> EntityId {
    EntityId { bytes: [b; 32] }
}

fn report(b: u8, status: EntityStatus) -> StatusReport {
    StatusReport { id: id(b), status }
}

fn field(m: &ckb_analyzer::measurement::Measurement, key: &str) -> Option<FieldValue> {
    m.fields().iter().find(|(k, _)| k == key).map(|(_, v)| v.clone())
}

fn tag(m: &ckb_analyzer::measurement::Measurement, key: &str) -> Option<String> {
    m.tags().iter().find(|(k, _)| k == key).map(|(_, v)| v.clone())
}

#[test]
fn observe_twice_keeps_first_observation() {
    let mut pool = PoolTransaction::new();
    assert!(pool.observe(id(1), 1000));
    assert!(!pool.observe(id(1), 9000));
    assert_eq!(pool.len(), 1);
    let settled = pool.sweep(&vec![report(1, EntityStatus::Unknown)], 10_000);
    assert_eq!(settled.len(), 1);
    assert_eq!(settled[0].time_ms, 1000);
    assert_eq!(settled[0].waiting_ms, 9000);
}

#[test]
fn sweep_settles_each_entity_once() {
    let mut pool = PoolTransaction::new();
    pool.observe(id(1), 0);
    pool.observe(id(2), 0);
    pool.observe(id(3), 0);
    pool.observe(id(4), 390_000);
    pool.observe(id(5), 0);
    let reports = vec![
        report(1, EntityStatus::Unknown),
        report(2, EntityStatus::Pending),
        report(3, EntityStatus::Committed(Some(60_000))),
        report(4, EntityStatus::Proposed),
    ];
    let settled = pool.sweep(&reports, 400_000);
    assert_eq!(settled.len(), 3);
    let event_of = |b: u8| {
        settled
            .iter()
            .filter(|s| s.id.bytes == [b; 32])
            .map(|s| s.event)
            .collect::<Vec<_>>()
    };
    assert_eq!(event_of(1), vec![PoolEvent::Disappear]);
    assert_eq!(event_of(2), vec![PoolEvent::Await]);
    assert_eq!(event_of(3), vec![PoolEvent::Commit]);
    assert_eq!(pool.len(), 2);
    let mut ids: Vec<[u8; 32]> = pool.ids().iter().map(|i| i.bytes).collect();
    ids.sort();
    assert_eq!(ids, vec![[4u8; 32], [5u8; 32]]);
    let again = pool.sweep(&reports, 400_000);
    assert!(again.is_empty());
    assert_eq!(pool.len(), 2);
}

#[test]
fn await_threshold_boundary() {
    let t0: u64 = 1_000;
    for (now, settles) in [
        (t0 + 300_000 + 1, true),
        (t0 + 300_000, false),
        (t0 + 300_000 - 1, false),
    ] {
        let mut pool = PoolTransaction::new();
        pool.observe(id(7), t0);
        let settled = pool.sweep(&vec![report(7, EntityStatus::Pending)], now);
        assert_eq!(settled.len() == 1, settles);
        assert_eq!(pool.len() == 0, settles);
        if settles {
            assert_eq!(settled[0].event, PoolEvent::Await);
            assert_eq!(settled[0].waiting_ms, 300_001);
        }
    }
}

#[test]
fn commit_timing_example() {
    let mut pool = PoolTransaction::new();
    pool.observe(id(9), 1000);
    let settled = pool.sweep(&vec![report(9, EntityStatus::Committed(Some(5000)))], 7000);
    assert_eq!(settled.len(), 1);
    assert_eq!(settled[0].event, PoolEvent::Commit);
    assert_eq!(settled[0].time_ms, 5000);
    assert_eq!(settled[0].waiting_ms, 4000);
    let m = settlement_measurement(&settled[0]);
    assert_eq!(m.name(), "pool_transaction");
    assert_eq!(m.time_ms(), 5000);
    assert_eq!(tag(&m, "event"), Some("commit".to_string()));
    assert_eq!(field(&m, "waiting_duration"), Some(FieldValue::UInt(4000)));
}

#[test]
fn committed_without_block_time_stays_tracked() {
    let mut pool = PoolTransaction::new();
    pool.observe(id(2), 0);
    let settled = pool.sweep(&vec![report(2, EntityStatus::Committed(None))], 900_000);
    assert!(settled.is_empty());
    assert_eq!(pool.len(), 1);
}

#[test]
fn entity_without_report_stays_tracked() {
    let mut pool = PoolTransaction::new();
    pool.observe(id(2), 0);
    let settled = pool.sweep(&vec![report(3, EntityStatus::Unknown)], 900_000);
    assert!(settled.is_empty());
    assert_eq!(pool.len(), 1);
}

#[test]
fn commit_before_observation_waits_zero() {
    let mut pool = PoolTransaction::new();
    pool.observe(id(2), 8000);
    let settled = pool.sweep(&vec![report(2, EntityStatus::Committed(Some(5000)))], 9000);
    assert_eq!(settled[0].waiting_ms, 0);
    assert_eq!(settled[0].time_ms, 5000);
}

#[test]
fn disappear_and_await_measurements() {
    let s = Settlement { id: id(1), event: PoolEvent::Disappear, time_ms: 10, waiting_ms: 20 };
    let m = settlement_measurement(&s);
    assert_eq!(m.time_ms(), 10);
    assert_eq!(tag(&m, "event"), Some("disappear".to_string()));
    assert_eq!(field(&m, "waiting_duration"), Some(FieldValue::UInt(20)));
    let s = Settlement { id: id(1), event: PoolEvent::Await, time_ms: 10, waiting_ms: 400_000 };
    let m = settlement_measurement(&s);
    assert_eq!(tag(&m, "event"), Some("await".to_string()));
    assert_eq!(m.tags().len(), 1);
    assert_eq!(m.fields().len(), 1);
}

#[test]
fn waiting_total_gauge() {
    let mut pool = PoolTransaction::new();
    pool.observe(id(1), 0);
    pool.observe(id(2), 0);
    pool.observe(id(1), 5);
    let m = pool.waiting_total(123);
    assert_eq!(m.name(), "pool_waiting_transactions_total");
    assert_eq!(m.time_ms(), 123);
    assert_eq!(field(&m, "transactions_total"), Some(FieldValue::UInt(2)));
    assert!(m.tags().is_empty());
}

#[test]
fn ingest_tracks_transaction_hash() {
    let view = ckb_types::packed::Transaction::default().into_view();
    let expected: [u8; 32] = view.hash().unpack();
    let entry = ckb_jsonrpc_types::PoolTransactionEntry {
        transaction: view.into(),
        ..Default::default()
    };
    let payload = serde_json::to_string(&entry).unwrap();
    let mut pool = PoolTransaction::new();
    assert!(pool.ingest(&payload, 1000).unwrap());
    assert!(!pool.ingest(&payload, 2000).unwrap());
    let ids = pool.ids();
    assert_eq!(ids.len(), 1);
    assert_eq!(ids[0].bytes, expected);
    assert_ne!(ids[0].bytes, [0u8; 32]);
}

#[test]
fn ingest_rejects_malformed_payload() {
    let mut pool = PoolTransaction::new();
    assert!(pool.ingest("{\"transaction\": 1}", 1000).is_err());
    assert!(pool.ingest("", 1000).is_err());
    assert_eq!(pool.len(), 0);
}

#[test]
fn sweep_due_after_a_full_interval() {
    assert!(!sweep_due(1000, 1000));
    assert!(!sweep_due(1000, 60_999));
    assert!(sweep_due(1000, 61_000));
    assert!(!sweep_due(5000, 1000));
}
