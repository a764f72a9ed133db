use logforward::codec::{decode_envelope, Field, FieldValue, Record};
use logforward::monitor::{monitor_step, MonitorAction, MonitorEvent};

#[test]
fn cancellation_stops_cleanly() {
    assert!(matches!(
        monitor_step(MonitorEvent::Cancelled),
        MonitorAction::StopClean
    ));
}

#[test]
fn consume_error_stops_with_failure() {
    assert!(matches!(
        monitor_step(MonitorEvent::Failed),
        MonitorAction::StopFailed
    ));
}

#[test]
fn received_record_is_encoded_with_split_event_time() {
    // Event time 1_700_000_000.123456789 s, as nanoseconds since epoch.
    let t: u64 = 1_700_000_000_123_456_789;
    let record = Record {
        fields: vec![Field {
            name: b"line".to_vec(),
            value: FieldValue::Text(b"a log line".to_vec()),
        }],
    };
    match monitor_step(MonitorEvent::Received(t, record)) {
        MonitorAction::Emit(env) => {
            assert_eq!(&env[3..7], &1_700_000_000u32.to_be_bytes());
            assert_eq!(&env[7..11], &123_456_789u32.to_be_bytes());
            let (sec, nanos, rec) = decode_envelope(&env).unwrap();
            assert_eq!(sec, 1_700_000_000);
            assert_eq!(nanos, 123_456_789);
            assert_eq!(rec.fields.len(), 1);
            assert_eq!(rec.fields[0].name, b"line".to_vec());
        }
        _ => panic!("a received record must be emitted"),
    }
}
