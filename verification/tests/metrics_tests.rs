use sailfish::clock::nanos_between;
use sailfish::node::metrics::{
    format_record, header, to_unix_nanos, write_int, MetricsAction, MetricsEvent, MetricsWriter,
};
use std::time::{Duration, Instant, SystemTime, UNIX_EPOCH};

#[test]
fn unix_nanos() {
    assert_eq!(to_unix_nanos(UNIX_EPOCH), 0);
    assert_eq!(
        to_unix_nanos(UNIX_EPOCH + Duration::new(3, 7)),
        3_000_000_007
    );
    assert_eq!(to_unix_nanos(UNIX_EPOCH - Duration::from_secs(1)), 0);
    assert!(to_unix_nanos(SystemTime::now()) > 0);
}

#[test]
fn nanos_between_instants() {
    let start = Instant::now();
    let end = start + Duration::from_micros(5);
    assert_eq!(nanos_between(start, end), 5_000);
    assert_eq!(nanos_between(end, start), 0);
}

#[test]
fn numbers_are_written_in_decimal() {
    let mut buf = vec![65];
    write_int(&mut buf, 0);
    write_int(&mut buf, 907);
    write_int(&mut buf, u128::MAX);
    assert_eq!(
        String::from_utf8(buf).unwrap(),
        "A0907340282366920938463463374607431768211455"
    );
}

#[test]
fn record_line() {
    let line = format_record(3, 17, true, 100, 250, 150);
    assert_eq!(String::from_utf8(line).unwrap(), "3,17,1,100,250,150\n");
    let line = format_record(255, u64::MAX, false, 0, 0, 0);
    assert_eq!(
        String::from_utf8(line).unwrap(),
        "255,18446744073709551615,0,0,0,0\n"
    );
}

#[test]
fn header_line() {
    assert_eq!(
        header(),
        "client_id,tx_id,is_sample,send_ns,commit_ns,latency_ns\n"
    );
}

fn written(action: MetricsAction) -> Option<(bool, String)> {
    match action {
        MetricsAction::Write { create, line } => {
            Some((create, String::from_utf8(line).unwrap()))
        }
        _ => None,
    }
}

#[test]
fn a_commit_after_a_send_is_recorded_once() {
    let mut writer = MetricsWriter::new(9);
    let start = Instant::now();
    let sent_at = UNIX_EPOCH + Duration::from_nanos(1_000);
    let send = |tx_id| MetricsEvent::Send {
        tx_id,
        send_instant: start,
        send_time: sent_at,
        is_sample: true,
    };
    let commit = |tx_id, nanos| MetricsEvent::Commit {
        tx_id,
        commit_instant: start + Duration::from_nanos(nanos),
        commit_time: sent_at + Duration::from_nanos(nanos),
    };
    assert!(matches!(writer.handle(commit(4, 1)), MetricsAction::Nothing));
    assert!(matches!(writer.handle(send(4)), MetricsAction::Nothing));
    assert!(matches!(writer.handle(send(5)), MetricsAction::Nothing));
    assert!(!writer.must_flush());
    assert_eq!(
        written(writer.handle(commit(4, 30))),
        Some((true, "9,4,1,1000,1030,30\n".to_string()))
    );
    writer.record_written();
    assert!(writer.must_flush());
    assert!(matches!(writer.handle(commit(4, 31)), MetricsAction::Nothing));
    assert_eq!(
        written(writer.handle(commit(5, 40))),
        Some((false, "9,5,1,1000,1040,40\n".to_string()))
    );
    assert!(matches!(
        writer.handle(MetricsEvent::Shutdown),
        MetricsAction::Stop
    ));
}

#[test]
fn a_commit_that_seems_to_precede_its_send_has_no_latency() {
    let mut writer = MetricsWriter::new(1);
    let start = Instant::now();
    writer.handle(MetricsEvent::Send {
        tx_id: 1,
        send_instant: start + Duration::from_secs(1),
        send_time: UNIX_EPOCH - Duration::from_secs(1),
        is_sample: false,
    });
    let action = writer.handle(MetricsEvent::Commit {
        tx_id: 1,
        commit_instant: start,
        commit_time: UNIX_EPOCH,
    });
    assert_eq!(written(action), Some((true, "1,1,0,0,0,0\n".to_string())));
}
