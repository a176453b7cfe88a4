use metrics_datadog::exporter::{
    first_failure, response_result, DataDogExporter, FlushError, TransportError,
};
use metrics_datadog::scheduler::{Scheduler, SchedulerError};

fn exporter(stdout: bool, api: bool) -> DataDogExporter {
    DataDogExporter::new(stdout, api, "https://h".to_string(), Some("k".to_string()), vec![], true)
}

#[test]
fn console_only_posts_nothing() {
    let plan = exporter(true, false).flush_plan(3);
    assert!(plan.console);
    assert!(!plan.api);
}

#[test]
fn api_only_writes_no_console_lines() {
    let plan = exporter(false, true).flush_plan(3);
    assert!(!plan.console);
    assert!(plan.api);
}

#[test]
fn nothing_to_post_is_no_request() {
    assert!(!exporter(false, true).flush_plan(0).api);
}

#[test]
fn status_codes_map_to_outcomes() {
    assert_eq!(response_result(200), Ok(()));
    assert_eq!(response_result(202), Ok(()));
    assert_eq!(response_result(500), Err(TransportError::Status(500)));
    assert_eq!(response_result(404), Err(TransportError::Status(404)));
    assert_eq!(response_result(199), Err(TransportError::Status(199)));
}

#[test]
fn first_failure_in_request_order_is_reported() {
    assert_eq!(first_failure(&vec![]), Ok(()));
    assert_eq!(first_failure(&vec![Ok(()), Ok(())]), Ok(()));
    assert_eq!(
        first_failure(&vec![Ok(()), Err(TransportError::Status(500)), Err(TransportError::Network)]),
        Err(TransportError::Status(500))
    );
}

#[test]
fn failed_tick_does_not_stop_schedule() {
    let mut s = Scheduler::new(10).unwrap();
    s.start();
    let outcome = first_failure(&vec![Ok(()), response_result(503)]).map_err(FlushError::Transport);
    assert_eq!(outcome, Err(FlushError::Transport(TransportError::Status(503))));
    s.record_tick(&outcome);
    assert!(s.running);
    s.record_tick(&Ok(()));
    assert!(s.running);
    assert_eq!(s.ticks, 2);
    assert_eq!(s.failed_ticks, 1);
    s.stop();
    assert!(!s.running);
}

#[test]
fn schedule_interval_is_checked() {
    assert_eq!(Scheduler::new(0).err(), Some(SchedulerError::ZeroInterval));
    assert_eq!(Scheduler::new(u32::MAX as u64 + 1).err(), Some(SchedulerError::IntervalTooLong));
    assert_eq!(Scheduler::new(60).unwrap().interval_secs, 60);
}

#[test]
fn headers_carry_key_and_encoding() {
    let h = exporter(false, true).request_headers().unwrap();
    assert_eq!(
        h,
        vec![
            ("DD-API-KEY".to_string(), "k".to_string()),
            ("Content-Encoding".to_string(), "gzip".to_string())
        ]
    );
    let plain = DataDogExporter::new(false, true, "https://h".to_string(), Some("k".to_string()), vec![], false);
    assert_eq!(plain.request_headers().unwrap(), vec![("DD-API-KEY".to_string(), "k".to_string())]);
    let keyless = DataDogExporter::new(false, true, "https://h".to_string(), None, vec![], false);
    assert_eq!(keyless.request_headers(), Err(TransportError::NotConfigured));
}
