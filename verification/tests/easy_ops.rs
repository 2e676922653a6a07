//! Tests of the high-level convenience operations and the event records
//! they return.

use libselect::error::ErrorKind;
use libselect::io::InOutHandle;
use libselect::select::Event;
use libselect::select::set_blocking_request;
use libselect::select_impl::libselect_fd;
use libselect::select_impl::Timeout;

fn handles(fds: &[u64]) -> Vec<InOutHandle> {
    fds.iter().map(|fd| InOutHandle::with_raw(*fd)).collect()
}

/// Echoes a transcript with the given reply flags for one chosen
/// descriptor and all-quiet flags for every other.
fn reply_only(
    transcript: &[libselect_fd],
    ready_fd: u64,
    read: u8,
    write: u8,
    exception: u8,
) -> Vec<libselect_fd> {
    transcript
        .iter()
        .map(|rec| {
            if rec.handle == ready_fd {
                libselect_fd {
                    handle: rec.handle,
                    read,
                    write,
                    exception,
                }
            } else {
                libselect_fd {
                    handle: rec.handle,
                    read: 0,
                    write: 0,
                    exception: 0,
                }
            }
        })
        .collect()
}

#[test]
fn select_read_requests_read_and_exception() {
    let hs = handles(&[5]);
    let pending = libselect::select_read(&hs, Timeout::new(0, 0)).unwrap();
    let transcript = pending.transcript();
    assert_eq!(transcript.len(), 1);
    assert_eq!(transcript[0].handle, 5);
    assert_eq!(transcript[0].read, 1);
    assert_eq!(transcript[0].write, 0);
    assert_eq!(transcript[0].exception, 1);
}

#[test]
fn select_write_requests_write_and_exception() {
    let hs = handles(&[5]);
    let pending = libselect::select_write(&hs, Timeout::new(0, 0)).unwrap();
    let transcript = pending.transcript();
    assert_eq!(transcript[0].read, 0);
    assert_eq!(transcript[0].write, 1);
    assert_eq!(transcript[0].exception, 1);
}

#[test]
fn select_readwrite_requests_all_three() {
    let hs = handles(&[5]);
    let pending = libselect::select_readwrite(&hs, Timeout::new(0, 0)).unwrap();
    let transcript = pending.transcript();
    assert_eq!(transcript[0].read, 1);
    assert_eq!(transcript[0].write, 1);
    assert_eq!(transcript[0].exception, 1);
}

#[test]
fn quiet_reply_reports_no_events() {
    // A handle the primitive saw no activity on is silently excluded.
    let hs = handles(&[5]);
    let pending = libselect::select_read(&hs, Timeout::new(0, 0)).unwrap();
    let transcript = pending.transcript();
    let reply = reply_only(&transcript, 5, 0, 0, 0);
    let events = pending.complete(&reply, 0).unwrap();
    assert!(events.is_empty(), "no event may be reported without activity");
}

#[test]
fn ready_read_is_reported() {
    let hs = handles(&[5]);
    let pending = libselect::select_read(&hs, Timeout::new(0, 0)).unwrap();
    let transcript = pending.transcript();
    let reply = reply_only(&transcript, 5, 1, 0, 0);
    let events = pending.complete(&reply, 0).unwrap();
    assert_eq!(events.len(), 1);
    assert_eq!(events[0].handle().raw(), 5);
    assert!(events[0].has_read());
    assert!(!events[0].has_write());
    assert!(!events[0].has_exception());
    assert!(events[0].has_event());
}

#[test]
fn ready_write_is_reported() {
    let hs = handles(&[5]);
    let pending = libselect::select_write(&hs, Timeout::new(0, 0)).unwrap();
    let transcript = pending.transcript();
    let reply = reply_only(&transcript, 5, 0, 1, 0);
    let events = pending.complete(&reply, 0).unwrap();
    assert_eq!(events.len(), 1);
    assert!(events[0].has_write());
    assert!(!events[0].has_read());
}

#[test]
fn result_order_follows_caller_not_set() {
    // Only descriptor 2 is ready; whatever the caller's order, exactly the
    // one entry for it comes back.
    for order in [[1u64, 2, 3], [3, 2, 1]] {
        let hs = handles(&order);
        let pending = libselect::select_read(&hs, Timeout::new(0, 0)).unwrap();
        let transcript = pending.transcript();
        let reply = reply_only(&transcript, 2, 1, 0, 0);
        let events = pending.complete(&reply, 0).unwrap();
        assert_eq!(events.len(), 1);
        assert_eq!(events[0].handle().raw(), 2);
        assert!(events[0].has_read());
    }
}

#[test]
fn ready_handles_keep_caller_order() {
    let hs = handles(&[4, 6, 8]);
    let pending = libselect::select_readwrite(&hs, Timeout::new(0, 0)).unwrap();
    let transcript: Vec<libselect_fd> = pending
        .transcript()
        .iter()
        .map(|rec| {
            if rec.handle == 8 || rec.handle == 4 {
                libselect_fd {
                    handle: rec.handle,
                    read: 1,
                    write: 0,
                    exception: 0,
                }
            } else {
                libselect_fd {
                    handle: rec.handle,
                    read: 0,
                    write: 0,
                    exception: 0,
                }
            }
        })
        .collect();
    let events = pending.complete(&transcript, 0).unwrap();
    assert_eq!(events.len(), 2);
    assert_eq!(events[0].handle().raw(), 4);
    assert_eq!(events[1].handle().raw(), 8);
}

#[test]
fn zero_handles_complete_empty() {
    let hs = handles(&[]);
    let pending = libselect::select_read(&hs, Timeout::new(1, 0)).unwrap();
    assert_eq!(pending.timeout_ms(), 1000);
    let transcript = pending.transcript();
    assert!(transcript.is_empty());
    let events = pending.complete(&transcript, 0).unwrap();
    assert!(events.is_empty());
}

#[test]
fn invalid_timeout_prepares_no_call() {
    let hs = handles(&[5]);
    let err = libselect::select_read(&hs, Timeout::new(u64::MAX, 0))
        .expect_err("timeout exceeds the representable range");
    assert_eq!(err.kind, ErrorKind::InvalidValue);
}

#[test]
fn primitive_failure_surfaces_code() {
    let hs = handles(&[5]);
    let pending = libselect::select_read(&hs, Timeout::new(0, 0)).unwrap();
    let transcript = pending.transcript();
    let err = pending
        .complete(&transcript, 113)
        .expect_err("nonzero code must fail");
    assert_eq!(err.kind, ErrorKind::InOutError);
    assert_eq!(err.os_code, 113);
}

#[test]
fn duplicate_handles_collapse_in_set() {
    let hs = handles(&[5, 5]);
    let pending = libselect::select_read(&hs, Timeout::new(0, 0)).unwrap();
    assert_eq!(pending.transcript().len(), 1);
}

#[test]
fn event_accessors_report_flags() {
    let handle = InOutHandle::with_raw(17);
    let event = Event::new(&handle, true, false, true).unwrap();
    assert_eq!(event.handle().raw(), 17);
    assert!(event.has_read());
    assert!(!event.has_write());
    assert!(event.has_exception());
    assert!(event.has_event());

    let quiet = Event::new(&handle, false, false, false).unwrap();
    assert!(!quiet.has_event());
}

#[test]
fn set_blocking_request_encodes_mode() {
    let handle = InOutHandle::with_raw(17);
    assert_eq!(set_blocking_request(&handle, true).unwrap(), (17, 1));
    assert_eq!(set_blocking_request(&handle, false).unwrap(), (17, 0));
}
