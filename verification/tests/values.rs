//! Tests of the plain value types: handles, event flags, errors, timeouts.

use libselect::error::{Error, ErrorKind};
use libselect::io::{AsInOutHandle, InOutHandle};
use libselect::select_impl::{Events, Timeout};

#[test]
fn handle_round_trips_raw_descriptor() {
    let handle = InOutHandle::with_raw(42);
    assert_eq!(handle.raw(), 42);
    let again = handle.as_io_handle().unwrap();
    assert_eq!(again.raw(), 42);
    assert_eq!(handle, again);
}

#[test]
fn events_default_is_all_false() {
    let events = Events::default();
    assert!(!events.read);
    assert!(!events.write);
    assert!(!events.exception);
    assert!(!events.has_event());
}

#[test]
fn events_has_event_on_any_flag() {
    for bits in 0u8..8 {
        let events = Events {
            read: bits & 1 != 0,
            write: bits & 2 != 0,
            exception: bits & 4 != 0,
        };
        assert_eq!(events.has_event(), bits != 0);
    }
}

#[test]
fn error_constructors_carry_kind_and_code() {
    let invalid = Error::invalid_value();
    assert_eq!(invalid.kind, ErrorKind::InvalidValue);
    assert_eq!(invalid.os_code, 0);

    let io = Error::in_out(95);
    assert_eq!(io.kind, ErrorKind::InOutError);
    assert_eq!(io.os_code, 95);
}

#[test]
fn select_event_builds_requested_interest() {
    let handles = vec![InOutHandle::with_raw(1), InOutHandle::with_raw(2)];
    let pending =
        libselect::select_event(&handles, false, true, false, Timeout::new(0, 5_000_000)).unwrap();
    assert_eq!(pending.timeout_ms(), 5);
    let transcript = pending.transcript();
    assert_eq!(transcript.len(), 2);
    for rec in &transcript {
        assert_eq!(rec.read, 0);
        assert_eq!(rec.write, 1);
        assert_eq!(rec.exception, 0);
    }
}
