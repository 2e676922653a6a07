//! Tests of the multiplex set's keyed operations.

use libselect::error::ErrorKind;
use libselect::io::InOutHandle;
use libselect::io_handle::GenericInOutHandle;
use libselect::select_impl::Events;
use libselect::select_impl::SelectSet;

fn events(read: bool, write: bool, exception: bool) -> Events {
    Events { read, write, exception }
}

#[test]
fn insert_is_idempotent() {
    let mut set = SelectSet::new();
    set.insert_fd(5, events(true, false, false));
    set.insert_fd(5, events(false, true, false));

    // Exactly one entry survives: the transcript carries one record.
    let transcript = set.transcript();
    assert_eq!(transcript.len(), 1);
    assert_eq!(transcript[0].handle, 5);

    // The second interest wins.
    let stored = set.get_fd(5).expect("descriptor must be present");
    assert_eq!(*stored, events(false, true, false));
}

#[test]
fn insert_keeps_other_entries() {
    let mut set = SelectSet::new();
    set.insert_fd(1, events(true, false, false));
    set.insert_fd(2, events(false, true, false));
    set.insert_fd(1, events(false, false, true));
    assert_eq!(set.transcript().len(), 2);
    assert_eq!(*set.get_fd(1).unwrap(), events(false, false, true));
    assert_eq!(*set.get_fd(2).unwrap(), events(false, true, false));
}

#[test]
fn remove_deletes_entry() {
    let mut set = SelectSet::new();
    set.insert_fd(3, events(true, true, true));
    set.remove_fd(3);
    assert!(set.get_fd(3).is_none());
    assert_eq!(set.transcript().len(), 0);
}

#[test]
fn remove_absent_is_no_error() {
    let mut set = SelectSet::new();
    set.insert_fd(3, events(true, false, false));
    set.remove_fd(9);
    assert_eq!(*set.get_fd(3).unwrap(), events(true, false, false));
}

#[test]
fn get_mut_writes_through() {
    let mut set = SelectSet::new();
    set.insert_fd(4, events(false, false, false));
    {
        let ev = set.get_mut_fd(4).expect("descriptor must be present");
        ev.read = true;
    }
    assert_eq!(*set.get_fd(4).unwrap(), events(true, false, false));
    assert!(set.get_mut_fd(8).is_none());
}

#[test]
fn trait_operations_resolve_descriptor() {
    let mut set = SelectSet::new();
    let handle = InOutHandle::with_raw(11);
    set.insert(&handle, events(true, false, true)).unwrap();
    let got = set.get(&handle).unwrap().expect("handle must be present");
    assert_eq!(*got, events(true, false, true));
    {
        let ev = set
            .get_mut(&handle)
            .unwrap()
            .expect("handle must be present");
        ev.write = true;
    }
    assert_eq!(*set.get_fd(11).unwrap(), events(true, true, true));
    set.remove(&handle).unwrap();
    assert!(set.get(&handle).unwrap().is_none());
}

struct CustomSource {
    descriptor: i64,
}

#[test]
fn generic_handle_uses_extraction_function() {
    let source = CustomSource { descriptor: 21 };
    let wrapped = GenericInOutHandle::new(source, |s: &CustomSource| {
        u64::try_from(s.descriptor).map_err(|_| libselect::error::Error::invalid_value())
    });

    let mut set = SelectSet::new();
    set.insert(&wrapped, events(true, false, false)).unwrap();
    assert_eq!(*set.get_fd(21).unwrap(), events(true, false, false));

    let inner = wrapped.into_inner();
    assert_eq!(inner.descriptor, 21);
}

#[test]
fn generic_handle_propagates_extraction_failure() {
    let source = CustomSource { descriptor: -1 };
    let wrapped = GenericInOutHandle::new(source, |s: &CustomSource| {
        u64::try_from(s.descriptor).map_err(|_| libselect::error::Error::invalid_value())
    });

    let mut set = SelectSet::new();
    let err = set
        .insert(&wrapped, events(true, false, false))
        .expect_err("a negative descriptor cannot be represented");
    assert_eq!(err.kind, ErrorKind::InvalidValue);
    assert_eq!(set.transcript().len(), 0);
}
