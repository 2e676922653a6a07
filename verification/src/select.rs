//! The result record of a readiness query, and the pieces of the
//! blocking-mode toggle that can be stated and checked here.

use vstd::prelude::*;
use crate::error::Error;
use crate::io::AsInOutHandle;
use crate::io::InOutHandle;
use crate::select_impl::Events;
use crate::select_impl::flag_of;

verus! {

/// A handle together with the event flags requested for it or observed on it
#[derive(Debug, Clone, Copy, PartialEq, Eq, Structural, PartialOrd, Ord, Hash)]
pub struct Event {
    /// The file handle to operate on
    handle: InOutHandle,
    /// A flag for the `read`-event
    read: bool,
    /// A flag for the `write`-event
    write: bool,
    /// A flag for an exceptional event
    exception: bool,
}

impl Event {
    /// The descriptor this event speaks of.
    pub closed spec fn handle_spec(&self) -> u64 {
        self.handle.fd_spec()
    }

    /// The three event flags of this event.
    pub closed spec fn events_spec(&self) -> Events {
        Events { read: self.read, write: self.write, exception: self.exception }
    }

    /// Creates a new event handle
    ///
    /// The descriptor is whatever the handle's own resolution returned; on
    /// its failure the error is passed through.
    pub fn new<T: AsInOutHandle>(handle: &T, read: bool, write: bool, exception: bool) -> (r:
        core::result::Result<Self, Error>)
        ensures
            r is Ok ==> r->Ok_0.events_spec() == (Events { read, write, exception }),
    {
        let handle = match handle.as_io_handle() {
            Ok(h) => h,
            Err(e) => {
                return Err(e);
            },
        };
        Ok(Self { handle, read, write, exception })
    }

    /// Builds an event from a raw descriptor and observed flags.
    pub fn from_parts(fd: u64, events: Events) -> (r: Self)
        ensures
            r.handle_spec() == fd,
            r.events_spec() == events,
    {
        Self {
            handle: InOutHandle::with_raw(fd),
            read: events.read,
            write: events.write,
            exception: events.exception,
        }
    }

    /// The underlying in-out-handle
    pub fn handle(&self) -> (r: InOutHandle)
        ensures
            r.fd_spec() == self.handle_spec(),
    {
        self.handle
    }

    /// Checks whether the read-event flag is set
    pub fn has_read(&self) -> (r: bool)
        ensures
            r == self.events_spec().read,
    {
        self.read
    }

    /// Checks whether the write-event flag is set
    pub fn has_write(&self) -> (r: bool)
        ensures
            r == self.events_spec().write,
    {
        self.write
    }

    /// Checks whether the exception-event flag is set
    pub fn has_exception(&self) -> (r: bool)
        ensures
            r == self.events_spec().exception,
    {
        self.exception
    }

    /// Tests whether one or more of the event flags is set to `true`
    pub fn has_event(&self) -> (r: bool)
        ensures
            r == self.events_spec().has_event_spec(),
    {
        self.read || self.write || self.exception
    }
}

/// Decides what a nonzero return of a platform primitive means: `0` is
/// success, anything else surfaces as an `InOutError` carrying that code.
pub fn primitive_outcome(code: i32) -> (r: core::result::Result<(), Error>)
    ensures
        code == 0 <==> r is Ok,
        code != 0 ==> r == Err::<(), Error>(Error::in_out(code)),
{
    if code != 0 {
        return Err(Error::in_out(code));
    }
    Ok(())
}

/// Prepares a blocking-mode toggle: resolves the handle to its descriptor
/// and encodes the requested mode as the primitive's flag byte. The actual
/// OS-level toggle is the caller's external step; its return code is judged
/// by [`primitive_outcome`].
pub fn set_blocking_request<T: AsInOutHandle>(handle: &T, blocking: bool) -> (r:
    core::result::Result<(u64, u8), Error>)
    ensures
        r is Ok ==> r->Ok_0.1 == flag_of(blocking),
{
    let h = match handle.as_io_handle() {
        Ok(h) => h,
        Err(e) => {
            return Err(e);
        },
    };
    let flag: u8 = if blocking {
        1
    } else {
        0
    };
    Ok((h.raw(), flag))
}

} // verus!
