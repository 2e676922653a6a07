//! A trait for I/O-types that can expose an underlying raw file descriptor,
//! and a generic adapter for types that resolve it through a caller-supplied
//! extraction function.

use vstd::prelude::*;
use crate::error::Error;

verus! {

/// A trait for I/O-types that have an underlying raw file descriptor.
///
/// Implementations outside this crate may resolve the descriptor any way
/// they like, and may fail; nothing is promised of the call's outcome, so
/// every caller states only what holds of whatever came back.
///
/// # Warning
/// Since this trait exposes the native, copyable file descriptor it is easy
/// to violate lifetime expectations and get a dangling or invalid
/// descriptor. While this is not as dangerous as e.g. a dangling pointer, it
/// can lead to confusing or weird behaviour.
pub trait InOutHandle {
    /// Provides access to the raw file descriptor
    fn get_raw_fd(&self) -> core::result::Result<u64, Error>;
}

/// A wrapper around types that can expose their underlying raw file
/// descriptor. This box can be useful if you have custom types that are not
/// themselves I/O-handles but have an underlying raw descriptor
/// nonetheless: the caller supplies the extraction function.
pub struct GenericInOutHandle<T, F: Fn(&T) -> core::result::Result<u64, Error>> {
    /// The underlying native file/socket handle
    inner: T,
    /// Gets a raw fd from `inner`
    get_raw_fd: F,
}

impl<T, F: Fn(&T) -> core::result::Result<u64, Error>> GenericInOutHandle<T, F> {
    /// The wrapped handle.
    pub closed spec fn inner_spec(&self) -> T {
        self.inner
    }

    /// The extraction function may be called on the wrapped handle.
    #[verifier::type_invariant]
    closed spec fn extraction_callable(&self) -> bool {
        call_requires(self.get_raw_fd, (&self.inner,))
    }

    /// Wraps an I/O-handle together with its extraction function, which
    /// must be callable on it.
    pub fn new(handle: T, get_raw_fd: F) -> (r: Self)
        requires
            call_requires(get_raw_fd, (&handle,)),
        ensures
            r.inner_spec() == handle,
    {
        Self { inner: handle, get_raw_fd }
    }

    /// Gets the underlying native file/socket handle
    pub fn into_inner(self) -> (r: T)
        ensures
            r == self.inner_spec(),
    {
        self.inner
    }
}

impl<T, F: Fn(&T) -> core::result::Result<u64, Error>> InOutHandle for GenericInOutHandle<T, F> {
    fn get_raw_fd(&self) -> core::result::Result<u64, Error> {
        proof {
            use_type_invariant(self);
        }
        (self.get_raw_fd)(&self.inner)
    }
}

} // verus!
