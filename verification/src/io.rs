//! A lifetime-unaware but clearly scoped wrapper for raw file descriptors.

use vstd::prelude::*;
use crate::error::Error;

verus! {

/// An in-out handle: a plain value holding a native descriptor.
///
/// # Note
/// The descriptor is a copyable integer that carries no inherent validity
/// guarantee: the caller must keep the underlying native object alive for as
/// long as the handle is used, or the descriptor may dangle or be reused.
#[derive(Debug, Clone, Copy, PartialEq, Eq, Structural, PartialOrd, Ord, Hash)]
pub struct InOutHandle {
    /// The underlying raw file descriptor
    fd: u64,
}

impl InOutHandle {
    /// The descriptor this handle stands for.
    pub closed spec fn fd_spec(&self) -> u64 {
        self.fd
    }

    /// Creates a new in-out-handle from a raw file descriptor
    pub fn with_raw(fd: u64) -> (r: Self)
        ensures
            r.fd_spec() == fd,
    {
        Self { fd }
    }

    /// Provides access to the raw file descriptor
    ///
    /// # Caveat
    /// Since this function exposes the native, copyable file descriptor it is
    /// easy to violate lifetime expectations and get a dangling or invalid
    /// descriptor. While this is usually not as dangerous as e.g. a dangling
    /// pointer, it can lead to confusing or weird behaviour.
    pub fn raw(&self) -> (r: u64)
        ensures
            r == self.fd_spec(),
    {
        self.fd
    }
}

/// A trait for I/O-types that have an underlying raw file descriptor.
///
/// Implementations outside this crate may resolve the descriptor any way
/// they like, and may fail; nothing is promised of the call's outcome, so
/// every caller states only what holds of whatever came back.
pub trait AsInOutHandle {
    /// Creates an in-out-handle from `self`
    fn as_io_handle(&self) -> core::result::Result<InOutHandle, Error>;
}

impl AsInOutHandle for InOutHandle {
    fn as_io_handle(&self) -> core::result::Result<InOutHandle, Error> {
        Ok(*self)
    }
}

impl crate::io_handle::InOutHandle for InOutHandle {
    fn get_raw_fd(&self) -> core::result::Result<u64, Error> {
        Ok(self.raw())
    }
}

} // verus!
