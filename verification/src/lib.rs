//! High-level, safe bookkeeping around synchronous I/O readiness
//! multiplexing (`select`-style waiting).
//!
//! The crate models everything around the platform readiness primitive:
//! handles, interest flags, the keyed multiplex set, the flat transcript
//! handed to the primitive, the timeout encoding, and the scatter of
//! observed readiness back into the set. The primitive itself (the actual
//! blocking OS call) is an external collaborator: callers obtain a prepared
//! call, run the primitive, and hand its reply back to finish the protocol.

pub mod easy;
pub mod error;
pub mod io;
pub mod io_handle;
pub mod select;
pub mod select_impl;

pub use crate::easy::{select_event, select_read, select_readwrite, select_write};
pub use crate::io::{AsInOutHandle, InOutHandle};
