use vstd::prelude::*;

verus! {

/// The recoverable failures of the buffer.
///
/// `CapacityOverflow` comes from the checked append family when a write would
/// exceed the current capacity ceiling; `FromUtf8Error` from constructing a
/// buffer out of bytes that are not valid UTF-8.
#[allow(non_camel_case_types)]
#[derive(Debug, PartialEq, Eq, Structural)]
pub enum yError {
    FromUtf8Error,
    CapacityOverflow,
}

/// The failure reported by the byte-sink entry point [`crate::buffer::Yangon::write_str`].
///
/// It is kept distinct from [`yError::CapacityOverflow`] so that a formatted
/// interpolation that runs out of room halts cleanly and recognisably.
#[allow(non_camel_case_types)]
#[derive(Debug, PartialEq, Eq, Structural)]
pub enum yFmtError {
    WriteOverflow,
}

} // verus!
