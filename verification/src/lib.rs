//! A fixed-capacity, non-reallocating UTF-8 text buffer.
//!
//! [`Yangon`] keeps its bytes in storage of a fixed bound `N` and never
//! reallocates.  Every public operation preserves the invariant that the
//! content is a complete, valid UTF-8 byte sequence; the contracts are stated
//! over the byte model in [`vstd::utf8`].

pub mod buffer;
pub mod convert;
pub mod edit;
pub mod errors;
pub mod laws;
pub mod lossy;
pub mod model;
pub mod render;
pub mod replace;
mod scan;
pub mod trim;
mod shift;

pub use buffer::Yangon;
pub use scan::last_boundary_at_most;
pub use convert::yTrait;
pub use errors::yError;
pub use errors::yFmtError;
pub use lossy::yCow;
pub use replace::yGeneric;
pub use replace::yPattern;
