//! A verified implementation of the Heighway dragon curve.
//!
//! A curve is an ordered, non-empty sequence of integer lattice points;
//! adjacent points denote connecting straight segments.  The [`curve`]
//! module gives the geometric algebra on such sequences (translation,
//! rotation, justification, subdivision, joining) together with the
//! recursive dragon constructor; the [`render`] module gives the two
//! read-only queries a text renderer needs.

pub mod curve;
pub mod render;

pub use curve::Curve;
pub use curve::Point;
pub use curve::dragon;
