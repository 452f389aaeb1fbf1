//! Ordered enumerations and linear association lookups over plain buffers.
//!
//! * [`buffer`]: bounds-checked indexing and identity comparison.
//! * [`cstr`]: NUL-terminated byte strings and their ordering.
//! * [`lookup`]: first-match lookups in tables of key/value pairs.
//! * [`placement`]: the mathematical account of how members are placed.
//! * [`guarantees`]: what resolution guarantees, proved from that account.
//! * [`resolver`]: the resolution of a declared set into a dense order.
//! * [`registry`]: the resolved order of one enumeration, kept for reading.

pub mod buffer;
pub mod cstr;
pub mod lookup;
pub mod guarantees;
pub mod placement;
pub mod registry;
pub mod resolver;
