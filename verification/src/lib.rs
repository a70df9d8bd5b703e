//! A doubly linked list stored in a single growable arena of slots.
//!
//! Elements are addressed through opaque, copyable handles that are checked
//! for liveness (via a per-slot generation counter) and for ownership (via a
//! per-container identity tag) on every use.

pub mod cursor;
pub mod linked_vector;

pub use crate::cursor::Cursor;
pub use crate::cursor::CursorMut;
pub use crate::linked_vector::HNode;
pub use crate::linked_vector::LinkedVector;
