//! A bump arena over chunked byte buffers, with type-erased records and
//! deferred, bulk destruction.
//!
//! Values are stored as bytes. A value of a type with a destructor is
//! preceded by a header that names its type and tells whether the value was
//! initialised; `clear` and `teardown` walk the headers and report the
//! initialised values, oldest first within a chunk, so that the caller can
//! run their destructors.

pub mod arena;
pub mod chunk;
pub mod frames;
pub mod invariants;
pub mod laws;
pub mod layout;
pub mod model;
pub mod pending;
pub mod tydesc;

pub use arena::AnyArena;
pub use chunk::{Chunk, Dropped};
pub use layout::{bitpack_tydesc_ptr, round_up, un_bitpack_tydesc_ptr};
pub use model::Slot;
pub use tydesc::TyDesc;
