//! An identifier-addressed tree arena.
//!
//! The arena owns every node of a non-binary tree and hands out integer
//! identifiers in place of pointers.  A node records its own identifier, an
//! optional parent identifier, an ordered list of child identifiers and a
//! user payload; all structural queries and mutations go through the arena,
//! which resolves identifiers through its table.

pub mod arena;
pub mod arena_types;
pub mod mt_arena;
pub mod safe_unwrap;
pub mod smart_pointers;
