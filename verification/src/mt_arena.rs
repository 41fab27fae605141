//! A shareable arena for use across threads: an `Arena` behind a
//! reference-counted reader/writer lock.
//!
//! The lock and the reference count come from the standard library; nothing
//! about the lock's content can be promised here, because the content is
//! only reachable through the lock at run time.  Callers acquire the lock
//! themselves through the handle that `get_arena_arc` returns; a walk that
//! should run off the calling thread takes the handle to another thread,
//! acquires a read lock there, and calls `tree_walk_dfs` or
//! `tree_walk_visit` under it.

use vstd::prelude::*;

use crate::arena::Arena;
use std::sync::Arc;
use std::sync::RwLock;

verus! {

/// Declares the standard library's reader/writer lock to the verifier; a
/// value of it is opaque here.
#[verifier::external_type_specification]
#[verifier::external_body]
#[verifier::reject_recursive_types(T)]
pub struct ExRwLock<T: ?Sized>(RwLock<T>);

/// Relies on `std::sync::RwLock::new`: nothing is promised of the lock,
/// whose content is only reachable through locking at run time.
pub assume_specification<T>[ RwLock::<T>::new ](t: T) -> RwLock<T>;

/// A shared, lockable handle to a whole arena.
pub type ShareableArena<T> = Arc<RwLock<Arena<T>>>;

/// An arena behind a reference-counted reader/writer lock, so the one arena
/// can be queried and mutated from several threads.
#[derive(Debug)]
#[verifier::reject_recursive_types(T)]
pub struct MTArena<T> {
    arena_arc: ShareableArena<T>,
}

impl<T> MTArena<T> {
    /// The handle this arena was built around.
    pub closed spec fn arena_handle(self) -> ShareableArena<T> {
        self.arena_arc
    }

    /// A new, empty arena behind a fresh lock.
    pub fn new() -> Self {
        MTArena { arena_arc: Arc::new(RwLock::new(Arena::new())) }
    }

    /// A clone of the shared handle, for handing to another thread.
    pub fn get_arena_arc(&self) -> (r: ShareableArena<T>)
        ensures
            r == self.arena_handle(),
    {
        self.arena_arc.clone()
    }
}

} // verus!
