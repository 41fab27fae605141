//! Shared vocabulary for the arena: the identifier trait and result aliases.

use vstd::prelude::*;

use crate::arena::Node;
use std::sync::Arc;

verus! {

/// Anything that carries a node identifier.
pub trait HasId {
    /// The identifier the value carries.
    spec fn id_spec(&self) -> usize;

    /// Reports the identifier the value carries.
    fn get_id(&self) -> (r: usize)
        ensures
            r == self.id_spec(),
    ;
}

/// The result of every operation that reports a list of identifiers:
/// `None` where nothing was found.
pub type ResultUidList = Option<Vec<usize>>;

/// A shared handle to a node, alive independently of the arena's table.
pub type NodeRef<T> = Arc<Node<T>>;

/// A non-owning handle to a node's storage.  It must be upgraded before
/// use; upgrading fails once neither the arena's table nor any shared
/// handle keeps the node alive.  It holds the standard library's `Weak`,
/// which the verifier treats as opaque.
#[verifier::external_body]
#[verifier::reject_recursive_types(T)]
pub struct WeakNodeRef<T> {
    weak: std::sync::Weak<Node<T>>,
}

impl<T> WeakNodeRef<T> {
    /// Relies on `std::sync::Arc::downgrade`: the result refers to the same
    /// storage without owning it.
    #[verifier::external_body]
    pub(crate) fn new_from(strong: &Arc<Node<T>>) -> WeakNodeRef<T> {
        WeakNodeRef { weak: std::sync::Arc::downgrade(strong) }
    }

    /// Relies on `std::sync::Weak::upgrade`: `Some` while the storage is
    /// still alive, `None` once it is gone.  Which of the two comes back
    /// depends on the run-time state of the reference counts, so nothing
    /// more is promised here.
    #[verifier::external_body]
    pub fn upgrade(&self) -> Option<Arc<Node<T>>> {
        self.weak.upgrade()
    }
}


} // verus!
