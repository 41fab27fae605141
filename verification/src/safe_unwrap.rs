//! Small helpers that acquire a lock (or unwrap an option), hand the value
//! to a receiver, and release on every exit path, keeping critical sections
//! minimal.
//!
//! The two lock helpers go through the standard library's reader/writer
//! lock, whose content is only reachable at run time; their contracts can
//! therefore only relate the receiver's arguments and results, not the
//! guarded value.  Following the crate's locking discipline, a poisoned
//! lock (a writer failed while holding it) ends the process loudly rather
//! than handing out possibly torn state.

use vstd::prelude::*;

use std::sync::Arc;
use std::sync::RwLock;

verus! {

/// Acquires the read lock inside the shared handle, calls the receiver on
/// the guarded value, and releases the lock on every exit path.  Relies on
/// `std::sync::RwLock::read`, with the poisoning behaviour described
/// above.
#[verifier::external_body]
pub fn unwrap_arc_read_lock_and_call<T, R, F: Fn(&T) -> R>(
    arc_lock_wrapped_value: &Arc<RwLock<T>>,
    receiver_fn: &F,
) -> (r: R)
    requires
        forall|t: &T| call_requires(*receiver_fn, (t,)),
    ensures
        exists|t: T| call_ensures(*receiver_fn, (&t,), r),
{
    let guard = arc_lock_wrapped_value.read().unwrap();
    receiver_fn(&guard)
}

/// Acquires the write lock inside the shared handle, calls the receiver on
/// the guarded value, stores the replacement value the receiver hands
/// back, and releases the lock on every exit path.  Relies on
/// `std::sync::RwLock::write`, with the poisoning behaviour described
/// above.
#[verifier::external_body]
pub fn unwrap_arc_write_lock_and_call<T, R, F: Fn(&T) -> (T, R)>(
    arc_lock_wrapped_value: &Arc<RwLock<T>>,
    receiver_fn: &F,
) -> (r: R)
    requires
        forall|t: &T| call_requires(*receiver_fn, (t,)),
    ensures
        exists|t: T, n: T| call_ensures(*receiver_fn, (&t,), (n, r)),
{
    let mut guard = arc_lock_wrapped_value.write().unwrap();
    let (new_value, result) = receiver_fn(&guard);
    *guard = new_value;
    result
}

/// Calls the receiver on the wrapped value if there is one; does nothing
/// otherwise.
pub fn call_if_some<T, F: Fn(&T)>(option_wrapped_value: &Option<T>, receiver_fn: &F)
    requires
        option_wrapped_value is Some ==> call_requires(
            *receiver_fn,
            (&option_wrapped_value.unwrap(),),
        ),
    ensures
        option_wrapped_value is Some ==> call_ensures(
            *receiver_fn,
            (&option_wrapped_value.unwrap(),),
            (),
        ),
{
    if let Some(value) = option_wrapped_value {
        receiver_fn(value);
    }
}

/// Applies the receiver to the value behind the mutable reference and
/// stores the replacement value it hands back, returning the receiver's
/// result.
pub fn with_mut<T, R, F: Fn(&T) -> (T, R)>(arg: &mut T, receiver_fn: &F) -> (r: R)
    requires
        call_requires(*receiver_fn, (&*old(arg),)),
    ensures
        call_ensures(*receiver_fn, (&*old(arg),), (*final(arg), r)),
{
    let (new_value, result) = receiver_fn(&*arg);
    *arg = new_value;
    result
}

} // verus!
