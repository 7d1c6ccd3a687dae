//! The step of one firing of the binding effect.

use leptos_reactive::RwSignal;
use std::future::Future;
use vstd::prelude::*;

verus! {

/// The unit of work for one key: what `lookup` returns when it is given
/// `key` and `cell`, the write handle of the value cell.
///
/// The binding effect calls this once for each key that the tracker counts
/// as a change, and hands the task to the scheduler without waiting for it.
/// The task is not run here.
///
/// The lookup has to accept this key and this cell: a lookup with a
/// precondition of its own is called only where that holds. A closure
/// without one accepts every key and every cell.
pub fn dispatch<Key, Val, F, Fu>(lookup: &F, key: Key, cell: RwSignal<Val>) -> (task: Fu) where
    Val: 'static,
    F: Fn(Key, RwSignal<Val>) -> Fu,
    Fu: Future<Output = ()>,

    requires
        call_requires(*lookup, (key, cell)),
    ensures
        call_ensures(*lookup, (key, cell), task),
{
    lookup(key, cell)
}

} // verus!
