//! What this library names of the reactive runtime.
//!
//! The calls into the runtime are made by the wiring around this library,
//! not here: whether one of them returns depends on what the runtime holds
//! at that moment, which no argument shows. Only the type of the write
//! handle is named, so that a lookup can be given one.

use leptos_reactive::RwSignal;
use vstd::prelude::*;

verus! {

/// `leptos_reactive::RwSignal`: the handle of a reactive cell that can be
/// read and written. Opaque here: the library passes it on and never looks
/// inside.
#[verifier::external_type_specification]
#[verifier::external_body]
#[verifier::reject_recursive_types(T)]
pub struct ExRwSignal<T: 'static>(RwSignal<T>);

} // verus!
