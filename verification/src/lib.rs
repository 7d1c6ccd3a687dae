//! The verified core of keyed signals for `leptos_reactive`.
//!
//! A keyed signal ties a value to a key. The key is derived from reactive
//! inputs; the value is produced by an asynchronous lookup that runs again
//! only when the key has changed.
//!
//! The runtime does the reactive work, and the calls into it are made by
//! the wiring around this library. What is decided each time the binding
//! effect runs is decided here: [`binding`] holds the key tracker, which
//! says whether a key is a change, together with a model of the whole
//! binding and the laws that hold of it; [`keyed_signal`] holds the step
//! that turns a key into the lookup's unit of work. [`reactive`] names the
//! one type that is taken from the runtime.

pub mod binding;
pub mod keyed_signal;
pub mod reactive;

pub use binding::KeyTracker;
pub use keyed_signal::dispatch;
