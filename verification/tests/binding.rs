//! The key tracker on concrete keys.

use leptos_signals::binding::KeyTracker;

/// A key whose equality looks at `id` only, so that two equal keys can be
/// told apart by `note`.
#[derive(Debug, Clone)]
struct Tagged {
    id: u32,
    note: &'static str,
}

impl PartialEq for Tagged {
    fn eq(&self, other: &Self) -> bool {
        self.id == other.id
    }
}

/// A key that is unequal to everything, itself included.
#[derive(Debug, Clone)]
struct Restless(u32);

impl PartialEq for Restless {
    fn eq(&self, _other: &Self) -> bool {
        false
    }
}

/// Feeds `keys` to `tracker` and returns the keys it asked a lookup for.
fn dispatched(tracker: &mut KeyTracker<String>, keys: &[&str]) -> Vec<String> {
    let mut started = Vec::new();
    for key in keys {
        if tracker.recompute(key.to_string()) {
            started.push(tracker.held().unwrap().clone());
        }
    }
    started
}

fn strings(items: &[&str]) -> Vec<String> {
    items.iter().map(|item| item.to_string()).collect()
}

#[test]
fn new_tracker_holds_no_key() {
    let tracker: KeyTracker<String> = KeyTracker::new();
    assert_eq!(tracker.held(), None);
}

#[test]
fn first_key_fires_whatever_it_is() {
    let mut tracker: KeyTracker<String> = KeyTracker::new();
    assert!(tracker.recompute(String::new()));
    assert_eq!(tracker.held(), Some(&String::new()));
}

#[test]
fn equal_key_does_not_fire_and_leaves_the_tracker_alone() {
    let mut tracker: KeyTracker<String> = KeyTracker::new();
    assert!(tracker.recompute("a".to_string()));
    for _ in 0..5 {
        assert!(!tracker.recompute("a".to_string()));
        assert_eq!(tracker.held(), Some(&"a".to_string()));
    }
}

#[test]
fn equal_key_keeps_the_held_key() {
    let mut tracker: KeyTracker<Tagged> = KeyTracker::new();
    assert!(tracker.recompute(Tagged { id: 1, note: "first" }));
    assert!(!tracker.recompute(Tagged { id: 1, note: "second" }));
    assert_eq!(tracker.held().unwrap().note, "first");
    assert!(tracker.recompute(Tagged { id: 2, note: "third" }));
    assert_eq!(tracker.held().unwrap().note, "third");
}

#[test]
fn unequal_key_fires_and_is_taken_over() {
    let mut tracker: KeyTracker<u32> = KeyTracker::new();
    assert!(tracker.recompute(1));
    assert!(tracker.recompute(2));
    assert_eq!(tracker.held(), Some(&2));
    assert!(!tracker.recompute(2));
    assert!(tracker.recompute(1));
    assert_eq!(tracker.held(), Some(&1));
}

#[test]
fn key_that_never_equals_fires_every_time() {
    let mut tracker: KeyTracker<Restless> = KeyTracker::new();
    for n in [3u32, 3, 3] {
        assert!(tracker.recompute(Restless(n)));
        assert_eq!(tracker.held().unwrap().0, n);
    }
}

#[test]
fn every_new_key_is_dispatched_once_and_in_order() {
    let mut tracker: KeyTracker<String> = KeyTracker::new();
    let started = dispatched(&mut tracker, &["a", "b", "c", "a", "d"]);
    assert_eq!(started, strings(&["a", "b", "c", "a", "d"]));
    assert_eq!(tracker.held(), Some(&"d".to_string()));
}

#[test]
fn repeated_keys_are_dispatched_once() {
    let mut tracker: KeyTracker<String> = KeyTracker::new();
    let started = dispatched(&mut tracker, &["a", "a", "a", "b", "b", "a", "a"]);
    assert_eq!(started, strings(&["a", "b", "a"]));
    let mut single: KeyTracker<String> = KeyTracker::new();
    assert_eq!(dispatched(&mut single, &["k", "k", "k", "k"]), strings(&["k"]));
}

#[test]
fn world_time_keys_by_hand() {
    let mut tracker: KeyTracker<String> = KeyTracker::new();
    let started = dispatched(
        &mut tracker,
        &["America/Bogota", "America/Bogota", "Europe/London", "Europe/London"],
    );
    assert_eq!(started, strings(&["America/Bogota", "Europe/London"]));
    assert_eq!(tracker.held(), Some(&"Europe/London".to_string()));
}
