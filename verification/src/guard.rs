//! Marker traits for slot values and the comparison of dependency
//! snapshots.

use std::fmt::Debug;
use vstd::prelude::*;
use vstd::std_specs::cmp::PartialEqSpec;

verus! {

/// A value that a slot can hand out: it can be cloned and owns its data.
pub trait StaticClone: Clone + 'static {

}

impl<T: Clone + 'static> StaticClone for T {

}

/// A dependency snapshot: comparable by value, clonable, printable, owning
/// its data.
pub trait Guard: PartialEq + Clone + Debug + 'static {

}

impl<T: PartialEq + Clone + Debug + 'static> Guard for T {

}

/// Whether a hook must run again: the snapshot of the last run is absent, or
/// it differs from the new one.
pub open spec fn spec_guards_changed<T: PartialEq>(guards: T, last_guards: Option<T>) -> bool {
    match last_guards {
        None => true,
        Some(last) => !last.eq_spec(&guards),
    }
}

/// Compares the new snapshot with the one of the last run.
pub fn guards_changed<T: Guard>(guards: &T, last_guards: &Option<T>) -> (changed: bool)
    ensures
        *last_guards is None ==> changed,
        T::obeys_eq_spec() ==> changed == spec_guards_changed(*guards, *last_guards),
{
    match last_guards {
        None => true,
        Some(last) => *last != *guards,
    }
}

} // verus!
