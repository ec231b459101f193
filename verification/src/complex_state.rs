//! A compound state with its reducer: a counter with a name, and the actions
//! that change one of the two.

use vstd::prelude::*;

verus! {

/// A counter with a name.
#[derive(Clone, Debug, PartialEq)]
pub struct ComplexState {
    pub value: i32,
    pub name: String,
}

/// What can be done to a [`ComplexState`].
#[derive(Clone, Debug, PartialEq)]
pub enum Action {
    Increment(i32),
    Decrement(i32),
    SetName(String),
}

/// The counter stays in range under `action`.
pub open spec fn reducible(state: ComplexState, action: Action) -> bool {
    match action {
        Action::Increment(by) => i32::MIN <= state.value + by <= i32::MAX,
        Action::Decrement(by) => i32::MIN <= state.value - by <= i32::MAX,
        Action::SetName(_) => true,
    }
}

/// The state after `action`.
pub open spec fn reduced(state: ComplexState, action: Action) -> ComplexState {
    match action {
        Action::Increment(by) => ComplexState { value: (state.value + by) as i32, ..state },
        Action::Decrement(by) => ComplexState { value: (state.value - by) as i32, ..state },
        Action::SetName(name) => ComplexState { name, ..state },
    }
}

/// Whether the counter stays in range under `action`.
pub fn can_reduce(state: &ComplexState, action: &Action) -> (ok: bool)
    ensures
        ok == reducible(*state, *action),
{
    match action {
        Action::Increment(by) => state.value.checked_add(*by).is_some(),
        Action::Decrement(by) => state.value.checked_sub(*by).is_some(),
        Action::SetName(_) => true,
    }
}

/// Applies `action` to `state`.
pub fn comp_state_reducer(state: ComplexState, action: Action) -> (next: ComplexState)
    requires
        reducible(state, action),
    ensures
        next == reduced(state, action),
{
    let mut state = state;
    match action {
        Action::Increment(val) => {
            state.value = state.value + val;
        },
        Action::Decrement(val) => {
            state.value = state.value - val;
        },
        Action::SetName(name) => {
            state.name = name;
        },
    }
    state
}

} // verus!
