//! A hook runtime: render functions that are invoked again and again keep
//! state, schedule effects and cache computed values, addressed by an instance
//! identifier and by the order in which the hooks are called.

pub mod bucket;
pub mod complex_state;
pub mod guard;
pub mod hook_context;
pub mod hooks;
pub mod laws;
pub mod remap;

pub use bucket::{Bucket, BucketView, EffectStep};
pub use complex_state::{can_reduce, comp_state_reducer, Action, ComplexState};
pub use guard::{guards_changed, spec_guards_changed, Guard, StaticClone};
pub use hook_context::{bucket_views, HookState, HookStateView};
pub use hooks::{
    use_callback, use_effect, use_memo, use_reducer, use_ref, use_state, Dispatch, HookRef, Setter,
};
