//! A copyable mutable-state handle over a generational arena.
//!
//! Values live in slots of a [`Store`]. Each slot carries a generation that is
//! bumped whenever the slot is freed, so a [`SlotHandle`] taken before a free
//! is detected as stale afterwards. An [`Owner`] frees the slots it holds
//! together, and a [`Runtime`] binds one owner to each scope. A [`CopyValue`]
//! is a handle together with the scope that made it.
pub mod copy_value;
pub mod laws;
pub mod owner;
pub mod runtime;
pub mod store;

pub use copy_value::CopyValue;
pub use owner::Owner;
pub use runtime::{Runtime, ScopeId};
pub use store::{
    BorrowError, BorrowMutError, BorrowState, ReadGuard, Slot, SlotHandle, Store, WriteGuard,
};
