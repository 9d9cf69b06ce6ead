//! Automatically maintained secondary indexes over a live collection of
//! identifiable records ("entities").
//!
//! A secondary index maps a key value to the set of entities currently
//! carrying that key. The index is kept consistent purely as a side effect of
//! the normal attach / detach lifecycle of a per-entity key slot: every
//! structural mutation is applied through [`flush`](hooks::flush), which
//! fires the [`EntityIndex`](hooks::EntityIndex) callbacks exactly once per
//! slot creation and once per slot destruction, in submission order.
//!
//! The central verified statement is the synchronization invariant: after a
//! flush, for every key `k`, the store's set for `k` is exactly the set of
//! entities whose slot holds `k`, and no key maps to an empty set.
//!
//! One key type corresponds to one index; here a key is a plain 64-bit
//! value, and maintaining several independent indexes means instantiating
//! one slot storage and one store per index.

pub mod entity;
pub mod hooks;
pub mod slot;
pub mod store;

pub use entity::EntityId;
pub use hooks::Command;
pub use hooks::EntityIndex;
pub use hooks::HookEvent;
pub use hooks::flush;
pub use slot::Index;
pub use slot::InternalIndex;
pub use slot::SlotMap;
pub use store::IndexError;
pub use store::IndexStore;
