//! A dual-store associative map for read-heavy workloads.
//!
//! The engine keeps an authoritative store of owned values next to a
//! shadow store of non-owning, reference-counted aliases; lookups are
//! answered from the shadow store, which may lag behind the
//! authoritative store after an overwrite.

pub mod laws;
pub mod maps;
pub mod model;
pub mod sync_map;

pub use sync_map::Iter;
pub use sync_map::IterMut;
pub use sync_map::SyncHashMap;
pub use sync_map::SyncMapImpl;
