//! Verified core of a local markdown note store.
//!
//! The crate keeps three views of one folder of markdown files consistent:
//! the files themselves (source of truth), an in-memory metadata cache used
//! for listing, and a best-effort full-text index.  Everything that can be
//! stated as a pure function — the identifier codec, title and preview
//! derivation, save/rename planning, the substring fallback search, watcher
//! debouncing and event classification, and the per-folder registry — lives
//! here with a contract.  Filesystem and index I/O stay with the caller,
//! which hands plain values in and takes plain values back.

pub mod assets;
pub mod codec;
pub mod errors;
pub mod store;
pub mod strings;
pub mod markdown;
pub mod names;
pub mod registry;
pub mod search;
pub mod text;
pub mod watcher;

pub use errors::IdFault;
pub use errors::NoteError;
