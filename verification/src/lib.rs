//! A persistent, multi-tenant note store.
//!
//! Each authenticated owner creates, edits, deletes and lists short text
//! notes. Notes live in a durable ordered map keyed by a globally unique,
//! allocator-issued internal key, while the owner sees a stable, gap-free
//! sequence of display ids `1..=n`; deleting a note moves the owner's
//! higher-numbered notes down one display id without touching their
//! internal keys or any other owner's notes.

pub mod codec;
pub mod note;
pub mod owner;
pub mod storage;
pub mod store;

pub use note::Note;
pub use note::NoteView;
pub use owner::Owner;
pub use store::NoteError;
pub use store::NoteStore;
