//! Core of a deadline-aware note-keeping application: the note data model
//! with its dynamic priority scoring, deterministic tag-to-color derivation,
//! an encrypted persistence codec, storage planning for a local file or a
//! remote bin store, and the channel bus that carries asynchronous results
//! back to the update loop.

pub mod bus;
pub mod color;
pub mod crypto;
pub mod json;
pub mod note;
pub mod storage;
pub mod text;
pub mod userdata;
