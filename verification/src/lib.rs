//! A small directory-bookmark library: a persistent mapping from short
//! names to filesystem paths, kept sorted by name, serialized to a
//! human-readable JSON-shaped text form.

pub mod codec;
pub mod dispatch;
pub mod store;
pub mod text;
