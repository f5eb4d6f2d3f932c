//! The editing-session core of a language server: an in-memory store of open
//! documents with version and lifecycle invariants, and a diff engine that
//! turns a full-text rewrite into a minimal list of position-anchored edits.
pub mod fmt;
pub mod pos;
pub mod vfs;
