//! Persistence and query core of a note-taking application.
//!
//! Notes live as individual Markdown files with an embedded metadata block
//! (frontmatter) followed by a free-text body.  This crate holds the verified
//! logic of that layer: the file codec, the tag registry, and the list / get /
//! create / update / delete / list-tags operations, all stated over plain
//! values.  The surrounding process hands in directory snapshots and performs
//! the actual file reads and writes.

pub mod codec;
pub mod manager;
pub mod text;
pub mod types;
