//! Search a git loose-object store, delivered inside a tar archive, for the
//! first commit along first-parent history whose tree holds a file named
//! `santa.txt` whose contents mention the token `COOKIE`.
//!
//! The pipeline runs one way: archive bytes to an object store, each object
//! inflated and parsed on demand, a history walk over commits with a nested
//! depth-first search over trees, and the author with the commit hash as
//! the answer. Every stage is pinned to a specification-level interpreter,
//! so the whole search is a proven function of the archive bytes and the
//! branch name.

pub mod archive;
pub mod bytes;
pub mod errors;
pub mod html;
pub mod inflate;
pub mod objects;
pub mod search;
pub mod store;
pub mod tokens;
pub mod walk;
