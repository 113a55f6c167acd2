//! A content-addressable object store in the style of git's plumbing layer:
//! the object codec, the hashing and compression pipeline, and the tree and
//! commit builders.

pub mod git;
