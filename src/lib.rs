//! A small content-addressed object store in the style of Git's plumbing:
//! blobs, trees and commits, each named by the SHA-1 digest of its canonical
//! bytes and kept deflate-compressed at rest.

pub mod codec;
pub mod commands;
pub mod commit;
pub mod object;
pub mod store;
pub mod text;
pub mod tree;
