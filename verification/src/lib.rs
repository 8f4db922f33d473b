//! A content-addressable object store following the loose-object model of a
//! version-control system: blobs, trees and commits are framed with a
//! `<kind> <size>\0` header, hashed, compressed, and addressed by their digest.

pub mod commit;
pub mod digits;
pub mod objects;
pub mod store;
pub mod tree;
