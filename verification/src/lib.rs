//! An in-memory index of a directory subtree.
//!
//! The index holds flat, path-keyed records of the files and directories
//! found beneath a canonical root, together with the set of file extensions
//! seen. Callers query it with composable predicates and keep it consistent
//! with the disk by pairing each planned filesystem mutation with the
//! corresponding index update.
//!
//! Paths are byte strings exactly as the operating system reports them,
//! with `/` separating components. All path arithmetic — splitting into
//! components, deriving stems and extensions, boundary-aware prefix
//! rewriting after a subtree move — is done here and verified; reading the
//! disk, which this crate never does, is the caller's side of the bargain.

pub mod entries;
pub mod filter;
pub mod index;
pub mod laws;
pub mod paths;
pub mod render;
pub mod sorting;

use vstd::prelude::*;

verus! {

/// The path separator byte, `/`.
pub const SEP: u8 = 47;

/// The extension separator byte, `.`.
pub const DOT: u8 = 46;

} // verus!
