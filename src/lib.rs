//! Unix-style file operations (list, remove, create, copy, move, clean,
//! extract, size) worked out on a model of the directory tree.
//!
//! A `FileTree` holds the part of the disk an operation needs. Each operation
//! changes the tree as the host filesystem would change and records, in its
//! journal, the changes for the host to perform in order; performing them
//! turns the old tree into the new one.
pub mod path;
pub mod size;
pub mod tree;
pub mod utils;
pub mod copy;
pub mod extract;
pub mod laws;
pub mod ops;

pub use crate::copy::{cp, mv};
pub use crate::extract::extract;
pub use crate::ops::{clean, ls, mkdir, rm, touch};
pub use crate::size::get_size;
pub use crate::utils::{create, CreateType};
