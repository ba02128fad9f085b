//! Reading and rewriting the Linux metadata that the two WSL1 file-system
//! schemes keep in NTFS extended attributes and reparse points.
use vstd::prelude::*;

pub mod bytes;
pub mod claims;
pub mod distro;
pub mod ea_parse;
pub mod error;
pub mod escape_utils;
pub mod lxfs;
pub mod lxxattr;
pub mod migrate;
pub mod posix;
pub mod reparse;
pub mod text;
pub mod time_utils;
pub mod vec_ex;
pub mod wsl_file;
pub mod wslfs;

verus! {

} // verus!
