//! Reading and writing asar archives: a 16-byte frame, a JSON header that
//! describes a tree of folders and files, then the concatenated file bytes.

pub mod error;
pub mod json;
pub mod content;
pub mod path;
pub mod header;
pub mod pack;
pub mod asar;
