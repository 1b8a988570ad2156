//! What a repository declares, as plain values the rest of the library reads.

pub mod asset;
pub mod image;
pub mod module;
pub mod options;
pub mod remote;
