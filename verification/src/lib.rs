//! A confined virtual filesystem for sandboxed programs: path confinement,
//! buffered file handles, directory enumeration, and a lazy, mutation-safe
//! directory iterator, together with the stateless tree operations
//! (create, remove, move) that route every path through the confiner.

pub mod dir_iter;
pub mod dir_source;
pub mod errors;
pub mod file;
pub mod fs;
pub mod path;
