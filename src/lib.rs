//! The verified core of a client for HDFS: a lazy, depth-bounded walk over a
//! directory tree (or any tree a backend can describe), and the library's
//! error type.
pub mod err;
pub mod name_node;
pub mod tree_model;
pub mod walk_dir;

pub use crate::err::HdfsErr;
