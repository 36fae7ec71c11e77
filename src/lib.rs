pub mod error;
pub mod fs;
pub mod node;
pub mod paths;
pub mod tree;

pub use error::FsError;
pub use node::{FileAttr, FileKind, Ino, NodeRef, PyDirectory, PyFile, PySymlink, Timestamp, ROOT_INO};
pub use tree::InodeTable;
