//! An in-memory hierarchical filesystem: a tree of directories, regular files
//! and symbolic links.
//!
//! A [`RamFileSystem`] owns every node in one arena. A directory holds its
//! entries by name, in ascending order, and the handle of its parent; a
//! [`DirNode`] is the handle of a directory, and every operation of a
//! directory takes the filesystem beside it. Handles are never reused: a node
//! that has left its directory keeps its handle, and whoever holds the handle
//! can go on using the node.
//!
//! The root can be mounted under a node of another namespace. A path that
//! climbs above the root ends there: the operation answers [`Reach::Outer`]
//! with what is left of the path, for the caller to hand to that node.
//!
//! Every function is verified against a mathematical model of the tree,
//! [`FsModel`]. The module [`laws`] proves what holds across several
//! operations.

pub mod dir;
pub mod file;
pub mod fs;
pub mod laws;
pub mod lemmas;
pub mod model;
pub mod name;
pub mod path;
pub mod symlink;
pub mod types;

pub use file::FileNode;
pub use fs::{DirNode, Node, RamFileSystem};
pub use model::{FsModel, NodeModel, Parent, Place, Reach};
pub use name::{compare_names, NameOrder};
pub use path::split_path;
pub use symlink::{LinkModel, SymlinkGenerator, SymlinkNode};
pub use types::{DirEntry, FsError, NodeAttr, NodeType, DIR_SIZE};
