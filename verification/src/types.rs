//! The vocabulary shared by all operations: errors, node types, attributes and
//! directory entries.

use vstd::prelude::*;

verus! {

/// Why an operation did not take place.
#[derive(Clone, Copy, Debug, PartialEq, Eq, Structural)]
pub enum FsError {
    /// A path segment or a name does not resolve.
    NotFound,
    /// The name is already taken in the directory.
    AlreadyExists,
    /// The directory to remove still has entries.
    DirectoryNotEmpty,
    /// The request is structurally illegal.
    InvalidInput,
    /// The filesystem cannot create a node of the requested type.
    Unsupported,
    /// A node that is not a directory was used as one.
    NotADirectory,
}

/// The type of a node.
#[derive(Clone, Copy, Debug, PartialEq, Eq, Structural)]
pub enum NodeType {
    /// FIFO (named pipe).
    Fifo,
    /// Character device.
    CharDevice,
    /// Directory.
    Dir,
    /// Block device.
    BlockDevice,
    /// Regular file.
    File,
    /// Symbolic link.
    SymLink,
    /// Socket.
    Socket,
}

/// The attributes of a node.
#[derive(Clone, Copy, Debug, PartialEq, Eq, Structural)]
pub struct NodeAttr {
    /// Permission bits.
    pub mode: u16,
    /// Node type.
    pub ty: NodeType,
    /// Size in bytes.
    pub size: u64,
    /// Number of blocks.
    pub blocks: u64,
}

/// The permission bits that `axfs_vfs::VfsNodePerm::default_file` returns:
/// read and write for owner, group and others.
#[verifier::external_body]
fn default_file_mode() -> (mode: u16)
    ensures
        mode == 0o666,
{
    axfs_vfs::VfsNodePerm::default_file().bits()
}

/// The permission bits that `axfs_vfs::VfsNodePerm::default_dir` returns:
/// all for the owner, read and execute for group and others.
#[verifier::external_body]
fn default_dir_mode() -> (mode: u16)
    ensures
        mode == 0o755,
{
    axfs_vfs::VfsNodePerm::default_dir().bits()
}

/// The size that every directory reports.
pub const DIR_SIZE: u64 = 4096;

impl NodeAttr {
    /// The attributes of a directory: the default directory permissions.
    pub fn new_dir(size: u64, blocks: u64) -> (attr: NodeAttr)
        ensures
            attr == (NodeAttr { mode: 0o755, ty: NodeType::Dir, size, blocks }),
    {
        NodeAttr { mode: default_dir_mode(), ty: NodeType::Dir, size, blocks }
    }

    /// The attributes of a regular file: the default file permissions.
    pub fn new_file(size: u64, blocks: u64) -> (attr: NodeAttr)
        ensures
            attr == (NodeAttr { mode: 0o666, ty: NodeType::File, size, blocks }),
    {
        NodeAttr { mode: default_file_mode(), ty: NodeType::File, size, blocks }
    }

    /// The attributes of a symbolic link: the default file permissions.
    pub fn new_symlink(size: u64) -> (attr: NodeAttr)
        ensures
            attr == (NodeAttr { mode: 0o666, ty: NodeType::SymLink, size, blocks: 0 }),
    {
        NodeAttr { mode: default_file_mode(), ty: NodeType::SymLink, size, blocks: 0 }
    }
}

/// One entry of a directory listing.
#[derive(Debug, PartialEq, Eq)]
pub struct DirEntry {
    /// The entry's name.
    pub name: String,
    /// The type of the node it names.
    pub ty: NodeType,
}

impl DirEntry {
    /// The entry as a pair of name and type.
    pub open spec fn view(&self) -> (Seq<char>, NodeType) {
        (self.name@, self.ty)
    }
}

} // verus!
