//! Regular files: a leaf that holds bytes.

use vstd::prelude::*;
use crate::types::{FsError, NodeAttr, NodeType};

verus! {

/// A regular file.
pub struct FileNode {
    content: Vec<u8>,
}

impl FileNode {
    /// The bytes of the file.
    pub closed spec fn view(&self) -> Seq<u8> {
        self.content@
    }

    /// An empty file.
    pub fn new() -> (file: Self)
        ensures
            file@ == Seq::<u8>::empty(),
    {
        FileNode { content: Vec::new() }
    }

    /// The number of bytes in the file.
    pub fn len(&self) -> (n: usize)
        ensures
            n == self@.len(),
    {
        self.content.len()
    }

    /// The file's attributes; its size is the number of its bytes.
    pub fn get_attr(&self) -> (res: Result<NodeAttr, FsError>)
        ensures
            res matches Ok(attr) && attr.mode == 0o666 && attr.ty == NodeType::File && attr.size
                == self@.len() && attr.blocks == 0,
    {
        let size: usize = self.content.len();
        Ok(NodeAttr::new_file(size as u64, 0))
    }
}

} // verus!
