//! Symbolic links: a leaf whose target is either stored or asked of a
//! generator at every read.

use vstd::prelude::*;
use crate::types::{FsError, NodeAttr, NodeType};

verus! {

/// Where a link's target comes from.
pub enum SymlinkGenerator<F> {
    /// A fixed target.
    Static(String),
    /// A function that is called anew for every read.
    Dynamic(F),
}

/// A symbolic link.
pub struct SymlinkNode<F> {
    generator: SymlinkGenerator<F>,
}

/// What a link is, as far as its reads go.
pub enum LinkModel<F> {
    /// Every read gives this target.
    Fixed(Seq<char>),
    /// Every read calls this function and gives what it returns.
    Computed(F),
}

impl<F: Fn() -> String> LinkModel<F> {
    /// The generator, if there is one, can be called.
    pub open spec fn callable(self) -> bool {
        match self {
            LinkModel::Fixed(_) => true,
            LinkModel::Computed(f) => call_requires(f, ()),
        }
    }

    /// The link can be entered in a directory: a fixed target is not empty,
    /// and a generator can be called.
    pub open spec fn wf(self) -> bool {
        match self {
            LinkModel::Fixed(stored) => stored.len() > 0,
            LinkModel::Computed(f) => call_requires(f, ()),
        }
    }

    /// `target` is what a read of the link may give: the fixed target, or a
    /// result of calling the generator.
    pub open spec fn yields(self, target: String) -> bool {
        match self {
            LinkModel::Fixed(stored) => target@ == stored,
            LinkModel::Computed(f) => call_ensures(f, (), target),
        }
    }

    /// A read of the link into a buffer that held `before` may leave `after`
    /// and report `count` bytes: the front of some target that the link
    /// yields, cut to what fits.
    pub open spec fn read_into(self, before: Seq<u8>, after: Seq<u8>, count: int) -> bool {
        exists|target: String|
            #![trigger self.yields(target)]
            self.yields(target) && copied(target_bytes(target@), before, after, count)
    }
}

/// The bytes of a target string.
pub open spec fn target_bytes(target: Seq<char>) -> Seq<u8> {
    vstd::utf8::encode_utf8(target)
}

/// `after` is `before` with its first `count` bytes replaced by the first
/// `count` bytes of `source`, where `count` is all that fits.
pub open spec fn copied(source: Seq<u8>, before: Seq<u8>, after: Seq<u8>, count: int) -> bool {
    &&& count == if source.len() <= before.len() {
        source.len()
    } else {
        before.len()
    }
    &&& after == source.take(count) + before.skip(count)
}

/// Copies as much of `source` as fits to the front of `buf`, and says how much.
pub fn copy_prefix(source: &[u8], buf: &mut [u8]) -> (count: usize)
    ensures
        copied(source@, old(buf)@, final(buf)@, count as int),
{
    let n: usize = if source.len() <= buf.len() {
        source.len()
    } else {
        buf.len()
    };
    let mut i: usize = 0;
    while i < n
        invariant
            i <= n,
            n <= source@.len(),
            n <= buf@.len(),
            buf@.len() == old(buf)@.len(),
            buf@ == source@.take(i as int) + old(buf)@.skip(i as int),
        decreases n - i,
    {
        buf[i] = source[i];
        i += 1;
    }
    n
}

impl<F: Fn() -> String> SymlinkNode<F> {
    /// What the link is: a fixed target, or a generator.
    pub closed spec fn view(&self) -> LinkModel<F> {
        match self.generator {
            SymlinkGenerator::Static(stored) => LinkModel::Fixed(stored@),
            SymlinkGenerator::Dynamic(f) => LinkModel::Computed(f),
        }
    }

    /// The link can be entered in a directory: a fixed target is not empty,
    /// and a generator can be called.
    pub open spec fn wf(&self) -> bool {
        self@.wf()
    }

    /// A link with a fixed target.
    pub fn new_static(target: String) -> (node: Self)
        ensures
            node@ == LinkModel::<F>::Fixed(target@),
    {
        Self { generator: SymlinkGenerator::Static(target) }
    }

    /// A link whose target `callback` computes at every read.
    pub fn new_dynamic(callback: F) -> (node: Self)
        requires
            call_requires(callback, ()),
        ensures
            node@ == LinkModel::Computed(callback),
            node.wf(),
    {
        Self { generator: SymlinkGenerator::Dynamic(callback) }
    }

    /// The current target: the stored string, or what the generator returns
    /// from a call made now.
    pub fn target(&self) -> (target: String)
        requires
            self@.callable(),
        ensures
            self@.yields(target),
    {
        match &self.generator {
            SymlinkGenerator::Static(stored) => stored.clone(),
            SymlinkGenerator::Dynamic(callback) => callback(),
        }
    }

    /// The link's attributes; its size is the length in bytes of the current target.
    pub fn get_attr(&self) -> (res: Result<NodeAttr, FsError>)
        requires
            self@.callable(),
        ensures
            res matches Ok(attr) && attr.mode == 0o666 && attr.ty == NodeType::SymLink
                && attr.blocks == 0 && exists|target: String|
                #![trigger self@.yields(target)]
                self@.yields(target) && attr.size == target_bytes(target@).len(),
    {
        let target = self.target();
        let size: usize = target.as_str().as_bytes().len();
        Ok(NodeAttr::new_symlink(size as u64))
    }

    /// Copies the current target to the front of `buf`, cut to what fits, and
    /// returns the number of bytes copied.
    pub fn readlink(&self, buf: &mut [u8]) -> (res: Result<usize, FsError>)
        requires
            self@.callable(),
        ensures
            res matches Ok(count) && self@.read_into(old(buf)@, final(buf)@, count as int),
    {
        let target = self.target();
        Ok(copy_prefix(target.as_str().as_bytes(), buf))
    }

    /// A symbolic link is one.
    pub fn is_symlink(&self) -> (b: bool)
        ensures
            b,
    {
        true
    }
}

} // verus!
