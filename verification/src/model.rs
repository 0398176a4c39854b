//! The mathematical model of the filesystem: what a tree is, when it is well
//! formed, how a path resolves in it, and what each change does to it.

use vstd::prelude::*;
use crate::name::{rank, strictly_sorted};
use crate::path::{final_name, first_segment, is_parent_name, is_reserved_name, is_self_name};
use crate::path::{lemma_split, parent_part, remainder};
use crate::symlink::LinkModel;
use crate::types::{DirEntry, FsError, NodeType};

verus! {

/// What a directory has above it.
#[derive(Clone, Copy, Debug, PartialEq, Eq, Structural)]
pub enum Parent {
    /// Nothing: a root that is not mounted.
    Absent,
    /// A directory of this filesystem.
    Dir(usize),
    /// The node outside this filesystem under which its root is mounted.
    Outer,
}

/// Where one step of a path leads.
#[derive(Clone, Copy, Debug, PartialEq, Eq, Structural)]
pub enum Place {
    /// To a node of this filesystem.
    Node(usize),
    /// Out of this filesystem, to the node above its root.
    Outer,
}

/// Where an operation on a path ends: in this filesystem with a result, or at
/// the node above its root, which has to do what is left.
#[derive(Debug, PartialEq, Eq)]
pub enum Reach<T, S> {
    /// In this filesystem.
    Local(T),
    /// At the node above the root, with what is left of the path.
    Outer(S),
}

/// One node of the tree.
#[verifier::ext_equal]
pub enum NodeModel<F> {
    /// A directory: its parent, and its entries in listing order, names and
    /// nodes side by side.
    Dir { parent: Parent, names: Seq<Seq<char>>, children: Seq<usize> },
    /// A regular file.
    File { content: Seq<u8> },
    /// A symbolic link.
    Symlink { link: LinkModel<F> },
}

/// The whole filesystem: its nodes by handle, the root at 0, and the node
/// above the root that the first mount made known.
#[verifier::ext_equal]
pub struct FsModel<P, F> {
    pub nodes: Seq<NodeModel<F>>,
    pub outer: Option<P>,
}

/// A root without entries and without a parent.
pub open spec fn empty_root<F>() -> NodeModel<F> {
    NodeModel::Dir { parent: Parent::Absent, names: Seq::empty(), children: Seq::empty() }
}

/// A directory without entries under `parent`.
pub open spec fn empty_dir<F>(parent: usize) -> NodeModel<F> {
    NodeModel::Dir { parent: Parent::Dir(parent), names: Seq::empty(), children: Seq::empty() }
}

/// The two entries that every listing begins with.
pub open spec fn dot_entries() -> Seq<(Seq<char>, NodeType)> {
    seq![(seq!['.'], NodeType::Dir), (seq!['.', '.'], NodeType::Dir)]
}

/// What a paged read of a listing does to the slots it is given: starting at
/// position `start` of `listing`, as many slots as there are entries left are
/// filled in order, `count` of them, and the others are left as they were.
pub open spec fn filled(
    listing: Seq<(Seq<char>, NodeType)>,
    start: int,
    before: Seq<DirEntry>,
    after: Seq<DirEntry>,
    count: int,
) -> bool {
    let left = if start < listing.len() {
        listing.len() - start
    } else {
        0
    };
    &&& after.len() == before.len()
    &&& count == if before.len() <= left {
        before.len() as int
    } else {
        left
    }
    &&& forall|i: int| 0 <= i < count ==> (#[trigger] after[i])@ == listing[start + i]
    &&& forall|i: int| count <= i < after.len() ==> #[trigger] after[i] == before[i]
}

impl<F> NodeModel<F> {
    /// The type that the node reports.
    pub open spec fn node_type(self) -> NodeType {
        match self {
            NodeModel::Dir { .. } => NodeType::Dir,
            NodeModel::File { .. } => NodeType::File,
            NodeModel::Symlink { .. } => NodeType::SymLink,
        }
    }
}

impl<P, F: Fn() -> String> FsModel<P, F> {
    /// A filesystem that holds an empty root and nothing else.
    pub open spec fn fresh() -> Self {
        FsModel { nodes: seq![empty_root()], outer: None }
    }

    /// `id` is the handle of a node.
    pub open spec fn has_node(self, id: usize) -> bool {
        id < self.nodes.len()
    }

    /// One more node can be stored: the next handle is a machine number.
    pub open spec fn has_room(self) -> bool {
        self.nodes.len() < usize::MAX
    }

    /// `id` is the handle of a directory.
    pub open spec fn is_dir(self, id: usize) -> bool {
        id < self.nodes.len() && self.nodes[id as int] is Dir
    }

    /// `id` is the handle of a symbolic link.
    pub open spec fn is_symlink(self, id: usize) -> bool {
        id < self.nodes.len() && self.nodes[id as int] is Symlink
    }

    /// The type of node `id`.
    pub open spec fn node_type(self, id: usize) -> NodeType {
        self.nodes[id as int].node_type()
    }

    /// The names in directory `dir`, in listing order.
    pub open spec fn names(self, dir: usize) -> Seq<Seq<char>> {
        self.nodes[dir as int]->names
    }

    /// The nodes in directory `dir`, in the order of their names.
    pub open spec fn children(self, dir: usize) -> Seq<usize> {
        self.nodes[dir as int]->children
    }

    /// What directory `dir` has above it.
    pub open spec fn parent(self, dir: usize) -> Parent {
        self.nodes[dir as int]->parent
    }

    /// Directory `dir` has an entry called `name`.
    pub open spec fn has_child(self, dir: usize, name: Seq<char>) -> bool {
        self.names(dir).contains(name)
    }

    /// The node that `name` stands for in directory `dir`.
    pub open spec fn child(self, dir: usize, name: Seq<char>) -> usize {
        self.children(dir)[self.names(dir).index_of(name)]
    }

    /// Directory `dir` has no entries.
    pub open spec fn is_empty_dir(self, dir: usize) -> bool {
        self.names(dir).len() == 0
    }

    /// The link held at `id`.
    pub open spec fn link(self, id: usize) -> LinkModel<F> {
        self.nodes[id as int]->link
    }

    /// Entry `i` of directory `dir` names a node that was stored after `dir`,
    /// and if that node is a directory, `dir` is its parent.
    pub open spec fn entry_wf(self, dir: usize, i: int) -> bool {
        let c = self.children(dir)[i];
        &&& dir < c < self.nodes.len()
        &&& self.is_dir(c) ==> self.parent(c) == Parent::Dir(dir)
    }

    /// Directory `dir` lists each name once, in ascending order, and every
    /// directory but the root has a directory for its parent.
    pub open spec fn dir_wf(self, dir: usize) -> bool {
        &&& self.names(dir).len() == self.children(dir).len()
        &&& strictly_sorted(self.names(dir))
        &&& dir != 0 ==> (self.parent(dir) matches Parent::Dir(p) && self.is_dir(p))
        &&& forall|i: int| 0 <= i < self.children(dir).len() ==> #[trigger] self.entry_wf(dir, i)
    }

    /// Node `id` is well formed.
    pub open spec fn node_wf(self, id: usize) -> bool {
        match self.nodes[id as int] {
            NodeModel::Dir { .. } => self.dir_wf(id),
            NodeModel::File { .. } => true,
            NodeModel::Symlink { link } => link.wf(),
        }
    }

    /// The tree is well formed: the root is a directory at 0 whose parent, if
    /// any, is the remembered outer node, and every node is well formed.
    pub open spec fn wf(self) -> bool {
        &&& self.is_dir(0)
        &&& self.nodes.len() <= usize::MAX
        &&& self.parent(0) is Absent || (self.parent(0) is Outer && self.outer is Some)
        &&& forall|id: usize| self.has_node(id) ==> #[trigger] self.node_wf(id)
    }

    /// Every handle of `before` is still the handle of a node of the same
    /// type here.
    pub open spec fn keeps_handles_of(self, before: Self) -> bool {
        forall|id: usize|
            before.has_node(id) ==> self.has_node(id) && #[trigger] self.node_type(id)
                == before.node_type(id)
    }

    /// The listing of directory `dir`: itself, its parent, then its entries
    /// by ascending name, each with the type of its node.
    pub open spec fn listing(self, dir: usize) -> Seq<(Seq<char>, NodeType)> {
        dot_entries() + Seq::new(
            self.names(dir).len(),
            |i: int| (self.names(dir)[i], self.node_type(self.children(dir)[i])),
        )
    }

    /// Where the single name `name` leads from directory `dir`.
    pub open spec fn step(self, dir: usize, name: Seq<char>) -> Result<Place, FsError> {
        if is_self_name(name) {
            Ok(Place::Node(dir))
        } else if is_parent_name(name) {
            match self.parent(dir) {
                Parent::Absent => Err(FsError::NotFound),
                Parent::Dir(p) => Ok(Place::Node(p)),
                Parent::Outer => Ok(Place::Outer),
            }
        } else if self.has_child(dir, name) {
            Ok(Place::Node(self.child(dir, name)))
        } else {
            Err(FsError::NotFound)
        }
    }

    /// Where `path` leads from directory `dir`: segment by segment, each
    /// remainder handed to the node that the segment before it led to.
    pub open spec fn resolve(self, dir: usize, path: Seq<char>) -> Result<
        Reach<usize, Option<Seq<char>>>,
        FsError,
    >
        decreases path.len(),
    {
        match self.step(dir, first_segment(path)) {
            Err(e) => Err(e),
            Ok(Place::Outer) => Ok(Reach::Outer(remainder(path))),
            Ok(Place::Node(node)) => match remainder(path) {
                None => Ok(Reach::Local(node)),
                Some(rest) => if self.is_dir(node) {
                    proof {
                        lemma_split(path);
                    }
                    self.resolve(node, rest)
                } else {
                    Err(FsError::NotADirectory)
                },
            },
        }
    }

    /// The directory and the name that `path` speaks of, from directory `dir`:
    /// all segments but the last are resolved, the last is the name.
    pub open spec fn locate(self, dir: usize, path: Seq<char>) -> Result<
        Reach<(usize, Seq<char>), Seq<char>>,
        FsError,
    >
        decreases path.len(),
    {
        match remainder(path) {
            None => Ok(Reach::Local((dir, first_segment(path)))),
            Some(rest) => match self.step(dir, first_segment(path)) {
                Err(e) => Err(e),
                Ok(Place::Outer) => Ok(Reach::Outer(rest)),
                Ok(Place::Node(node)) => if self.is_dir(node) {
                    proof {
                        lemma_split(path);
                    }
                    self.locate(node, rest)
                } else {
                    Err(FsError::NotADirectory)
                },
            },
        }
    }

    /// The symbolic link that `path` speaks of, from directory `dir`. A link
    /// met on the way answers for whatever follows it; a directory or a file
    /// in the last place is no link.
    pub open spec fn locate_link(self, dir: usize, path: Seq<char>) -> Result<
        Reach<usize, Seq<char>>,
        FsError,
    >
        decreases path.len(),
    {
        let name = first_segment(path);
        match remainder(path) {
            None => if is_reserved_name(name) {
                Err(FsError::InvalidInput)
            } else {
                match self.step(dir, name) {
                    Err(e) => Err(e),
                    Ok(Place::Outer) => Err(FsError::InvalidInput),
                    Ok(Place::Node(node)) => if self.is_symlink(node) {
                        Ok(Reach::Local(node))
                    } else {
                        Err(FsError::InvalidInput)
                    },
                }
            },
            Some(rest) => match self.step(dir, name) {
                Err(e) => Err(e),
                Ok(Place::Outer) => Ok(Reach::Outer(rest)),
                Ok(Place::Node(node)) => if self.is_dir(node) {
                    proof {
                        lemma_split(path);
                    }
                    self.locate_link(node, rest)
                } else if self.is_symlink(node) {
                    Ok(Reach::Local(node))
                } else {
                    Err(FsError::InvalidInput)
                },
            },
        }
    }

    /// What creating a node of type `ty` as `name` in directory `dir` answers:
    /// a taken name is refused first, then a type that cannot be created so.
    pub open spec fn create_node_result(self, dir: usize, name: Seq<char>, ty: NodeType) -> Result<
        (),
        FsError,
    > {
        if self.has_child(dir, name) {
            Err(FsError::AlreadyExists)
        } else {
            match ty {
                NodeType::File | NodeType::Dir => Ok(()),
                NodeType::SymLink => Err(FsError::InvalidInput),
                _ => Err(FsError::Unsupported),
            }
        }
    }

    /// The tree after creating a node of type `ty` as `name` in directory
    /// `dir`: a new empty file or directory is entered, or nothing changes.
    pub open spec fn create_node_effect(self, dir: usize, name: Seq<char>, ty: NodeType) -> Self {
        if self.create_node_result(dir, name, ty) is Ok {
            self.linked(
                dir,
                name,
                if ty == NodeType::Dir {
                    empty_dir(dir)
                } else {
                    NodeModel::File { content: Seq::empty() }
                },
            )
        } else {
            self
        }
    }

    /// What entering a new node as `name` in directory `dir` answers.
    pub open spec fn add_node_result(self, dir: usize, name: Seq<char>) -> Result<(), FsError> {
        if self.has_child(dir, name) {
            Err(FsError::AlreadyExists)
        } else {
            Ok(())
        }
    }

    /// The tree after entering `node` as `name` in directory `dir`.
    pub open spec fn add_node_effect(self, dir: usize, name: Seq<char>, node: NodeModel<F>) -> Self {
        if self.has_child(dir, name) {
            self
        } else {
            self.linked(dir, name, node)
        }
    }

    /// What creating a link to `target` as `name` in directory `dir` answers:
    /// an empty target is refused first, then a taken name.
    pub open spec fn symlink_node_result(self, dir: usize, name: Seq<char>, target: Seq<char>) -> Result<
        (),
        FsError,
    > {
        if target.len() == 0 {
            Err(FsError::InvalidInput)
        } else {
            self.add_node_result(dir, name)
        }
    }

    /// The tree after creating a link to `target` as `name` in directory `dir`.
    pub open spec fn symlink_node_effect(self, dir: usize, name: Seq<char>, target: Seq<char>) -> Self {
        if target.len() == 0 {
            self
        } else {
            self.add_node_effect(dir, name, NodeModel::Symlink { link: LinkModel::Fixed(target) })
        }
    }

    /// What removing `name` from directory `dir` answers: the name must be
    /// there, and a directory must be empty to be removed.
    pub open spec fn remove_node_result(self, dir: usize, name: Seq<char>) -> Result<
        (),
        FsError,
    > {
        if !self.has_child(dir, name) {
            Err(FsError::NotFound)
        } else if self.is_dir(self.child(dir, name)) && !self.is_empty_dir(self.child(dir, name)) {
            Err(FsError::DirectoryNotEmpty)
        } else {
            Ok(())
        }
    }

    /// The tree after removing `name` from directory `dir`.
    pub open spec fn remove_node_effect(self, dir: usize, name: Seq<char>) -> Self {
        if self.remove_node_result(dir, name) is Ok {
            self.unlinked(dir, name)
        } else {
            self
        }
    }

    /// What creating a node of type `ty` at `path` from directory `dir`
    /// answers. A path that ends in the directory itself or its parent names
    /// what is already there.
    pub open spec fn create_result(self, dir: usize, path: Seq<char>, ty: NodeType) -> Result<
        Reach<(), Seq<char>>,
        FsError,
    > {
        match self.locate(dir, path) {
            Err(e) => Err(e),
            Ok(Reach::Outer(rest)) => Ok(Reach::Outer(rest)),
            Ok(Reach::Local((at, name))) => if is_reserved_name(name) {
                Ok(Reach::Local(()))
            } else {
                match self.create_node_result(at, name, ty) {
                    Err(e) => Err(e),
                    Ok(()) => Ok(Reach::Local(())),
                }
            },
        }
    }

    /// The tree after creating a node of type `ty` at `path` from directory `dir`.
    pub open spec fn create_effect(self, dir: usize, path: Seq<char>, ty: NodeType) -> Self {
        match self.locate(dir, path) {
            Ok(Reach::Local((at, name))) => if is_reserved_name(name) {
                self
            } else {
                self.create_node_effect(at, name, ty)
            },
            _ => self,
        }
    }

    /// What removing the entry at `path` from directory `dir` answers. The
    /// directory itself and its parent cannot be removed.
    pub open spec fn remove_result(self, dir: usize, path: Seq<char>) -> Result<
        Reach<(), Seq<char>>,
        FsError,
    > {
        match self.locate(dir, path) {
            Err(e) => Err(e),
            Ok(Reach::Outer(rest)) => Ok(Reach::Outer(rest)),
            Ok(Reach::Local((at, name))) => if is_reserved_name(name) {
                Err(FsError::InvalidInput)
            } else {
                match self.remove_node_result(at, name) {
                    Err(e) => Err(e),
                    Ok(()) => Ok(Reach::Local(())),
                }
            },
        }
    }

    /// The tree after removing the entry at `path` from directory `dir`.
    pub open spec fn remove_effect(self, dir: usize, path: Seq<char>) -> Self {
        match self.locate(dir, path) {
            Ok(Reach::Local((at, name))) => if is_reserved_name(name) {
                self
            } else {
                self.remove_node_effect(at, name)
            },
            _ => self,
        }
    }

    /// What creating a link to `target` at `path` from directory `dir`
    /// answers. An empty target is refused before the path is looked at.
    pub open spec fn symlink_result(self, dir: usize, target: Seq<char>, path: Seq<char>) -> Result<
        Reach<(), Seq<char>>,
        FsError,
    > {
        if target.len() == 0 {
            Err(FsError::InvalidInput)
        } else {
            match self.locate(dir, path) {
                Err(e) => Err(e),
                Ok(Reach::Outer(rest)) => Ok(Reach::Outer(rest)),
                Ok(Reach::Local((at, name))) => if is_reserved_name(name) {
                    Err(FsError::InvalidInput)
                } else {
                    match self.symlink_node_result(at, name, target) {
                        Err(e) => Err(e),
                        Ok(()) => Ok(Reach::Local(())),
                    }
                },
            }
        }
    }

    /// The tree after creating a link to `target` at `path` from directory `dir`.
    pub open spec fn symlink_effect(self, dir: usize, target: Seq<char>, path: Seq<char>) -> Self {
        if target.len() == 0 {
            self
        } else {
            match self.locate(dir, path) {
                Ok(Reach::Local((at, name))) => if is_reserved_name(name) {
                    self
                } else {
                    self.symlink_node_effect(at, name, target)
                },
                _ => self,
            }
        }
    }

    /// What reading the link at `path` from directory `dir` may answer, and
    /// what it then leaves in a buffer that held `before`.
    pub open spec fn readlink_result(
        self,
        dir: usize,
        path: Seq<char>,
        before: Seq<u8>,
        after: Seq<u8>,
        res: Result<Reach<usize, Seq<char>>, FsError>,
    ) -> bool {
        match self.locate_link(dir, path) {
            Err(e) => res == Err::<Reach<usize, Seq<char>>, FsError>(e) && after == before,
            Ok(Reach::Outer(rest)) => res == Ok::<Reach<usize, Seq<char>>, FsError>(
                Reach::Outer(rest),
            ) && after == before,
            Ok(Reach::Local(link)) => res matches Ok(Reach::Local(count)) && self.link(
                link,
            ).read_into(before, after, count as int),
        }
    }

    /// The directory and the name under which a dynamic link is entered for
    /// `path`: the name is what follows the last slash, the directory is what
    /// the part before it resolves to from the root, or the root itself.
    pub open spec fn dynamic_site(self, path: Seq<char>) -> Result<(usize, Seq<char>), FsError> {
        match parent_part(path) {
            None => Ok((0usize, path)),
            Some(above) => if above.len() == 0 {
                Ok((0usize, final_name(path)))
            } else {
                match self.resolve(0, above) {
                    Err(e) => Err(e),
                    Ok(Reach::Outer(_)) => Err(FsError::NotADirectory),
                    Ok(Reach::Local(node)) => if self.is_dir(node) {
                        Ok((node, final_name(path)))
                    } else {
                        Err(FsError::NotADirectory)
                    },
                }
            },
        }
    }

    /// What entering a dynamic link for `path` answers.
    pub open spec fn add_dynamic_result(self, path: Seq<char>) -> Result<(), FsError> {
        match self.dynamic_site(path) {
            Err(e) => Err(e),
            Ok((at, name)) => self.add_node_result(at, name),
        }
    }

    /// The tree after entering a dynamic link with generator `f` for `path`.
    pub open spec fn add_dynamic_effect(self, path: Seq<char>, f: F) -> Self {
        match self.dynamic_site(path) {
            Err(_) => self,
            Ok((at, name)) => self.add_node_effect(
                at,
                name,
                NodeModel::Symlink { link: LinkModel::Computed(f) },
            ),
        }
    }

    /// The tree after `node` has been stored under a new handle and entered in
    /// directory `dir` as `name`, at the place its name gives it.
    pub open spec fn linked(self, dir: usize, name: Seq<char>, node: NodeModel<F>) -> Self {
        let at = rank(self.names(dir), name) as int;
        let dir_after = NodeModel::Dir {
            parent: self.parent(dir),
            names: self.names(dir).insert(at, name),
            children: self.children(dir).insert(at, self.nodes.len() as usize),
        };
        FsModel { nodes: self.nodes.update(dir as int, dir_after).push(node), outer: self.outer }
    }

    /// The tree after the entry `name` has left directory `dir`. The node it
    /// named keeps its handle.
    pub open spec fn unlinked(self, dir: usize, name: Seq<char>) -> Self {
        let at = self.names(dir).index_of(name);
        let dir_after = NodeModel::Dir {
            parent: self.parent(dir),
            names: self.names(dir).remove(at),
            children: self.children(dir).remove(at),
        };
        FsModel { nodes: self.nodes.update(dir as int, dir_after), outer: self.outer }
    }

    /// The tree after a mount under a node whose parent is `above`: the first
    /// outer node ever given is remembered for good, and the root's parent is
    /// that remembered node, or nothing where `above` is nothing.
    pub open spec fn mounted(self, above: Option<P>) -> Self {
        let root_after = NodeModel::Dir {
            parent: if above is Some {
                Parent::Outer
            } else {
                Parent::Absent
            },
            names: self.names(0),
            children: self.children(0),
        };
        FsModel {
            nodes: self.nodes.update(0, root_after),
            outer: if self.outer is None {
                above
            } else {
                self.outer
            },
        }
    }

    /// A node that may be entered in directory `dir`: a directory must be
    /// empty and have `dir` for its parent, a link must be well formed.
    pub open spec fn may_enter(self, dir: usize, node: NodeModel<F>) -> bool {
        match node {
            NodeModel::Dir { parent, names, children } => parent == Parent::Dir(dir) && names.len()
                == 0 && children.len() == 0,
            NodeModel::File { .. } => true,
            NodeModel::Symlink { link } => link.wf(),
        }
    }
}

} // verus!
