//! The filesystem itself: the arena that owns every node, the handles by
//! which directories are addressed, and what a directory does with a single
//! name.

use vstd::prelude::*;
use crate::file::FileNode;
use crate::model::{empty_root, filled, FsModel, NodeModel, Parent, Place};
use crate::name::{compare_names, name_lt, rank, strictly_sorted, NameOrder};
use crate::name::{lemma_name_lt_asymmetric, lemma_name_lt_irreflexive, lemma_name_lt_transitive};
use crate::name::{lemma_rank_sorted, lemma_sorted_unique};
use crate::path::{names_parent, names_self};
use crate::symlink::SymlinkNode;
use crate::types::{DirEntry, FsError, NodeAttr, NodeType, DIR_SIZE};

verus! {

/// One entry of a directory: a name and the handle of the node it names.
struct Entry {
    name: String,
    node: usize,
}

/// What a directory holds: the link to its parent and its entries, kept in
/// ascending order of their names.
struct Directory {
    parent: Parent,
    entries: Vec<Entry>,
}

/// What the arena holds under one handle.
enum Slot<F> {
    Dir(Directory),
    File(FileNode),
    Symlink(SymlinkNode<F>),
}

/// A node that can be added to a directory under a name.
pub enum Node<F> {
    /// A regular file.
    File(FileNode),
    /// A symbolic link.
    Symlink(SymlinkNode<F>),
}

/// An in-memory filesystem. `P` is the type of the node above its root, once
/// it is mounted; `F` is the type of the generators of its dynamic links.
///
/// All nodes live in one arena, the root under handle 0. A handle is given
/// out once and never reused.
pub struct RamFileSystem<P, F> {
    nodes: Vec<Slot<F>>,
    outer: Option<P>,
}

/// The handle of a directory of a [`RamFileSystem`].
#[derive(Clone, Copy, Debug, PartialEq, Eq, Structural)]
pub struct DirNode {
    id: usize,
}

impl Directory {
    /// The names of the entries, in order.
    spec fn names(&self) -> Seq<Seq<char>> {
        Seq::new(self.entries@.len(), |i: int| self.entries@[i].name@)
    }

    /// The nodes of the entries, in the order of their names.
    spec fn children(&self) -> Seq<usize> {
        Seq::new(self.entries@.len(), |i: int| self.entries@[i].node)
    }
}

impl<F: Fn() -> String> Slot<F> {
    /// The node as the model has it.
    spec fn model(&self) -> NodeModel<F> {
        match self {
            Slot::Dir(d) => NodeModel::Dir {
                parent: d.parent,
                names: d.names(),
                children: d.children(),
            },
            Slot::File(f) => NodeModel::File { content: f@ },
            Slot::Symlink(l) => NodeModel::Symlink { link: l@ },
        }
    }
}

impl<F: Fn() -> String> Node<F> {
    /// The node as the tree will hold it.
    pub open spec fn model(&self) -> NodeModel<F> {
        match self {
            Node::File(f) => NodeModel::File { content: f@ },
            Node::Symlink(l) => NodeModel::Symlink { link: l@ },
        }
    }
}

impl<P, F: Fn() -> String> RamFileSystem<P, F> {
    /// The tree that the filesystem holds.
    pub closed spec fn view(&self) -> FsModel<P, F> {
        FsModel {
            nodes: Seq::new(self.nodes@.len(), |i: int| self.nodes@[i].model()),
            outer: self.outer,
        }
    }

    /// The filesystem holds a well-formed tree.
    pub open spec fn wf(&self) -> bool {
        self@.wf()
    }

    /// A filesystem that holds an empty root.
    pub fn new() -> (fs: Self)
        ensures
            fs.wf(),
            fs@ == FsModel::<P, F>::fresh(),
    {
        let root = Directory { parent: Parent::Absent, entries: Vec::new() };
        let mut nodes: Vec<Slot<F>> = Vec::new();
        nodes.push(Slot::Dir(root));
        let fs = RamFileSystem { nodes, outer: None };
        proof {
            assert(root.names() =~= Seq::<Seq<char>>::empty());
            assert(root.children() =~= Seq::<usize>::empty());
            assert(fs@.nodes =~= seq![empty_root::<F>()]);
            assert(fs@.node_wf(0));
        }
        fs
    }

    /// The directory held at `dir`.
    fn directory(&self, dir: usize) -> (d: &Directory)
        requires
            self@.is_dir(dir),
        ensures
            d.parent == self@.parent(dir),
            d.names() == self@.names(dir),
            d.children() == self@.children(dir),
            self.nodes@[dir as int] == Slot::<F>::Dir(*d),
    {
        match &self.nodes[dir] {
            Slot::Dir(d) => d,
            _ => {
                proof {
                    assert(self@.nodes[dir as int] is Dir);
                }
                vstd::pervasive::unreached()
            },
        }
    }

    /// Whether directory `dir` has `name`, and the place of `name` in its listing.
    fn position(&self, dir: usize, name: &str) -> (found: (bool, usize))
        requires
            self.wf(),
            self@.is_dir(dir),
        ensures
            found.0 == self@.has_child(dir, name@),
            found.1 == rank(self@.names(dir), name@),
            found.0 ==> found.1 < self@.names(dir).len() && self@.names(dir)[found.1 as int]
                == name@ && self@.names(dir).index_of(name@) == found.1,
    {
        let d = self.directory(dir);
        let ghost names = self@.names(dir);
        proof {
            assert(self@.node_wf(dir));
            lemma_rank_sorted(names, name@);
            lemma_name_lt_irreflexive(name@);
        }
        let mut lo: usize = 0;
        let mut hi: usize = d.entries.len();
        while lo < hi
            invariant
                lo <= hi <= names.len(),
                names == d.names(),
                names == self@.names(dir),
                names.len() == d.entries@.len(),
                strictly_sorted(names),
                forall|i: int| 0 <= i < lo ==> name_lt(#[trigger] names[i], name@),
                forall|i: int| hi <= i < names.len() ==> name_lt(name@, #[trigger] names[i]),
                forall|i: int|
                    0 <= i < names.len() ==> (name_lt(#[trigger] names[i], name@) <==> i < rank(
                        names,
                        name@,
                    )),
                !name_lt(name@, name@),
            decreases hi - lo,
        {
            let mid: usize = lo + (hi - lo) / 2;
            assert(names[mid as int] == d.entries@[mid as int].name@);
            match compare_names(d.entries[mid].name.as_str(), name) {
                NameOrder::Before => {
                    proof {
                        assert forall|i: int| 0 <= i < mid + 1 implies name_lt(
                            #[trigger] names[i],
                            name@,
                        ) by {
                            if i < mid {
                                lemma_name_lt_transitive(names[i], names[mid as int], name@);
                            }
                        }
                    }
                    lo = mid + 1;
                },
                NameOrder::Same => {
                    proof {
                        assert forall|i: int| 0 <= i < names.len() && names[i] == name@ implies i
                            == mid by {
                            lemma_sorted_unique(names, i, mid as int);
                        }
                        if mid > 0 {
                            assert(name_lt(names[mid - 1], names[mid as int]));
                        }
                    }
                    return (true, mid);
                },
                NameOrder::After => {
                    proof {
                        assert forall|i: int| mid <= i < names.len() implies name_lt(
                            name@,
                            #[trigger] names[i],
                        ) by {
                            if i > mid {
                                lemma_name_lt_transitive(name@, names[mid as int], names[i]);
                            }
                        }
                    }
                    hi = mid;
                },
            }
        }
        proof {
            assert forall|i: int| 0 <= i < names.len() implies names[i] != name@ by {
                lemma_name_lt_asymmetric(names[i], name@);
            }
            if lo < names.len() {
                lemma_name_lt_asymmetric(names[lo as int], name@);
            }
            if lo > 0 {
                assert(name_lt(names[lo - 1], name@));
            }
        }
        (false, lo)
    }

    /// Stores `node` under a new handle and enters it in directory `dir` as
    /// `name`, at position `at`.
    fn attach(&mut self, dir: usize, at: usize, name: &str, node: Slot<F>)
        requires
            old(self).wf(),
            old(self)@.is_dir(dir),
            !old(self)@.has_child(dir, name@),
            at == rank(old(self)@.names(dir), name@),
            old(self)@.may_enter(dir, node.model()),
        ensures
            final(self).wf(),
            final(self)@ == old(self)@.linked(dir, name@, node.model()),
            final(self)@.keeps_handles_of(old(self)@),
    {
        let id: usize = self.nodes.len();
        proof {
            assert(self@.node_wf(dir));
            lemma_rank_sorted(self@.names(dir), name@);
        }
        match &mut self.nodes[dir] {
            Slot::Dir(d) => {
                d.entries.insert(at, Entry { name: name.to_owned(), node: id });
                proof {
                    assert(d.names() =~= old(self)@.names(dir).insert(at as int, name@));
                    assert(d.children() =~= old(self)@.children(dir).insert(at as int, id));
                }
            },
            _ => {},
        }
        self.nodes.push(node);
        proof {
            assert(self.nodes.len() == id + 1);
            old(self)@.lemma_linked_wf(dir, name@, node.model());
            assert(self@.nodes =~= old(self)@.linked(dir, name@, node.model()).nodes);
        }
    }

    /// Takes entry `at` out of directory `dir`.
    fn detach(&mut self, dir: usize, at: usize, name: Ghost<Seq<char>>)
        requires
            old(self).wf(),
            old(self)@.is_dir(dir),
            old(self)@.has_child(dir, name@),
            at == old(self)@.names(dir).index_of(name@),
        ensures
            final(self).wf(),
            final(self)@ == old(self)@.unlinked(dir, name@),
            final(self)@.keeps_handles_of(old(self)@),
    {
        proof {
            assert(self@.node_wf(dir));
            self@.lemma_unlinked_wf(dir, name@);
        }
        match &mut self.nodes[dir] {
            Slot::Dir(d) => {
                d.entries.remove(at);
                proof {
                    assert(d.names() =~= old(self)@.names(dir).remove(at as int));
                    assert(d.children() =~= old(self)@.children(dir).remove(at as int));
                }
            },
            _ => {},
        }
        proof {
            assert(self@.nodes =~= old(self)@.unlinked(dir, name@).nodes);
        }
    }

    /// The handle of the root directory.
    pub fn root_dir_node(&self) -> (root: DirNode)
        requires
            self.wf(),
        ensures
            root.id() == 0,
            self@.is_dir(root.id()),
    {
        DirNode { id: 0 }
    }

    /// The type of node `id`, if `id` is the handle of a node.
    pub fn node_type(&self, id: usize) -> (ty: Option<NodeType>)
        ensures
            ty == if self@.has_node(id) {
                Some(self@.node_type(id))
            } else {
                None
            },
    {
        if id < self.nodes.len() {
            Some(
                match &self.nodes[id] {
                    Slot::Dir(_) => NodeType::Dir,
                    Slot::File(_) => NodeType::File,
                    Slot::Symlink(_) => NodeType::SymLink,
                },
            )
        } else {
            None
        }
    }

    /// The handle `id` as the handle of a directory, if it is one.
    pub fn as_dir(&self, id: usize) -> (dir: Option<DirNode>)
        ensures
            match dir {
                Some(d) => d.id() == id && self@.is_dir(id),
                None => !self@.is_dir(id),
            },
    {
        if id < self.nodes.len() {
            match &self.nodes[id] {
                Slot::Dir(_) => Some(DirNode { id }),
                _ => None,
            }
        } else {
            None
        }
    }

    /// The symbolic link held at `id`, if `id` is the handle of one.
    pub fn symlink_node(&self, id: usize) -> (link: Option<&SymlinkNode<F>>)
        requires
            self.wf(),
        ensures
            match link {
                Some(l) => self@.is_symlink(id) && l@ == self@.link(id) && l.wf(),
                None => !self@.is_symlink(id),
            },
    {
        if id < self.nodes.len() {
            match &self.nodes[id] {
                Slot::Symlink(l) => {
                    proof {
                        assert(self@.node_wf(id));
                    }
                    Some(l)
                },
                _ => None,
            }
        } else {
            None
        }
    }

    /// The regular file held at `id`, if `id` is the handle of one.
    pub fn file_node(&self, id: usize) -> (file: Option<&FileNode>)
        ensures
            match file {
                Some(f) => self@.has_node(id) && self@.nodes[id as int] == (NodeModel::<
                    F,
                >::File { content: f@ }),
                None => !(self@.has_node(id) && self@.nodes[id as int] is File),
            },
    {
        if id < self.nodes.len() {
            match &self.nodes[id] {
                Slot::File(f) => Some(f),
                _ => None,
            }
        } else {
            None
        }
    }

    /// Records a mount under a node whose parent is `above`. The first outer
    /// node ever given is remembered for good; from then on the root's parent
    /// is that node whenever `above` is some node, and nothing when it is none.
    pub fn mount(&mut self, above: Option<P>) -> (res: Result<(), FsError>)
        requires
            old(self).wf(),
        ensures
            res is Ok,
            final(self).wf(),
            final(self)@ == old(self)@.mounted(above),
            final(self)@.keeps_handles_of(old(self)@),
    {
        proof {
            self@.lemma_mounted_wf(above);
        }
        let attached = above.is_some();
        if self.outer.is_none() {
            self.outer = above;
        }
        match &mut self.nodes[0] {
            Slot::Dir(d) => {
                d.parent = if attached {
                    Parent::Outer
                } else {
                    Parent::Absent
                };
            },
            _ => {},
        }
        proof {
            assert(self@.nodes =~= old(self)@.mounted(above).nodes);
        }
        Ok(())
    }

    /// The node above the root, if the root has one now.
    pub fn outer_parent(&self) -> (above: Option<&P>)
        requires
            self.wf(),
        ensures
            match above {
                Some(p) => self@.parent(0) is Outer && self@.outer == Some(*p),
                None => !(self@.parent(0) is Outer),
            },
    {
        let root = self.directory(0);
        match root.parent {
            Parent::Outer => self.outer.as_ref(),
            _ => None,
        }
    }
}

impl<P, F: Fn() -> String> Default for RamFileSystem<P, F> {
    /// A filesystem that holds an empty root.
    fn default() -> (fs: Self)
        ensures
            fs.wf(),
            fs@ == FsModel::<P, F>::fresh(),
    {
        Self::new()
    }
}

impl DirNode {
    /// The handle as a number.
    pub closed spec fn id(&self) -> usize {
        self.id
    }

    /// The handle as a number.
    pub fn node_id(&self) -> (id: usize)
        ensures
            id == self.id(),
    {
        self.id
    }

    /// The names in this directory, in ascending order.
    pub fn get_entries<P, F: Fn() -> String>(&self, fs: &RamFileSystem<P, F>) -> (names: Vec<String>)
        requires
            fs.wf(),
            fs@.is_dir(self.id()),
        ensures
            names@.len() == fs@.names(self.id()).len(),
            forall|i: int| 0 <= i < names@.len() ==> (#[trigger] names@[i])@ == fs@.names(self.id())[i],
    {
        let d = fs.directory(self.id);
        let mut names: Vec<String> = Vec::new();
        let mut i: usize = 0;
        while i < d.entries.len()
            invariant
                i <= d.entries@.len(),
                names@.len() == i,
                forall|k: int| 0 <= k < i ==> (#[trigger] names@[k])@ == d.names()[k],
            decreases d.entries@.len() - i,
        {
            names.push(d.entries[i].name.clone());
            i += 1;
        }
        names
    }

    /// Whether this directory has an entry called `name`.
    pub fn exist<P, F: Fn() -> String>(&self, fs: &RamFileSystem<P, F>, name: &str) -> (found: bool)
        requires
            fs.wf(),
            fs@.is_dir(self.id()),
        ensures
            found == fs@.has_child(self.id(), name@),
    {
        fs.position(self.id, name).0
    }

    /// Enters `node` in this directory as `name`, unless the name is taken.
    pub fn add_node<P, F: Fn() -> String>(
        &self,
        fs: &mut RamFileSystem<P, F>,
        name: &str,
        node: Node<F>,
    ) -> (res: Result<(), FsError>)
        requires
            old(fs).wf(),
            old(fs)@.is_dir(self.id()),
            node matches Node::Symlink(l) ==> l.wf(),
        ensures
            final(fs).wf(),
            res == old(fs)@.add_node_result(self.id(), name@),
            final(fs)@ == old(fs)@.add_node_effect(self.id(), name@, node.model()),
            final(fs)@.keeps_handles_of(old(fs)@),
    {
        let (found, at) = fs.position(self.id, name);
        if found {
            Err(FsError::AlreadyExists)
        } else {
            let slot = match node {
                Node::File(f) => Slot::File(f),
                Node::Symlink(l) => Slot::Symlink(l),
            };
            fs.attach(self.id, at, name, slot);
            Ok(())
        }
    }

    /// Creates an empty file or directory in this directory as `name`.
    pub fn create_node<P, F: Fn() -> String>(
        &self,
        fs: &mut RamFileSystem<P, F>,
        name: &str,
        ty: NodeType,
    ) -> (res: Result<(), FsError>)
        requires
            old(fs).wf(),
            old(fs)@.is_dir(self.id()),
        ensures
            final(fs).wf(),
            res == old(fs)@.create_node_result(self.id(), name@, ty),
            final(fs)@ == old(fs)@.create_node_effect(self.id(), name@, ty),
            final(fs)@.keeps_handles_of(old(fs)@),
    {
        let (found, at) = fs.position(self.id, name);
        if found {
            return Err(FsError::AlreadyExists);
        }
        let slot = match ty {
            NodeType::File => Slot::File(FileNode::new()),
            NodeType::Dir => {
                let d = Directory { parent: Parent::Dir(self.id), entries: Vec::new() };
                proof {
                    assert(d.names() =~= Seq::<Seq<char>>::empty());
                    assert(d.children() =~= Seq::<usize>::empty());
                }
                Slot::Dir(d)
            },
            NodeType::SymLink => {
                return Err(FsError::InvalidInput);
            },
            _ => {
                return Err(FsError::Unsupported);
            },
        };
        fs.attach(self.id, at, name, slot);
        Ok(())
    }

    /// Creates a symbolic link with the fixed target `target` in this
    /// directory as `name`. The target must not be empty.
    pub fn create_symlink_node<P, F: Fn() -> String>(
        &self,
        fs: &mut RamFileSystem<P, F>,
        name: &str,
        target: &str,
    ) -> (res: Result<(), FsError>)
        requires
            old(fs).wf(),
            old(fs)@.is_dir(self.id()),
        ensures
            final(fs).wf(),
            res == old(fs)@.symlink_node_result(self.id(), name@, target@),
            final(fs)@ == old(fs)@.symlink_node_effect(self.id(), name@, target@),
            final(fs)@.keeps_handles_of(old(fs)@),
    {
        if target.is_empty() {
            return Err(FsError::InvalidInput);
        }
        let link = SymlinkNode::new_static(target.to_owned());
        self.add_node(fs, name, Node::Symlink(link))
    }

    /// Removes the entry `name` from this directory. A directory that still
    /// has entries is not removed.
    pub fn remove_node<P, F: Fn() -> String>(&self, fs: &mut RamFileSystem<P, F>, name: &str) -> (res:
        Result<(), FsError>)
        requires
            old(fs).wf(),
            old(fs)@.is_dir(self.id()),
        ensures
            final(fs).wf(),
            res == old(fs)@.remove_node_result(self.id(), name@),
            final(fs)@ == old(fs)@.remove_node_effect(self.id(), name@),
            final(fs)@.keeps_handles_of(old(fs)@),
    {
        let (found, at) = fs.position(self.id, name);
        if !found {
            return Err(FsError::NotFound);
        }
        let child = fs.directory(self.id).entries[at].node;
        proof {
            assert(fs@.node_wf(self.id));
            assert(fs@.entry_wf(self.id, at as int));
            assert(child == fs@.child(self.id, name@));
        }
        match &fs.nodes[child] {
            Slot::Dir(d) => {
                if d.entries.len() > 0 {
                    return Err(FsError::DirectoryNotEmpty);
                }
            },
            _ => {},
        }
        fs.detach(self.id, at, Ghost(name@));
        Ok(())
    }

    /// Where the single name `name` leads from this directory: to itself for
    /// the empty name and `.`, to its parent for `..`, else to the entry of
    /// that name.
    pub fn traverse_path<P, F: Fn() -> String>(&self, fs: &RamFileSystem<P, F>, name: &str) -> (res:
        Result<Place, FsError>)
        requires
            fs.wf(),
            fs@.is_dir(self.id()),
        ensures
            res == fs@.step(self.id(), name@),
    {
        if names_self(name) {
            Ok(Place::Node(self.id))
        } else if names_parent(name) {
            match fs.directory(self.id).parent {
                Parent::Absent => Err(FsError::NotFound),
                Parent::Dir(p) => Ok(Place::Node(p)),
                Parent::Outer => Ok(Place::Outer),
            }
        } else {
            let (found, at) = fs.position(self.id, name);
            if found {
                Ok(Place::Node(fs.directory(self.id).entries[at].node))
            } else {
                Err(FsError::NotFound)
            }
        }
    }

    /// What this directory has above it, if anything.
    pub fn parent<P, F: Fn() -> String>(&self, fs: &RamFileSystem<P, F>) -> (above: Option<Place>)
        requires
            fs.wf(),
            fs@.is_dir(self.id()),
        ensures
            above == match fs@.parent(self.id()) {
                Parent::Absent => None,
                Parent::Dir(p) => Some(Place::Node(p)),
                Parent::Outer => Some(Place::Outer),
            },
    {
        match fs.directory(self.id).parent {
            Parent::Absent => None,
            Parent::Dir(p) => Some(Place::Node(p)),
            Parent::Outer => Some(Place::Outer),
        }
    }

    /// Fills `dirents` with the entries of this directory's listing from
    /// position `start_idx` on, as far as there are slots and entries, and
    /// returns how many were filled. The listing is `.`, `..`, then the
    /// entries by ascending name.
    pub fn read_dir<P, F: Fn() -> String>(
        &self,
        fs: &RamFileSystem<P, F>,
        start_idx: usize,
        dirents: &mut [DirEntry],
    ) -> (res: Result<usize, FsError>)
        requires
            fs.wf(),
            fs@.is_dir(self.id()),
        ensures
            res matches Ok(count) && filled(
                fs@.listing(self.id()),
                start_idx as int,
                old(dirents)@,
                final(dirents)@,
                count as int,
            ),
    {
        let d = fs.directory(self.id);
        let n: usize = d.entries.len();
        let slots: usize = dirents.len();
        let ghost listing = fs@.listing(self.id());
        proof {
            assert(fs@.node_wf(self.id));
        }
        let mut i: usize = 0;
        while i < slots
            invariant
                fs.wf(),
                fs@.is_dir(self.id),
                listing == fs@.listing(self.id),
                listing.len() == n + 2,
                d.names() == fs@.names(self.id),
                d.children() == fs@.children(self.id),
                n == d.entries@.len(),
                slots == dirents@.len(),
                dirents@.len() == old(dirents)@.len(),
                i <= slots,
                i == 0 || start_idx + i <= listing.len(),
                forall|k: int| 0 <= k < i ==> (#[trigger] dirents@[k])@ == listing[start_idx + k],
                forall|k: int| i <= k < slots ==> #[trigger] dirents@[k] == old(dirents)@[k],
            decreases slots - i,
        {
            if start_idx < 2 && i < 2 - start_idx {
                let name = if start_idx + i == 0 {
                    ".".to_owned()
                } else {
                    "..".to_owned()
                };
                proof {
                    reveal_strlit(".");
                    reveal_strlit("..");
                    assert(name@ =~= listing[start_idx + i].0);
                }
                dirents[i] = DirEntry { name, ty: NodeType::Dir };
            } else {
                let skipped: usize = if start_idx < 2 {
                    0
                } else {
                    start_idx - 2
                };
                let taken: usize = if start_idx < 2 {
                    i - (2 - start_idx)
                } else {
                    i
                };
                if taken >= n || skipped >= n - taken {
                    return Ok(i);
                }
                let j: usize = skipped + taken;
                assert(j == start_idx + i - 2);
                let entry = &d.entries[j];
                proof {
                    assert(fs@.node_wf(self.id));
                    assert(fs@.entry_wf(self.id, j as int));
                    assert(d.names()[j as int] == entry.name@);
                    assert(d.children()[j as int] == entry.node);
                }
                let ty = match &fs.nodes[entry.node] {
                    Slot::Dir(_) => NodeType::Dir,
                    Slot::File(_) => NodeType::File,
                    Slot::Symlink(_) => NodeType::SymLink,
                };
                dirents[i] = DirEntry { name: entry.name.clone(), ty };
            }
            i += 1;
        }
        Ok(slots)
    }

    /// The attributes that every directory reports.
    pub fn get_attr(&self) -> (res: Result<NodeAttr, FsError>)
        ensures
            res == Ok::<NodeAttr, FsError>(
                NodeAttr { mode: 0o755, ty: NodeType::Dir, size: 4096, blocks: 0 },
            ),
    {
        Ok(NodeAttr::new_dir(DIR_SIZE, 0))
    }
}

} // verus!
