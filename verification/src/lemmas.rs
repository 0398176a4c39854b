//! Facts about the model that the operations and the laws rest on: what
//! each change keeps and what it leaves alone.

use vstd::prelude::*;
use crate::model::{FsModel, NodeModel, Place, Reach};
use crate::name::{lemma_insert_sorted, lemma_remove_sorted, lemma_sorted_unique, rank};
use crate::path::{first_segment, is_parent_name, is_reserved_name, is_self_name, lemma_split};
use crate::path::{lemma_single_segment, lemma_split_joined, remainder};
use crate::types::FsError;

verus! {

impl<P, F: Fn() -> String> FsModel<P, F> {
    /// Entering a new node under a new name keeps the tree well formed.
    pub proof fn lemma_linked_wf(self, dir: usize, name: Seq<char>, node: NodeModel<F>)
        requires
            self.wf(),
            self.is_dir(dir),
            !self.has_child(dir, name),
            self.has_room(),
            self.may_enter(dir, node),
        ensures
            self.linked(dir, name, node).wf(),
    {
        let after = self.linked(dir, name, node);
        let fresh = self.nodes.len() as usize;
        let at = rank(self.names(dir), name) as int;
        assert(self.node_wf(dir));
        assert(self.node_wf(0));
        lemma_insert_sorted(self.names(dir), name);
        assert forall|id: usize| after.has_node(id) implies #[trigger] after.node_wf(id) by {
            if id == fresh {
            } else {
                assert(self.node_wf(id));
                if self.is_dir(id) {
                    assert forall|i: int| 0 <= i < after.children(id).len() implies #[trigger] after.entry_wf(
                        id,
                        i,
                    ) by {
                        if id == dir {
                            if i < at {
                                assert(self.entry_wf(id, i));
                            } else if i > at {
                                assert(self.entry_wf(id, i - 1));
                            }
                        } else {
                            assert(self.entry_wf(id, i));
                        }
                    }
                }
            }
        }
    }

    /// Taking an entry out keeps the tree well formed.
    pub proof fn lemma_unlinked_wf(self, dir: usize, name: Seq<char>)
        requires
            self.wf(),
            self.is_dir(dir),
            self.has_child(dir, name),
        ensures
            self.unlinked(dir, name).wf(),
    {
        let after = self.unlinked(dir, name);
        let at = self.names(dir).index_of(name);
        assert(self.node_wf(dir));
        assert(self.node_wf(0));
        lemma_remove_sorted(self.names(dir), at);
        assert forall|id: usize| after.has_node(id) implies #[trigger] after.node_wf(id) by {
            assert(self.node_wf(id));
            if self.is_dir(id) {
                assert forall|i: int| 0 <= i < after.children(id).len() implies #[trigger] after.entry_wf(
                    id,
                    i,
                ) by {
                    if id == dir {
                        if i < at {
                            assert(self.entry_wf(id, i));
                        } else {
                            assert(self.entry_wf(id, i + 1));
                        }
                    } else {
                        assert(self.entry_wf(id, i));
                    }
                }
            }
        }
    }

    /// A mount keeps the tree well formed.
    pub proof fn lemma_mounted_wf(self, above: Option<P>)
        requires
            self.wf(),
        ensures
            self.mounted(above).wf(),
    {
        let after = self.mounted(above);
        assert(self.node_wf(0));
        assert forall|id: usize| after.has_node(id) implies #[trigger] after.node_wf(id) by {
            assert(self.node_wf(id));
            if self.is_dir(id) {
                assert forall|i: int| 0 <= i < after.children(id).len() implies #[trigger] after.entry_wf(
                    id,
                    i,
                ) by {
                    assert(self.entry_wf(id, i));
                }
            }
        }
    }

    /// What a new entry changes: the new name is there and names the new
    /// node; every other entry of every directory is as before, and so is
    /// every node but the directory itself.
    pub proof fn lemma_linked_entries(self, dir: usize, name: Seq<char>, node: NodeModel<F>)
        requires
            self.wf(),
            self.is_dir(dir),
            !self.has_child(dir, name),
        ensures
            self.linked(dir, name, node).nodes.len() == self.nodes.len() + 1,
            self.linked(dir, name, node).nodes[self.nodes.len() as int] == node,
            self.linked(dir, name, node).has_child(dir, name),
            self.linked(dir, name, node).child(dir, name) == self.nodes.len(),
            self.linked(dir, name, node).parent(dir) == self.parent(dir),
            self.linked(dir, name, node).names(dir).to_set() == self.names(dir).to_set().insert(
                name,
            ),
            forall|id: usize|
                self.has_node(id) && id != dir ==> #[trigger] self.linked(dir, name, node).nodes[id as int]
                    == self.nodes[id as int],
            forall|id: usize|
                self.has_node(id) ==> (#[trigger] self.linked(dir, name, node).is_dir(id)
                    <==> self.is_dir(id)),
            forall|other: Seq<char>|
                other != name ==> (#[trigger] self.linked(dir, name, node).has_child(dir, other)
                    <==> self.has_child(dir, other)),
            forall|other: Seq<char>|
                self.has_child(dir, other) ==> #[trigger] self.linked(dir, name, node).child(
                    dir,
                    other,
                ) == self.child(dir, other),
    {
        let after = self.linked(dir, name, node);
        let at = rank(self.names(dir), name) as int;
        let before_names = self.names(dir);
        let after_names = after.names(dir);
        assert(self.node_wf(dir));
        lemma_insert_sorted(before_names, name);
        assert(after_names == before_names.insert(at, name));
        assert(after_names[at] == name);
        assert forall|i: int| 0 <= i < after_names.len() && after_names[i] == name implies i
            == at by {
            lemma_sorted_unique(after_names, i, at);
        }
        assert forall|other: Seq<char>| other != name implies (#[trigger] after.has_child(
            dir,
            other,
        ) <==> self.has_child(dir, other)) by {
            if self.has_child(dir, other) {
                let i = before_names.index_of(other);
                let j = if i < at {
                    i
                } else {
                    i + 1
                };
                assert(after_names[j] == other);
            }
            if after.has_child(dir, other) {
                let j = after_names.index_of(other);
                let i = if j < at {
                    j
                } else {
                    j - 1
                };
                assert(before_names[i] == other);
            }
        }
        assert forall|other: Seq<char>| self.has_child(dir, other) implies #[trigger] after.child(
            dir,
            other,
        ) == self.child(dir, other) by {
            let i = before_names.index_of(other);
            let j = if i < at {
                i
            } else {
                i + 1
            };
            assert(after_names[j] == other);
            lemma_sorted_unique(after_names, j, after_names.index_of(other));
        }
        assert(after_names.to_set() =~= before_names.to_set().insert(name)) by {
            assert forall|x: Seq<char>| after_names.to_set().contains(x)
                <==> before_names.to_set().insert(name).contains(x) by {
                if x != name {
                    assert(after.has_child(dir, x) <==> self.has_child(dir, x));
                }
            }
        }
    }

    /// What taking an entry out changes: the name is gone; every other entry
    /// of every directory is as before, and so is every node but the directory.
    pub proof fn lemma_unlinked_entries(self, dir: usize, name: Seq<char>)
        requires
            self.wf(),
            self.is_dir(dir),
            self.has_child(dir, name),
        ensures
            self.unlinked(dir, name).nodes.len() == self.nodes.len(),
            !self.unlinked(dir, name).has_child(dir, name),
            self.unlinked(dir, name).parent(dir) == self.parent(dir),
            self.unlinked(dir, name).names(dir).len() + 1 == self.names(dir).len(),
            self.unlinked(dir, name).names(dir).to_set() == self.names(dir).to_set().remove(name),
            forall|id: usize|
                self.has_node(id) && id != dir ==> #[trigger] self.unlinked(dir, name).nodes[id as int]
                    == self.nodes[id as int],
            forall|id: usize|
                self.has_node(id) ==> (#[trigger] self.unlinked(dir, name).is_dir(id)
                    <==> self.is_dir(id)),
            forall|other: Seq<char>|
                other != name ==> (#[trigger] self.unlinked(dir, name).has_child(dir, other)
                    <==> self.has_child(dir, other)),
            forall|other: Seq<char>|
                other != name && self.has_child(dir, other) ==> #[trigger] self.unlinked(
                    dir,
                    name,
                ).child(dir, other) == self.child(dir, other),
    {
        let after = self.unlinked(dir, name);
        let before_names = self.names(dir);
        let after_names = after.names(dir);
        let at = before_names.index_of(name);
        assert(self.node_wf(dir));
        lemma_remove_sorted(before_names, at);
        assert(after_names == before_names.remove(at));
        assert forall|j: int| 0 <= j < after_names.len() implies after_names[j] != name by {
            let i = if j < at {
                j
            } else {
                j + 1
            };
            assert(after_names[j] == before_names[i]);
            if before_names[i] == name {
                lemma_sorted_unique(before_names, i, at);
            }
        }
        assert forall|other: Seq<char>| other != name implies (#[trigger] after.has_child(
            dir,
            other,
        ) <==> self.has_child(dir, other)) by {
            if self.has_child(dir, other) {
                let i = before_names.index_of(other);
                let j = if i < at {
                    i
                } else {
                    i - 1
                };
                assert(after_names[j] == other);
            }
            if after.has_child(dir, other) {
                let j = after_names.index_of(other);
                let i = if j < at {
                    j
                } else {
                    j + 1
                };
                assert(before_names[i] == other);
            }
        }
        assert forall|other: Seq<char>|
            other != name && self.has_child(dir, other) implies #[trigger] after.child(dir, other)
            == self.child(dir, other) by {
            let i = before_names.index_of(other);
            let j = if i < at {
                i
            } else {
                i - 1
            };
            assert(after_names[j] == other);
            lemma_sorted_unique(after_names, j, after_names.index_of(other));
        }
        assert(after_names.to_set() =~= before_names.to_set().remove(name)) by {
            assert forall|x: Seq<char>| after_names.to_set().contains(x)
                <==> before_names.to_set().remove(name).contains(x) by {
                if x != name {
                    assert(after.has_child(dir, x) <==> self.has_child(dir, x));
                }
            }
        }
    }

    /// A path leads to a node of the tree, if it leads to any in it.
    pub proof fn lemma_resolve_in_tree(self, dir: usize, path: Seq<char>)
        requires
            self.wf(),
            self.is_dir(dir),
        ensures
            self.resolve(dir, path) matches Ok(Reach::Local(node)) ==> self.has_node(node),
        decreases path.len(),
    {
        let name = first_segment(path);
        assert(self.node_wf(dir));
        assert(self.node_wf(0));
        match (self.step(dir, name), remainder(path)) {
            (Ok(Place::Node(node)), rest) => {
                if !is_self_name(name) && !is_parent_name(name) {
                    assert(self.entry_wf(dir, self.names(dir).index_of(name)));
                }
                match rest {
                    Some(rest) => {
                        if self.is_dir(node) {
                            lemma_split(path);
                            self.lemma_resolve_in_tree(node, rest);
                        }
                    },
                    None => {},
                }
            },
            _ => {},
        }
    }

    /// The directory that a path speaks of is a directory of the tree, and
    /// the name that it speaks of holds no slash.
    pub proof fn lemma_locate_in_tree(self, dir: usize, path: Seq<char>)
        requires
            self.wf(),
            self.is_dir(dir),
        ensures
            self.locate(dir, path) matches Ok(Reach::Local(site)) ==> self.is_dir(site.0)
                && !site.1.contains('/'),
        decreases path.len(),
    {
        lemma_split(path);
        match (self.step(dir, first_segment(path)), remainder(path)) {
            (Ok(Place::Node(node)), Some(rest)) => {
                if self.is_dir(node) {
                    self.lemma_locate_in_tree(node, rest);
                }
            },
            _ => {},
        }
    }

    /// A path leads where its last name leads from the directory that the
    /// segments before it lead to.
    pub proof fn lemma_resolve_by_locate(self, dir: usize, path: Seq<char>)
        ensures
            self.resolve(dir, path) == match self.locate(dir, path) {
                Err(e) => Err::<Reach<usize, Option<Seq<char>>>, FsError>(e),
                Ok(Reach::Outer(rest)) => Ok(Reach::Outer(Some(rest))),
                Ok(Reach::Local((at, name))) => match self.step(at, name) {
                    Err(e) => Err(e),
                    Ok(Place::Outer) => Ok(Reach::Outer(None)),
                    Ok(Place::Node(node)) => Ok(Reach::Local(node)),
                },
            },
        decreases path.len(),
    {
        match (self.step(dir, first_segment(path)), remainder(path)) {
            (Ok(Place::Node(node)), Some(rest)) => {
                if self.is_dir(node) {
                    lemma_split(path);
                    self.lemma_resolve_by_locate(node, rest);
                }
            },
            _ => {},
        }
    }

    /// Where a path names a new entry to make, the link that it speaks of is
    /// what that name leads to, if that is a link.
    pub proof fn lemma_locate_link_by_locate(self, dir: usize, path: Seq<char>)
        requires
            self.locate(dir, path) matches Ok(Reach::Local(site)) && !is_reserved_name(site.1),
        ensures
            self.locate(dir, path) matches Ok(Reach::Local(site)) && self.locate_link(dir, path)
                == match self.step(site.0, site.1) {
                Err(e) => Err::<Reach<usize, Seq<char>>, FsError>(e),
                Ok(Place::Outer) => Err(FsError::InvalidInput),
                Ok(Place::Node(node)) => if self.is_symlink(node) {
                    Ok(Reach::Local(node))
                } else {
                    Err(FsError::InvalidInput)
                },
            },
        decreases path.len(),
    {
        match (self.step(dir, first_segment(path)), remainder(path)) {
            (Ok(Place::Node(node)), Some(rest)) => {
                if self.is_dir(node) {
                    lemma_split(path);
                    self.lemma_locate_link_by_locate(node, rest);
                }
            },
            _ => {},
        }
    }

    /// A step that led somewhere leads there still after a new entry.
    pub proof fn lemma_linked_step(
        self,
        at: usize,
        name: Seq<char>,
        node: NodeModel<F>,
        dir: usize,
        segment: Seq<char>,
    )
        requires
            self.wf(),
            self.is_dir(at),
            !self.has_child(at, name),
            self.is_dir(dir),
            self.step(dir, segment) is Ok,
        ensures
            self.linked(at, name, node).step(dir, segment) == self.step(dir, segment),
    {
        self.lemma_linked_entries(at, name, node);
    }

    /// A path that named a directory and a name names them still after a new
    /// entry.
    pub proof fn lemma_linked_locate(
        self,
        at: usize,
        name: Seq<char>,
        node: NodeModel<F>,
        dir: usize,
        path: Seq<char>,
    )
        requires
            self.wf(),
            self.is_dir(at),
            !self.has_child(at, name),
            self.is_dir(dir),
            self.locate(dir, path) is Ok,
        ensures
            self.linked(at, name, node).locate(dir, path) == self.locate(dir, path),
        decreases path.len(),
    {
        self.lemma_linked_entries(at, name, node);
        match (self.step(dir, first_segment(path)), remainder(path)) {
            (Ok(Place::Node(next)), Some(rest)) => {
                self.lemma_linked_step(at, name, node, dir, first_segment(path));
                if self.is_dir(next) {
                    lemma_split(path);
                    self.lemma_linked_locate(at, name, node, next, rest);
                }
            },
            (Ok(Place::Outer), Some(rest)) => {
                self.lemma_linked_step(at, name, node, dir, first_segment(path));
            },
            _ => {},
        }
    }

    /// A path that named an entry leads nowhere once the entry is gone.
    pub proof fn lemma_unlinked_resolve(self, at: usize, name: Seq<char>, dir: usize, path: Seq<char>)
        requires
            self.wf(),
            self.is_dir(at),
            self.has_child(at, name),
            !is_reserved_name(name),
            self.is_dir(dir),
            self.locate(dir, path) == Ok::<Reach<(usize, Seq<char>), Seq<char>>, FsError>(
                Reach::Local((at, name)),
            ),
        ensures
            self.unlinked(at, name).resolve(dir, path) == Err::<
                Reach<usize, Option<Seq<char>>>,
                FsError,
            >(FsError::NotFound),
        decreases path.len(),
    {
        self.lemma_unlinked_entries(at, name);
        let after = self.unlinked(at, name);
        let segment = first_segment(path);
        match (self.step(dir, segment), remainder(path)) {
            (Ok(Place::Node(next)), Some(rest)) => {
                if self.is_dir(next) {
                    lemma_split(path);
                    if dir == at && segment == name {
                    } else {
                        assert(after.step(dir, segment) == self.step(dir, segment));
                        self.lemma_unlinked_resolve(at, name, next, rest);
                    }
                }
            },
            _ => {},
        }
    }
}

/// How a path of two or more segments resolves: by its first segment, then
/// by the rest from where that led.
pub proof fn lemma_resolve_joined<P, F: Fn() -> String>(
    tree: FsModel<P, F>,
    dir: usize,
    name: Seq<char>,
    rest: Seq<char>,
)
    requires
        name.len() > 0,
        !name.contains('/'),
    ensures
        tree.resolve(dir, name + seq!['/'] + rest) == match tree.step(dir, name) {
            Err(e) => Err::<Reach<usize, Option<Seq<char>>>, FsError>(e),
            Ok(Place::Outer) => Ok(Reach::Outer(Some(rest))),
            Ok(Place::Node(node)) => if tree.is_dir(node) {
                tree.resolve(node, rest)
            } else {
                Err(FsError::NotADirectory)
            },
        },
{
    lemma_split_joined(name, rest);
}

/// How a path of one segment resolves: by that segment.
pub proof fn lemma_resolve_single<P, F: Fn() -> String>(tree: FsModel<P, F>, dir: usize, name: Seq<char>)
    requires
        !name.contains('/'),
    ensures
        tree.resolve(dir, name) == match tree.step(dir, name) {
            Err(e) => Err::<Reach<usize, Option<Seq<char>>>, FsError>(e),
            Ok(Place::Outer) => Ok(Reach::Outer(None)),
            Ok(Place::Node(node)) => Ok(Reach::Local(node)),
        },
{
    lemma_single_segment(name);
}

} // verus!
