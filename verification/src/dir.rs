//! What a directory does with a path: each operation reads the first segment,
//! and either acts on it or hands the remainder to the node it names.

use vstd::prelude::*;
use crate::fs::{DirNode, Node, RamFileSystem};
use crate::model::{Place, Reach};
use crate::path::{lemma_split, names_parent, names_self, split_last, split_path};
use crate::symlink::SymlinkNode;
use crate::types::{FsError, NodeType};

verus! {

/// The result of a lookup as the model states it.
pub open spec fn lookup_view(res: Result<Reach<usize, Option<&str>>, FsError>) -> Result<
    Reach<usize, Option<Seq<char>>>,
    FsError,
> {
    match res {
        Ok(Reach::Local(node)) => Ok(Reach::Local(node)),
        Ok(Reach::Outer(Some(rest))) => Ok(Reach::Outer(Some(rest@))),
        Ok(Reach::Outer(None)) => Ok(Reach::Outer(None)),
        Err(e) => Err(e),
    }
}

/// The result of an operation on a path as the model states it.
pub open spec fn reach_view<T>(res: Result<Reach<T, &str>, FsError>) -> Result<
    Reach<T, Seq<char>>,
    FsError,
> {
    match res {
        Ok(Reach::Local(done)) => Ok(Reach::Local(done)),
        Ok(Reach::Outer(rest)) => Ok(Reach::Outer(rest@)),
        Err(e) => Err(e),
    }
}

impl DirNode {
    /// Resolves `path` from this directory.
    pub fn lookup<'a, P, F: Fn() -> String>(&self, fs: &RamFileSystem<P, F>, path: &'a str) -> (res:
        Result<Reach<usize, Option<&'a str>>, FsError>)
        requires
            fs.wf(),
            fs@.is_dir(self.id()),
        ensures
            lookup_view(res) == fs@.resolve(self.id(), path@),
            res matches Ok(Reach::Local(node)) ==> fs@.has_node(node),
        decreases path@.len(),
    {
        let (name, rest) = split_path(path);
        proof {
            lemma_split(path@);
            fs@.lemma_resolve_in_tree(self.id(), path@);
        }
        match self.traverse_path(fs, name) {
            Err(e) => Err(e),
            Ok(Place::Outer) => Ok(Reach::Outer(rest)),
            Ok(Place::Node(node)) => match rest {
                None => Ok(Reach::Local(node)),
                Some(rest) => match fs.as_dir(node) {
                    Some(next) => next.lookup(fs, rest),
                    None => Err(FsError::NotADirectory),
                },
            },
        }
    }

    /// Creates an empty file or directory at `path`. Where the path ends in
    /// this directory itself or in a parent, there is nothing to create.
    pub fn create<'a, P, F: Fn() -> String>(
        &self,
        fs: &mut RamFileSystem<P, F>,
        path: &'a str,
        ty: NodeType,
    ) -> (res: Result<Reach<(), &'a str>, FsError>)
        requires
            old(fs).wf(),
            old(fs)@.is_dir(self.id()),
        ensures
            final(fs).wf(),
            reach_view(res) == old(fs)@.create_result(self.id(), path@, ty),
            final(fs)@ == old(fs)@.create_effect(self.id(), path@, ty),
            final(fs)@.keeps_handles_of(old(fs)@),
        decreases path@.len(),
    {
        let (name, rest) = split_path(path);
        proof {
            lemma_split(path@);
        }
        match rest {
            Some(rest) => match self.traverse_path(fs, name) {
                Err(e) => Err(e),
                Ok(Place::Outer) => Ok(Reach::Outer(rest)),
                Ok(Place::Node(node)) => match fs.as_dir(node) {
                    Some(next) => next.create(fs, rest, ty),
                    None => Err(FsError::NotADirectory),
                },
            },
            None => if names_self(name) || names_parent(name) {
                Ok(Reach::Local(()))
            } else {
                match self.create_node(fs, name, ty) {
                    Ok(()) => Ok(Reach::Local(())),
                    Err(e) => Err(e),
                }
            },
        }
    }

    /// Removes the entry at `path`. This directory itself and a parent cannot
    /// be removed so, and a directory must be empty to be removed.
    pub fn remove<'a, P, F: Fn() -> String>(&self, fs: &mut RamFileSystem<P, F>, path: &'a str) -> (res:
        Result<Reach<(), &'a str>, FsError>)
        requires
            old(fs).wf(),
            old(fs)@.is_dir(self.id()),
        ensures
            final(fs).wf(),
            reach_view(res) == old(fs)@.remove_result(self.id(), path@),
            final(fs)@ == old(fs)@.remove_effect(self.id(), path@),
            final(fs)@.keeps_handles_of(old(fs)@),
        decreases path@.len(),
    {
        let (name, rest) = split_path(path);
        proof {
            lemma_split(path@);
        }
        match rest {
            Some(rest) => match self.traverse_path(fs, name) {
                Err(e) => Err(e),
                Ok(Place::Outer) => Ok(Reach::Outer(rest)),
                Ok(Place::Node(node)) => match fs.as_dir(node) {
                    Some(next) => next.remove(fs, rest),
                    None => Err(FsError::NotADirectory),
                },
            },
            None => if names_self(name) || names_parent(name) {
                Err(FsError::InvalidInput)
            } else {
                match self.remove_node(fs, name) {
                    Ok(()) => Ok(Reach::Local(())),
                    Err(e) => Err(e),
                }
            },
        }
    }

    /// Creates a symbolic link to `target` at `path`. The target must not be
    /// empty, and the path must end in a new name.
    pub fn symlink<'a, P, F: Fn() -> String>(
        &self,
        fs: &mut RamFileSystem<P, F>,
        target: &str,
        path: &'a str,
    ) -> (res: Result<Reach<(), &'a str>, FsError>)
        requires
            old(fs).wf(),
            old(fs)@.is_dir(self.id()),
        ensures
            final(fs).wf(),
            reach_view(res) == old(fs)@.symlink_result(self.id(), target@, path@),
            final(fs)@ == old(fs)@.symlink_effect(self.id(), target@, path@),
            final(fs)@.keeps_handles_of(old(fs)@),
        decreases path@.len(),
    {
        if target.is_empty() {
            return Err(FsError::InvalidInput);
        }
        let (name, rest) = split_path(path);
        proof {
            lemma_split(path@);
        }
        match rest {
            Some(rest) => match self.traverse_path(fs, name) {
                Err(e) => Err(e),
                Ok(Place::Outer) => Ok(Reach::Outer(rest)),
                Ok(Place::Node(node)) => match fs.as_dir(node) {
                    Some(next) => next.symlink(fs, target, rest),
                    None => Err(FsError::NotADirectory),
                },
            },
            None => if names_self(name) || names_parent(name) {
                Err(FsError::InvalidInput)
            } else {
                match self.create_symlink_node(fs, name, target) {
                    Ok(()) => Ok(Reach::Local(())),
                    Err(e) => Err(e),
                }
            },
        }
    }

    /// Reads the symbolic link at `path` into `buf`, cut to what fits, and
    /// returns the number of bytes read. A link met before the end of the
    /// path answers for the whole path.
    pub fn readlink<'a, P, F: Fn() -> String>(
        &self,
        fs: &RamFileSystem<P, F>,
        path: &'a str,
        buf: &mut [u8],
    ) -> (res: Result<Reach<usize, &'a str>, FsError>)
        requires
            fs.wf(),
            fs@.is_dir(self.id()),
        ensures
            fs@.readlink_result(self.id(), path@, old(buf)@, final(buf)@, reach_view(res)),
        decreases path@.len(),
    {
        let (name, rest) = split_path(path);
        proof {
            lemma_split(path@);
        }
        if rest.is_none() && (names_self(name) || names_parent(name)) {
            return Err(FsError::InvalidInput);
        }
        match self.traverse_path(fs, name) {
            Err(e) => Err(e),
            Ok(Place::Outer) => match rest {
                Some(rest) => Ok(Reach::Outer(rest)),
                None => Err(FsError::InvalidInput),
            },
            Ok(Place::Node(node)) => match fs.symlink_node(node) {
                Some(link) => match link.readlink(buf) {
                    Ok(count) => Ok(Reach::Local(count)),
                    Err(e) => Err(e),
                },
                None => match (fs.as_dir(node), rest) {
                    (Some(next), Some(rest)) => next.readlink(fs, rest, buf),
                    _ => Err(FsError::InvalidInput),
                },
            },
        }
    }
}

impl<P, F: Fn() -> String> RamFileSystem<P, F> {
    /// Enters a symbolic link whose target `generator` computes at every
    /// read. The link's name is what follows the last slash of `path`; its
    /// directory is what the part before that slash resolves to from the
    /// root, or the root where there is no such part.
    pub fn add_dynamic_symlink(&mut self, path: &str, generator: F) -> (res: Result<(), FsError>)
        requires
            old(self).wf(),
            call_requires(generator, ()),
        ensures
            final(self).wf(),
            res == old(self)@.add_dynamic_result(path@),
            final(self)@ == old(self)@.add_dynamic_effect(path@, generator),
            final(self)@.keeps_handles_of(old(self)@),
    {
        let link = SymlinkNode::new_dynamic(generator);
        let (above, name) = split_last(path);
        let root = self.root_dir_node();
        match above {
            None => {
                proof {
                    assert(path@.subrange(0, path@.len() as int) =~= path@);
                }
                root.add_node(self, path, Node::Symlink(link))
            },
            Some(above) => {
                let dir = if above.is_empty() {
                    root
                } else {
                    match root.lookup(self, above) {
                        Err(e) => {
                            return Err(e);
                        },
                        Ok(Reach::Outer(_)) => {
                            return Err(FsError::NotADirectory);
                        },
                        Ok(Reach::Local(node)) => match self.as_dir(node) {
                            Some(dir) => dir,
                            None => {
                                return Err(FsError::NotADirectory);
                            },
                        },
                    }
                };
                dir.add_node(self, name, Node::Symlink(link))
            },
        }
    }
}

} // verus!
