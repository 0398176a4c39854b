//! Laws that relate several operations, proved of the model that the
//! operations' contracts speak of.

use vstd::prelude::*;
use crate::lemmas::{lemma_resolve_joined, lemma_resolve_single};
use crate::model::{empty_dir, filled, FsModel, NodeModel, Parent, Place, Reach};
use crate::name::{lemma_rank_sorted, lemma_sorted_no_duplicates, rank, strictly_sorted};
use crate::path::{first_segment, is_entry_name, is_reserved_name, lemma_leading_slash};
use crate::path::{lemma_single_segment, lemma_split, lemma_trailing_slash};
use crate::path::{remainder, segment_start};
use crate::symlink::{copied, target_bytes, LinkModel};
use crate::types::{DirEntry, FsError, NodeType};

verus! {

/// A name that was entered is taken: once adding or creating `name` in a
/// directory has succeeded, adding or creating it again there is refused as
/// already existing.
pub proof fn law_entered_name_is_taken<P, F: Fn() -> String>(
    tree: FsModel<P, F>,
    dir: usize,
    name: Seq<char>,
    node: NodeModel<F>,
    ty: NodeType,
    again: NodeType,
)
    requires
        tree.wf(),
        tree.is_dir(dir),
    ensures
        tree.add_node_result(dir, name) is Ok ==> {
            let after = tree.add_node_effect(dir, name, node);
            &&& after.add_node_result(dir, name) == Err::<(), FsError>(FsError::AlreadyExists)
            &&& after.create_node_result(dir, name, again) == Err::<(), FsError>(
                FsError::AlreadyExists,
            )
        },
        tree.create_node_result(dir, name, ty) is Ok ==> {
            let after = tree.create_node_effect(dir, name, ty);
            &&& after.add_node_result(dir, name) == Err::<(), FsError>(FsError::AlreadyExists)
            &&& after.create_node_result(dir, name, again) == Err::<(), FsError>(
                FsError::AlreadyExists,
            )
        },
{
    if tree.add_node_result(dir, name) is Ok {
        tree.lemma_linked_entries(dir, name, node);
    }
    if tree.create_node_result(dir, name, ty) is Ok {
        let made: NodeModel<F> = if ty == NodeType::Dir {
            empty_dir(dir)
        } else {
            NodeModel::File { content: Seq::empty() }
        };
        tree.lemma_linked_entries(dir, name, made);
    }
}

/// A name stays taken until it is removed, and is free once it is: entering
/// or removing any other entry, in any directory, neither frees nor takes
/// `name` in `dir`; removing `name` itself frees it.
pub proof fn law_name_taken_until_removed<P, F: Fn() -> String>(
    tree: FsModel<P, F>,
    dir: usize,
    name: Seq<char>,
    other_dir: usize,
    other: Seq<char>,
    node: NodeModel<F>,
    ty: NodeType,
)
    requires
        tree.wf(),
        tree.is_dir(dir),
        tree.is_dir(other_dir),
        other_dir != dir || other != name,
    ensures
        tree.add_node_effect(other_dir, other, node).has_child(dir, name) == tree.has_child(
            dir,
            name,
        ),
        tree.create_node_effect(other_dir, other, ty).has_child(dir, name) == tree.has_child(
            dir,
            name,
        ),
        tree.remove_node_effect(other_dir, other).has_child(dir, name) == tree.has_child(
            dir,
            name,
        ),
        tree.remove_node_result(dir, name) is Ok ==> {
            let after = tree.remove_node_effect(dir, name);
            &&& !after.has_child(dir, name)
            &&& after.add_node_result(dir, name) is Ok
            &&& after.create_node_result(dir, name, NodeType::File) is Ok
        },
{
    if !tree.has_child(other_dir, other) {
        tree.lemma_linked_entries(other_dir, other, node);
        let made: NodeModel<F> = if ty == NodeType::Dir {
            empty_dir(other_dir)
        } else {
            NodeModel::File { content: Seq::empty() }
        };
        tree.lemma_linked_entries(other_dir, other, made);
        assert(tree.linked(other_dir, other, node).has_child(dir, name) == tree.has_child(
            dir,
            name,
        ));
        assert(tree.linked(other_dir, other, made).has_child(dir, name) == tree.has_child(
            dir,
            name,
        ));
    } else {
        tree.lemma_unlinked_entries(other_dir, other);
        assert(tree.unlinked(other_dir, other).has_child(dir, name) == tree.has_child(dir, name));
    }
    if tree.remove_node_result(dir, name) is Ok {
        tree.lemma_unlinked_entries(dir, name);
    }
}

/// The tree after the entries `names` have been removed from directory
/// `dir`, one after the other.
pub open spec fn without_all<P, F: Fn() -> String>(
    tree: FsModel<P, F>,
    dir: usize,
    names: Seq<Seq<char>>,
) -> FsModel<P, F>
    decreases names.len(),
{
    if names.len() == 0 {
        tree
    } else {
        without_all(tree, dir, names.drop_last()).remove_node_effect(dir, names.last())
    }
}

/// The tree after empty files have been created in directory `dir` under
/// `names`, one after the other.
pub open spec fn with_all<P, F: Fn() -> String>(
    tree: FsModel<P, F>,
    dir: usize,
    names: Seq<Seq<char>>,
) -> FsModel<P, F>
    decreases names.len(),
{
    if names.len() == 0 {
        tree
    } else {
        with_all(tree, dir, names.drop_last()).create_node_effect(
            dir,
            names.last(),
            NodeType::File,
        )
    }
}

/// A directory with entries cannot be removed, and one without can. Let
/// `name` be a directory entered in `dir`, and let any entries be removed
/// from it: it is still entered in `dir`, and removing it is refused as not
/// empty exactly while it has an entry left, and succeeds once it has none.
pub proof fn law_non_empty_guard<P, F: Fn() -> String>(
    tree: FsModel<P, F>,
    dir: usize,
    name: Seq<char>,
    removed: Seq<Seq<char>>,
)
    requires
        tree.wf(),
        tree.is_dir(dir),
        tree.has_child(dir, name),
        tree.is_dir(tree.child(dir, name)),
    ensures
        ({
            let inner = tree.child(dir, name);
            let after = without_all(tree, inner, removed);
            &&& after.wf()
            &&& after.is_dir(dir)
            &&& after.has_child(dir, name)
            &&& after.child(dir, name) == inner
            &&& after.is_dir(inner)
            &&& !after.is_empty_dir(inner) ==> after.remove_node_result(dir, name) == Err::<
                (),
                FsError,
            >(FsError::DirectoryNotEmpty) && after.remove_node_effect(dir, name) == after
            &&& after.is_empty_dir(inner) ==> after.remove_node_result(dir, name) is Ok
                && !after.remove_node_effect(dir, name).has_child(dir, name)
        }),
    decreases removed.len(),
{
    let inner = tree.child(dir, name);
    let after = without_all(tree, inner, removed);
    assert(tree.node_wf(dir));
    assert(tree.entry_wf(dir, tree.names(dir).index_of(name)));
    if removed.len() > 0 {
        let before = without_all(tree, inner, removed.drop_last());
        law_non_empty_guard(tree, dir, name, removed.drop_last());
        if before.remove_node_result(inner, removed.last()) is Ok {
            before.lemma_unlinked_wf(inner, removed.last());
            before.lemma_unlinked_entries(inner, removed.last());
        }
    }
    if after.is_empty_dir(inner) {
        after.lemma_unlinked_entries(dir, name);
    }
}

/// A listing gives back what was put in. After files have been created under
/// any names in an empty directory, the directory's names are in strictly
/// ascending order, so that none is there twice, and they are exactly the
/// names that were given; the listing is `.` and `..` followed by them, and a
/// read from position 0 into at least as many slots as the listing is long
/// fills one slot with each of its entries, in order.
pub proof fn law_listing_round_trip<P, F: Fn() -> String>(
    tree: FsModel<P, F>,
    dir: usize,
    names: Seq<Seq<char>>,
    before: Seq<DirEntry>,
    after: Seq<DirEntry>,
    count: int,
)
    requires
        tree.wf(),
        tree.is_dir(dir),
        tree.is_empty_dir(dir),
        tree.nodes.len() + names.len() <= usize::MAX,
        before.len() >= names.len() + 2,
        filled(with_all(tree, dir, names).listing(dir), 0, before, after, count),
    ensures
        ({
            let full = with_all(tree, dir, names);
            &&& full.wf()
            &&& strictly_sorted(full.names(dir))
            &&& full.names(dir).to_set() == names.to_set()
            &&& count == full.names(dir).len() + 2
            &&& after[0]@ == (seq!['.'], NodeType::Dir)
            &&& after[1]@ == (seq!['.', '.'], NodeType::Dir)
            &&& forall|i: int|
                0 <= i < full.names(dir).len() ==> (#[trigger] after[i + 2])@ == (
                    full.names(dir)[i],
                    NodeType::File,
                )
        }),
{
    let full = with_all(tree, dir, names);
    lemma_with_all(tree, dir, names);
    assert(full.node_wf(dir));
    let listing = full.listing(dir);
    assert(listing.len() == full.names(dir).len() + 2);
    lemma_sorted_no_duplicates(full.names(dir));
    full.names(dir).unique_seq_to_set();
    names.lemma_cardinality_of_set();
    assert(full.names(dir).len() <= names.len());
    assert(after[0]@ == listing[0]);
    assert(after[1]@ == listing[1]);
    assert forall|i: int| 0 <= i < full.names(dir).len() implies (#[trigger] after[i + 2])@ == (
        full.names(dir)[i],
        NodeType::File,
    ) by {
        assert(after[i + 2]@ == listing[0 + (i + 2)]);
    }
}

/// What creating files under `names` in an empty directory leaves.
proof fn lemma_with_all<P, F: Fn() -> String>(tree: FsModel<P, F>, dir: usize, names: Seq<Seq<char>>)
    requires
        tree.wf(),
        tree.is_dir(dir),
        tree.is_empty_dir(dir),
        tree.nodes.len() + names.len() <= usize::MAX,
    ensures
        ({
            let full = with_all(tree, dir, names);
            &&& full.wf()
            &&& full.is_dir(dir)
            &&& full.nodes.len() <= tree.nodes.len() + names.len()
            &&& full.names(dir).to_set() == names.to_set()
            &&& forall|i: int|
                0 <= i < full.children(dir).len() ==> full.node_type(
                    #[trigger] full.children(dir)[i],
                ) == NodeType::File
        }),
    decreases names.len(),
{
    let full = with_all(tree, dir, names);
    if names.len() == 0 {
        assert(tree.names(dir).to_set() =~= names.to_set());
        assert(tree.node_wf(dir));
    } else {
        let front = names.drop_last();
        let last = names.last();
        let before = with_all(tree, dir, front);
        lemma_with_all(tree, dir, front);
        assert(names.to_set() =~= front.to_set().insert(last)) by {
            assert forall|x: Seq<char>| names.to_set().contains(x) <==> front.to_set().insert(
                last,
            ).contains(x) by {
                if names.contains(x) {
                    let i = names.index_of(x);
                    if i < front.len() {
                        assert(front[i] == x);
                    }
                }
                if front.contains(x) {
                    let i = front.index_of(x);
                    assert(names[i] == x);
                }
                if x == last {
                    assert(names[names.len() - 1] == x);
                }
            }
        }
        if before.has_child(dir, last) {
            assert(full == before);
            assert(front.to_set().contains(last));
        } else {
            let file = NodeModel::<F>::File { content: Seq::empty() };
            before.lemma_linked_wf(dir, last, file);
            before.lemma_linked_entries(dir, last, file);
            assert(before.node_wf(dir));
            let at = rank(before.names(dir), last) as int;
            lemma_rank_sorted(before.names(dir), last);
            assert forall|i: int| 0 <= i < full.children(dir).len() implies full.node_type(
                #[trigger] full.children(dir)[i],
            ) == NodeType::File by {
                if i < at {
                    assert(before.entry_wf(dir, i));
                    assert(full.children(dir)[i] == before.children(dir)[i]);
                } else if i > at {
                    assert(before.entry_wf(dir, i - 1));
                    assert(full.children(dir)[i] == before.children(dir)[i - 1]);
                }
            }
        }
    }
}

/// Every directory that is entered in a directory has that directory for its
/// parent, so that `..` leads from it back to where it is entered.
pub proof fn law_parent_of_child<P, F: Fn() -> String>(tree: FsModel<P, F>, dir: usize, name: Seq<char>)
    requires
        tree.wf(),
        tree.is_dir(dir),
        tree.has_child(dir, name),
        tree.is_dir(tree.child(dir, name)),
    ensures
        tree.parent(tree.child(dir, name)) == Parent::Dir(dir),
        tree.resolve(tree.child(dir, name), seq!['.', '.']) == Ok::<
            Reach<usize, Option<Seq<char>>>,
            FsError,
        >(Reach::Local(dir)),
{
    let i = tree.names(dir).index_of(name);
    assert(tree.node_wf(dir));
    assert(tree.entry_wf(dir, i));
    lemma_single_segment(seq!['.', '.']);
}

/// From a directory that was just created, `..` leads to the directory it was
/// created in.
pub proof fn law_parent_round_trip<P, F: Fn() -> String>(tree: FsModel<P, F>, dir: usize, name: Seq<char>)
    requires
        tree.wf(),
        tree.has_room(),
        tree.is_dir(dir),
        tree.create_node_result(dir, name, NodeType::Dir) is Ok,
    ensures
        ({
            let after = tree.create_node_effect(dir, name, NodeType::Dir);
            let made = after.child(dir, name);
            &&& after.wf()
            &&& after.has_child(dir, name)
            &&& after.is_dir(made)
            &&& after.resolve(made, seq!['.', '.']) == Ok::<
                Reach<usize, Option<Seq<char>>>,
                FsError,
            >(Reach::Local(dir))
        }),
{
    let after = tree.create_node_effect(dir, name, NodeType::Dir);
    tree.lemma_linked_wf(dir, name, empty_dir(dir));
    tree.lemma_linked_entries(dir, name, empty_dir(dir));
    law_parent_of_child(after, dir, name);
}

/// Slashes in front of a path do not change where it leads.
pub proof fn law_leading_slash_ignored<P, F: Fn() -> String>(
    tree: FsModel<P, F>,
    dir: usize,
    path: Seq<char>,
)
    ensures
        tree.resolve(dir, seq!['/'] + path) == tree.resolve(dir, path),
{
    lemma_leading_slash(path);
}

/// A segment `.` in front of a path does not change where it leads.
pub proof fn law_dot_segment_ignored<P, F: Fn() -> String>(
    tree: FsModel<P, F>,
    dir: usize,
    path: Seq<char>,
)
    requires
        tree.is_dir(dir),
    ensures
        tree.resolve(dir, seq!['.'] + seq!['/'] + path) == tree.resolve(dir, path),
{
    assert(seq!['.'][0] == '.');
    assert(!seq!['.'].contains('/'));
    lemma_resolve_joined(tree, dir, seq!['.'], path);
}

/// Different spellings of one path lead to one node. Where `a` is a directory
/// in `dir` and `b` an entry of `a`, the paths `a/b` and `a/./b` lead to that
/// entry, and so does `/a/b/` where the entry is a directory; where it is
/// not, the slash at the end asks a leaf for a directory's work.
pub proof fn law_path_idempotence<P, F: Fn() -> String>(
    tree: FsModel<P, F>,
    dir: usize,
    a: Seq<char>,
    b: Seq<char>,
)
    requires
        tree.wf(),
        tree.is_dir(dir),
        is_entry_name(a),
        is_entry_name(b),
        tree.has_child(dir, a),
        tree.is_dir(tree.child(dir, a)),
        tree.has_child(tree.child(dir, a), b),
    ensures
        ({
            let found = Ok::<Reach<usize, Option<Seq<char>>>, FsError>(
                Reach::Local(tree.child(tree.child(dir, a), b)),
            );
            let slash = seq!['/'];
            &&& tree.resolve(dir, a + slash + b) == found
            &&& tree.resolve(dir, a + slash + (seq!['.'] + slash + b)) == found
            &&& tree.is_dir(tree.child(tree.child(dir, a), b)) ==> tree.resolve(
                dir,
                slash + (a + slash + (b + slash + Seq::empty())),
            ) == found
            &&& !tree.is_dir(tree.child(tree.child(dir, a), b)) ==> tree.resolve(
                dir,
                slash + (a + slash + (b + slash + Seq::empty())),
            ) == Err::<Reach<usize, Option<Seq<char>>>, FsError>(FsError::NotADirectory)
        }),
{
    let inner = tree.child(dir, a);
    let target = tree.child(inner, b);
    let slash = seq!['/'];
    let empty = Seq::<char>::empty();
    lemma_resolve_single(tree, inner, b);
    lemma_resolve_joined(tree, dir, a, b);
    law_dot_segment_ignored(tree, inner, b);
    lemma_resolve_joined(tree, dir, a, seq!['.'] + slash + b);
    law_leading_slash_ignored(tree, dir, a + slash + (b + slash + empty));
    lemma_resolve_joined(tree, dir, a, b + slash + empty);
    lemma_resolve_joined(tree, inner, b, empty);
    lemma_resolve_single(tree, target, empty);
}

/// After a mount under a node with a parent, `..` leads from the root out of
/// the filesystem, to the outer node that it remembers: the one given now, if
/// none was given before.
pub proof fn law_mounted_root_escapes<P, F: Fn() -> String>(tree: FsModel<P, F>, above: P)
    requires
        tree.wf(),
    ensures
        ({
            let after = tree.mounted(Some(above));
            &&& after.wf()
            &&& after.resolve(0, seq!['.', '.']) == Ok::<Reach<usize, Option<Seq<char>>>, FsError>(
                Reach::Outer(None),
            )
            &&& tree.outer is None ==> after.outer == Some(above)
            &&& tree.outer is Some ==> after.outer == tree.outer
        }),
{
    tree.lemma_mounted_wf(Some(above));
    assert(seq!['.', '.'][0] == '.' && seq!['.', '.'][1] == '.');
    assert(!seq!['.', '.'].contains('/'));
    lemma_resolve_single(tree.mounted(Some(above)), 0, seq!['.', '.']);
}

/// Every name entered in a directory of the tree is one that a path can
/// reach: not empty, without a slash, and neither `.` nor `..`.
pub open spec fn names_reachable<P, F: Fn() -> String>(tree: FsModel<P, F>) -> bool {
    forall|dir: usize, i: int|
        tree.is_dir(dir) && 0 <= i < tree.names(dir).len() ==> is_entry_name(
            #[trigger] tree.names(dir)[i],
        )
}

/// Operations on paths never enter the empty name, `.`, `..` or a name with a
/// slash: a new filesystem has no such entry, and creating, linking and
/// removing by path leave none.
pub proof fn law_reserved_names_never_entered<P, F: Fn() -> String>(
    tree: FsModel<P, F>,
    dir: usize,
    path: Seq<char>,
    ty: NodeType,
    target: Seq<char>,
)
    requires
        tree.wf(),
        tree.is_dir(dir),
        names_reachable(tree),
    ensures
        names_reachable(FsModel::<P, F>::fresh()),
        names_reachable(tree.create_effect(dir, path, ty)),
        names_reachable(tree.symlink_effect(dir, target, path)),
        names_reachable(tree.remove_effect(dir, path)),
{
    tree.lemma_locate_in_tree(dir, path);
    match tree.locate(dir, path) {
        Ok(Reach::Local((at, name))) => {
            if !is_reserved_name(name) {
                assert(tree.node_wf(at));
                if !tree.has_child(at, name) {
                    let made: NodeModel<F> = if ty == NodeType::Dir {
                        empty_dir(at)
                    } else {
                        NodeModel::File { content: Seq::empty() }
                    };
                    let link: NodeModel<F> = NodeModel::Symlink { link: LinkModel::Fixed(target) };
                    lemma_entered_reachable(tree, at, name, made);
                    lemma_entered_reachable(tree, at, name, link);
                } else {
                    let after = tree.unlinked(at, name);
                    let slot = tree.names(at).index_of(name);
                    assert forall|d: usize, i: int|
                        after.is_dir(d) && 0 <= i < after.names(d).len() implies is_entry_name(
                        #[trigger] after.names(d)[i],
                    ) by {
                        if d == at {
                            let k = if i < slot {
                                i
                            } else {
                                i + 1
                            };
                            assert(after.names(d)[i] == tree.names(d)[k]);
                        } else {
                            assert(after.names(d)[i] == tree.names(d)[i]);
                        }
                    }
                }
            }
        },
        _ => {},
    }
}

/// Entering an entry name keeps all names reachable.
proof fn lemma_entered_reachable<P, F: Fn() -> String>(
    tree: FsModel<P, F>,
    dir: usize,
    name: Seq<char>,
    node: NodeModel<F>,
)
    requires
        tree.wf(),
        tree.is_dir(dir),
        names_reachable(tree),
        is_entry_name(name),
        !tree.has_child(dir, name),
        node matches NodeModel::Dir { names, .. } ==> names.len() == 0,
    ensures
        names_reachable(tree.linked(dir, name, node)),
{
    let after = tree.linked(dir, name, node);
    let slot = rank(tree.names(dir), name) as int;
    assert(tree.node_wf(dir));
    lemma_rank_sorted(tree.names(dir), name);
    assert forall|d: usize, i: int|
        after.is_dir(d) && 0 <= i < after.names(d).len() implies is_entry_name(
        #[trigger] after.names(d)[i],
    ) by {
        if d == dir {
            if i < slot {
                assert(after.names(d)[i] == tree.names(d)[i]);
            } else if i > slot {
                assert(after.names(d)[i] == tree.names(d)[i - 1]);
            }
        } else if d < tree.nodes.len() {
            assert(after.names(d)[i] == tree.names(d)[i]);
        }
    }
}

/// A directory's parent is fixed when it is created: entering and removing
/// entries change no directory's parent, and a mount changes only the root's.
pub proof fn law_parent_is_fixed<P, F: Fn() -> String>(
    tree: FsModel<P, F>,
    dir: usize,
    at: usize,
    name: Seq<char>,
    node: NodeModel<F>,
    above: Option<P>,
)
    requires
        tree.wf(),
        tree.is_dir(dir),
        tree.is_dir(at),
    ensures
        tree.add_node_effect(at, name, node).parent(dir) == tree.parent(dir),
        tree.remove_node_effect(at, name).parent(dir) == tree.parent(dir),
        dir != 0 ==> tree.mounted(above).parent(dir) == tree.parent(dir),
{
    if !tree.has_child(at, name) {
        tree.lemma_linked_entries(at, name, node);
    } else {
        tree.lemma_unlinked_entries(at, name);
    }
}

/// A link in the tree that has a fixed target has one that is not empty, and
/// every read of it gives that target.
pub proof fn law_fixed_target_not_empty<P, F: Fn() -> String>(
    tree: FsModel<P, F>,
    id: usize,
    target: String,
)
    requires
        tree.wf(),
        tree.is_symlink(id),
        tree.link(id) is Fixed,
        tree.link(id).yields(target),
    ensures
        target@.len() > 0,
        tree.link(id) == LinkModel::<F>::Fixed(target@),
{
    assert(tree.node_wf(id));
}

/// What was created is found. After an empty file or directory has been
/// created at a path, the same path leads to the new node, which has the
/// type that was asked for.
pub proof fn law_created_is_found<P, F: Fn() -> String>(
    tree: FsModel<P, F>,
    dir: usize,
    path: Seq<char>,
    ty: NodeType,
)
    requires
        tree.wf(),
        tree.has_room(),
        tree.is_dir(dir),
        tree.create_result(dir, path, ty) is Ok,
        tree.create_effect(dir, path, ty) != tree,
    ensures
        ({
            let after = tree.create_effect(dir, path, ty);
            let made = tree.nodes.len() as usize;
            &&& after.wf()
            &&& after.resolve(dir, path) == Ok::<Reach<usize, Option<Seq<char>>>, FsError>(
                Reach::Local(made),
            )
            &&& after.node_type(made) == ty
            &&& ty == NodeType::Dir ==> after.is_empty_dir(made)
        }),
{
    tree.lemma_locate_in_tree(dir, path);
    match tree.locate(dir, path) {
        Ok(Reach::Local((at, name))) => {
            let made: NodeModel<F> = if ty == NodeType::Dir {
                empty_dir(at)
            } else {
                NodeModel::File { content: Seq::empty() }
            };
            let after = tree.linked(at, name, made);
            tree.lemma_linked_wf(at, name, made);
            tree.lemma_linked_entries(at, name, made);
            tree.lemma_linked_locate(at, name, made, dir, path);
            after.lemma_resolve_by_locate(dir, path);
        },
        _ => {},
    }
}

/// What was removed is not found. After the entry at a path has been
/// removed, the same path leads nowhere.
pub proof fn law_removed_is_not_found<P, F: Fn() -> String>(
    tree: FsModel<P, F>,
    dir: usize,
    path: Seq<char>,
)
    requires
        tree.wf(),
        tree.is_dir(dir),
        tree.remove_result(dir, path) == Ok::<Reach<(), Seq<char>>, FsError>(Reach::Local(())),
    ensures
        tree.remove_effect(dir, path).wf(),
        tree.remove_effect(dir, path).resolve(dir, path) == Err::<
            Reach<usize, Option<Seq<char>>>,
            FsError,
        >(FsError::NotFound),
{
    tree.lemma_locate_in_tree(dir, path);
    match tree.locate(dir, path) {
        Ok(Reach::Local((at, name))) => {
            tree.lemma_unlinked_wf(at, name);
            tree.lemma_unlinked_resolve(at, name, dir, path);
        },
        _ => {},
    }
}

/// A link reads back as it was made. After a link to a target has been
/// created at a path, reading the link at that path copies the front of the
/// target's bytes, all of them if they fit.
pub proof fn law_symlink_reads_back<P, F: Fn() -> String>(
    tree: FsModel<P, F>,
    dir: usize,
    target: Seq<char>,
    path: Seq<char>,
    before: Seq<u8>,
    after: Seq<u8>,
    res: Result<Reach<usize, Seq<char>>, FsError>,
)
    requires
        tree.wf(),
        tree.has_room(),
        tree.is_dir(dir),
        tree.symlink_result(dir, target, path) == Ok::<Reach<(), Seq<char>>, FsError>(
            Reach::Local(()),
        ),
        tree.symlink_effect(dir, target, path).readlink_result(dir, path, before, after, res),
    ensures
        target.len() > 0,
        res matches Ok(Reach::Local(count)) && copied(
            target_bytes(target),
            before,
            after,
            count as int,
        ),
{
    tree.lemma_locate_in_tree(dir, path);
    match tree.locate(dir, path) {
        Ok(Reach::Local((at, name))) => {
            let link: NodeModel<F> = NodeModel::Symlink { link: LinkModel::Fixed(target) };
            let linked = tree.linked(at, name, link);
            tree.lemma_linked_wf(at, name, link);
            tree.lemma_linked_entries(at, name, link);
            tree.lemma_linked_locate(at, name, link, dir, path);
            linked.lemma_locate_link_by_locate(dir, path);
            match res {
                Ok(Reach::Local(count)) => {
                    let read = choose|read: String|
                        #![trigger LinkModel::<F>::Fixed(target).yields(read)]
                        LinkModel::<F>::Fixed(target).yields(read) && copied(
                            target_bytes(read@),
                            before,
                            after,
                            count as int,
                        );
                    assert(read@ == target);
                },
                _ => {},
            }
        },
        _ => {},
    }
}

/// A slash at the end of a path that leads to a directory changes nothing.
pub proof fn law_trailing_slash_on_directory<P, F: Fn() -> String>(
    tree: FsModel<P, F>,
    dir: usize,
    path: Seq<char>,
)
    requires
        tree.is_dir(dir),
        tree.resolve(dir, path) matches Ok(Reach::Local(node)) && tree.is_dir(node),
    ensures
        tree.resolve(dir, path + seq!['/']) == tree.resolve(dir, path),
    decreases path.len(),
{
    let longer = path + seq!['/'];
    lemma_trailing_slash(path);
    lemma_split(path);
    match (tree.step(dir, first_segment(path)), remainder(path)) {
        (Ok(Place::Node(node)), Some(rest)) => {
            law_trailing_slash_on_directory(tree, node, rest);
            assert(remainder(longer) == Some(rest + seq!['/']));
        },
        (Ok(Place::Node(node)), None) => {
            if segment_start(path) < path.len() {
                let empty = Seq::<char>::empty();
                assert(remainder(longer) == Some(empty));
                lemma_resolve_single(tree, node, empty);
            }
        },
        _ => {},
    }
}

/// The names joined by slashes into one path.
pub open spec fn joined(names: Seq<Seq<char>>) -> Seq<char>
    decreases names.len(),
{
    if names.len() == 0 {
        Seq::empty()
    } else if names.len() == 1 {
        names[0]
    } else {
        names[0] + seq!['/'] + joined(names.drop_first())
    }
}

/// The node that the entries `names` lead down to from `node`, one after the
/// other, if each is there and each but the last names a directory.
pub open spec fn descend<P, F: Fn() -> String>(
    tree: FsModel<P, F>,
    node: usize,
    names: Seq<Seq<char>>,
) -> Option<usize>
    decreases names.len(),
{
    if names.len() == 0 {
        Some(node)
    } else if tree.is_dir(node) && tree.has_child(node, names[0]) {
        descend(tree, tree.child(node, names[0]), names.drop_first())
    } else {
        None
    }
}

/// A path leads down the entries it names: where entries lead from a
/// directory down to a node, their names joined by slashes lead there too.
pub proof fn law_path_follows_entries<P, F: Fn() -> String>(
    tree: FsModel<P, F>,
    dir: usize,
    names: Seq<Seq<char>>,
)
    requires
        names.len() > 0,
        forall|i: int| 0 <= i < names.len() ==> is_entry_name(#[trigger] names[i]),
        descend(tree, dir, names) is Some,
    ensures
        tree.resolve(dir, joined(names)) == Ok::<Reach<usize, Option<Seq<char>>>, FsError>(
            Reach::Local(descend(tree, dir, names).unwrap()),
        ),
    decreases names.len(),
{
    let first = names[0];
    let inner = tree.child(dir, first);
    assert(is_entry_name(first));
    if names.len() == 1 {
        assert(descend(tree, inner, names.drop_first()) == Some(inner));
        lemma_resolve_single(tree, dir, first);
    } else {
        let rest = names.drop_first();
        assert forall|i: int| 0 <= i < rest.len() implies is_entry_name(#[trigger] rest[i]) by {
            assert(rest[i] == names[i + 1]);
        }
        assert(descend(tree, inner, rest) is Some);
        assert(tree.is_dir(inner));
        law_path_follows_entries(tree, inner, rest);
        lemma_resolve_joined(tree, dir, first, joined(rest));
    }
}

} // verus!
