use axfs_ramfs::{
    DirEntry, FileNode, FsError, Node, NodeAttr, NodeType, Place, RamFileSystem, Reach,
    SymlinkNode,
};

type Gen = Box<dyn Fn() -> String>;
type Fs = RamFileSystem<u32, Gen>;

fn blank() -> DirEntry {
    DirEntry { name: String::from("?"), ty: NodeType::Socket }
}

fn local(found: Result<Reach<usize, Option<&str>>, FsError>) -> usize {
    match found {
        Ok(Reach::Local(node)) => node,
        other => panic!("not a node of the filesystem: {:?}", other),
    }
}

#[test]
fn new_filesystem_has_empty_root() {
    let fs: Fs = RamFileSystem::new();
    let root = fs.root_dir_node();
    assert_eq!(root.get_entries(&fs), Vec::<String>::new());
    assert_eq!(fs.node_type(root.node_id()), Some(NodeType::Dir));
    assert_eq!(root.parent(&fs), None);
}

#[test]
fn default_filesystem_is_a_new_one() {
    let fs: Fs = Default::default();
    let root = fs.root_dir_node();
    assert_eq!(root.get_entries(&fs), Vec::<String>::new());
    assert_eq!(fs.outer_parent(), None);
}

#[test]
fn directory_attributes_are_fixed() {
    let fs: Fs = RamFileSystem::new();
    let root = fs.root_dir_node();
    assert_eq!(
        root.get_attr(),
        Ok(NodeAttr { mode: 0o755, ty: NodeType::Dir, size: 4096, blocks: 0 })
    );
}

#[test]
fn file_attributes_have_default_file_permissions() {
    let file = FileNode::new();
    assert_eq!(file.len(), 0);
    assert_eq!(
        file.get_attr(),
        Ok(NodeAttr { mode: 0o666, ty: NodeType::File, size: 0, blocks: 0 })
    );
}

#[test]
fn create_node_then_exist() {
    let mut fs: Fs = RamFileSystem::new();
    let root = fs.root_dir_node();
    assert!(!root.exist(&fs, "f"));
    assert_eq!(root.create_node(&mut fs, "f", NodeType::File), Ok(()));
    assert!(root.exist(&fs, "f"));
    assert!(!root.exist(&fs, "g"));
}

#[test]
fn second_create_of_same_name_already_exists() {
    let mut fs: Fs = RamFileSystem::new();
    let root = fs.root_dir_node();
    assert_eq!(root.create_node(&mut fs, "n", NodeType::File), Ok(()));
    assert_eq!(root.create_node(&mut fs, "n", NodeType::File), Err(FsError::AlreadyExists));
    assert_eq!(root.create_node(&mut fs, "n", NodeType::Dir), Err(FsError::AlreadyExists));
    assert_eq!(
        root.add_node(&mut fs, "n", Node::File(FileNode::new())),
        Err(FsError::AlreadyExists)
    );
    assert_eq!(root.get_entries(&fs), vec![String::from("n")]);
}

#[test]
fn name_is_free_again_after_removal() {
    let mut fs: Fs = RamFileSystem::new();
    let root = fs.root_dir_node();
    assert_eq!(root.add_node(&mut fs, "n", Node::File(FileNode::new())), Ok(()));
    assert_eq!(
        root.add_node(&mut fs, "n", Node::File(FileNode::new())),
        Err(FsError::AlreadyExists)
    );
    assert_eq!(root.create_node(&mut fs, "other", NodeType::File), Ok(()));
    assert_eq!(root.remove_node(&mut fs, "other"), Ok(()));
    assert_eq!(root.create_node(&mut fs, "n", NodeType::Dir), Err(FsError::AlreadyExists));
    assert_eq!(root.remove_node(&mut fs, "n"), Ok(()));
    assert!(!root.exist(&fs, "n"));
    assert_eq!(root.create_node(&mut fs, "n", NodeType::Dir), Ok(()));
}

#[test]
fn existing_name_is_refused_before_the_type_is_looked_at() {
    let mut fs: Fs = RamFileSystem::new();
    let root = fs.root_dir_node();
    assert_eq!(root.create_node(&mut fs, "n", NodeType::File), Ok(()));
    assert_eq!(root.create_node(&mut fs, "n", NodeType::SymLink), Err(FsError::AlreadyExists));
    assert_eq!(root.create_node(&mut fs, "n", NodeType::Fifo), Err(FsError::AlreadyExists));
}

#[test]
fn create_node_refuses_symlink_and_other_types() {
    let mut fs: Fs = RamFileSystem::new();
    let root = fs.root_dir_node();
    assert_eq!(root.create_node(&mut fs, "l", NodeType::SymLink), Err(FsError::InvalidInput));
    assert_eq!(root.create_node(&mut fs, "p", NodeType::Fifo), Err(FsError::Unsupported));
    assert_eq!(root.create_node(&mut fs, "c", NodeType::CharDevice), Err(FsError::Unsupported));
    assert_eq!(root.create_node(&mut fs, "b", NodeType::BlockDevice), Err(FsError::Unsupported));
    assert_eq!(root.create_node(&mut fs, "s", NodeType::Socket), Err(FsError::Unsupported));
    assert_eq!(root.get_entries(&fs), Vec::<String>::new());
}

#[test]
fn remove_node_of_missing_name_not_found() {
    let mut fs: Fs = RamFileSystem::new();
    let root = fs.root_dir_node();
    assert_eq!(root.remove_node(&mut fs, "nope"), Err(FsError::NotFound));
}

#[test]
fn non_empty_directory_is_not_removed() {
    let mut fs: Fs = RamFileSystem::new();
    let root = fs.root_dir_node();
    assert_eq!(root.create_node(&mut fs, "d", NodeType::Dir), Ok(()));
    let d = fs.as_dir(local(root.lookup(&fs, "d"))).unwrap();
    assert_eq!(d.create_node(&mut fs, "x", NodeType::File), Ok(()));
    assert_eq!(d.create_node(&mut fs, "y", NodeType::Dir), Ok(()));
    assert_eq!(root.remove_node(&mut fs, "d"), Err(FsError::DirectoryNotEmpty));
    assert!(root.exist(&fs, "d"));
    assert_eq!(d.remove_node(&mut fs, "x"), Ok(()));
    assert_eq!(root.remove_node(&mut fs, "d"), Err(FsError::DirectoryNotEmpty));
    assert_eq!(d.remove_node(&mut fs, "y"), Ok(()));
    assert_eq!(root.remove_node(&mut fs, "d"), Ok(()));
    assert!(!root.exist(&fs, "d"));
}

#[test]
fn entries_are_listed_in_ascending_order() {
    let mut fs: Fs = RamFileSystem::new();
    let root = fs.root_dir_node();
    for name in ["pear", "apple", "fig", "banana", "apple", "Zebra", "fig2", "é"] {
        let _ = root.create_node(&mut fs, name, NodeType::File);
    }
    let expected: Vec<String> = ["Zebra", "apple", "banana", "fig", "fig2", "pear", "é"]
        .iter()
        .map(|s| String::from(*s))
        .collect();
    assert_eq!(root.get_entries(&fs), expected);
}

#[test]
fn read_dir_lists_dot_dotdot_then_sorted_names() {
    let mut fs: Fs = RamFileSystem::new();
    let root = fs.root_dir_node();
    assert_eq!(root.create_node(&mut fs, "m", NodeType::Dir), Ok(()));
    assert_eq!(root.create_node(&mut fs, "a", NodeType::File), Ok(()));
    assert_eq!(root.create_symlink_node(&mut fs, "z", "/a"), Ok(()));
    let mut slots = vec![blank(), blank(), blank(), blank(), blank(), blank(), blank()];
    assert_eq!(root.read_dir(&fs, 0, &mut slots), Ok(5));
    assert_eq!(slots[0], DirEntry { name: String::from("."), ty: NodeType::Dir });
    assert_eq!(slots[1], DirEntry { name: String::from(".."), ty: NodeType::Dir });
    assert_eq!(slots[2], DirEntry { name: String::from("a"), ty: NodeType::File });
    assert_eq!(slots[3], DirEntry { name: String::from("m"), ty: NodeType::Dir });
    assert_eq!(slots[4], DirEntry { name: String::from("z"), ty: NodeType::SymLink });
    assert_eq!(slots[5], blank());
    assert_eq!(slots[6], blank());
}

#[test]
fn read_dir_pages_from_any_offset() {
    let mut fs: Fs = RamFileSystem::new();
    let root = fs.root_dir_node();
    assert_eq!(root.create_node(&mut fs, "x", NodeType::File), Ok(()));
    assert_eq!(root.create_node(&mut fs, "y", NodeType::File), Ok(()));
    let mut one = vec![blank()];
    assert_eq!(root.read_dir(&fs, 1, &mut one), Ok(1));
    assert_eq!(one[0], DirEntry { name: String::from(".."), ty: NodeType::Dir });
    assert_eq!(root.read_dir(&fs, 2, &mut one), Ok(1));
    assert_eq!(one[0], DirEntry { name: String::from("x"), ty: NodeType::File });
    assert_eq!(root.read_dir(&fs, 3, &mut one), Ok(1));
    assert_eq!(one[0], DirEntry { name: String::from("y"), ty: NodeType::File });
    assert_eq!(root.read_dir(&fs, 4, &mut one), Ok(0));
    assert_eq!(one[0], DirEntry { name: String::from("y"), ty: NodeType::File });
    assert_eq!(root.read_dir(&fs, usize::MAX, &mut one), Ok(0));
    let mut two = vec![blank(), blank()];
    assert_eq!(root.read_dir(&fs, 3, &mut two), Ok(1));
    assert_eq!(two[0], DirEntry { name: String::from("y"), ty: NodeType::File });
    assert_eq!(two[1], blank());
    assert_eq!(root.read_dir(&fs, 1, &mut two), Ok(2));
    assert_eq!(two[0], DirEntry { name: String::from(".."), ty: NodeType::Dir });
    assert_eq!(two[1], DirEntry { name: String::from("x"), ty: NodeType::File });
    let mut none: Vec<DirEntry> = Vec::new();
    assert_eq!(root.read_dir(&fs, 0, &mut none), Ok(0));
}

#[test]
fn traverse_path_single_names() {
    let mut fs: Fs = RamFileSystem::new();
    let root = fs.root_dir_node();
    assert_eq!(root.create_node(&mut fs, "d", NodeType::Dir), Ok(()));
    let d = fs.as_dir(local(root.lookup(&fs, "d"))).unwrap();
    assert_eq!(root.traverse_path(&fs, ""), Ok(Place::Node(root.node_id())));
    assert_eq!(root.traverse_path(&fs, "."), Ok(Place::Node(root.node_id())));
    assert_eq!(root.traverse_path(&fs, ".."), Err(FsError::NotFound));
    assert_eq!(root.traverse_path(&fs, "d"), Ok(Place::Node(d.node_id())));
    assert_eq!(root.traverse_path(&fs, "e"), Err(FsError::NotFound));
    assert_eq!(d.traverse_path(&fs, ".."), Ok(Place::Node(root.node_id())));
    assert_eq!(d.parent(&fs), Some(Place::Node(root.node_id())));
}

#[test]
fn parent_of_new_directory_is_where_it_was_created() {
    let mut fs: Fs = RamFileSystem::new();
    let root = fs.root_dir_node();
    assert_eq!(root.create(&mut fs, "d", NodeType::Dir), Ok(Reach::Local(())));
    assert_eq!(root.create(&mut fs, "d/e", NodeType::Dir), Ok(Reach::Local(())));
    let d = fs.as_dir(local(root.lookup(&fs, "d"))).unwrap();
    let e = fs.as_dir(local(root.lookup(&fs, "d/e"))).unwrap();
    assert_eq!(e.lookup(&fs, ".."), Ok(Reach::Local(d.node_id())));
    assert_eq!(d.lookup(&fs, ".."), Ok(Reach::Local(root.node_id())));
    assert_eq!(e.lookup(&fs, "../.."), Ok(Reach::Local(root.node_id())));
}

#[test]
fn handle_of_removed_directory_still_finds_its_parent() {
    let mut fs: Fs = RamFileSystem::new();
    let root = fs.root_dir_node();
    assert_eq!(root.create_node(&mut fs, "d", NodeType::Dir), Ok(()));
    let d = fs.as_dir(local(root.lookup(&fs, "d"))).unwrap();
    assert_eq!(root.remove_node(&mut fs, "d"), Ok(()));
    assert_eq!(root.lookup(&fs, "d"), Err(FsError::NotFound));
    assert_eq!(d.lookup(&fs, ".."), Ok(Reach::Local(root.node_id())));
    assert_eq!(d.create_node(&mut fs, "x", NodeType::File), Ok(()));
    assert_eq!(d.get_entries(&fs), vec![String::from("x")]);
}

#[test]
fn as_dir_tells_directories_from_leaves() {
    let mut fs: Fs = RamFileSystem::new();
    let root = fs.root_dir_node();
    assert_eq!(root.create_node(&mut fs, "f", NodeType::File), Ok(()));
    let f = local(root.lookup(&fs, "f"));
    assert!(fs.as_dir(f).is_none());
    assert!(fs.file_node(f).is_some());
    assert!(fs.symlink_node(f).is_none());
    assert_eq!(fs.as_dir(root.node_id()), Some(root));
    assert!(fs.as_dir(1000).is_none());
    assert_eq!(fs.node_type(1000), None);
    assert!(fs.file_node(root.node_id()).is_none());
}

#[test]
fn add_node_takes_files_and_links() {
    let mut fs: Fs = RamFileSystem::new();
    let root = fs.root_dir_node();
    let link: SymlinkNode<Gen> = SymlinkNode::new_static(String::from("/t"));
    assert_eq!(root.add_node(&mut fs, "l", Node::Symlink(link)), Ok(()));
    assert_eq!(root.add_node(&mut fs, "f", Node::File(FileNode::new())), Ok(()));
    assert_eq!(fs.node_type(local(root.lookup(&fs, "l"))), Some(NodeType::SymLink));
    assert_eq!(fs.node_type(local(root.lookup(&fs, "f"))), Some(NodeType::File));
}
