use axfs_ramfs::{FsError, NodeType, RamFileSystem, Reach};

type Gen = Box<dyn Fn() -> String>;
type Fs = RamFileSystem<u32, Gen>;

fn tree() -> Fs {
    let mut fs: Fs = RamFileSystem::new();
    let root = fs.root_dir_node();
    assert_eq!(root.create(&mut fs, "a", NodeType::Dir), Ok(Reach::Local(())));
    assert_eq!(root.create(&mut fs, "a/b", NodeType::Dir), Ok(Reach::Local(())));
    assert_eq!(root.create(&mut fs, "a/b/c.txt", NodeType::File), Ok(Reach::Local(())));
    assert_eq!(root.create(&mut fs, "a/f", NodeType::File), Ok(Reach::Local(())));
    fs
}

#[test]
fn path_spellings_lead_to_the_same_node() {
    let fs = tree();
    let root = fs.root_dir_node();
    let plain = root.lookup(&fs, "a/b");
    assert!(matches!(plain, Ok(Reach::Local(_))));
    assert_eq!(root.lookup(&fs, "a/./b"), plain);
    assert_eq!(root.lookup(&fs, "/a/b/"), plain);
    assert_eq!(root.lookup(&fs, "a//b"), plain);
    assert_eq!(root.lookup(&fs, "///a/b"), plain);
    assert_eq!(root.lookup(&fs, "./a/b/."), plain);
    assert_eq!(root.lookup(&fs, "a/b/../b"), plain);
}

#[test]
fn different_entries_are_different_nodes() {
    let fs = tree();
    let root = fs.root_dir_node();
    assert_ne!(root.lookup(&fs, "a"), root.lookup(&fs, "a/b"));
    assert_ne!(root.lookup(&fs, "a/b"), root.lookup(&fs, "a/f"));
}

#[test]
fn empty_path_and_dot_are_the_directory_itself() {
    let fs = tree();
    let root = fs.root_dir_node();
    assert_eq!(root.lookup(&fs, ""), Ok(Reach::Local(root.node_id())));
    assert_eq!(root.lookup(&fs, "."), Ok(Reach::Local(root.node_id())));
    assert_eq!(root.lookup(&fs, "/"), Ok(Reach::Local(root.node_id())));
    assert_eq!(root.lookup(&fs, "././."), Ok(Reach::Local(root.node_id())));
}

#[test]
fn missing_segment_not_found() {
    let fs = tree();
    let root = fs.root_dir_node();
    assert_eq!(root.lookup(&fs, "x"), Err(FsError::NotFound));
    assert_eq!(root.lookup(&fs, "a/x"), Err(FsError::NotFound));
    assert_eq!(root.lookup(&fs, "x/b"), Err(FsError::NotFound));
}

#[test]
fn dotdot_on_unmounted_root_not_found() {
    let fs = tree();
    let root = fs.root_dir_node();
    assert_eq!(root.lookup(&fs, ".."), Err(FsError::NotFound));
    assert_eq!(root.lookup(&fs, "a/../.."), Err(FsError::NotFound));
}

#[test]
fn leaf_with_more_path_is_not_a_directory() {
    let fs = tree();
    let root = fs.root_dir_node();
    assert!(matches!(root.lookup(&fs, "a/f"), Ok(Reach::Local(_))));
    assert_eq!(root.lookup(&fs, "a/f/x"), Err(FsError::NotADirectory));
    assert_eq!(root.lookup(&fs, "a/f/"), Err(FsError::NotADirectory));
    assert_eq!(root.lookup(&fs, "a/f/.."), Err(FsError::NotADirectory));
}

#[test]
fn create_through_a_leaf_is_not_a_directory() {
    let mut fs = tree();
    let root = fs.root_dir_node();
    assert_eq!(root.create(&mut fs, "a/f/x", NodeType::File), Err(FsError::NotADirectory));
    assert_eq!(root.remove(&mut fs, "a/f/x"), Err(FsError::NotADirectory));
    assert_eq!(root.symlink(&mut fs, "/t", "a/f/x"), Err(FsError::NotADirectory));
}

#[test]
fn create_of_directory_itself_is_nothing_to_do() {
    let mut fs = tree();
    let root = fs.root_dir_node();
    assert_eq!(root.create(&mut fs, "", NodeType::File), Ok(Reach::Local(())));
    assert_eq!(root.create(&mut fs, ".", NodeType::Dir), Ok(Reach::Local(())));
    assert_eq!(root.create(&mut fs, "..", NodeType::Dir), Ok(Reach::Local(())));
    assert_eq!(root.create(&mut fs, "a/", NodeType::Fifo), Ok(Reach::Local(())));
    assert_eq!(root.create(&mut fs, "a/..", NodeType::SymLink), Ok(Reach::Local(())));
    assert_eq!(root.get_entries(&fs), vec![String::from("a")]);
}

#[test]
fn create_by_path_reports_node_errors() {
    let mut fs = tree();
    let root = fs.root_dir_node();
    assert_eq!(root.create(&mut fs, "a/b", NodeType::Dir), Err(FsError::AlreadyExists));
    assert_eq!(root.create(&mut fs, "a/l", NodeType::SymLink), Err(FsError::InvalidInput));
    assert_eq!(root.create(&mut fs, "a/s", NodeType::Socket), Err(FsError::Unsupported));
    assert_eq!(root.create(&mut fs, "nope/x", NodeType::File), Err(FsError::NotFound));
}

#[test]
fn create_after_dotdot_lands_in_the_parent() {
    let mut fs = tree();
    let root = fs.root_dir_node();
    assert_eq!(root.create(&mut fs, "a/b/../g", NodeType::File), Ok(Reach::Local(())));
    assert!(matches!(root.lookup(&fs, "a/g"), Ok(Reach::Local(_))));
}

#[test]
fn remove_of_directory_itself_is_invalid() {
    let mut fs = tree();
    let root = fs.root_dir_node();
    assert_eq!(root.remove(&mut fs, ""), Err(FsError::InvalidInput));
    assert_eq!(root.remove(&mut fs, "."), Err(FsError::InvalidInput));
    assert_eq!(root.remove(&mut fs, ".."), Err(FsError::InvalidInput));
    assert_eq!(root.remove(&mut fs, "a/b/"), Err(FsError::InvalidInput));
    assert_eq!(root.remove(&mut fs, "a/."), Err(FsError::InvalidInput));
}

#[test]
fn remove_by_path() {
    let mut fs = tree();
    let root = fs.root_dir_node();
    assert_eq!(root.remove(&mut fs, "a/x"), Err(FsError::NotFound));
    assert_eq!(root.remove(&mut fs, "a/b"), Err(FsError::DirectoryNotEmpty));
    assert_eq!(root.remove(&mut fs, "a/b/c.txt"), Ok(Reach::Local(())));
    assert_eq!(root.remove(&mut fs, "/a/b"), Ok(Reach::Local(())));
    assert_eq!(root.lookup(&fs, "a/b"), Err(FsError::NotFound));
    assert_eq!(root.remove(&mut fs, "a"), Err(FsError::DirectoryNotEmpty));
    assert_eq!(root.remove(&mut fs, "a/f"), Ok(Reach::Local(())));
    assert_eq!(root.remove(&mut fs, "a"), Ok(Reach::Local(())));
    assert_eq!(root.get_entries(&fs), Vec::<String>::new());
}
