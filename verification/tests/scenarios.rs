use axfs_ramfs::{FsError, NodeType, RamFileSystem, Reach};

type Gen = Box<dyn Fn() -> String>;

#[test]
fn create_lookup_remove_scenario() {
    let mut fs: RamFileSystem<u32, Gen> = RamFileSystem::new();
    let root = fs.root_dir_node();
    assert_eq!(root.create(&mut fs, "a", NodeType::Dir), Ok(Reach::Local(())));
    assert_eq!(root.create(&mut fs, "a/b.txt", NodeType::File), Ok(Reach::Local(())));
    let found = root.lookup(&fs, "a/b.txt").unwrap();
    let node = match found {
        Reach::Local(node) => node,
        Reach::Outer(_) => panic!("left the filesystem"),
    };
    assert_eq!(fs.node_type(node), Some(NodeType::File));
    assert!(matches!(root.lookup(&fs, "a"), Ok(Reach::Local(_))));
    assert_eq!(root.remove(&mut fs, "a"), Err(FsError::DirectoryNotEmpty));
    assert_eq!(root.remove(&mut fs, "a/b.txt"), Ok(Reach::Local(())));
    assert_eq!(root.remove(&mut fs, "a"), Ok(Reach::Local(())));
}
