use axfs_ramfs::{FsError, NodeType, Place, RamFileSystem, Reach};

type Gen = Box<dyn Fn() -> String>;
type Fs = RamFileSystem<&'static str, Gen>;

#[test]
fn mounted_root_escapes_to_the_outer_parent() {
    let mut fs: Fs = RamFileSystem::new();
    let root = fs.root_dir_node();
    assert_eq!(fs.outer_parent(), None);
    assert_eq!(fs.mount(Some("Q")), Ok(()));
    assert_eq!(fs.outer_parent(), Some(&"Q"));
    assert_eq!(root.parent(&fs), Some(Place::Outer));
    assert_eq!(root.lookup(&fs, ".."), Ok(Reach::Outer(None)));
    assert_eq!(root.lookup(&fs, "../x/y"), Ok(Reach::Outer(Some("x/y"))));
    assert_eq!(root.lookup(&fs, "../"), Ok(Reach::Outer(Some(""))));
}

#[test]
fn first_outer_parent_is_remembered() {
    let mut fs: Fs = RamFileSystem::new();
    assert_eq!(fs.mount(Some("first")), Ok(()));
    assert_eq!(fs.mount(Some("second")), Ok(()));
    assert_eq!(fs.outer_parent(), Some(&"first"));
}

#[test]
fn mount_point_without_parent_clears_the_root_parent() {
    let mut fs: Fs = RamFileSystem::new();
    let root = fs.root_dir_node();
    assert_eq!(fs.mount(Some("first")), Ok(()));
    assert_eq!(fs.mount(None), Ok(()));
    assert_eq!(fs.outer_parent(), None);
    assert_eq!(root.parent(&fs), None);
    assert_eq!(root.lookup(&fs, ".."), Err(FsError::NotFound));
    assert_eq!(fs.mount(Some("third")), Ok(()));
    assert_eq!(fs.outer_parent(), Some(&"first"));
}

#[test]
fn mount_without_parent_first_remembers_nothing() {
    let mut fs: Fs = RamFileSystem::new();
    assert_eq!(fs.mount(None), Ok(()));
    assert_eq!(fs.outer_parent(), None);
    assert_eq!(fs.mount(Some("late")), Ok(()));
    assert_eq!(fs.outer_parent(), Some(&"late"));
}

#[test]
fn operations_that_leave_the_filesystem_hand_over_the_rest() {
    let mut fs: Fs = RamFileSystem::new();
    let root = fs.root_dir_node();
    assert_eq!(fs.mount(Some("Q")), Ok(()));
    assert_eq!(root.create(&mut fs, "d", NodeType::Dir), Ok(Reach::Local(())));
    assert_eq!(root.create(&mut fs, "d/../../x", NodeType::File), Ok(Reach::Outer("x")));
    assert_eq!(root.remove(&mut fs, "../x"), Ok(Reach::Outer("x")));
    assert_eq!(root.symlink(&mut fs, "/t", "../a/l"), Ok(Reach::Outer("a/l")));
    let mut buf = [0u8; 4];
    assert_eq!(root.readlink(&fs, "../l", &mut buf), Ok(Reach::Outer("l")));
    assert_eq!(root.create(&mut fs, "..", NodeType::File), Ok(Reach::Local(())));
    assert_eq!(root.get_entries(&fs), vec![String::from("d")]);
    assert_eq!(
        fs.add_dynamic_symlink("../l", Box::new(|| String::from("/t"))),
        Err(FsError::NotADirectory)
    );
}
