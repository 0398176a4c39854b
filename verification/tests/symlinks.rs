use std::sync::atomic::{AtomicUsize, Ordering};
use std::sync::Arc;

use axfs_ramfs::symlink::copy_prefix;
use axfs_ramfs::{FsError, NodeAttr, NodeType, RamFileSystem, Reach, SymlinkNode};

type Gen = Box<dyn Fn() -> String>;
type Fs = RamFileSystem<u32, Gen>;

fn counting() -> Gen {
    let calls = Arc::new(AtomicUsize::new(0));
    Box::new(move || format!("/run/{}", calls.fetch_add(1, Ordering::SeqCst)))
}

#[test]
fn static_target_is_the_stored_string() {
    let link: SymlinkNode<Gen> = SymlinkNode::new_static(String::from("/a/b"));
    assert_eq!(link.target(), "/a/b");
    assert_eq!(link.target(), "/a/b");
    assert!(link.is_symlink());
}

#[test]
fn dynamic_target_is_computed_at_every_read() {
    let link = SymlinkNode::new_dynamic(counting());
    assert_eq!(link.target(), "/run/0");
    assert_eq!(link.target(), "/run/1");
    assert_eq!(link.target(), "/run/2");
}

#[test]
fn symlink_size_is_the_length_of_the_current_target() {
    let link: SymlinkNode<Gen> = SymlinkNode::new_static(String::from("/é"));
    assert_eq!(
        link.get_attr(),
        Ok(NodeAttr { mode: 0o666, ty: NodeType::SymLink, size: 3, blocks: 0 })
    );
    let grows = Arc::new(AtomicUsize::new(1));
    let seen = grows.clone();
    let link = SymlinkNode::new_dynamic(move || "x".repeat(seen.load(Ordering::SeqCst)));
    assert_eq!(link.get_attr().unwrap().size, 1);
    grows.store(7, Ordering::SeqCst);
    assert_eq!(link.get_attr().unwrap().size, 7);
}

#[test]
fn copy_prefix_copies_what_fits() {
    let mut buf = [9u8; 4];
    assert_eq!(copy_prefix(b"ab", &mut buf), 2);
    assert_eq!(buf, [b'a', b'b', 9, 9]);
    assert_eq!(copy_prefix(b"uvwxyz", &mut buf), 4);
    assert_eq!(buf, [b'u', b'v', b'w', b'x']);
    assert_eq!(copy_prefix(b"", &mut buf), 0);
    assert_eq!(buf, [b'u', b'v', b'w', b'x']);
    let mut none: [u8; 0] = [];
    assert_eq!(copy_prefix(b"abc", &mut none), 0);
}

#[test]
fn read_link_truncates_silently() {
    let link: SymlinkNode<Gen> = SymlinkNode::new_static(String::from("/long/target"));
    let mut small = [0u8; 5];
    assert_eq!(link.readlink(&mut small), Ok(5));
    assert_eq!(&small, b"/long");
    let mut large = [0u8; 32];
    assert_eq!(link.readlink(&mut large), Ok(12));
    assert_eq!(&large[..12], b"/long/target");
    assert_eq!(large[12], 0);
}

#[test]
fn symlink_with_empty_target_is_invalid() {
    let mut fs: Fs = RamFileSystem::new();
    let root = fs.root_dir_node();
    assert_eq!(root.symlink(&mut fs, "", "link"), Err(FsError::InvalidInput));
    assert_eq!(root.symlink(&mut fs, "", "no/such/dir/link"), Err(FsError::InvalidInput));
    assert!(!root.exist(&fs, "link"));
}

#[test]
fn create_symlink_node_refuses_empty_target_first() {
    let mut fs: Fs = RamFileSystem::new();
    let root = fs.root_dir_node();
    assert_eq!(root.create_symlink_node(&mut fs, "l", ""), Err(FsError::InvalidInput));
    assert!(!root.exist(&fs, "l"));
    assert_eq!(root.create_symlink_node(&mut fs, "l", "/t"), Ok(()));
    assert_eq!(root.create_symlink_node(&mut fs, "l", ""), Err(FsError::InvalidInput));
    assert_eq!(root.create_symlink_node(&mut fs, "l", "/u"), Err(FsError::AlreadyExists));
    let mut buf = [0u8; 4];
    assert_eq!(root.readlink(&fs, "l", &mut buf), Ok(Reach::Local(2)));
    assert_eq!(&buf[..2], b"/t");
}

#[test]
fn symlink_then_readlink() {
    let mut fs: Fs = RamFileSystem::new();
    let root = fs.root_dir_node();
    assert_eq!(root.symlink(&mut fs, "/a/b", "link"), Ok(Reach::Local(())));
    let mut buf = [0u8; 32];
    assert_eq!(root.readlink(&fs, "link", &mut buf), Ok(Reach::Local(4)));
    assert_eq!(&buf[..4], b"/a/b");
    assert_eq!(&buf[4..], &[0u8; 28]);
}

#[test]
fn symlink_name_collision_and_reserved_names() {
    let mut fs: Fs = RamFileSystem::new();
    let root = fs.root_dir_node();
    assert_eq!(root.create(&mut fs, "d", NodeType::Dir), Ok(Reach::Local(())));
    assert_eq!(root.symlink(&mut fs, "/t", "d"), Err(FsError::AlreadyExists));
    assert_eq!(root.symlink(&mut fs, "/t", "d/l"), Ok(Reach::Local(())));
    assert_eq!(root.symlink(&mut fs, "/u", "d/l"), Err(FsError::AlreadyExists));
    assert_eq!(root.symlink(&mut fs, "/t", ""), Err(FsError::InvalidInput));
    assert_eq!(root.symlink(&mut fs, "/t", "."), Err(FsError::InvalidInput));
    assert_eq!(root.symlink(&mut fs, "/t", "d/.."), Err(FsError::InvalidInput));
    assert_eq!(root.symlink(&mut fs, "/t", "d/"), Err(FsError::InvalidInput));
    assert_eq!(root.symlink(&mut fs, "/t", "x/l"), Err(FsError::NotFound));
}

#[test]
fn readlink_of_what_is_no_link() {
    let mut fs: Fs = RamFileSystem::new();
    let root = fs.root_dir_node();
    assert_eq!(root.create(&mut fs, "d", NodeType::Dir), Ok(Reach::Local(())));
    assert_eq!(root.create(&mut fs, "d/f", NodeType::File), Ok(Reach::Local(())));
    let mut buf = [7u8; 8];
    assert_eq!(root.readlink(&fs, "", &mut buf), Err(FsError::InvalidInput));
    assert_eq!(root.readlink(&fs, ".", &mut buf), Err(FsError::InvalidInput));
    assert_eq!(root.readlink(&fs, "..", &mut buf), Err(FsError::InvalidInput));
    assert_eq!(root.readlink(&fs, "d", &mut buf), Err(FsError::InvalidInput));
    assert_eq!(root.readlink(&fs, "d/f", &mut buf), Err(FsError::InvalidInput));
    assert_eq!(root.readlink(&fs, "d/x", &mut buf), Err(FsError::NotFound));
    assert_eq!(root.readlink(&fs, "x", &mut buf), Err(FsError::NotFound));
    assert_eq!(buf, [7u8; 8]);
}

#[test]
fn link_on_the_way_answers_for_the_whole_path() {
    let mut fs: Fs = RamFileSystem::new();
    let root = fs.root_dir_node();
    assert_eq!(root.symlink(&mut fs, "/t", "l"), Ok(Reach::Local(())));
    let mut buf = [0u8; 8];
    assert_eq!(root.readlink(&fs, "l/more/path", &mut buf), Ok(Reach::Local(2)));
    assert_eq!(&buf[..2], b"/t");
}

#[test]
fn add_dynamic_symlink_in_root() {
    let mut fs: Fs = RamFileSystem::new();
    let root = fs.root_dir_node();
    assert_eq!(fs.add_dynamic_symlink("self", counting()), Ok(()));
    assert_eq!(fs.add_dynamic_symlink("/exe", counting()), Ok(()));
    assert_eq!(fs.add_dynamic_symlink("self", counting()), Err(FsError::AlreadyExists));
    assert_eq!(root.get_entries(&fs), vec![String::from("exe"), String::from("self")]);
    let mut buf = [0u8; 16];
    assert_eq!(root.readlink(&fs, "self", &mut buf), Ok(Reach::Local(6)));
    assert_eq!(&buf[..6], b"/run/0");
    assert_eq!(root.readlink(&fs, "self", &mut buf), Ok(Reach::Local(6)));
    assert_eq!(&buf[..6], b"/run/1");
}

#[test]
fn add_dynamic_symlink_below_root() {
    let mut fs: Fs = RamFileSystem::new();
    let root = fs.root_dir_node();
    assert_eq!(root.create(&mut fs, "proc", NodeType::Dir), Ok(Reach::Local(())));
    assert_eq!(root.create(&mut fs, "proc/sys", NodeType::Dir), Ok(Reach::Local(())));
    assert_eq!(root.create(&mut fs, "file", NodeType::File), Ok(Reach::Local(())));
    assert_eq!(fs.add_dynamic_symlink("proc/sys/self", counting()), Ok(()));
    assert_eq!(fs.add_dynamic_symlink("/proc/self", counting()), Ok(()));
    assert_eq!(fs.add_dynamic_symlink("file/self", counting()), Err(FsError::NotADirectory));
    assert_eq!(fs.add_dynamic_symlink("none/self", counting()), Err(FsError::NotFound));
    assert_eq!(fs.add_dynamic_symlink("../self", counting()), Err(FsError::NotFound));
    let found = root.lookup(&fs, "proc/sys/self").unwrap();
    let node = match found {
        Reach::Local(node) => node,
        Reach::Outer(_) => panic!("left the filesystem"),
    };
    assert_eq!(fs.node_type(node), Some(NodeType::SymLink));
    let link = fs.symlink_node(node).unwrap();
    assert_eq!(link.target(), "/run/0");
    assert_eq!(link.target(), "/run/1");
}
