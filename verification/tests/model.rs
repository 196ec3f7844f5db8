use siftfs::adapter::{read_range, DirEntry, FsError};
use siftfs::attr::{make_attr, FileType, Timespec};
use siftfs::fs::{ScanEntry, SiftFilesystem};
use siftfs::node::SiftNode;

const PATTERN: &str = r"^([A-Za-z]+)-([A-Za-z]+)-([0-9]+)\.([a-z0-9]+)$";
const TEMPLATE: &str = "{} - {} ({}).{}";
const ARGS: &str = "1,2,3,4";

fn entry(name: &str, size: u64) -> ScanEntry {
    ScanEntry {
        name: name.to_string(),
        path: format!("/srv/media/{}", name),
        size,
    }
}

fn sample_fs() -> SiftFilesystem {
    let entries = vec![
        entry("Alice-Bob-1.mp3", 10),
        entry("Alice-Carol-2.mp3", 20),
        entry("README.txt", 5),
        entry("Bob-Dave-3.ogg", 30),
    ];
    SiftFilesystem::new("/srv/media", PATTERN, TEMPLATE, ARGS, entries).unwrap()
}

#[test]
fn build_creates_one_node_per_matching_entry() {
    let fs = sample_fs();
    // root + 2 directories + 3 matching files; the non-matching entry is skipped
    assert_eq!(fs.nodes.len(), 6);
    let n = fs.get_node_by_name("Alice - Bob (1).mp3").unwrap();
    assert_eq!(n.get_attr().size, 10);
    assert_eq!(n.get_attr().kind, FileType::RegularFile);
    let n = fs.get_node_by_name("Bob - Dave (3).ogg").unwrap();
    assert_eq!(n.get_attr().size, 30);
}

#[test]
fn skipped_entry_leaves_no_node() {
    let fs = sample_fs();
    assert!(fs.get_node_by_name("README.txt").is_none());
    for node in &fs.nodes {
        if let SiftNode::SiftFile { original_name, .. } = node {
            assert_ne!(original_name, "README.txt");
        }
    }
}

#[test]
fn identifiers_are_unique_and_root_is_one() {
    let fs = sample_fs();
    let mut inodes: Vec<u64> = fs.nodes.iter().map(|n| n.get_inode()).collect();
    inodes.sort();
    inodes.dedup();
    assert_eq!(inodes.len(), fs.nodes.len());
    assert_eq!(fs.nodes[0].get_inode(), 1);
    assert!(matches!(fs.nodes[0], SiftNode::SiftDirectory { .. }));
    assert_eq!(fs.nodes[0].get_name(), "/");
}

#[test]
fn root_listing_names_each_label_once() {
    let fs = sample_fs();
    let rows = fs.readdir(1, 0).unwrap();
    let mut names: Vec<String> = rows.iter().map(|e| e.name.clone()).collect();
    names.sort();
    assert_eq!(names, vec!["Alice".to_string(), "Bob".to_string()]);
    for row in &rows {
        assert_eq!(row.kind, FileType::Directory);
        assert!(row.ino > 1);
    }
}

#[test]
fn directory_listing_yields_its_files() {
    let fs = sample_fs();
    let alice = fs.get_node_by_name("Alice").unwrap().get_inode();
    let rows = fs.readdir(alice, 0).unwrap();
    let mut names: Vec<String> = rows.iter().map(|e| e.name.clone()).collect();
    names.sort();
    assert_eq!(
        names,
        vec![
            "Alice - Bob (1).mp3".to_string(),
            "Alice - Carol (2).mp3".to_string()
        ]
    );
    for row in &rows {
        assert_eq!(row.kind, FileType::RegularFile);
    }
}

#[test]
fn listing_is_idempotent_and_one_shot() {
    let fs = sample_fs();
    let first = fs.readdir(1, 0).unwrap();
    let second = fs.readdir(1, 0).unwrap();
    let views = |rows: &Vec<DirEntry>| -> Vec<(u64, i64, String)> {
        rows.iter()
            .map(|e| (e.ino, e.offset, e.name.clone()))
            .collect()
    };
    assert_eq!(views(&first), views(&second));
    assert_eq!(fs.readdir(1, 7).err(), Some(FsError::NotFound));
    let alice = fs.get_node_by_name("Alice").unwrap().get_inode();
    assert_eq!(fs.readdir(alice, 1).err(), Some(FsError::NotFound));
}

#[test]
fn listing_a_file_is_not_found() {
    let fs = sample_fs();
    let file = fs.get_node_by_name("Alice - Bob (1).mp3").unwrap().get_inode();
    assert_eq!(fs.readdir(file, 0).err(), Some(FsError::NotFound));
}

#[test]
fn getattr_reports_fixed_policy() {
    let fs = sample_fs();
    let (attr, ttl) = fs.getattr(1).unwrap();
    assert_eq!(attr.ino, 1);
    assert_eq!(attr.size, 0);
    assert_eq!(attr.kind, FileType::Directory);
    assert_eq!(attr.perm, 0o755);
    assert_eq!(attr.nlink, 0);
    assert_eq!(attr.uid, 0);
    assert_eq!(attr.atime, Timespec { sec: 0, nsec: 0 });
    assert_eq!(ttl, Timespec { sec: 1, nsec: 0 });
}

#[test]
fn lookup_ignores_parent_and_finds_by_name() {
    let fs = sample_fs();
    let (attr, ttl, generation) = fs.lookup(999, "Bob - Dave (3).ogg").unwrap();
    assert_eq!(attr.size, 30);
    assert_eq!(attr.kind, FileType::RegularFile);
    assert_eq!(ttl, Timespec { sec: 1, nsec: 0 });
    assert_eq!(generation, 0);
    assert_eq!(fs.lookup(1, "no such name"), Err(FsError::NotFound));
}

#[test]
fn read_target_resolves_files_only() {
    let fs = sample_fs();
    let file = fs.get_node_by_name("Alice - Carol (2).mp3").unwrap().get_inode();
    assert_eq!(fs.read_target(file), Ok("/srv/media/Alice-Carol-2.mp3"));
    assert_eq!(fs.read_target(1), Err(FsError::NotFound));
    assert_eq!(fs.read_target(999), Err(FsError::NotFound));
}

#[test]
fn read_range_clips_to_length() {
    let data: Vec<u8> = vec![0, 1, 2, 3, 4, 5, 6, 7, 8, 9];
    assert_eq!(read_range(&data, 2, 4), vec![2, 3, 4, 5]);
    assert_eq!(read_range(&data, 8, 100), vec![8, 9]);
    assert_eq!(read_range(&data, 0, 10), data);
    assert_eq!(read_range(&data, 10, 5), Vec::<u8>::new());
    assert_eq!(read_range(&data, 100, 1), Vec::<u8>::new());
    assert_eq!(read_range(&data, 0, 0), Vec::<u8>::new());
}

#[test]
fn not_found_on_unknown_identifier_everywhere() {
    let fs = sample_fs();
    assert_eq!(fs.getattr(42).err(), Some(FsError::NotFound));
    assert_eq!(fs.getattr(0).err(), Some(FsError::NotFound));
    assert_eq!(fs.readdir(42, 0).err(), Some(FsError::NotFound));
    assert_eq!(fs.read_target(42).err(), Some(FsError::NotFound));
    assert_eq!(fs.lookup(1, "missing").err(), Some(FsError::NotFound));
}

#[test]
fn children_are_matched_by_name_prefix() {
    // Membership in a directory goes by string prefix on the display name, so
    // a label that is a prefix of another label's files attracts them too.
    let entries = vec![entry("Al-X-1.mp3", 1), entry("Alice-Y-2.mp3", 2)];
    let fs = SiftFilesystem::new("/srv/media", PATTERN, TEMPLATE, ARGS, entries).unwrap();
    let both = fs.get_files_by_directory("Al");
    assert_eq!(both.len(), 2);
    let only_alice = fs.get_files_by_directory("Alice");
    assert_eq!(only_alice.len(), 1);
    assert_eq!(only_alice[0].get_name(), "Alice - Y (2).mp3");
}

#[test]
fn node_accessors_report_their_fields() {
    let attr = make_attr(7, 99, false);
    assert_eq!(attr.ino, 7);
    assert_eq!(attr.size, 99);
    assert_eq!(attr.kind, FileType::RegularFile);
    let node = SiftNode::SiftFile {
        name: "Alice - Bob (1).mp3".to_string(),
        original_name: "Alice-Bob-1.mp3".to_string(),
        abs_path: "/srv/media/Alice-Bob-1.mp3".to_string(),
        sift_directory: "Alice".to_string(),
        inode: 7,
        offset: 7,
        attr,
    };
    assert_eq!(node.get_inode(), 7);
    assert_eq!(node.get_offset(), 7);
    assert_eq!(node.get_name(), "Alice - Bob (1).mp3");
    assert_eq!(node.get_attr().size, 99);
}

#[test]
fn offsets_follow_identifiers() {
    let fs = sample_fs();
    for node in &fs.nodes {
        assert_eq!(node.get_offset() as u64, node.get_inode());
    }
}

#[test]
fn layout_is_deterministic_in_first_appearance_order() {
    let fs = sample_fs();
    let names: Vec<&str> = fs.nodes.iter().map(|n| n.get_name()).collect();
    assert_eq!(
        names,
        vec![
            "/",
            "Alice",
            "Alice - Bob (1).mp3",
            "Alice - Carol (2).mp3",
            "Bob",
            "Bob - Dave (3).ogg",
        ]
    );
    for (i, node) in fs.nodes.iter().enumerate() {
        assert_eq!(node.get_inode(), i as u64 + 1);
    }
}
