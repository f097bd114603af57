use rpack::model::{FileAttr, FileType, FuseDirectory, FuseFile, FuseStructure, Timespec};
use rpack::serve::DirEntry;

fn attr(ino: u64, size: u64, kind: FileType, perm: u16) -> FileAttr {
    FileAttr {
        ino,
        size,
        blocks: 0,
        atime: Timespec { sec: 10, nsec: 1 },
        mtime: Timespec { sec: 20, nsec: 2 },
        ctime: Timespec { sec: 30, nsec: 3 },
        crtime: Timespec { sec: 30, nsec: 3 },
        kind,
        perm,
        nlink: 1,
        uid: 501,
        gid: 20,
        rdev: 0,
        flags: 0,
    }
}

fn file(name: &str, data: &[u8], node: u64) -> FuseFile {
    FuseFile { name: name.to_string(), data: data.to_vec(), node }
}

fn flat() -> FuseStructure {
    let mut archive = FuseStructure::new();
    archive.files.push(file("one", b"1", 3));
    archive.files.push(file("two", b"22", 4));
    archive.files.push(file("three", b"333", 5));
    archive.directories.push(FuseDirectory {
        name: "root".to_string(),
        nodes: vec![3, 4, 5],
        node_types: vec![1, 1, 1],
        node: 2,
        is_root: true,
        parent_node: 1,
    });
    archive.attributes.push(attr(3, 1, FileType::RegularFile, 0o644));
    archive.attributes.push(attr(4, 2, FileType::RegularFile, 0o600));
    archive.attributes.push(attr(5, 3, FileType::RegularFile, 0o755));
    archive.attributes.push(attr(2, 0, FileType::Directory, 0o755));
    archive
}

fn nested() -> FuseStructure {
    let mut archive = FuseStructure::new();
    archive.files.push(file("b.txt", b"bye", 5));
    archive.files.push(file("a.txt", b"hi", 3));
    archive.directories.push(FuseDirectory {
        name: "sub".to_string(),
        nodes: vec![5],
        node_types: vec![1],
        node: 4,
        is_root: false,
        parent_node: 2,
    });
    archive.directories.push(FuseDirectory {
        name: "root".to_string(),
        nodes: vec![3, 4],
        node_types: vec![1, 0],
        node: 2,
        is_root: true,
        parent_node: 1,
    });
    archive.attributes.push(attr(3, 2, FileType::RegularFile, 0o644));
    archive.attributes.push(attr(5, 3, FileType::RegularFile, 0o640));
    archive.attributes.push(attr(4, 0, FileType::Directory, 0o750));
    archive.attributes.push(attr(2, 0, FileType::Directory, 0o755));
    archive
}

fn entry(ino: u64, offset: i64, kind: FileType, name: &str) -> DirEntry {
    DirEntry { ino, offset, kind, name: name.to_string() }
}

#[test]
fn lookup_in_a_flat_root_gives_the_file_s_attributes() {
    let archive = flat();
    assert!(archive.is_well_formed());
    let two = archive.lookup(1, "two").unwrap();
    assert_eq!(two.ino, 4);
    assert_eq!(two.size, 2);
    assert_eq!(two.perm, 0o600);
    assert_eq!(two.kind, FileType::RegularFile);
    let three = archive.lookup(1, "three").unwrap();
    assert_eq!((three.ino, three.size, three.perm), (5, 3, 0o755));
    assert_eq!(archive.lookup(1, "four"), None);
    assert_eq!(archive.lookup(1, ""), None);
    assert_eq!(archive.lookup(1, "root"), None);
}

#[test]
fn lookup_by_the_root_s_own_id_is_the_same_as_by_the_sentinel() {
    let archive = flat();
    assert_eq!(archive.lookup(2, "one"), archive.lookup(1, "one"));
    assert_eq!(archive.lookup(2, "one").unwrap().ino, 3);
}

#[test]
fn lookup_finds_subdirectories_and_looks_inside_them() {
    let archive = nested();
    assert!(archive.is_well_formed());
    let sub = archive.lookup(1, "sub").unwrap();
    assert_eq!((sub.ino, sub.kind, sub.perm), (4, FileType::Directory, 0o750));
    let b = archive.lookup(4, "b.txt").unwrap();
    assert_eq!((b.ino, b.size), (5, 3));
    assert_eq!(archive.lookup(4, "a.txt"), None);
    assert_eq!(archive.lookup(1, "b.txt"), None);
}

#[test]
fn lookup_takes_the_first_child_of_a_name() {
    let mut archive = flat();
    archive.files[2].name = "one".to_string();
    assert!(archive.is_well_formed());
    assert_eq!(archive.lookup(1, "one").unwrap().ino, 3);
}

#[test]
fn requested_directory_resolves_the_sentinel_and_ids() {
    let archive = nested();
    assert_eq!(archive.requested_directory(1).unwrap().node, 2);
    assert_eq!(archive.requested_directory(2).unwrap().node, 2);
    assert_eq!(archive.requested_directory(4).unwrap().name, "sub");
    assert!(archive.requested_directory(3).is_none());
    assert!(archive.requested_directory(99).is_none());
}

#[test]
fn getattr_finds_records_by_id() {
    let archive = nested();
    assert_eq!(archive.getattr(3).unwrap().size, 2);
    assert_eq!(archive.getattr(4).unwrap().kind, FileType::Directory);
    let root = archive.getattr(1).unwrap();
    assert_eq!((root.ino, root.perm, root.nlink, root.kind), (1, 0o755, 2, FileType::Directory));
    assert_eq!(archive.getattr(77), None);
}

#[test]
fn read_gives_the_content_from_the_offset_whatever_the_size() {
    let mut archive = flat();
    archive.files.push(file("long", b"0123456789", 9));
    assert_eq!(archive.read(9, 0, 4).unwrap(), b"0123456789");
    assert_eq!(archive.read(9, 3, 1).unwrap(), b"3456789");
    assert_eq!(archive.read(9, 3, 0).unwrap(), b"3456789");
    assert_eq!(archive.read(9, 3, u32::MAX).unwrap(), b"3456789");
    assert_eq!(archive.read(9, 9, 100).unwrap(), b"9");
    assert_eq!(archive.read(9, 10, 100).unwrap(), b"");
    assert_eq!(archive.read(4, 1, 1).unwrap(), b"2");
}

#[test]
fn read_of_an_unknown_id_is_not_found() {
    let archive = nested();
    assert_eq!(archive.read(4, 0, 10), None);
    assert_eq!(archive.read(99, 0, 10), None);
    assert_eq!(archive.read(1, 0, 10), None);
}

#[test]
fn read_outside_the_content_gives_no_bytes() {
    let archive = nested();
    assert_eq!(archive.read(5, 4, 10).unwrap(), b"");
    assert_eq!(archive.read(5, i64::MAX, 10).unwrap(), b"");
    assert_eq!(archive.read(5, -1, 10).unwrap(), b"");
    assert_eq!(archive.read(5, i64::MIN, 10).unwrap(), b"");
}

#[test]
fn readdir_from_the_start_lists_dots_then_children_in_stored_order() {
    let archive = nested();
    let listing = archive.readdir(1, 0).unwrap();
    assert_eq!(
        listing,
        vec![
            entry(2, 1, FileType::Directory, "."),
            entry(2, 2, FileType::Directory, ".."),
            entry(3, 1, FileType::RegularFile, "a.txt"),
            entry(4, 2, FileType::Directory, "sub"),
        ]
    );
    assert_eq!(archive.readdir(2, 0).unwrap(), listing);
}

#[test]
fn readdir_of_a_subdirectory_points_up_at_the_parent() {
    let archive = nested();
    assert_eq!(
        archive.readdir(4, 0).unwrap(),
        vec![
            entry(4, 1, FileType::Directory, "."),
            entry(2, 2, FileType::Directory, ".."),
            entry(5, 1, FileType::RegularFile, "b.txt"),
        ]
    );
}

#[test]
fn readdir_offsets_skip_children_by_index_and_shift_the_tokens() {
    let archive = flat();
    assert_eq!(
        archive.readdir(1, 1).unwrap(),
        vec![
            entry(2, 2, FileType::Directory, ".."),
            entry(4, 3, FileType::RegularFile, "two"),
            entry(5, 4, FileType::RegularFile, "three"),
        ]
    );
    assert_eq!(archive.readdir(1, 2).unwrap(), vec![entry(5, 5, FileType::RegularFile, "three")]);
    assert_eq!(archive.readdir(1, 3).unwrap(), vec![]);
    assert_eq!(archive.readdir(1, 4).unwrap(), vec![]);
    assert_eq!(archive.readdir(1, i64::MAX).unwrap(), vec![]);
}

#[test]
fn readdir_with_a_negative_offset_lists_the_parent_entry_only() {
    let archive = flat();
    assert_eq!(archive.readdir(1, -1).unwrap(), vec![entry(2, 2, FileType::Directory, "..")]);
    assert_eq!(
        archive.readdir(1, i64::MIN).unwrap(),
        vec![entry(2, 2, FileType::Directory, "..")]
    );
}

#[test]
fn readdir_of_an_unknown_directory_is_not_found() {
    let archive = nested();
    assert_eq!(archive.readdir(3, 0), None);
    assert_eq!(archive.readdir(99, 0), None);
}

#[test]
fn readdir_of_an_empty_directory_lists_the_dots() {
    let mut archive = FuseStructure::new();
    archive.directories.push(FuseDirectory {
        name: "root".to_string(),
        nodes: vec![],
        node_types: vec![],
        node: 2,
        is_root: true,
        parent_node: 1,
    });
    archive.attributes.push(attr(2, 0, FileType::Directory, 0o755));
    assert!(archive.is_well_formed());
    assert_eq!(
        archive.readdir(1, 0).unwrap(),
        vec![entry(2, 1, FileType::Directory, "."), entry(2, 2, FileType::Directory, "..")]
    );
    assert_eq!(archive.lookup(1, "x"), None);
}

#[test]
fn well_formedness_asks_for_exactly_one_root() {
    let mut archive = nested();
    archive.directories[1].is_root = false;
    assert!(!archive.is_well_formed());
    archive.directories[1].is_root = true;
    archive.directories[0].is_root = true;
    assert!(!archive.is_well_formed());
    assert!(!FuseStructure::new().is_well_formed());
}

#[test]
fn well_formedness_asks_for_child_lists_in_step() {
    let mut archive = nested();
    archive.directories[1].node_types.pop();
    assert!(!archive.is_well_formed());
    let mut archive = nested();
    archive.directories[0].node_types.push(1);
    assert!(!archive.is_well_formed());
}

#[test]
fn well_formedness_asks_for_children_that_resolve_by_kind() {
    let mut archive = nested();
    archive.directories[1].node_types = vec![0, 0];
    assert!(!archive.is_well_formed());
    let mut archive = nested();
    archive.directories[1].node_types = vec![1, 1];
    assert!(!archive.is_well_formed());
    let mut archive = nested();
    archive.directories[1].node_types = vec![1, 2];
    assert!(!archive.is_well_formed());
    let mut archive = nested();
    archive.directories[0].nodes = vec![6];
    assert!(!archive.is_well_formed());
}

#[test]
fn well_formedness_asks_for_exactly_one_attribute_record_each() {
    let mut archive = nested();
    archive.attributes.remove(1);
    assert!(!archive.is_well_formed());
    let mut archive = nested();
    archive.attributes.push(attr(3, 2, FileType::RegularFile, 0o644));
    assert!(!archive.is_well_formed());
    let mut archive = nested();
    archive.attributes.pop();
    assert!(!archive.is_well_formed());
    let mut archive = nested();
    archive.attributes.push(attr(1234, 0, FileType::RegularFile, 0));
    assert!(archive.is_well_formed());
}
