use rpack::generate::{
    blob_generate_attributes, build_blob, generate, SourceContent, SourceNode, SourceStat,
    SourceTime,
};
use rpack::model::{FileType, FuseDirectory, FuseStructure, Timespec};

fn stat(mode: u32, stamp: u64) -> Option<SourceStat> {
    Some(SourceStat {
        mode,
        accessed: SourceTime { secs: stamp, nanos: 1 },
        modified: SourceTime { secs: stamp + 1, nanos: 2 },
        created: SourceTime { secs: stamp + 2, nanos: 3 },
    })
}

fn file(name: &str, data: &[u8]) -> SourceNode {
    SourceNode {
        name: Some(name.to_string()),
        stat: stat(0o100644, 1000),
        content: SourceContent::File(Some(data.to_vec())),
    }
}

fn dir(name: &str, entries: Vec<SourceNode>) -> SourceNode {
    SourceNode {
        name: Some(name.to_string()),
        stat: stat(0o40755, 2000),
        content: SourceContent::Directory(Some(entries)),
    }
}

fn small_tree() -> SourceNode {
    dir("root", vec![file("a.txt", b"hi"), dir("sub", vec![file("b.txt", b"bye")])])
}

fn pack(source: &SourceNode) -> FuseStructure {
    let mut fuse = FuseStructure::new();
    assert_eq!(build_blob(source, 3, 1, 2, &mut fuse, true), Some(3 + count(source)));
    let root = FuseDirectory::find_root_directory(&fuse.directories).unwrap().clone();
    assert_eq!(blob_generate_attributes(source, &root, &mut fuse), Some(()));
    fuse
}

fn count(source: &SourceNode) -> u64 {
    match &source.content {
        SourceContent::Directory(Some(entries)) => entries
            .iter()
            .map(|entry| match &entry.content {
                SourceContent::File(_) => 1,
                SourceContent::Directory(_) => 1 + count(entry),
                SourceContent::Other => 0,
            })
            .sum(),
        _ => 0,
    }
}

#[test]
fn small_tree_packs_and_serves() {
    let fuse = pack(&small_tree());

    let roots: Vec<&FuseDirectory> = fuse.directories.iter().filter(|d| d.is_root).collect();
    assert_eq!(roots.len(), 1);
    assert_eq!(roots[0].name, "root");
    assert_eq!(roots[0].node, 2);
    assert_eq!(roots[0].parent_node, 1);
    assert_eq!(roots[0].nodes, vec![3, 4]);
    assert_eq!(roots[0].node_types, vec![1, 0]);

    assert_eq!(fuse.directories.len(), 2);
    let sub = &fuse.directories[0];
    assert_eq!(sub.name, "sub");
    assert_eq!((sub.node, sub.parent_node, sub.is_root), (4, 2, false));
    assert_eq!(sub.nodes, vec![5]);
    assert_eq!(sub.node_types, vec![1]);

    assert_eq!(fuse.files.len(), 2);
    assert_eq!((fuse.files[0].name.as_str(), fuse.files[0].node), ("b.txt", 5));
    assert_eq!(fuse.files[0].data, b"bye");
    assert_eq!((fuse.files[1].name.as_str(), fuse.files[1].node), ("a.txt", 3));
    assert_eq!(fuse.files[1].data, b"hi");

    let harvested: Vec<(u64, u64, FileType)> =
        fuse.attributes[1..].iter().map(|a| (a.ino, a.size, a.kind)).collect();
    assert_eq!(
        harvested,
        vec![
            (3, 2, FileType::RegularFile),
            (5, 3, FileType::RegularFile),
            (4, 0, FileType::Directory),
            (2, 0, FileType::Directory),
        ]
    );
    assert_eq!(fuse.attributes[0].ino, 1);

    assert!(fuse.is_well_formed());
    let a = fuse.lookup(1, "a.txt").unwrap();
    assert_eq!(a.size, 2);
    assert_eq!(a.ino, 3);
    assert_eq!(fuse.read(a.ino, 0, 4096).unwrap(), b"hi");
    let b = fuse.lookup(4, "b.txt").unwrap();
    assert_eq!(fuse.read(b.ino, 1, 1).unwrap(), b"ye");
}

#[test]
fn packed_tree_survives_writing_and_reading() {
    let fuse = pack(&small_tree());
    let mut bytes = fuse.serialize();
    let read = FuseStructure::deserialize(&mut bytes).unwrap();
    assert_eq!(read.directories, fuse.directories);
    assert_eq!(read.files, fuse.files);
    assert!(read.is_well_formed());
    assert_eq!(read.lookup(1, "a.txt").unwrap().size, 2);
    assert_eq!(read.read(3, 0, 0).unwrap(), b"hi");
    assert_eq!(read.readdir(1, 0).unwrap().len(), 4);
}

#[test]
fn flat_tree_lookup_gives_size_and_permission_bits() {
    let mut one = file("one", b"1");
    one.stat = stat(0o100600, 5);
    let mut two = file("two", b"four");
    two.stat = stat(0o100755, 6);
    let fuse = pack(&dir("top", vec![one, two]));
    assert!(fuse.is_well_formed());
    let one = fuse.lookup(1, "one").unwrap();
    assert_eq!((one.size, one.perm, one.kind), (1, 0o100600, FileType::RegularFile));
    let two = fuse.lookup(1, "two").unwrap();
    assert_eq!((two.size, two.perm), (4, 0o100755));
    assert_eq!(fuse.lookup(1, "three"), None);
}

#[test]
fn ids_go_to_files_first_then_directories_then_depth_first() {
    let tree = dir(
        "r",
        vec![
            dir("d1", vec![file("x", b""), dir("deep", vec![file("y", b"")]), file("z", b"")]),
            file("f1", b""),
            dir("d2", vec![file("w", b"")]),
            file("f2", b""),
        ],
    );
    let fuse = pack(&tree);
    let id = |name: &str| -> u64 {
        fuse.files
            .iter()
            .map(|f| (f.name.as_str(), f.node))
            .chain(fuse.directories.iter().map(|d| (d.name.as_str(), d.node)))
            .find(|(n, _)| *n == name)
            .unwrap()
            .1
    };
    assert_eq!(id("r"), 2);
    assert_eq!(id("f1"), 3);
    assert_eq!(id("f2"), 4);
    assert_eq!(id("d1"), 5);
    assert_eq!(id("d2"), 6);
    assert_eq!(id("x"), 7);
    assert_eq!(id("z"), 8);
    assert_eq!(id("deep"), 9);
    assert_eq!(id("y"), 10);
    assert_eq!(id("w"), 11);

    let names: Vec<&str> = fuse.directories.iter().map(|d| d.name.as_str()).collect();
    assert_eq!(names, vec!["deep", "d1", "d2", "r"]);
    let names: Vec<&str> = fuse.files.iter().map(|f| f.name.as_str()).collect();
    assert_eq!(names, vec!["y", "x", "z", "w", "f1", "f2"]);

    let root = fuse.directories.last().unwrap();
    assert_eq!(root.nodes, vec![3, 4, 5, 6]);
    assert_eq!(root.node_types, vec![1, 1, 0, 0]);
    let d1 = &fuse.directories[1];
    assert_eq!((d1.parent_node, d1.is_root), (2, false));
    assert_eq!(d1.nodes, vec![7, 8, 9]);
    assert_eq!(d1.node_types, vec![1, 1, 0]);
    assert_eq!(fuse.directories[0].parent_node, 5);

    let order: Vec<u64> = fuse.attributes[1..].iter().map(|a| a.ino).collect();
    assert_eq!(order, vec![3, 4, 7, 8, 10, 9, 5, 11, 6, 2]);
    assert!(fuse.is_well_formed());
}

#[test]
fn other_entries_are_passed_over() {
    let other = SourceNode { name: Some("sock".to_string()), stat: None, content: SourceContent::Other };
    let nameless = SourceNode { name: None, stat: None, content: SourceContent::Other };
    let fuse = pack(&dir("r", vec![other, file("f", b"x"), nameless]));
    assert_eq!(fuse.files.len(), 1);
    assert_eq!(fuse.directories[0].nodes, vec![3]);
}

#[test]
fn a_source_that_is_no_directory_packs_to_nothing() {
    let mut fuse = FuseStructure::new();
    let before = fuse.clone();
    assert_eq!(build_blob(&file("f", b"x"), 3, 1, 2, &mut fuse, true), Some(3));
    assert_eq!(fuse, before);
}

#[test]
fn packing_adds_to_what_the_archive_holds() {
    let mut fuse = FuseStructure::new();
    assert_eq!(build_blob(&dir("first", vec![file("a", b"1")]), 3, 1, 2, &mut fuse, true), Some(4));
    assert_eq!(
        build_blob(&dir("second", vec![file("b", b"2")]), 11, 2, 10, &mut fuse, false),
        Some(12)
    );
    let names: Vec<&str> = fuse.directories.iter().map(|d| d.name.as_str()).collect();
    assert_eq!(names, vec!["first", "second"]);
    assert_eq!(fuse.files[1].node, 11);
    assert_eq!(fuse.directories[1].parent_node, 2);
    assert_eq!(fuse.attributes.len(), 1);
}

fn assert_refused(source: &SourceNode) {
    let mut fuse = FuseStructure::new();
    fuse.files.push(rpack::model::FuseFile { name: "kept".to_string(), data: vec![1], node: 77 });
    let before = fuse.clone();
    assert_eq!(build_blob(source, 3, 1, 2, &mut fuse, true), None);
    assert_eq!(fuse, before);
}

#[test]
fn packing_fails_as_a_whole_on_what_could_not_be_read() {
    let mut unread = file("f", b"");
    unread.content = SourceContent::File(None);
    assert_refused(&dir("r", vec![file("ok", b"1"), unread]));

    let mut nameless = file("f", b"x");
    nameless.name = None;
    assert_refused(&dir("r", vec![nameless]));

    let mut nameless = dir("d", vec![]);
    nameless.name = None;
    assert_refused(&dir("r", vec![nameless]));

    let mut unlisted = dir("d", vec![]);
    unlisted.content = SourceContent::Directory(None);
    assert_refused(&dir("r", vec![file("ok", b"1"), unlisted]));
    let mut unlisted = dir("r", vec![]);
    unlisted.content = SourceContent::Directory(None);
    assert_refused(&unlisted);

    let mut nameless = small_tree();
    nameless.name = None;
    assert_refused(&nameless);

    let mut deep = file("f", b"x");
    deep.name = None;
    assert_refused(&dir("r", vec![dir("a", vec![dir("b", vec![deep])])]));
}

#[test]
fn packing_fails_when_the_ids_run_out() {
    let tree = dir("r", vec![file("a", b""), file("b", b"")]);
    let mut fuse = FuseStructure::new();
    assert_eq!(build_blob(&tree, u64::MAX - 2, 1, 2, &mut fuse, true), Some(u64::MAX));
    assert_eq!(fuse.files[1].node, u64::MAX - 1);
    let mut fuse = FuseStructure::new();
    let before = fuse.clone();
    assert_eq!(build_blob(&tree, u64::MAX - 1, 1, 2, &mut fuse, true), None);
    assert_eq!(fuse, before);
    let tree = dir("r", vec![dir("a", vec![file("b", b"")])]);
    assert_eq!(build_blob(&tree, u64::MAX - 1, 1, 2, &mut fuse, true), None);
    assert_eq!(build_blob(&tree, u64::MAX, 1, 2, &mut fuse, true), None);
    assert_eq!(fuse, before);
}

#[test]
fn harvested_records_hold_times_low_mode_bits_and_placeholders() {
    let mut tree = dir("r", vec![file("f", b"abc")]);
    tree.stat = Some(SourceStat {
        mode: 0x0123_41ed,
        accessed: SourceTime { secs: 7, nanos: 999_999_999 },
        modified: SourceTime { secs: 1_600_000_000, nanos: 0 },
        created: SourceTime { secs: u64::MAX, nanos: u32::MAX },
    });
    let fuse = pack(&tree);
    let f = fuse.attributes[1];
    assert_eq!((f.ino, f.size, f.kind, f.perm), (3, 3, FileType::RegularFile, 0o100644));
    assert_eq!(f.atime, Timespec { sec: 1000, nsec: 1 });
    assert_eq!(f.mtime, Timespec { sec: 1001, nsec: 2 });
    assert_eq!(f.ctime, Timespec { sec: 1002, nsec: 3 });
    assert_eq!(f.crtime, Timespec { sec: 1002, nsec: 3 });
    assert_eq!((f.blocks, f.nlink, f.uid, f.gid, f.rdev, f.flags), (0, 1, 501, 20, 0, 0));
    let r = fuse.attributes[2];
    assert_eq!((r.ino, r.size, r.kind, r.perm), (2, 0, FileType::Directory, 0x41ed));
    assert_eq!(r.atime, Timespec { sec: 7, nsec: 999_999_999 });
    assert_eq!(r.mtime, Timespec { sec: 1_600_000_000, nsec: 0 });
    assert_eq!(r.ctime, Timespec { sec: -1, nsec: -1 });
    assert_eq!(r.crtime, r.ctime);
}

fn assert_harvest_refused(packed_from: &SourceNode, examined: &SourceNode) {
    let mut fuse = FuseStructure::new();
    build_blob(packed_from, 3, 1, 2, &mut fuse, true).unwrap();
    let root = FuseDirectory::find_root_directory(&fuse.directories).unwrap().clone();
    let before = fuse.clone();
    assert_eq!(blob_generate_attributes(examined, &root, &mut fuse), None);
    assert_eq!(fuse, before);
}

#[test]
fn harvesting_fails_as_a_whole_on_what_could_not_be_examined() {
    let tree = small_tree();

    let mut blind = small_tree();
    blind.stat = None;
    assert_harvest_refused(&tree, &blind);

    let mut unexamined = file("b.txt", b"bye");
    unexamined.stat = None;
    assert_harvest_refused(
        &tree,
        &dir("root", vec![file("a.txt", b"hi"), dir("sub", vec![unexamined])]),
    );

    let mut unexamined = dir("sub", vec![file("b.txt", b"bye")]);
    unexamined.stat = None;
    assert_harvest_refused(&tree, &dir("root", vec![file("a.txt", b"hi"), unexamined]));

    assert_harvest_refused(&tree, &dir("root", vec![dir("sub", vec![file("b.txt", b"bye")])]));
    assert_harvest_refused(&tree, &dir("root", vec![file("a.txt", b"hi"), file("sub", b"")]));
    assert_harvest_refused(&tree, &dir("root", vec![file("a.txt", b"hi"), dir("sub", vec![])]));
    assert_harvest_refused(&tree, &file("root", b""));
}

#[test]
fn harvesting_fails_on_children_that_do_not_resolve() {
    let tree = small_tree();
    let mut fuse = FuseStructure::new();
    build_blob(&tree, 3, 1, 2, &mut fuse, true).unwrap();
    let mut root = FuseDirectory::find_root_directory(&fuse.directories).unwrap().clone();
    root.nodes.push(99);
    root.node_types.push(1);
    let before = fuse.clone();
    assert_eq!(blob_generate_attributes(&tree, &root, &mut fuse), None);
    root.node_types.pop();
    assert_eq!(blob_generate_attributes(&tree, &root, &mut fuse), None);
    root.node_types.push(0);
    assert_eq!(blob_generate_attributes(&tree, &root, &mut fuse), None);
    assert_eq!(fuse, before);
}

#[test]
fn harvesting_finds_entries_by_name_whatever_their_order() {
    let tree = small_tree();
    let mut fuse = FuseStructure::new();
    build_blob(&tree, 3, 1, 2, &mut fuse, true).unwrap();
    let root = FuseDirectory::find_root_directory(&fuse.directories).unwrap().clone();
    let mut late = file("a.txt", b"");
    late.stat = stat(0o100400, 50);
    let shuffled = dir("root", vec![dir("sub", vec![file("b.txt", b"")]), late, file("a.txt", b"")]);
    assert_eq!(blob_generate_attributes(&shuffled, &root, &mut fuse), Some(()));
    assert_eq!(fuse.attributes[1].ino, 3);
    assert_eq!(fuse.attributes[1].size, 2);
    assert_eq!(fuse.attributes[1].perm, 0o100400);
    assert_eq!(fuse.attributes[1].atime, Timespec { sec: 50, nsec: 1 });
}

#[test]
fn generate_packs_and_harvests_in_one() {
    let tree = small_tree();
    let archive = generate(&tree).unwrap();
    assert_eq!(archive, pack(&tree));
    assert!(archive.is_well_formed());
    assert_eq!(archive.directories.last().unwrap().node, 2);
    assert_eq!(archive.directories.last().unwrap().parent_node, 1);
    assert_eq!(archive.files.last().unwrap().node, 3);
}

#[test]
fn generate_refuses_what_is_no_directory_or_cannot_be_read() {
    assert_eq!(generate(&file("f", b"x")), None);
    let other = SourceNode { name: Some("o".to_string()), stat: None, content: SourceContent::Other };
    assert_eq!(generate(&other), None);
    let mut unread = file("f", b"");
    unread.content = SourceContent::File(None);
    assert_eq!(generate(&dir("r", vec![unread])), None);
    let mut blind = file("f", b"");
    blind.stat = None;
    assert_eq!(generate(&dir("r", vec![blind])), None);
    let mut blind = dir("r", vec![]);
    blind.stat = None;
    assert_eq!(generate(&blind), None);
    assert!(generate(&dir("r", vec![])).unwrap().is_well_formed());
}

#[test]
fn generated_archives_with_repeated_names_are_well_formed() {
    let tree = dir(
        "r",
        vec![file("same", b"1"), file("same", b"22"), dir("d", vec![file("same", b"333")])],
    );
    let archive = generate(&tree).unwrap();
    assert!(archive.is_well_formed());
    assert_eq!(archive.lookup(1, "same").unwrap().size, 1);
    assert_eq!(archive.lookup(5, "same").unwrap().size, 3);
}
