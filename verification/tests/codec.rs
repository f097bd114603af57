use rpack::common::FuseCommon;
use rpack::model::{FileAttr, FileType, FuseDirectory, FuseFile, FuseStructure, Timespec};

fn sample_attr(ino: u64, size: u64, kind: FileType) -> FileAttr {
    FileAttr {
        ino,
        size,
        blocks: 7,
        atime: Timespec { sec: 1_600_000_000, nsec: 5 },
        mtime: Timespec { sec: -3, nsec: 999_999_999 },
        ctime: Timespec { sec: 42, nsec: 0 },
        crtime: Timespec { sec: 9, nsec: 9 },
        kind,
        perm: 0o644,
        nlink: 3,
        uid: 1000,
        gid: 1000,
        rdev: 4,
        flags: 5,
    }
}

#[test]
fn file_record_has_the_documented_layout() {
    let file = FuseFile { name: "a.txt".to_string(), data: b"hi".to_vec(), node: 3 };
    let mut expected: Vec<u8> = vec![0, 0, 0, 0, 0, 0, 0, 5];
    expected.extend_from_slice(b"a.txt");
    expected.extend_from_slice(&[0, 0, 0, 0, 0, 0, 0, 3]);
    expected.extend_from_slice(&[0, 0, 0, 0, 0, 0, 0, 2]);
    expected.extend_from_slice(b"hi");
    assert_eq!(file.serialize(), expected);
}

#[test]
fn file_record_reads_back() {
    let file = FuseFile { name: "a.txt".to_string(), data: b"hi".to_vec(), node: 3 };
    let mut bytes = vec![9u8, 9, 9];
    bytes.extend(file.serialize());
    bytes.push(0xff);
    let (read, count) = FuseFile::deserialize(3, &bytes).unwrap();
    assert_eq!(read, file);
    assert_eq!(count, 31);
}

#[test]
fn attribute_record_keeps_the_persisted_fields_only() {
    let attr = sample_attr(0x0102_0304_0506_0708, 2, FileType::RegularFile);
    let bytes = attr.serialize();
    assert_eq!(bytes.len(), 55);
    assert_eq!(&bytes[0..8], &[1, 2, 3, 4, 5, 6, 7, 8]);
    assert_eq!(&bytes[28..36], &[0xff, 0xff, 0xff, 0xff, 0xff, 0xff, 0xff, 0xfd]);
    assert_eq!(&bytes[52..55], &[0x01, 0xa4, 1]);
    let (read, count) = FileAttr::deserialize(0, &bytes).unwrap();
    assert_eq!(count, 55);
    assert_eq!(read.ino, attr.ino);
    assert_eq!(read.size, 2);
    assert_eq!(read.atime, attr.atime);
    assert_eq!(read.mtime, attr.mtime);
    assert_eq!(read.ctime, attr.ctime);
    assert_eq!(read.perm, 0o644);
    assert_eq!(read.kind, FileType::RegularFile);
    assert_eq!(read.blocks, 0);
    assert_eq!(read.crtime, attr.ctime);
    assert_eq!(read.nlink, 1);
    assert_eq!(read.uid, 501);
    assert_eq!(read.gid, 20);
    assert_eq!(read.rdev, 0);
    assert_eq!(read.flags, 0);
}

#[test]
fn directory_record_reads_back() {
    let dir = FuseDirectory {
        name: "sub".to_string(),
        nodes: vec![5, 6],
        node_types: vec![1, 0],
        node: 4,
        is_root: false,
        parent_node: 2,
    };
    let bytes = dir.serialize();
    assert_eq!(bytes.len(), 8 + 3 + 8 + 8 + 16 + 2 + 8 + 1);
    assert_eq!(bytes[bytes.len() - 1], 0);
    let (read, count) = FuseDirectory::deserialize(0, &bytes).unwrap();
    assert_eq!(read, dir);
    assert_eq!(count as usize, bytes.len());
}

#[test]
fn new_archive_holds_the_root_record() {
    let archive = FuseStructure::new();
    assert!(archive.directories.is_empty());
    assert!(archive.files.is_empty());
    assert_eq!(archive.attributes.len(), 1);
    assert_eq!(archive.attributes[0].ino, 1);
    assert_eq!(archive.attributes[0].perm, 0o755);
    assert_eq!(archive.attributes[0].nlink, 2);
    assert_eq!(archive.attributes[0].kind, FileType::Directory);
    assert_eq!(archive.epoch, Timespec { sec: 0, nsec: 0 });
}

fn sample_archive() -> FuseStructure {
    let mut archive = FuseStructure::new();
    archive.files.push(FuseFile { name: "b.txt".to_string(), data: b"bye".to_vec(), node: 5 });
    archive.files.push(FuseFile { name: "a.txt".to_string(), data: b"hi".to_vec(), node: 3 });
    archive.directories.push(FuseDirectory {
        name: "sub".to_string(),
        nodes: vec![5],
        node_types: vec![1],
        node: 4,
        is_root: false,
        parent_node: 2,
    });
    archive.directories.push(FuseDirectory {
        name: "root".to_string(),
        nodes: vec![3, 4],
        node_types: vec![1, 0],
        node: 2,
        is_root: true,
        parent_node: 1,
    });
    archive.attributes.push(sample_attr(3, 2, FileType::RegularFile));
    archive.attributes.push(sample_attr(5, 3, FileType::RegularFile));
    archive.attributes.push(sample_attr(4, 0, FileType::Directory));
    archive.attributes.push(sample_attr(2, 0, FileType::Directory));
    archive
}

#[test]
fn archive_starts_with_magic_and_counts() {
    let bytes = sample_archive().serialize();
    assert_eq!(&bytes[0..6], b"rpack0");
    assert_eq!(&bytes[6..14], &[0, 0, 0, 0, 0, 0, 0, 2]);
    assert_eq!(&bytes[14..22], &[0, 0, 0, 0, 0, 0, 0, 2]);
    assert_eq!(&bytes[22..30], &[0, 0, 0, 0, 0, 0, 0, 5]);
    assert_eq!(&bytes[30..38], &[0, 0, 0, 0, 0, 0, 0, 3]);
    assert_eq!(&bytes[38..41], b"sub");
}

#[test]
fn archive_round_trip_keeps_nodes_and_persisted_attribute_fields() {
    let archive = sample_archive();
    let mut bytes = archive.serialize();
    let copy = bytes.clone();
    let read = FuseStructure::deserialize(&mut bytes).unwrap();
    assert_eq!(bytes, copy);
    assert_eq!(read.directories, archive.directories);
    assert_eq!(read.files, archive.files);
    assert_eq!(read.epoch, Timespec { sec: 0, nsec: 0 });
    assert_eq!(read.attributes.len(), archive.attributes.len());
    for (got, want) in read.attributes.iter().zip(archive.attributes.iter()) {
        assert_eq!(got.ino, want.ino);
        assert_eq!(got.size, want.size);
        assert_eq!(got.atime, want.atime);
        assert_eq!(got.mtime, want.mtime);
        assert_eq!(got.ctime, want.ctime);
        assert_eq!(got.perm, want.perm);
        assert_eq!(got.kind, want.kind);
        assert_eq!(got.blocks, 0);
        assert_eq!(got.crtime, want.ctime);
        assert_eq!(got.nlink, 1);
        assert_eq!(got.uid, 501);
        assert_eq!(got.gid, 20);
        assert_eq!(got.rdev, 0);
        assert_eq!(got.flags, 0);
    }
    assert_eq!(read.serialize(), copy);
}

#[test]
fn empty_archive_round_trip() {
    let archive = FuseStructure {
        epoch: Timespec { sec: 0, nsec: 0 },
        directories: vec![],
        files: vec![],
        attributes: vec![],
    };
    let mut bytes = archive.serialize();
    assert_eq!(bytes.len(), 30);
    assert_eq!(FuseStructure::deserialize(&mut bytes), Some(archive));
}

#[test]
fn wrong_magic_is_refused() {
    let mut bytes = sample_archive().serialize();
    bytes[5] = b'1';
    assert_eq!(FuseStructure::deserialize(&mut bytes), None);
    let mut other = b"RPACK0".to_vec();
    other.extend_from_slice(&[0; 24]);
    assert_eq!(FuseStructure::deserialize(&mut other), None);
}

#[test]
fn short_buffers_are_refused() {
    assert_eq!(FuseStructure::deserialize(&mut Vec::new()), None);
    assert_eq!(FuseStructure::deserialize(&mut b"rpac".to_vec()), None);
    assert_eq!(FuseStructure::deserialize(&mut b"rpack0".to_vec()), None);
    let whole = sample_archive().serialize();
    for len in 0..whole.len() {
        let mut cut = whole[..len].to_vec();
        assert_eq!(FuseStructure::deserialize(&mut cut), None, "prefix of {} bytes", len);
    }
}

#[test]
fn bytes_after_the_last_record_are_ignored() {
    let archive = sample_archive();
    let mut bytes = archive.serialize();
    bytes.extend_from_slice(&[1, 2, 3]);
    let read = FuseStructure::deserialize(&mut bytes).unwrap();
    assert_eq!(read.files, archive.files);
}

#[test]
fn a_count_beyond_the_buffer_is_refused() {
    let mut bytes = b"rpack0".to_vec();
    bytes.extend_from_slice(&[0xff; 8]);
    bytes.extend_from_slice(&[0; 16]);
    assert_eq!(FuseStructure::deserialize(&mut bytes), None);
}

#[test]
fn a_length_beyond_the_buffer_is_refused() {
    let mut record = vec![0xff, 0xff, 0xff, 0xff, 0xff, 0xff, 0xff, 0xff];
    record.extend_from_slice(b"name");
    record.extend_from_slice(&[0; 32]);
    assert_eq!(FuseFile::deserialize(0, &record), None);
    assert_eq!(FuseDirectory::deserialize(0, &record), None);

    let mut file = FuseFile { name: "f".to_string(), data: vec![1, 2, 3], node: 9 }.serialize();
    let at = 8 + 1 + 8;
    file[at..at + 8].copy_from_slice(&[0, 0, 0, 0, 0, 0, 0, 4]);
    assert_eq!(FuseFile::deserialize(0, &file), None);

    let mut dir = FuseDirectory {
        name: "d".to_string(),
        nodes: vec![7],
        node_types: vec![1],
        node: 2,
        is_root: true,
        parent_node: 1,
    }
    .serialize();
    let at = 8 + 1 + 8;
    dir[at..at + 8].copy_from_slice(&[0x20, 0, 0, 0, 0, 0, 0, 0]);
    assert_eq!(FuseDirectory::deserialize(0, &dir), None);
}

#[test]
fn a_start_beyond_the_buffer_is_refused() {
    let bytes = vec![0u8; 10];
    assert_eq!(FuseFile::deserialize(11, &bytes), None);
    assert_eq!(FuseFile::deserialize(usize::MAX, &bytes), None);
    assert_eq!(FuseDirectory::deserialize(usize::MAX - 3, &bytes), None);
    assert_eq!(FileAttr::deserialize(usize::MAX, &bytes), None);
    assert_eq!(FileAttr::deserialize(0, &vec![0u8; 54]), None);
}

#[test]
fn a_file_name_that_is_not_utf8_is_refused() {
    let mut record = vec![0, 0, 0, 0, 0, 0, 0, 2, 0xff, 0xfe];
    record.extend_from_slice(&[0, 0, 0, 0, 0, 0, 0, 3]);
    record.extend_from_slice(&[0, 0, 0, 0, 0, 0, 0, 0]);
    assert_eq!(FuseFile::deserialize(0, &record), None);
}

#[test]
fn a_directory_name_that_is_not_utf8_is_patched() {
    let mut record = vec![0, 0, 0, 0, 0, 0, 0, 3, b'a', 0xff, b'b'];
    record.extend_from_slice(&[0, 0, 0, 0, 0, 0, 0, 4]);
    record.extend_from_slice(&[0, 0, 0, 0, 0, 0, 0, 0]);
    record.extend_from_slice(&[0, 0, 0, 0, 0, 0, 0, 2]);
    record.push(7);
    let (dir, count) = FuseDirectory::deserialize(0, &record).unwrap();
    assert_eq!(dir.name, "a\u{fffd}b");
    assert_eq!(dir.node, 4);
    assert_eq!(dir.parent_node, 2);
    assert!(dir.nodes.is_empty());
    assert!(dir.node_types.is_empty());
    assert!(!dir.is_root);
    assert_eq!(count as usize, record.len());
}

#[test]
fn a_directory_reads_with_the_name_it_is_given() {
    let dir = FuseDirectory {
        name: "sub".to_string(),
        nodes: vec![0x0102_0304_0506_0708],
        node_types: vec![1],
        node: 4,
        is_root: true,
        parent_node: 2,
    };
    let bytes = dir.serialize();
    let (read, count) =
        FuseDirectory::deserialize_named(0, &bytes, "other".to_string()).unwrap();
    assert_eq!(read.name, "other");
    assert_eq!(read.nodes, vec![0x0102_0304_0506_0708]);
    assert_eq!(read.node_types, vec![1]);
    assert!(read.is_root);
    assert_eq!(count as usize, bytes.len());
}

#[test]
fn names_with_wide_characters_round_trip() {
    let file = FuseFile { name: "héllo-日本".to_string(), data: vec![], node: 1 << 40 };
    let bytes = file.serialize();
    assert_eq!(bytes[7] as usize, "héllo-日本".len());
    let (read, _) = FuseFile::deserialize(0, &bytes).unwrap();
    assert_eq!(read, file);
    let dir = FuseDirectory {
        name: "日本".to_string(),
        nodes: vec![],
        node_types: vec![],
        node: u64::MAX,
        is_root: false,
        parent_node: 0,
    };
    let (read, _) = FuseDirectory::deserialize(0, &dir.serialize()).unwrap();
    assert_eq!(read, dir);
}

#[test]
fn negative_times_round_trip() {
    let mut attr = sample_attr(1, 0, FileType::Directory);
    attr.atime = Timespec { sec: i64::MIN, nsec: i32::MIN };
    attr.mtime = Timespec { sec: -1, nsec: -1 };
    attr.ctime = Timespec { sec: i64::MAX, nsec: i32::MAX };
    attr.perm = u16::MAX;
    let bytes = attr.serialize();
    assert_eq!(&bytes[16..24], &[0x80, 0, 0, 0, 0, 0, 0, 0]);
    assert_eq!(&bytes[24..28], &[0x80, 0, 0, 0]);
    assert_eq!(&bytes[36..40], &[0xff, 0xff, 0xff, 0xff]);
    let (read, _) = FileAttr::deserialize(0, &bytes).unwrap();
    assert_eq!(read.atime, attr.atime);
    assert_eq!(read.mtime, attr.mtime);
    assert_eq!(read.ctime, attr.ctime);
    assert_eq!(read.perm, u16::MAX);
    assert_eq!(read.kind, FileType::Directory);
}

#[test]
fn kind_and_root_bytes_other_than_one_read_as_directory_and_not_root() {
    let mut bytes = sample_attr(1, 0, FileType::RegularFile).serialize();
    bytes[54] = 2;
    assert_eq!(FileAttr::deserialize(0, &bytes).unwrap().0.kind, FileType::Directory);
    let mut dir = FuseDirectory {
        name: "d".to_string(),
        nodes: vec![],
        node_types: vec![],
        node: 2,
        is_root: true,
        parent_node: 1,
    }
    .serialize();
    let last = dir.len() - 1;
    assert_eq!(dir[last], 1);
    dir[last] = 2;
    assert!(!FuseDirectory::deserialize(0, &dir).unwrap().0.is_root);
}

#[test]
fn find_by_node_gives_the_first_with_the_id() {
    let files = vec![
        FuseFile { name: "x".to_string(), data: vec![], node: 7 },
        FuseFile { name: "y".to_string(), data: vec![], node: 8 },
        FuseFile { name: "z".to_string(), data: vec![], node: 8 },
    ];
    assert_eq!(FuseFile::find_by_node(&files, 8).unwrap().name, "y");
    assert_eq!(FuseFile::find_by_node(&files, 7).unwrap().name, "x");
    assert!(FuseFile::find_by_node(&files, 9).is_none());
    let archive = sample_archive();
    assert_eq!(FuseDirectory::find_by_node(&archive.directories, 2).unwrap().name, "root");
    assert!(FuseDirectory::find_by_node(&archive.directories, 3).is_none());
    assert_eq!(FileAttr::find_by_node(&archive.attributes, 4).unwrap().kind, FileType::Directory);
    assert!(FileAttr::find_by_node(&archive.attributes, 40).is_none());
    assert_eq!(FuseDirectory::find_root_directory(&archive.directories).unwrap().node, 2);
    assert!(FuseDirectory::find_root_directory(&archive.directories[..1].to_vec()).is_none());
}

#[test]
fn slice_copy_takes_the_named_range() {
    let data = vec![1u8, 2, 3, 4, 5];
    assert_eq!(FuseStructure::get_sclice_from_vector(&data, 1, 3), vec![2, 3, 4]);
    assert_eq!(FuseStructure::get_sclice_from_vector(&data, 5, 0), Vec::<u8>::new());
    assert_eq!(FuseStructure::get_sclice_from_vector(&data, 0, 5), data);
}
