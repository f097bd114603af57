//! The byte layout of an archive, stated twice: what bytes a value is written
//! as, and what value a buffer is read as.
//!
//! All integers are big-endian. An archive is the magic literal, three
//! eight-byte counts (directories, files, attribute records), and then the
//! records of each group in that order.

use crate::bytes::{
    be_bytes, bytes_at, field_at, i32_of_pattern, i64_of_pattern, pattern_of_i32, pattern_of_i64,
};
use crate::model::{ArchiveModel, DirectoryModel, FileAttr, FileModel, FileType, Timespec};
use crate::text::lenient_text;
use vstd::prelude::*;
use vstd::utf8::{decode_utf8, encode_utf8, valid_utf8};

verus! {

/// The six bytes that every archive starts with: `rpack0` in ASCII.
pub open spec fn magic() -> Seq<u8> {
    seq![0x72u8, 0x70u8, 0x61u8, 0x63u8, 0x6bu8, 0x30u8]
}

/// The number of bytes of an attribute record.
pub const ATTRIBUTE_LEN: u64 = 55;

/// The byte that a root flag is written as: 1 for the root, 0 for any other
/// directory.
pub open spec fn flag_byte(flag: bool) -> u8 {
    if flag {
        1
    } else {
        0
    }
}

/// The byte that the kind of an attribute record is written as: 1 for a
/// file, 0 for a directory.
pub open spec fn kind_byte(kind: FileType) -> u8 {
    match kind {
        FileType::RegularFile => 1,
        FileType::Directory => 0,
    }
}

/// The kind that a byte is read as: a file for 1, a directory for any other
/// byte.
pub open spec fn kind_of_byte(byte: u8) -> FileType {
    if byte == 1 {
        FileType::RegularFile
    } else {
        FileType::Directory
    }
}

/// The ids of a child list, eight bytes each, one after the other.
pub open spec fn ids_bytes(ids: Seq<u64>) -> Seq<u8>
    decreases ids.len(),
{
    if ids.len() == 0 {
        Seq::empty()
    } else {
        ids_bytes(ids.drop_last()) + be_bytes(ids.last() as nat, 8)
    }
}

/// A time: eight bytes of seconds and four of nanoseconds, each in two's
/// complement.
pub open spec fn time_bytes(time: Timespec) -> Seq<u8> {
    be_bytes(pattern_of_i64(time.sec) as nat, 8) + be_bytes(pattern_of_i32(time.nsec) as nat, 4)
}

/// A directory record: name length, name, id, child count, the child ids,
/// the child kind tags, the parent's id, and the root flag.
pub open spec fn directory_bytes(dir: DirectoryModel) -> Seq<u8> {
    let name = encode_utf8(dir.name);
    be_bytes(name.len(), 8) + name + be_bytes(dir.node as nat, 8) + be_bytes(dir.nodes.len(), 8)
        + ids_bytes(dir.nodes) + dir.node_types + be_bytes(dir.parent_node as nat, 8)
        + seq![flag_byte(dir.is_root)]
}

/// A file record: name length, name, id, content length, content.
pub open spec fn file_bytes(file: FileModel) -> Seq<u8> {
    let name = encode_utf8(file.name);
    be_bytes(name.len(), 8) + name + be_bytes(file.node as nat, 8) + be_bytes(file.data.len(), 8)
        + file.data
}

/// An attribute record: id, size, the access, modify and change times,
/// permission bits, and the kind tag.
pub open spec fn attribute_bytes(attr: FileAttr) -> Seq<u8> {
    be_bytes(attr.ino as nat, 8) + be_bytes(attr.size as nat, 8) + time_bytes(attr.atime)
        + time_bytes(attr.mtime) + time_bytes(attr.ctime) + be_bytes(attr.perm as nat, 2)
        + seq![kind_byte(attr.kind)]
}

/// The records of `dirs`, one after the other.
pub open spec fn directories_bytes(dirs: Seq<DirectoryModel>) -> Seq<u8>
    decreases dirs.len(),
{
    if dirs.len() == 0 {
        Seq::empty()
    } else {
        directories_bytes(dirs.drop_last()) + directory_bytes(dirs.last())
    }
}

/// The records of `files`, one after the other.
pub open spec fn files_bytes(files: Seq<FileModel>) -> Seq<u8>
    decreases files.len(),
{
    if files.len() == 0 {
        Seq::empty()
    } else {
        files_bytes(files.drop_last()) + file_bytes(files.last())
    }
}

/// The records of `attrs`, one after the other.
pub open spec fn attributes_bytes(attrs: Seq<FileAttr>) -> Seq<u8>
    decreases attrs.len(),
{
    if attrs.len() == 0 {
        Seq::empty()
    } else {
        attributes_bytes(attrs.drop_last()) + attribute_bytes(attrs.last())
    }
}

/// The bytes of a whole archive.
pub open spec fn archive_bytes(archive: ArchiveModel) -> Seq<u8> {
    magic() + be_bytes(archive.directories.len(), 8) + be_bytes(archive.files.len(), 8) + be_bytes(
        archive.attributes.len(),
        8,
    ) + directories_bytes(archive.directories) + files_bytes(archive.files) + attributes_bytes(
        archive.attributes,
    )
}

/// The `count` ids that start at `pos`, if `data` holds them all.
pub open spec fn ids_at(data: Seq<u8>, pos: int, count: nat) -> Option<Seq<u64>> {
    if 0 <= pos && pos + 8 * count <= data.len() {
        Some(Seq::new(count, |i: int| field_at(data, pos + 8 * i, 8).unwrap() as u64))
    } else {
        None
    }
}

/// The time that starts at `pos`, if `data` holds its twelve bytes.
pub open spec fn time_at(data: Seq<u8>, pos: int) -> Option<Timespec> {
    let sec = field_at(data, pos, 8);
    let nsec = field_at(data, pos + 8, 4);
    if sec is Some && nsec is Some {
        Some(
            Timespec {
                sec: i64_of_pattern(sec.unwrap() as u64),
                nsec: i32_of_pattern(nsec.unwrap() as u32),
            },
        )
    } else {
        None
    }
}

/// The directory record that starts at `start`, once its name is decoded as
/// `name`, with the number of bytes that the record takes. `None` where a
/// field reaches past the end of `data`.
pub open spec fn parse_directory_named(data: Seq<u8>, start: int, name: Seq<char>) -> Option<
    (DirectoryModel, int),
> {
    let name_len = field_at(data, start, 8);
    let node_at = start + 8 + name_len.unwrap();
    let node = field_at(data, node_at, 8);
    let count = field_at(data, node_at + 8, 8);
    let ids_pos = node_at + 16;
    let ids = ids_at(data, ids_pos, count.unwrap());
    let tags_at = ids_pos + 8 * count.unwrap();
    let tags = bytes_at(data, tags_at, count.unwrap() as int);
    let parent_at = tags_at + count.unwrap();
    let parent = field_at(data, parent_at, 8);
    let root = bytes_at(data, parent_at + 8, 1);
    if name_len is Some && node is Some && count is Some && ids is Some && tags is Some
        && parent is Some && root is Some {
        Some(
            (
                DirectoryModel {
                    name,
                    nodes: ids.unwrap(),
                    node_types: tags.unwrap(),
                    node: node.unwrap() as u64,
                    is_root: root.unwrap()[0] == 1,
                    parent_node: parent.unwrap() as u64,
                },
                parent_at + 9 - start,
            ),
        )
    } else {
        None
    }
}

/// The bytes of the name of the record that starts at `start`: the name of
/// a directory record or of a file record.
pub open spec fn name_at(data: Seq<u8>, start: int) -> Option<Seq<u8>> {
    match field_at(data, start, 8) {
        Some(len) => bytes_at(data, start + 8, len as int),
        None => None,
    }
}

/// The directory record that starts at `start`, with the number of bytes it
/// takes. Its name is decoded leniently.
pub open spec fn parse_directory(data: Seq<u8>, start: int) -> Option<(DirectoryModel, int)> {
    match name_at(data, start) {
        Some(name) => parse_directory_named(data, start, lenient_text(name)),
        None => None,
    }
}

/// The file record that starts at `start`, with the number of bytes it takes.
/// `None` where a field reaches past the end of `data` or the name is not
/// valid UTF-8.
pub open spec fn parse_file(data: Seq<u8>, start: int) -> Option<(FileModel, int)> {
    let name = name_at(data, start);
    let node_at = start + 8 + name.unwrap().len();
    let node = field_at(data, node_at, 8);
    let size = field_at(data, node_at + 8, 8);
    let content = bytes_at(data, node_at + 16, size.unwrap() as int);
    if name is Some && valid_utf8(name.unwrap()) && node is Some && size is Some
        && content is Some {
        Some(
            (
                FileModel {
                    name: decode_utf8(name.unwrap()),
                    data: content.unwrap(),
                    node: node.unwrap() as u64,
                },
                node_at + 16 + size.unwrap() - start,
            ),
        )
    } else {
        None
    }
}

/// The attribute record that a reader makes of the fields kept in the bytes:
/// the fields that are not kept get fixed values, and the creation time is
/// the change time.
pub open spec fn restored(
    ino: u64,
    size: u64,
    atime: Timespec,
    mtime: Timespec,
    ctime: Timespec,
    perm: u16,
    kind: FileType,
) -> FileAttr {
    FileAttr {
        ino,
        size,
        blocks: 0,
        atime,
        mtime,
        ctime,
        crtime: ctime,
        kind,
        perm,
        nlink: 1,
        uid: 501,
        gid: 20,
        rdev: 0,
        flags: 0,
    }
}

/// What is left of `attr` after it was written and read again.
pub open spec fn persisted(attr: FileAttr) -> FileAttr {
    restored(attr.ino, attr.size, attr.atime, attr.mtime, attr.ctime, attr.perm, attr.kind)
}

/// The attribute record that starts at `start`, with the number of bytes it
/// takes. `None` where `data` does not hold a whole record from `start` on.
pub open spec fn parse_attribute(data: Seq<u8>, start: int) -> Option<(FileAttr, int)> {
    let ino = field_at(data, start, 8);
    let size = field_at(data, start + 8, 8);
    let atime = time_at(data, start + 16);
    let mtime = time_at(data, start + 28);
    let ctime = time_at(data, start + 40);
    let perm = field_at(data, start + 52, 2);
    let kind = bytes_at(data, start + 54, 1);
    if kind is Some && 0 <= start {
        Some(
            (
                restored(
                    ino.unwrap() as u64,
                    size.unwrap() as u64,
                    atime.unwrap(),
                    mtime.unwrap(),
                    ctime.unwrap(),
                    perm.unwrap() as u16,
                    kind_of_byte(kind.unwrap()[0]),
                ),
                ATTRIBUTE_LEN as int,
            ),
        )
    } else {
        None
    }
}

/// `count` directory records in a row from `start` on, with the position
/// after the last. `None` as soon as one record does not parse.
pub open spec fn parse_directories(data: Seq<u8>, start: int, count: nat) -> Option<
    (Seq<DirectoryModel>, int),
>
    decreases count,
{
    if count == 0 {
        Some((Seq::empty(), start))
    } else {
        match parse_directories(data, start, (count - 1) as nat) {
            Some((dirs, pos)) => match parse_directory(data, pos) {
                Some((dir, len)) => Some((dirs.push(dir), pos + len)),
                None => None,
            },
            None => None,
        }
    }
}

/// `count` file records in a row from `start` on, with the position after
/// the last. `None` as soon as one record does not parse.
pub open spec fn parse_files(data: Seq<u8>, start: int, count: nat) -> Option<
    (Seq<FileModel>, int),
>
    decreases count,
{
    if count == 0 {
        Some((Seq::empty(), start))
    } else {
        match parse_files(data, start, (count - 1) as nat) {
            Some((files, pos)) => match parse_file(data, pos) {
                Some((file, len)) => Some((files.push(file), pos + len)),
                None => None,
            },
            None => None,
        }
    }
}

/// `count` attribute records in a row from `start` on, with the position
/// after the last. `None` as soon as one record does not parse.
pub open spec fn parse_attributes(data: Seq<u8>, start: int, count: nat) -> Option<
    (Seq<FileAttr>, int),
>
    decreases count,
{
    if count == 0 {
        Some((Seq::empty(), start))
    } else {
        match parse_attributes(data, start, (count - 1) as nat) {
            Some((attrs, pos)) => match parse_attribute(data, pos) {
                Some((attr, len)) => Some((attrs.push(attr), pos + len)),
                None => None,
            },
            None => None,
        }
    }
}

/// Once a row of directory records fails to parse, every longer row fails.
pub proof fn lemma_directories_stay_none(data: Seq<u8>, start: int, count: nat, more: nat)
    requires
        parse_directories(data, start, count) is None,
        count <= more,
    ensures
        parse_directories(data, start, more) is None,
    decreases more,
{
    if count < more {
        lemma_directories_stay_none(data, start, count, (more - 1) as nat);
    }
}

/// Once a row of file records fails to parse, every longer row fails.
pub proof fn lemma_files_stay_none(data: Seq<u8>, start: int, count: nat, more: nat)
    requires
        parse_files(data, start, count) is None,
        count <= more,
    ensures
        parse_files(data, start, more) is None,
    decreases more,
{
    if count < more {
        lemma_files_stay_none(data, start, count, (more - 1) as nat);
    }
}

/// Once a row of attribute records fails to parse, every longer row fails.
pub proof fn lemma_attributes_stay_none(data: Seq<u8>, start: int, count: nat, more: nat)
    requires
        parse_attributes(data, start, count) is None,
        count <= more,
    ensures
        parse_attributes(data, start, more) is None,
    decreases more,
{
    if count < more {
        lemma_attributes_stay_none(data, start, count, (more - 1) as nat);
    }
}

/// Whether `data` starts with the magic literal.
pub open spec fn has_magic(data: Seq<u8>) -> bool {
    bytes_at(data, 0, 6) == Some(magic())
}

/// The archive that `data` holds. `None` where `data` does not start with the
/// magic literal, or a count or a record does not parse. Bytes after the last
/// record are not looked at.
pub open spec fn parse_archive(data: Seq<u8>) -> Option<ArchiveModel> {
    let dir_count = field_at(data, 6, 8);
    let file_count = field_at(data, 14, 8);
    let attr_count = field_at(data, 22, 8);
    let dirs = parse_directories(data, 30, dir_count.unwrap());
    let files = parse_files(data, dirs.unwrap().1, file_count.unwrap());
    let attrs = parse_attributes(data, files.unwrap().1, attr_count.unwrap());
    if has_magic(data) && attr_count is Some && dirs is Some && files is Some && attrs is Some {
        Some(
            ArchiveModel {
                epoch: Timespec { sec: 0, nsec: 0 },
                directories: dirs.unwrap().0,
                files: files.unwrap().0,
                attributes: attrs.unwrap().0,
            },
        )
    } else {
        None
    }
}

} // verus!
