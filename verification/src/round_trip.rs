//! Reading what was written gives back what was written.

use crate::bytes::{
    be_bytes, bytes_at, capacity, field_at, lemma_be_bytes_len, lemma_be_value_of_bytes,
    lemma_capacities, pattern_of_i32, pattern_of_i64,
};
use crate::layout::{
    archive_bytes, attribute_bytes, attributes_bytes, directories_bytes, directory_bytes,
    file_bytes, files_bytes, has_magic, ids_at, ids_bytes, magic, name_at, parse_archive,
    parse_attribute, parse_attributes, parse_directories, parse_directory, parse_file, parse_files,
    persisted, time_at, time_bytes,
};
use crate::model::{ArchiveModel, DirectoryModel, FileAttr, FileModel, Timespec};
use vstd::prelude::*;
use vstd::utf8::{encode_utf8, encode_utf8_decode_utf8, encode_utf8_valid_utf8};

verus! {

/// `chunk` stands in `data` from `pos` on.
pub open spec fn holds_at(data: Seq<u8>, pos: int, chunk: Seq<u8>) -> bool {
    &&& 0 <= pos
    &&& pos + chunk.len() <= data.len()
    &&& data.subrange(pos, pos + chunk.len()) == chunk
}

/// The largest length or count that an eight-byte field can state.
pub open spec fn fits_field(len: nat) -> bool {
    len < 0x1_0000_0000_0000_0000
}

/// The name and the child list of `dir` are short enough for their length
/// fields. This holds of every directory in memory.
pub open spec fn directory_fits(dir: DirectoryModel) -> bool {
    &&& fits_field(dir.nodes.len())
    &&& fits_field(encode_utf8(dir.name).len())
}

/// The name and the content of `file` are short enough for their length
/// fields. This holds of every file in memory.
pub open spec fn file_fits(file: FileModel) -> bool {
    &&& fits_field(file.data.len())
    &&& fits_field(encode_utf8(file.name).len())
}

impl ArchiveModel {
    /// The three counts fit their fields, and so does every directory and
    /// every file. This holds of every archive in memory.
    pub open spec fn fits(self) -> bool {
        &&& fits_field(self.directories.len())
        &&& fits_field(self.files.len())
        &&& fits_field(self.attributes.len())
        &&& forall|i: int|
            0 <= i < self.directories.len() ==> directory_fits(#[trigger] self.directories[i])
        &&& forall|i: int| 0 <= i < self.files.len() ==> file_fits(#[trigger] self.files[i])
    }

    /// In every directory the list of child ids and the list of kind tags
    /// have the same length.
    pub open spec fn aligned(self) -> bool {
        forall|i: int|
            0 <= i < self.directories.len() ==> (#[trigger] self.directories[i]).nodes.len()
                == self.directories[i].node_types.len()
    }

    /// What reading makes of this archive after it was written: the same
    /// directories and files, each attribute record with the fields that the
    /// bytes keep, and the epoch at zero.
    pub open spec fn reloaded(self) -> ArchiveModel {
        ArchiveModel {
            epoch: Timespec { sec: 0, nsec: 0 },
            directories: self.directories,
            files: self.files,
            attributes: Seq::new(self.attributes.len(), |i: int| persisted(self.attributes[i])),
        }
    }
}

proof fn lemma_split(data: Seq<u8>, pos: int, head: Seq<u8>, tail: Seq<u8>)
    requires
        holds_at(data, pos, head + tail),
    ensures
        holds_at(data, pos, head),
        holds_at(data, pos + head.len(), tail),
{
    let whole = data.subrange(pos, pos + (head + tail).len());
    assert(data.subrange(pos, pos + head.len()) =~= whole.subrange(0, head.len() as int));
    assert(whole.subrange(0, head.len() as int) =~= head);
    assert(data.subrange(pos + head.len(), pos + head.len() + tail.len()) =~= whole.subrange(
        head.len() as int,
        whole.len() as int,
    ));
    assert(whole.subrange(head.len() as int, whole.len() as int) =~= tail);
}

proof fn lemma_field(data: Seq<u8>, pos: int, value: nat, width: nat)
    requires
        holds_at(data, pos, be_bytes(value, width)),
        value < capacity(width),
    ensures
        field_at(data, pos, width) == Some(value),
        be_bytes(value, width).len() == width,
{
    lemma_be_bytes_len(value, width);
    lemma_be_value_of_bytes(value, width);
}

proof fn lemma_time(data: Seq<u8>, pos: int, time: Timespec)
    requires
        holds_at(data, pos, time_bytes(time)),
    ensures
        time_at(data, pos) == Some(time),
        time_bytes(time).len() == 12,
{
    lemma_capacities();
    let sec = be_bytes(pattern_of_i64(time.sec) as nat, 8);
    let nsec = be_bytes(pattern_of_i32(time.nsec) as nat, 4);
    lemma_be_bytes_len(pattern_of_i64(time.sec) as nat, 8);
    lemma_be_bytes_len(pattern_of_i32(time.nsec) as nat, 4);
    lemma_split(data, pos, sec, nsec);
    lemma_field(data, pos, pattern_of_i64(time.sec) as nat, 8);
    lemma_field(data, pos + 8, pattern_of_i32(time.nsec) as nat, 4);
}

proof fn lemma_ids(data: Seq<u8>, pos: int, ids: Seq<u64>)
    requires
        holds_at(data, pos, ids_bytes(ids)),
    ensures
        ids_at(data, pos, ids.len()) == Some(ids),
        ids_bytes(ids).len() == 8 * ids.len(),
    decreases ids.len(),
{
    lemma_capacities();
    if ids.len() > 0 {
        let front = ids.drop_last();
        let last = be_bytes(ids.last() as nat, 8);
        lemma_be_bytes_len(ids.last() as nat, 8);
        lemma_split(data, pos, ids_bytes(front), last);
        lemma_ids(data, pos, front);
        lemma_field(data, pos + 8 * front.len(), ids.last() as nat, 8);
        let read = ids_at(data, pos, ids.len()).unwrap();
        assert forall|i: int| 0 <= i < ids.len() implies read[i] == ids[i] by {
            if i < front.len() {
                assert(ids_at(data, pos, front.len()).unwrap()[i] == front[i]);
            }
        }
    }
}

/// A directory record that stands in `data` is read as the directory it was
/// written from.
pub proof fn lemma_directory_round_trip(data: Seq<u8>, start: int, dir: DirectoryModel)
    requires
        holds_at(data, start, directory_bytes(dir)),
        directory_fits(dir),
        dir.nodes.len() == dir.node_types.len(),
    ensures
        parse_directory(data, start) == Some((dir, directory_bytes(dir).len() as int)),
{
    lemma_capacities();
    encode_utf8_valid_utf8(dir.name);
    encode_utf8_decode_utf8(dir.name);
    let name = encode_utf8(dir.name);
    let upto0 = be_bytes(name.len(), 8);
    let upto1 = upto0 + name;
    let upto2 = upto1 + be_bytes(dir.node as nat, 8);
    let upto3 = upto2 + be_bytes(dir.nodes.len(), 8);
    let upto4 = upto3 + ids_bytes(dir.nodes);
    let upto5 = upto4 + dir.node_types;
    let upto6 = upto5 + be_bytes(dir.parent_node as nat, 8);
    let root = seq![crate::layout::flag_byte(dir.is_root)];
    lemma_be_bytes_len(name.len(), 8);
    lemma_be_bytes_len(dir.node as nat, 8);
    lemma_be_bytes_len(dir.nodes.len(), 8);
    lemma_be_bytes_len(dir.parent_node as nat, 8);
    lemma_split(data, start, upto6, root);
    lemma_split(data, start, upto5, be_bytes(dir.parent_node as nat, 8));
    lemma_split(data, start, upto4, dir.node_types);
    lemma_split(data, start, upto3, ids_bytes(dir.nodes));
    lemma_split(data, start, upto2, be_bytes(dir.nodes.len(), 8));
    lemma_split(data, start, upto1, be_bytes(dir.node as nat, 8));
    lemma_split(data, start, upto0, name);
    lemma_field(data, start, name.len(), 8);
    lemma_field(data, start + upto1.len(), dir.node as nat, 8);
    lemma_field(data, start + upto2.len(), dir.nodes.len(), 8);
    lemma_ids(data, start + upto3.len(), dir.nodes);
    lemma_field(data, start + upto5.len(), dir.parent_node as nat, 8);
}

/// A file record that stands in `data` is read as the file it was written
/// from.
pub proof fn lemma_file_round_trip(data: Seq<u8>, start: int, file: FileModel)
    requires
        holds_at(data, start, file_bytes(file)),
        file_fits(file),
    ensures
        parse_file(data, start) == Some((file, file_bytes(file).len() as int)),
{
    lemma_capacities();
    encode_utf8_valid_utf8(file.name);
    encode_utf8_decode_utf8(file.name);
    let name = encode_utf8(file.name);
    let upto0 = be_bytes(name.len(), 8);
    let upto1 = upto0 + name;
    let upto2 = upto1 + be_bytes(file.node as nat, 8);
    let upto3 = upto2 + be_bytes(file.data.len(), 8);
    lemma_be_bytes_len(name.len(), 8);
    lemma_be_bytes_len(file.node as nat, 8);
    lemma_be_bytes_len(file.data.len(), 8);
    lemma_split(data, start, upto3, file.data);
    lemma_split(data, start, upto2, be_bytes(file.data.len(), 8));
    lemma_split(data, start, upto1, be_bytes(file.node as nat, 8));
    lemma_split(data, start, upto0, name);
    lemma_field(data, start, name.len(), 8);
    lemma_field(data, start + upto1.len(), file.node as nat, 8);
    lemma_field(data, start + upto2.len(), file.data.len(), 8);
}

/// An attribute record that stands in `data` is read as the record it was
/// written from, but for the fields that the bytes do not keep.
pub proof fn lemma_attribute_round_trip(data: Seq<u8>, start: int, attr: FileAttr)
    requires
        holds_at(data, start, attribute_bytes(attr)),
    ensures
        parse_attribute(data, start) == Some((persisted(attr), attribute_bytes(attr).len() as int)),
        attribute_bytes(attr).len() == 55,
{
    lemma_capacities();
    let upto0 = be_bytes(attr.ino as nat, 8);
    let upto1 = upto0 + be_bytes(attr.size as nat, 8);
    let upto2 = upto1 + time_bytes(attr.atime);
    let upto3 = upto2 + time_bytes(attr.mtime);
    let upto4 = upto3 + time_bytes(attr.ctime);
    let upto5 = upto4 + be_bytes(attr.perm as nat, 2);
    let kind = seq![crate::layout::kind_byte(attr.kind)];
    lemma_be_bytes_len(attr.ino as nat, 8);
    lemma_be_bytes_len(attr.size as nat, 8);
    lemma_be_bytes_len(attr.perm as nat, 2);
    lemma_split(data, start, upto5, kind);
    lemma_split(data, start, upto4, be_bytes(attr.perm as nat, 2));
    lemma_split(data, start, upto3, time_bytes(attr.ctime));
    lemma_split(data, start, upto2, time_bytes(attr.mtime));
    lemma_split(data, start, upto1, time_bytes(attr.atime));
    lemma_split(data, start, upto0, be_bytes(attr.size as nat, 8));
    lemma_field(data, start, attr.ino as nat, 8);
    lemma_field(data, start + 8, attr.size as nat, 8);
    lemma_time(data, start + 16, attr.atime);
    lemma_time(data, start + 28, attr.mtime);
    lemma_time(data, start + 40, attr.ctime);
    lemma_field(data, start + 52, attr.perm as nat, 2);
}

proof fn lemma_directories(data: Seq<u8>, start: int, dirs: Seq<DirectoryModel>)
    requires
        holds_at(data, start, directories_bytes(dirs)),
        forall|i: int| 0 <= i < dirs.len() ==> directory_fits(#[trigger] dirs[i]),
        forall|i: int|
            0 <= i < dirs.len() ==> (#[trigger] dirs[i]).nodes.len() == dirs[i].node_types.len(),
    ensures
        parse_directories(data, start, dirs.len()) == Some(
            (dirs, start + directories_bytes(dirs).len()),
        ),
    decreases dirs.len(),
{
    if dirs.len() > 0 {
        let front = dirs.drop_last();
        lemma_split(data, start, directories_bytes(front), directory_bytes(dirs.last()));
        lemma_directories(data, start, front);
        lemma_directory_round_trip(data, start + directories_bytes(front).len(), dirs.last());
    }
}

proof fn lemma_files(data: Seq<u8>, start: int, files: Seq<FileModel>)
    requires
        holds_at(data, start, files_bytes(files)),
        forall|i: int| 0 <= i < files.len() ==> file_fits(#[trigger] files[i]),
    ensures
        parse_files(data, start, files.len()) == Some((files, start + files_bytes(files).len())),
    decreases files.len(),
{
    if files.len() > 0 {
        let front = files.drop_last();
        lemma_split(data, start, files_bytes(front), file_bytes(files.last()));
        lemma_files(data, start, front);
        lemma_file_round_trip(data, start + files_bytes(front).len(), files.last());
    }
}

proof fn lemma_attributes(data: Seq<u8>, start: int, attrs: Seq<FileAttr>)
    requires
        holds_at(data, start, attributes_bytes(attrs)),
    ensures
        parse_attributes(data, start, attrs.len()) == Some(
            (
                Seq::new(attrs.len(), |i: int| persisted(attrs[i])),
                start + attributes_bytes(attrs).len(),
            ),
        ),
    decreases attrs.len(),
{
    if attrs.len() > 0 {
        let front = attrs.drop_last();
        lemma_split(data, start, attributes_bytes(front), attribute_bytes(attrs.last()));
        lemma_attributes(data, start, front);
        lemma_attribute_round_trip(data, start + attributes_bytes(front).len(), attrs.last());
    }
}

/// An archive that keeps the invariants of its data model has its child
/// lists in step.
pub proof fn lemma_wf_aligned(archive: ArchiveModel)
    requires
        archive.wf(),
    ensures
        archive.aligned(),
{
    assert forall|i: int| 0 <= i < archive.directories.len() implies (
    #[trigger] archive.directories[i]).nodes.len() == archive.directories[i].node_types.len() by {
        assert(archive.directory_sound(archive.directories[i]));
    }
}

/// Writing an archive and reading the bytes gives the archive back: the same
/// directories and files, in the same order, and each attribute record with
/// the same id, size, times, permission bits and kind. The fields of an
/// attribute record that the bytes do not keep come back with their fixed
/// values, and the creation time as the change time.
///
/// It holds of every archive whose child lists are in step, so of every one
/// that keeps the invariants of its data model, as long as its lengths fit
/// their fields, which those of an archive in memory do.
pub proof fn lemma_archive_round_trip(archive: ArchiveModel)
    requires
        archive.aligned(),
        archive.fits(),
    ensures
        parse_archive(archive_bytes(archive)) == Some(archive.reloaded()),
{
    lemma_capacities();
    let data = archive_bytes(archive);
    let upto0 = magic();
    let upto1 = upto0 + be_bytes(archive.directories.len(), 8);
    let upto2 = upto1 + be_bytes(archive.files.len(), 8);
    let upto3 = upto2 + be_bytes(archive.attributes.len(), 8);
    let upto4 = upto3 + directories_bytes(archive.directories);
    let upto5 = upto4 + files_bytes(archive.files);
    assert(data.subrange(0, data.len() as int) =~= data);
    lemma_be_bytes_len(archive.directories.len(), 8);
    lemma_be_bytes_len(archive.files.len(), 8);
    lemma_be_bytes_len(archive.attributes.len(), 8);
    lemma_split(data, 0, upto5, attributes_bytes(archive.attributes));
    lemma_split(data, 0, upto4, files_bytes(archive.files));
    lemma_split(data, 0, upto3, directories_bytes(archive.directories));
    lemma_split(data, 0, upto2, be_bytes(archive.attributes.len(), 8));
    lemma_split(data, 0, upto1, be_bytes(archive.files.len(), 8));
    lemma_split(data, 0, upto0, be_bytes(archive.directories.len(), 8));
    lemma_field(data, 6, archive.directories.len(), 8);
    lemma_field(data, 14, archive.files.len(), 8);
    lemma_field(data, 22, archive.attributes.len(), 8);
    lemma_directories(data, 30, archive.directories);
    lemma_files(data, upto4.len() as int, archive.files);
    lemma_attributes(data, upto5.len() as int, archive.attributes);
}

/// An archive that keeps the invariants of its data model comes back from
/// its bytes as it was written, as `lemma_archive_round_trip` says.
pub proof fn lemma_well_formed_round_trip(archive: ArchiveModel)
    requires
        archive.wf(),
        archive.fits(),
    ensures
        parse_archive(archive_bytes(archive)) == Some(archive.reloaded()),
{
    lemma_wf_aligned(archive);
    lemma_archive_round_trip(archive);
}

} // verus!
