//! Finding the records of an archive by node id, and writing and reading each
//! kind of record in the archive's byte layout.

use crate::bytes::{
    field_at, holds, i32_bits, i32_from_bits, i64_bits, i64_from_bits, push_all, push_be, u16_at,
    u32_at, u64_at,
};
use crate::layout::{
    archive_bytes, attribute_bytes, attributes_bytes, directories_bytes, directory_bytes,
    file_bytes, files_bytes, has_magic, ids_bytes, lemma_attributes_stay_none,
    lemma_directories_stay_none, lemma_files_stay_none, magic, parse_archive, parse_attribute,
    parse_attributes, parse_directories, parse_directory, parse_directory_named, parse_file,
    parse_files, time_at, time_bytes, ATTRIBUTE_LEN,
};
use crate::model::{
    attribute_keys, directory_keys, directory_models, file_keys, file_models, find_attribute,
    find_directory, find_file, find_root, is_first, lemma_first_index, lemma_first_index_none,
    root_marks, DirectoryModel, FileAttr, FileModel, FileType, FuseDirectory, FuseFile,
    FuseStructure, Timespec, ROOT_SENTINEL,
};
use crate::round_trip::{directory_fits, file_fits, lemma_archive_round_trip};
use crate::text::{lossy_name, strict_name};
use vstd::prelude::*;
use vstd::slice::{slice_subrange, slice_to_vec};

verus! {

/// What the three kinds of record have in common: each carries a node id by
/// which it is found, and each is written to and read from bytes.
pub trait FuseCommon<T: View> {
    /// The node id that a record carries.
    spec fn node_of(item: T::V) -> u64;

    /// The bytes that this record is written as.
    spec fn encoding(&self) -> Seq<u8>;

    /// The record that starts at `start` in `data`, with the number of bytes
    /// it takes, or `None` where the bytes from `start` on are no record.
    spec fn decoding(data: Seq<u8>, start: int) -> Option<(T::V, int)>;

    /// The first record of `container` that carries `node`.
    fn find_by_node(container: &Vec<T>, node: u64) -> (r: Option<&T>)
        ensures
            match r {
                Some(item) => exists|i: int|
                    {
                        &&& 0 <= i < container@.len()
                        &&& *item == container@[i]
                        &&& Self::node_of(container@[i]@) == node
                        &&& forall|j: int|
                            0 <= j < i ==> Self::node_of((#[trigger] container@[j])@) != node
                    },
                None => forall|j: int|
                    0 <= j < container@.len() ==> Self::node_of((#[trigger] container@[j])@)
                        != node,
            },
    ;

    /// Writes this record in the archive's layout.
    fn serialize(&self) -> (r: Vec<u8>)
        ensures
            r@ == self.encoding(),
    ;

    /// Reads the record that starts at `start`, and says how many bytes it
    /// took. `None` where the bytes from `start` on are no record.
    fn deserialize(start: usize, data: &Vec<u8>) -> (r: Option<(T, u64)>)
        ensures
            match r {
                Some((item, read)) => Self::decoding(data@, start as int) == Some(
                    (item@, read as int),
                ),
                None => Self::decoding(data@, start as int) is None,
            },
            r matches Some((_, read)) ==> start + read <= data.len(),
    ;
}

impl FuseCommon<FuseFile> for FuseFile {
    open spec fn node_of(item: FileModel) -> u64 {
        item.node
    }

    open spec fn encoding(&self) -> Seq<u8> {
        file_bytes(self@)
    }

    open spec fn decoding(data: Seq<u8>, start: int) -> Option<(FileModel, int)> {
        parse_file(data, start)
    }

    fn find_by_node(container: &Vec<FuseFile>, node: u64) -> (r: Option<&FuseFile>)
        ensures
            match r {
                Some(item) => find_file(file_models(container@), node) == Some(item@),
                None => find_file(file_models(container@), node) is None,
            },
    {
        let ghost keys = file_keys(file_models(container@));
        let mut i: usize = 0;
        while i < container.len()
            invariant
                i <= container.len(),
                keys == file_keys(file_models(container@)),
                forall|j: int| 0 <= j < i ==> container@[j].node != node,
            decreases container.len() - i,
        {
            if container[i].node == node {
                proof {
                    lemma_first_index(keys, node, i as int);
                }
                return Some(&container[i]);
            }
            i = i + 1;
        }
        proof {
            lemma_first_index_none(keys, node);
        }
        None
    }

    fn serialize(&self) -> (r: Vec<u8>)
        ensures
            file_fits(self@),
    {
        let mut returned: Vec<u8> = Vec::new();
        let name = self.name.as_str().as_bytes();
        push_be(&mut returned, name.len() as u64, 8);
        push_all(&mut returned, name);
        push_be(&mut returned, self.node, 8);
        push_be(&mut returned, self.data.len() as u64, 8);
        push_all(&mut returned, self.data.as_slice());
        returned
    }

    fn deserialize(start: usize, data: &Vec<u8>) -> (r: Option<(FuseFile, u64)>) {
        let name_size = u64_at(data, start)?;
        if !holds(data, start + 8, name_size) {
            return None;
        }
        let name_bytes = FuseStructure::get_sclice_from_vector(
            data,
            start + 8,
            name_size as usize,
        );
        let name = strict_name(name_bytes)?;
        let node_at = start + 8 + name_size as usize;
        let node = u64_at(data, node_at)?;
        let file_size = u64_at(data, node_at + 8)?;
        if !holds(data, node_at + 16, file_size) {
            return None;
        }
        let file_data = FuseStructure::get_sclice_from_vector(
            data,
            node_at + 16,
            file_size as usize,
        );
        Some(
            (
                FuseFile { name, node, data: file_data },
                (node_at + 16 + file_size as usize - start) as u64,
            ),
        )
    }
}

impl FuseDirectory {
    /// The first directory of `container` that is flagged as the root.
    pub fn find_root_directory(container: &Vec<FuseDirectory>) -> (r: Option<&FuseDirectory>)
        ensures
            match r {
                Some(dir) => find_root(directory_models(container@)) == Some(dir@),
                None => find_root(directory_models(container@)) is None,
            },
            match r {
                Some(dir) => exists|i: int|
                    {
                        &&& 0 <= i < container@.len()
                        &&& *dir == container@[i]
                        &&& container@[i].is_root
                        &&& forall|j: int| 0 <= j < i ==> !(#[trigger] container@[j]).is_root
                    },
                None => forall|j: int|
                    0 <= j < container@.len() ==> !(#[trigger] container@[j]).is_root,
            },
    {
        let ghost marks = root_marks(directory_models(container@));
        let mut i: usize = 0;
        while i < container.len()
            invariant
                i <= container.len(),
                marks == root_marks(directory_models(container@)),
                forall|j: int| 0 <= j < i ==> !(#[trigger] container@[j]).is_root,
            decreases container.len() - i,
        {
            if container[i].is_root {
                proof {
                    lemma_first_index(marks, ROOT_SENTINEL, i as int);
                }
                return Some(&container[i]);
            }
            i = i + 1;
        }
        proof {
            lemma_first_index_none(marks, ROOT_SENTINEL);
        }
        None
    }

    /// Reads the directory record that starts at `start`, taking `name` for
    /// its decoded name, and says how many bytes the record took. `None`
    /// where a field reaches past the end of `data`.
    pub fn deserialize_named(start: usize, data: &Vec<u8>, name: String) -> (r: Option<
        (FuseDirectory, u64),
    >)
        ensures
            match r {
                Some((dir, read)) => parse_directory_named(data@, start as int, name@) == Some(
                    (dir@, read as int),
                ),
                None => parse_directory_named(data@, start as int, name@) is None,
            },
            r matches Some((_, read)) ==> start + read <= data.len(),
    {
        let name_size = u64_at(data, start)?;
        if !holds(data, start + 8, name_size) {
            return None;
        }
        let node_at = start + 8 + name_size as usize;
        let node = u64_at(data, node_at)?;
        let nodes_size = u64_at(data, node_at + 8)?;
        let ids_pos = node_at + 16;
        if nodes_size > ((data.len() - ids_pos) / 8) as u64 {
            return None;
        }
        let count = nodes_size as usize;
        let mut nodes: Vec<u64> = Vec::new();
        let mut i: usize = 0;
        while i < count
            invariant
                i <= count,
                ids_pos + 8 * count <= data.len(),
                nodes@ == Seq::new(
                    i as nat,
                    |k: int| field_at(data@, ids_pos + 8 * k, 8).unwrap() as u64,
                ),
            decreases count - i,
        {
            let id = u64_at(data, ids_pos + 8 * i).unwrap();
            nodes.push(id);
            i = i + 1;
        }
        let tags_at = ids_pos + 8 * count;
        if !holds(data, tags_at, nodes_size) {
            return None;
        }
        let node_types = FuseStructure::get_sclice_from_vector(data, tags_at, count);
        let parent_at = tags_at + count;
        let parent_node = u64_at(data, parent_at)?;
        if !holds(data, parent_at + 8, 1) {
            return None;
        }
        let is_root = data[parent_at + 8] == 1;
        Some(
            (
                FuseDirectory { name, node, parent_node, nodes, node_types, is_root },
                (parent_at + 9 - start) as u64,
            ),
        )
    }
}

impl FuseCommon<FuseDirectory> for FuseDirectory {
    open spec fn node_of(item: DirectoryModel) -> u64 {
        item.node
    }

    open spec fn encoding(&self) -> Seq<u8> {
        directory_bytes(self@)
    }

    open spec fn decoding(data: Seq<u8>, start: int) -> Option<(DirectoryModel, int)> {
        parse_directory(data, start)
    }

    fn find_by_node(container: &Vec<FuseDirectory>, node: u64) -> (r: Option<&FuseDirectory>)
        ensures
            match r {
                Some(item) => find_directory(directory_models(container@), node) == Some(item@),
                None => find_directory(directory_models(container@), node) is None,
            },
    {
        let ghost keys = directory_keys(directory_models(container@));
        let mut i: usize = 0;
        while i < container.len()
            invariant
                i <= container.len(),
                keys == directory_keys(directory_models(container@)),
                forall|j: int| 0 <= j < i ==> container@[j].node != node,
            decreases container.len() - i,
        {
            if container[i].node == node {
                proof {
                    lemma_first_index(keys, node, i as int);
                }
                return Some(&container[i]);
            }
            i = i + 1;
        }
        proof {
            lemma_first_index_none(keys, node);
        }
        None
    }

    fn serialize(&self) -> (r: Vec<u8>)
        ensures
            directory_fits(self@),
    {
        let mut returned: Vec<u8> = Vec::new();
        let name = self.name.as_str().as_bytes();
        push_be(&mut returned, name.len() as u64, 8);
        push_all(&mut returned, name);
        push_be(&mut returned, self.node, 8);
        push_be(&mut returned, self.nodes.len() as u64, 8);
        let ghost head = returned@;
        let mut i: usize = 0;
        while i < self.nodes.len()
            invariant
                i <= self.nodes.len(),
                returned@ == head + ids_bytes(self.nodes@.subrange(0, i as int)),
            decreases self.nodes.len() - i,
        {
            push_be(&mut returned, self.nodes[i], 8);
            i = i + 1;
            assert(self.nodes@.subrange(0, i as int).drop_last() =~= self.nodes@.subrange(
                0,
                i - 1,
            ));
        }
        assert(self.nodes@.subrange(0, i as int) =~= self.nodes@);
        push_all(&mut returned, self.node_types.as_slice());
        push_be(&mut returned, self.parent_node, 8);
        if self.is_root {
            returned.push(1);
        } else {
            returned.push(0);
        }
        returned
    }

    fn deserialize(start: usize, data: &Vec<u8>) -> (r: Option<(FuseDirectory, u64)>) {
        let name_size = u64_at(data, start)?;
        if !holds(data, start + 8, name_size) {
            return None;
        }
        let name = lossy_name(
            slice_subrange(data.as_slice(), start + 8, start + 8 + name_size as usize),
        );
        FuseDirectory::deserialize_named(start, data, name)
    }
}

impl FuseCommon<FileAttr> for FileAttr {
    open spec fn node_of(item: FileAttr) -> u64 {
        item.ino
    }

    open spec fn encoding(&self) -> Seq<u8> {
        attribute_bytes(*self)
    }

    open spec fn decoding(data: Seq<u8>, start: int) -> Option<(FileAttr, int)> {
        parse_attribute(data, start)
    }

    fn find_by_node(container: &Vec<FileAttr>, node: u64) -> (r: Option<&FileAttr>)
        ensures
            match r {
                Some(item) => find_attribute(container@, node) == Some(*item),
                None => find_attribute(container@, node) is None,
            },
    {
        let ghost keys = attribute_keys(container@);
        let mut i: usize = 0;
        while i < container.len()
            invariant
                i <= container.len(),
                keys == attribute_keys(container@),
                forall|j: int| 0 <= j < i ==> container@[j].ino != node,
            decreases container.len() - i,
        {
            if container[i].ino == node {
                proof {
                    lemma_first_index(keys, node, i as int);
                }
                return Some(&container[i]);
            }
            i = i + 1;
        }
        proof {
            lemma_first_index_none(keys, node);
        }
        None
    }

    fn serialize(&self) -> (r: Vec<u8>) {
        let mut returned: Vec<u8> = Vec::new();
        push_be(&mut returned, self.ino, 8);
        push_be(&mut returned, self.size, 8);
        push_time(&mut returned, self.atime);
        push_time(&mut returned, self.mtime);
        push_time(&mut returned, self.ctime);
        push_be(&mut returned, self.perm as u64, 2);
        match self.kind {
            FileType::RegularFile => returned.push(1),
            FileType::Directory => returned.push(0),
        }
        returned
    }

    fn deserialize(start: usize, data: &Vec<u8>) -> (r: Option<(FileAttr, u64)>) {
        if !holds(data, start, ATTRIBUTE_LEN) {
            return None;
        }
        let ino = u64_at(data, start).unwrap();
        let size = u64_at(data, start + 8).unwrap();
        let atime = read_time(data, start + 16).unwrap();
        let mtime = read_time(data, start + 28).unwrap();
        let ctime = read_time(data, start + 40).unwrap();
        let perm = u16_at(data, start + 52).unwrap();
        let isfile = data[start + 54];
        let kind = if isfile == 1 {
            FileType::RegularFile
        } else {
            FileType::Directory
        };
        Some(
            (
                FileAttr {
                    ino,
                    size,
                    blocks: 0,
                    atime,
                    mtime,
                    ctime,
                    crtime: ctime,
                    kind,
                    perm,
                    nlink: 1,
                    uid: 501,
                    gid: 20,
                    rdev: 0,
                    flags: 0,
                },
                ATTRIBUTE_LEN,
            ),
        )
    }
}

/// Reads `count` directory records in a row from `start` on, and says where
/// the last one ends.
fn read_directories(data: &Vec<u8>, start: usize, count: u64) -> (r: Option<
    (Vec<FuseDirectory>, usize),
>)
    requires
        start <= data.len(),
    ensures
        match r {
            Some((dirs, end)) => parse_directories(data@, start as int, count as nat) == Some(
                (directory_models(dirs@), end as int),
            ) && end <= data.len(),
            None => parse_directories(data@, start as int, count as nat) is None,
        },
{
    let mut counter: usize = start;
    let mut directories: Vec<FuseDirectory> = Vec::new();
    let mut n: u64 = 0;
    while n < count
        invariant
            n <= count,
            counter <= data.len(),
            parse_directories(data@, start as int, n as nat) == Some(
                (directory_models(directories@), counter as int),
            ),
        decreases count - n,
    {
        match FuseDirectory::deserialize(counter, data) {
            Some((dir, read)) => {
                directories.push(dir);
                counter = counter + read as usize;
                n = n + 1;
            },
            None => {
                proof {
                    lemma_directories_stay_none(
                        data@,
                        start as int,
                        (n + 1) as nat,
                        count as nat,
                    );
                }
                return None;
            },
        }
    }
    Some((directories, counter))
}

/// Reads `count` file records in a row from `start` on, and says where the
/// last one ends.
fn read_files(data: &Vec<u8>, start: usize, count: u64) -> (r: Option<(Vec<FuseFile>, usize)>)
    requires
        start <= data.len(),
    ensures
        match r {
            Some((files, end)) => parse_files(data@, start as int, count as nat) == Some(
                (file_models(files@), end as int),
            ) && end <= data.len(),
            None => parse_files(data@, start as int, count as nat) is None,
        },
{
    let mut counter: usize = start;
    let mut files: Vec<FuseFile> = Vec::new();
    let mut n: u64 = 0;
    while n < count
        invariant
            n <= count,
            counter <= data.len(),
            parse_files(data@, start as int, n as nat) == Some(
                (file_models(files@), counter as int),
            ),
        decreases count - n,
    {
        match FuseFile::deserialize(counter, data) {
            Some((file, read)) => {
                files.push(file);
                counter = counter + read as usize;
                n = n + 1;
            },
            None => {
                proof {
                    lemma_files_stay_none(data@, start as int, (n + 1) as nat, count as nat);
                }
                return None;
            },
        }
    }
    Some((files, counter))
}

/// Reads `count` attribute records in a row from `start` on, and says where
/// the last one ends.
fn read_attributes(data: &Vec<u8>, start: usize, count: u64) -> (r: Option<
    (Vec<FileAttr>, usize),
>)
    requires
        start <= data.len(),
    ensures
        match r {
            Some((attrs, end)) => parse_attributes(data@, start as int, count as nat) == Some(
                (attrs@, end as int),
            ) && end <= data.len(),
            None => parse_attributes(data@, start as int, count as nat) is None,
        },
{
    let mut counter: usize = start;
    let mut attributes: Vec<FileAttr> = Vec::new();
    let mut n: u64 = 0;
    while n < count
        invariant
            n <= count,
            counter <= data.len(),
            parse_attributes(data@, start as int, n as nat) == Some(
                (attributes@, counter as int),
            ),
        decreases count - n,
    {
        match FileAttr::deserialize(counter, data) {
            Some((attr, read)) => {
                attributes.push(attr);
                counter = counter + read as usize;
                n = n + 1;
            },
            None => {
                proof {
                    lemma_attributes_stay_none(data@, start as int, (n + 1) as nat, count as nat);
                }
                return None;
            },
        }
    }
    Some((attributes, counter))
}

/// The attribute record that a new archive holds for the mount's root.
pub open spec fn root_attribute() -> FileAttr {
    FileAttr {
        ino: ROOT_SENTINEL,
        size: 0,
        blocks: 0,
        atime: Timespec { sec: 0, nsec: 0 },
        mtime: Timespec { sec: 0, nsec: 0 },
        ctime: Timespec { sec: 0, nsec: 0 },
        crtime: Timespec { sec: 0, nsec: 0 },
        kind: FileType::Directory,
        perm: 0o755,
        nlink: 2,
        uid: 501,
        gid: 20,
        rdev: 0,
        flags: 0,
    }
}

/// Appends the twelve bytes of `time` to `out`.
fn push_time(out: &mut Vec<u8>, time: Timespec)
    ensures
        final(out)@ == old(out)@ + time_bytes(time),
{
    push_be(out, i64_bits(time.sec), 8);
    push_be(out, i32_bits(time.nsec) as u64, 4);
}

/// The time whose twelve bytes start at `pos`, if `data` reaches that far.
fn read_time(data: &Vec<u8>, pos: usize) -> (r: Option<Timespec>)
    ensures
        r == time_at(data@, pos as int),
        r is Some <==> pos + 12 <= data.len(),
{
    if !holds(data, pos, 12) {
        return None;
    }
    let sec = u64_at(data, pos).unwrap();
    let nsec = u32_at(data, pos + 8).unwrap();
    Some(Timespec { sec: i64_from_bits(sec), nsec: i32_from_bits(nsec) })
}

impl FuseStructure {
    /// The bytes of this archive. Where its child lists are in step, as
    /// they are in every archive that keeps the invariants of its data
    /// model, reading the bytes gives the archive back.
    pub fn serialize(&self) -> (r: Vec<u8>)
        ensures
            r@ == archive_bytes(self@),
            self@.fits(),
            self@.aligned() ==> parse_archive(r@) == Some(self@.reloaded()),
    {
        let mut returned: Vec<u8> = Vec::new();
        returned.push(0x72);
        returned.push(0x70);
        returned.push(0x61);
        returned.push(0x63);
        returned.push(0x6b);
        returned.push(0x30);
        push_be(&mut returned, self.directories.len() as u64, 8);
        push_be(&mut returned, self.files.len() as u64, 8);
        push_be(&mut returned, self.attributes.len() as u64, 8);

        let ghost head = returned@;
        let ghost dirs = directory_models(self.directories@);
        let mut i: usize = 0;
        while i < self.directories.len()
            invariant
                i <= self.directories.len(),
                dirs == directory_models(self.directories@),
                returned@ == head + directories_bytes(dirs.subrange(0, i as int)),
                forall|k: int| 0 <= k < i ==> directory_fits(#[trigger] dirs[k]),
            decreases self.directories.len() - i,
        {
            let record = self.directories[i].serialize();
            push_all(&mut returned, record.as_slice());
            i = i + 1;
            assert(dirs.subrange(0, i as int).drop_last() =~= dirs.subrange(0, i - 1));
        }
        assert(dirs.subrange(0, i as int) =~= dirs);

        let ghost head = returned@;
        let ghost files = file_models(self.files@);
        let mut i: usize = 0;
        while i < self.files.len()
            invariant
                i <= self.files.len(),
                files == file_models(self.files@),
                returned@ == head + files_bytes(files.subrange(0, i as int)),
                forall|k: int| 0 <= k < i ==> file_fits(#[trigger] files[k]),
            decreases self.files.len() - i,
        {
            let record = self.files[i].serialize();
            push_all(&mut returned, record.as_slice());
            i = i + 1;
            assert(files.subrange(0, i as int).drop_last() =~= files.subrange(0, i - 1));
        }
        assert(files.subrange(0, i as int) =~= files);

        let ghost head = returned@;
        let ghost attrs = self.attributes@;
        let mut i: usize = 0;
        while i < self.attributes.len()
            invariant
                i <= self.attributes.len(),
                attrs == self.attributes@,
                returned@ == head + attributes_bytes(attrs.subrange(0, i as int)),
            decreases self.attributes.len() - i,
        {
            let record = self.attributes[i].serialize();
            push_all(&mut returned, record.as_slice());
            i = i + 1;
            assert(attrs.subrange(0, i as int).drop_last() =~= attrs.subrange(0, i - 1));
        }
        assert(attrs.subrange(0, i as int) =~= attrs);
        assert(returned@ =~= archive_bytes(self@));
        proof {
            if self@.aligned() {
                lemma_archive_round_trip(self@);
            }
        }
        returned
    }

    /// The archive that `data` holds: all of it or, where `data` does not
    /// start with the magic literal or a count or a record does not parse,
    /// nothing. `data` is left as it is.
    pub fn deserialize(data: &mut Vec<u8>) -> (r: Option<FuseStructure>)
        ensures
            final(data)@ == old(data)@,
            match r {
                Some(archive) => parse_archive(old(data)@) == Some(archive@),
                None => parse_archive(old(data)@) is None,
            },
            !has_magic(old(data)@) ==> r is None,
    {
        if !holds(data, 0, 6) {
            return None;
        }
        if !(data[0] == 0x72 && data[1] == 0x70 && data[2] == 0x61 && data[3] == 0x63 && data[4]
            == 0x6b && data[5] == 0x30) {
            assert(data@.subrange(0, 6) != magic()) by {
                let head = data@.subrange(0, 6);
                assert(head[0] == data@[0] && head[1] == data@[1] && head[2] == data@[2]
                    && head[3] == data@[3] && head[4] == data@[4] && head[5] == data@[5]);
            }
            return None;
        }
        assert(data@.subrange(0, 6) =~= magic());
        let number_directories = u64_at(data, 6)?;
        let number_files = u64_at(data, 14)?;
        let number_attributes = u64_at(data, 22)?;
        let (directories, counter) = read_directories(data, 30, number_directories)?;
        let (files, counter) = read_files(data, counter, number_files)?;
        let (attributes, _) = read_attributes(data, counter, number_attributes)?;
        Some(FuseStructure { epoch: Timespec { sec: 0, nsec: 0 }, directories, files, attributes })
    }

    /// An archive with no directory and no file, whose one attribute record
    /// describes the mount's root: a directory with permission bits `0o755`.
    pub fn new() -> (r: FuseStructure)
        ensures
            r.epoch == (Timespec { sec: 0, nsec: 0 }),
            r.directories@.len() == 0,
            r.files@.len() == 0,
            r.attributes@ == seq![root_attribute()],
    {
        let timespec = Timespec { sec: 0, nsec: 0 };
        let mut attributes: Vec<FileAttr> = Vec::new();
        attributes.push(
            FileAttr {
                ino: 1,
                size: 0,
                blocks: 0,
                atime: timespec,
                mtime: timespec,
                ctime: timespec,
                crtime: timespec,
                kind: FileType::Directory,
                perm: 0o755,
                nlink: 2,
                uid: 501,
                gid: 20,
                rdev: 0,
                flags: 0,
            },
        );
        FuseStructure { epoch: timespec, directories: Vec::new(), files: Vec::new(), attributes }
    }

    /// A copy of the `amount` bytes of `data` that start at `start`.
    pub fn get_sclice_from_vector(data: &Vec<u8>, start: usize, amount: usize) -> (r: Vec<u8>)
        requires
            start + amount <= data.len(),
        ensures
            r@ == data@.subrange(start as int, start + amount),
    {
        slice_to_vec(slice_subrange(data.as_slice(), start, start + amount))
    }
}

} // verus!
