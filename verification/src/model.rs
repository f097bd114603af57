//! The node graph of an archive: directories, files and attribute records,
//! each with the mathematical model that the contracts speak of.

use vstd::prelude::*;

verus! {

/// The node id by which the filesystem protocol names the mount's root. No
/// node of an archive is looked up under it: it stands for the root directory.
pub const ROOT_SENTINEL: u64 = 1;

/// The longest child list whose continuation tokens all fit in 64 signed bits.
pub const MAX_CHILDREN: u64 = 0x4000_0000_0000_0000;

/// The kind tag of a child that is a directory.
pub const TAG_DIRECTORY: u8 = 0;

/// The kind tag of a child that is a file.
pub const TAG_FILE: u8 = 1;

/// A point in time: seconds since the epoch and nanoseconds within the second.
#[derive(Clone, Copy, Debug, PartialEq, Eq, Structural)]
pub struct Timespec {
    pub sec: i64,
    pub nsec: i32,
}

/// What an attribute record describes.
#[derive(Clone, Copy, Debug, PartialEq, Eq, Structural)]
pub enum FileType {
    Directory,
    RegularFile,
}

/// The attribute record of one node. Only `ino`, `size`, the access, modify
/// and change times, `perm` and `kind` are kept in an archive's bytes.
#[derive(Clone, Copy, Debug, PartialEq, Eq, Structural)]
pub struct FileAttr {
    pub ino: u64,
    pub size: u64,
    pub blocks: u64,
    pub atime: Timespec,
    pub mtime: Timespec,
    pub ctime: Timespec,
    pub crtime: Timespec,
    pub kind: FileType,
    pub perm: u16,
    pub nlink: u32,
    pub uid: u32,
    pub gid: u32,
    pub rdev: u32,
    pub flags: u32,
}

/// A directory: its children are `nodes`, and `node_types[i]` is the kind tag
/// of `nodes[i]` (`TAG_DIRECTORY` or `TAG_FILE`).
#[derive(Clone, Debug, PartialEq, Eq)]
pub struct FuseDirectory {
    pub name: String,
    pub nodes: Vec<u64>,
    pub node_types: Vec<u8>,
    pub node: u64,
    pub is_root: bool,
    pub parent_node: u64,
}

/// A file with its whole content.
#[derive(Clone, Debug, PartialEq, Eq)]
pub struct FuseFile {
    pub name: String,
    pub data: Vec<u8>,
    pub node: u64,
}

/// An archive: the three collections and the time that replies are stamped
/// with.
#[derive(Clone, Debug, PartialEq, Eq)]
pub struct FuseStructure {
    pub epoch: Timespec,
    pub directories: Vec<FuseDirectory>,
    pub files: Vec<FuseFile>,
    pub attributes: Vec<FileAttr>,
}

/// What a directory is, as plain mathematical values.
pub struct DirectoryModel {
    pub name: Seq<char>,
    pub nodes: Seq<u64>,
    pub node_types: Seq<u8>,
    pub node: u64,
    pub is_root: bool,
    pub parent_node: u64,
}

/// What a file is, as plain mathematical values.
pub struct FileModel {
    pub name: Seq<char>,
    pub data: Seq<u8>,
    pub node: u64,
}

/// What an archive is, as plain mathematical values.
pub struct ArchiveModel {
    pub epoch: Timespec,
    pub directories: Seq<DirectoryModel>,
    pub files: Seq<FileModel>,
    pub attributes: Seq<FileAttr>,
}

impl View for FileAttr {
    type V = FileAttr;

    open spec fn view(&self) -> FileAttr {
        *self
    }
}

impl View for FuseDirectory {
    type V = DirectoryModel;

    open spec fn view(&self) -> DirectoryModel {
        DirectoryModel {
            name: self.name@,
            nodes: self.nodes@,
            node_types: self.node_types@,
            node: self.node,
            is_root: self.is_root,
            parent_node: self.parent_node,
        }
    }
}

impl View for FuseFile {
    type V = FileModel;

    open spec fn view(&self) -> FileModel {
        FileModel { name: self.name@, data: self.data@, node: self.node }
    }
}

/// The models of the directories in `items`, in the same order.
pub open spec fn directory_models(items: Seq<FuseDirectory>) -> Seq<DirectoryModel> {
    Seq::new(items.len(), |i: int| items[i]@)
}

/// The models of the files in `items`, in the same order.
pub open spec fn file_models(items: Seq<FuseFile>) -> Seq<FileModel> {
    Seq::new(items.len(), |i: int| items[i]@)
}

impl View for FuseStructure {
    type V = ArchiveModel;

    open spec fn view(&self) -> ArchiveModel {
        ArchiveModel {
            epoch: self.epoch,
            directories: directory_models(self.directories@),
            files: file_models(self.files@),
            attributes: self.attributes@,
        }
    }
}

/// `i` is the first place in `keys` that holds `node`.
pub open spec fn is_first(keys: Seq<u64>, node: u64, i: int) -> bool {
    &&& 0 <= i < keys.len()
    &&& keys[i] == node
    &&& forall|j: int| 0 <= j < i ==> keys[j] != node
}

/// The first place in `keys` that holds `node`, if any does.
pub open spec fn first_index(keys: Seq<u64>, node: u64) -> Option<int> {
    if exists|i: int| is_first(keys, node, i) {
        Some(choose|i: int| is_first(keys, node, i))
    } else {
        None
    }
}

/// How many places in `keys` hold `node`.
pub open spec fn occurrences(keys: Seq<u64>, node: u64) -> nat
    decreases keys.len(),
{
    if keys.len() == 0 {
        0
    } else {
        occurrences(keys.drop_last(), node) + if keys.last() == node {
            1nat
        } else {
            0nat
        }
    }
}

/// A first place is the first index.
pub proof fn lemma_first_index(keys: Seq<u64>, node: u64, i: int)
    requires
        is_first(keys, node, i),
    ensures
        first_index(keys, node) == Some(i),
{
}

/// Where no place holds `node`, there is no first index, and the other way
/// round.
pub proof fn lemma_first_index_none(keys: Seq<u64>, node: u64)
    ensures
        first_index(keys, node) is None <==> forall|j: int|
            0 <= j < keys.len() ==> keys[j] != node,
{
    if first_index(keys, node) is None {
        assert forall|j: int| 0 <= j < keys.len() implies keys[j] != node by {
            if keys[j] == node {
                lemma_some_first(keys, node, j);
            }
        }
    }
}

/// Below any place that holds `node` there is a first one.
pub proof fn lemma_some_first(keys: Seq<u64>, node: u64, j: int)
    requires
        0 <= j < keys.len(),
        keys[j] == node,
    ensures
        exists|i: int| is_first(keys, node, i) && i <= j,
    decreases j,
{
    if exists|k: int| 0 <= k < j && keys[k] == node {
        let k = choose|k: int| 0 <= k < j && keys[k] == node;
        lemma_some_first(keys, node, k);
    } else {
        assert(is_first(keys, node, j));
    }
}

/// The node ids of `dirs`, in order.
pub open spec fn directory_keys(dirs: Seq<DirectoryModel>) -> Seq<u64> {
    Seq::new(dirs.len(), |i: int| dirs[i].node)
}

/// The node ids of `files`, in order.
pub open spec fn file_keys(files: Seq<FileModel>) -> Seq<u64> {
    Seq::new(files.len(), |i: int| files[i].node)
}

/// The node ids that the records of `attrs` describe, in order.
pub open spec fn attribute_keys(attrs: Seq<FileAttr>) -> Seq<u64> {
    Seq::new(attrs.len(), |i: int| attrs[i].ino)
}

/// The root flags of `dirs` as keys: the sentinel for a root and zero for any
/// other directory.
pub open spec fn root_marks(dirs: Seq<DirectoryModel>) -> Seq<u64> {
    Seq::new(
        dirs.len(),
        |i: int|
            if dirs[i].is_root {
                ROOT_SENTINEL
            } else {
                0
            },
    )
}

/// The first directory of `dirs` with node id `node`.
pub open spec fn find_directory(dirs: Seq<DirectoryModel>, node: u64) -> Option<DirectoryModel> {
    match first_index(directory_keys(dirs), node) {
        Some(i) => Some(dirs[i]),
        None => None,
    }
}

/// The first file of `files` with node id `node`.
pub open spec fn find_file(files: Seq<FileModel>, node: u64) -> Option<FileModel> {
    match first_index(file_keys(files), node) {
        Some(i) => Some(files[i]),
        None => None,
    }
}

/// The first record of `attrs` that describes `node`.
pub open spec fn find_attribute(attrs: Seq<FileAttr>, node: u64) -> Option<FileAttr> {
    match first_index(attribute_keys(attrs), node) {
        Some(i) => Some(attrs[i]),
        None => None,
    }
}

/// The first directory of `dirs` that is flagged as the root.
pub open spec fn find_root(dirs: Seq<DirectoryModel>) -> Option<DirectoryModel> {
    match first_index(root_marks(dirs), ROOT_SENTINEL) {
        Some(i) => Some(dirs[i]),
        None => None,
    }
}

impl ArchiveModel {
    /// The first directory with node id `node`.
    pub open spec fn directory(self, node: u64) -> Option<DirectoryModel> {
        find_directory(self.directories, node)
    }

    /// The first file with node id `node`.
    pub open spec fn file(self, node: u64) -> Option<FileModel> {
        find_file(self.files, node)
    }

    /// The first attribute record that describes `node`.
    pub open spec fn attribute(self, node: u64) -> Option<FileAttr> {
        find_attribute(self.attributes, node)
    }

    /// The first directory that is flagged as the root.
    pub open spec fn root(self) -> Option<DirectoryModel> {
        find_root(self.directories)
    }

    /// The directory that a request for `node` is about: the root for the
    /// sentinel, else the directory with that id.
    pub open spec fn requested_directory(self, node: u64) -> Option<DirectoryModel> {
        if node == ROOT_SENTINEL {
            match self.root() {
                Some(root) => self.directory(root.node),
                None => None,
            }
        } else {
            self.directory(node)
        }
    }

    /// Child `i` of `dir` is listed soundly: its tag is one of the two kinds,
    /// a node of that kind has its id, and exactly one attribute record
    /// describes it.
    pub open spec fn child_resolves(self, dir: DirectoryModel, i: int) -> bool {
        &&& dir.node_types[i] == TAG_DIRECTORY || dir.node_types[i] == TAG_FILE
        &&& dir.node_types[i] == TAG_DIRECTORY ==> self.directory(dir.nodes[i]) is Some
        &&& dir.node_types[i] == TAG_FILE ==> self.file(dir.nodes[i]) is Some
        &&& occurrences(attribute_keys(self.attributes), dir.nodes[i]) == 1
    }

    /// `dir` is sound within this archive: its two child lists run in step
    /// and are short enough for continuation tokens, every child resolves,
    /// and exactly one attribute record describes the directory itself.
    pub open spec fn directory_sound(self, dir: DirectoryModel) -> bool {
        &&& dir.nodes.len() == dir.node_types.len()
        &&& dir.nodes.len() <= MAX_CHILDREN
        &&& forall|i: int| 0 <= i < dir.nodes.len() ==> #[trigger] self.child_resolves(dir, i)
        &&& occurrences(attribute_keys(self.attributes), dir.node) == 1
    }

    /// The archive keeps the invariants of its data model: exactly one
    /// directory is the root, and every directory is sound.
    pub open spec fn wf(self) -> bool {
        &&& occurrences(root_marks(self.directories), ROOT_SENTINEL) == 1
        &&& forall|d: int|
            0 <= d < self.directories.len() ==> #[trigger] self.directory_sound(
                self.directories[d],
            )
    }
}

} // verus!
