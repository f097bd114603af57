//! The four requests that an archive answers as a read-only filesystem:
//! `lookup`, `getattr`, `read` and `readdir`.

use crate::common::FuseCommon;
use crate::model::{
    attribute_keys, directory_models, first_index, occurrences, root_marks, ArchiveModel,
    DirectoryModel, FileAttr, FileType, FuseDirectory, FuseFile, FuseStructure, MAX_CHILDREN,
    ROOT_SENTINEL, TAG_DIRECTORY, TAG_FILE,
};
use vstd::prelude::*;
use vstd::slice::slice_subrange;

verus! {

/// One entry of a directory listing. `offset` is the continuation token: the
/// position at which a later listing goes on after this entry.
#[derive(Clone, Debug, PartialEq, Eq)]
pub struct DirEntry {
    pub ino: u64,
    pub offset: i64,
    pub kind: FileType,
    pub name: String,
}

/// What a listing entry is, as plain mathematical values.
pub struct EntryModel {
    pub ino: u64,
    pub offset: i64,
    pub kind: FileType,
    pub name: Seq<char>,
}

impl View for DirEntry {
    type V = EntryModel;

    open spec fn view(&self) -> EntryModel {
        EntryModel { ino: self.ino, offset: self.offset, kind: self.kind, name: self.name@ }
    }
}

/// The models of the entries in `items`, in the same order.
pub open spec fn entry_models(items: Seq<DirEntry>) -> Seq<EntryModel> {
    Seq::new(items.len(), |i: int| items[i]@)
}

/// The bytes of `content` from position `offset` on. A position that is
/// negative or past the end has no bytes after it.
pub open spec fn content_from(content: Seq<u8>, offset: i64) -> Seq<u8> {
    if 0 <= offset <= content.len() {
        content.subrange(offset as int, content.len() as int)
    } else {
        Seq::empty()
    }
}

/// The entries `.` and `..` of `dir` that a listing from `offset` starts
/// with: `.` only at offset 0, `..` only below offset 2. `.` names the
/// directory itself, and so does `..` for the root; elsewhere `..` names the
/// parent.
pub open spec fn dot_entries(dir: DirectoryModel, offset: i64) -> Seq<EntryModel> {
    let dot = EntryModel { ino: dir.node, offset: 1, kind: FileType::Directory, name: seq!['.'] };
    let dot_dot = EntryModel {
        ino: if dir.is_root {
            dir.node
        } else {
            dir.parent_node
        },
        offset: 2,
        kind: FileType::Directory,
        name: seq!['.', '.'],
    };
    if offset == 0 {
        seq![dot, dot_dot]
    } else if offset < 2 {
        seq![dot_dot]
    } else {
        Seq::empty()
    }
}

impl ArchiveModel {
    /// The name of child `i` of `dir`: that of the directory or of the file
    /// with the child's id, as the child's kind tag says.
    pub open spec fn child_name(self, dir: DirectoryModel, i: int) -> Option<Seq<char>> {
        if dir.node_types[i] == TAG_DIRECTORY {
            match self.directory(dir.nodes[i]) {
                Some(child) => Some(child.name),
                None => None,
            }
        } else {
            match self.file(dir.nodes[i]) {
                Some(child) => Some(child.name),
                None => None,
            }
        }
    }

    /// Child `i` of `dir` is the first child with the name `name`.
    pub open spec fn is_first_match(self, dir: DirectoryModel, name: Seq<char>, i: int) -> bool {
        &&& 0 <= i < dir.nodes.len()
        &&& self.child_name(dir, i) == Some(name)
        &&& forall|j: int| 0 <= j < i ==> self.child_name(dir, j) != Some(name)
    }

    /// The listing entry of child `i` of `dir` in a listing from `offset`.
    /// Its continuation token is the child's index plus `offset` plus one.
    pub open spec fn child_entry(self, dir: DirectoryModel, offset: i64, i: int) -> EntryModel {
        EntryModel {
            ino: dir.nodes[i],
            offset: (i + offset + 1) as i64,
            kind: if dir.node_types[i] == TAG_FILE {
                FileType::RegularFile
            } else {
                FileType::Directory
            },
            name: self.child_name(dir, i).unwrap(),
        }
    }

    /// The entries of the children of `dir` in a listing from `offset`: those
    /// of the children whose index is `offset` or more, in stored order.
    pub open spec fn child_entries(self, dir: DirectoryModel, offset: i64) -> Seq<EntryModel> {
        if 0 <= offset < dir.nodes.len() {
            Seq::new(
                (dir.nodes.len() - offset) as nat,
                |k: int| self.child_entry(dir, offset, offset + k),
            )
        } else {
            Seq::empty()
        }
    }

    /// The listing of `dir` from `offset`: the dot entries, then the
    /// children.
    pub open spec fn listing(self, dir: DirectoryModel, offset: i64) -> Seq<EntryModel> {
        dot_entries(dir, offset) + self.child_entries(dir, offset)
    }
}

/// A listing from the start holds `.`, then `..`, then every child of the
/// directory in stored order, child `i` with the token `i + 1`.
pub proof fn lemma_listing_from_start(archive: ArchiveModel, dir: DirectoryModel)
    ensures
        archive.listing(dir, 0).len() == 2 + dir.nodes.len(),
        archive.listing(dir, 0)[0].name == seq!['.'],
        archive.listing(dir, 0)[0].ino == dir.node,
        archive.listing(dir, 0)[1].name == seq!['.', '.'],
        forall|i: int|
            0 <= i < dir.nodes.len() ==> #[trigger] archive.listing(dir, 0)[2 + i]
                == archive.child_entry(dir, 0, i),
        forall|i: int|
            0 <= i < dir.nodes.len() ==> (#[trigger] archive.listing(dir, 0)[2 + i]).ino
                == dir.nodes[i],
{
}

/// A key that occurs has a first place.
pub proof fn lemma_occurs(keys: Seq<u64>, node: u64)
    ensures
        occurrences(keys, node) > 0 <==> first_index(keys, node) is Some,
        occurrences(keys, node) > 0 <==> exists|i: int| 0 <= i < keys.len() && keys[i] == node,
    decreases keys.len(),
{
    crate::model::lemma_first_index_none(keys, node);
    if keys.len() > 0 {
        let front = keys.drop_last();
        lemma_occurs(front, node);
        if occurrences(keys, node) > 0 {
            if keys.last() != node {
                let i = choose|i: int| 0 <= i < front.len() && front[i] == node;
            }
        } else {
            assert forall|i: int| 0 <= i < keys.len() implies keys[i] != node by {
                if i < front.len() {
                    assert(front[i] == keys[i]);
                }
            }
        }
    }
}

/// A directory that is found by its id is one of the archive's directories.
pub proof fn lemma_directory_listed(archive: ArchiveModel, node: u64)
    requires
        archive.directory(node) is Some,
    ensures
        exists|i: int|
            0 <= i < archive.directories.len() && archive.directories[i] == archive.directory(
                node,
            ).unwrap(),
{
    let keys = crate::model::directory_keys(archive.directories);
    let i = first_index(keys, node).unwrap();
    assert(crate::model::is_first(keys, node, i));
    assert(archive.directories[i] == archive.directory(node).unwrap());
}

/// In an archive that keeps its invariants, a request for the root finds a
/// directory, and every directory that a request finds is sound.
pub proof fn lemma_requested_sound(archive: ArchiveModel, node: u64)
    requires
        archive.wf(),
    ensures
        archive.root() is Some,
        archive.requested_directory(ROOT_SENTINEL) is Some,
        archive.requested_directory(node) matches Some(dir) ==> archive.directory_sound(dir)
            && dir.node == (if node == ROOT_SENTINEL {
            archive.root().unwrap().node
        } else {
            node
        }),
{
    let marks = root_marks(archive.directories);
    lemma_occurs(marks, ROOT_SENTINEL);
    let r = first_index(marks, ROOT_SENTINEL).unwrap();
    assert(crate::model::is_first(marks, ROOT_SENTINEL, r));
    let root = archive.directories[r];
    let keys = crate::model::directory_keys(archive.directories);
    assert(keys[r] == root.node);
    crate::model::lemma_first_index_none(keys, root.node);
    if archive.requested_directory(node) is Some {
        let key = if node == ROOT_SENTINEL {
            root.node
        } else {
            node
        };
        lemma_directory_listed(archive, key);
        let i = first_index(keys, key).unwrap();
        assert(crate::model::is_first(keys, key, i));
        assert(archive.directory_sound(archive.directories[i]));
    }
}

/// How many records of `attrs` describe `node`.
fn count_attributes(attrs: &Vec<FileAttr>, node: u64) -> (count: usize)
    ensures
        count == occurrences(attribute_keys(attrs@), node),
{
    let ghost keys = attribute_keys(attrs@);
    let mut count: usize = 0;
    let mut i: usize = 0;
    while i < attrs.len()
        invariant
            i <= attrs.len(),
            count <= i,
            keys == attribute_keys(attrs@),
            count == occurrences(keys.subrange(0, i as int), node),
        decreases attrs.len() - i,
    {
        if attrs[i].ino == node {
            count = count + 1;
        }
        i = i + 1;
        assert(keys.subrange(0, i as int).drop_last() =~= keys.subrange(0, i - 1));
    }
    assert(keys.subrange(0, i as int) =~= keys);
    count
}

/// How many directories of `dirs` are flagged as the root.
fn count_roots(dirs: &Vec<FuseDirectory>) -> (count: usize)
    ensures
        count == occurrences(root_marks(directory_models(dirs@)), ROOT_SENTINEL),
{
    let ghost marks = root_marks(directory_models(dirs@));
    let mut count: usize = 0;
    let mut i: usize = 0;
    while i < dirs.len()
        invariant
            i <= dirs.len(),
            count <= i,
            marks == root_marks(directory_models(dirs@)),
            count == occurrences(marks.subrange(0, i as int), ROOT_SENTINEL),
        decreases dirs.len() - i,
    {
        if dirs[i].is_root {
            count = count + 1;
        }
        i = i + 1;
        assert(marks.subrange(0, i as int).drop_last() =~= marks.subrange(0, i - 1));
    }
    assert(marks.subrange(0, i as int) =~= marks);
    count
}

impl FuseStructure {
    /// Whether child `i` of `dir` is listed soundly.
    fn child_is_sound(&self, dir: &FuseDirectory, i: usize) -> (r: bool)
        requires
            i < dir.nodes.len(),
            dir.nodes.len() == dir.node_types.len(),
        ensures
            r == self@.child_resolves(dir@, i as int),
    {
        let node = dir.nodes[i];
        let tag = dir.node_types[i];
        let resolves = if tag == TAG_DIRECTORY {
            FuseDirectory::find_by_node(&self.directories, node).is_some()
        } else if tag == TAG_FILE {
            FuseFile::find_by_node(&self.files, node).is_some()
        } else {
            false
        };
        resolves && count_attributes(&self.attributes, node) == 1
    }

    /// Whether `dir` is sound within this archive.
    fn directory_is_sound(&self, dir: &FuseDirectory) -> (r: bool)
        ensures
            r == self@.directory_sound(dir@),
    {
        if dir.nodes.len() != dir.node_types.len() || dir.nodes.len() as u64 > MAX_CHILDREN {
            return false;
        }
        let mut i: usize = 0;
        while i < dir.nodes.len()
            invariant
                i <= dir.nodes.len(),
                dir.nodes.len() == dir.node_types.len(),
                forall|k: int| 0 <= k < i ==> #[trigger] self@.child_resolves(dir@, k),
            decreases dir.nodes.len() - i,
        {
            if !self.child_is_sound(dir, i) {
                return false;
            }
            i = i + 1;
        }
        count_attributes(&self.attributes, dir.node) == 1
    }

    /// Whether this archive keeps the invariants of its data model: exactly
    /// one root, child lists in step, every child resolved by its kind, and
    /// exactly one attribute record for every directory and every child.
    pub fn is_well_formed(&self) -> (r: bool)
        ensures
            r == self@.wf(),
    {
        if count_roots(&self.directories) != 1 {
            return false;
        }
        let mut d: usize = 0;
        while d < self.directories.len()
            invariant
                d <= self.directories.len(),
                forall|k: int|
                    0 <= k < d ==> #[trigger] self@.directory_sound(self@.directories[k]),
            decreases self.directories.len() - d,
        {
            if !self.directory_is_sound(&self.directories[d]) {
                assert(!self@.directory_sound(self@.directories[d as int]));
                return false;
            }
            d = d + 1;
        }
        true
    }

    /// The directory that a request for `node` is about: the root for the
    /// sentinel, else the directory with that id.
    pub fn requested_directory(&self, node: u64) -> (r: Option<&FuseDirectory>)
        ensures
            match r {
                Some(dir) => self@.requested_directory(node) == Some(dir@),
                None => self@.requested_directory(node) is None,
            },
    {
        let target = if node == ROOT_SENTINEL {
            match FuseDirectory::find_root_directory(&self.directories) {
                Some(root) => root.node,
                None => {
                    return None;
                },
            }
        } else {
            node
        };
        FuseDirectory::find_by_node(&self.directories, target)
    }

    /// The name of child `i` of `dir`, a sound directory of this archive.
    fn name_of_child(&self, dir: &FuseDirectory, i: usize) -> (name: &String)
        requires
            self@.directory_sound(dir@),
            i < dir.nodes.len(),
        ensures
            self@.child_name(dir@, i as int) == Some(name@),
    {
        assert(self@.child_resolves(dir@, i as int));
        let node = dir.nodes[i];
        if dir.node_types[i] == TAG_DIRECTORY {
            &FuseDirectory::find_by_node(&self.directories, node).unwrap().name
        } else {
            &FuseFile::find_by_node(&self.files, node).unwrap().name
        }
    }

    /// The attribute record of the first child of directory `parent` whose
    /// name is `name`, or `None` for "not found" where no child has that
    /// name. The children are tried in stored order. `parent` must name a
    /// directory of the archive: the root by the sentinel, any other by its
    /// id.
    pub fn lookup(&self, parent: u64, name: &str) -> (r: Option<FileAttr>)
        requires
            self@.wf(),
            self@.requested_directory(parent) is Some,
        ensures
            ({
                let dir = self@.requested_directory(parent).unwrap();
                match r {
                    Some(attr) => exists|i: int|
                        #[trigger] self@.is_first_match(dir, name@, i) && self@.attribute(
                            dir.nodes[i],
                        ) == Some(attr),
                    None => forall|i: int|
                        0 <= i < dir.nodes.len() ==> #[trigger] self@.child_name(dir, i) != Some(
                            name@,
                        ),
                }
            }),
    {
        proof {
            lemma_requested_sound(self@, parent);
        }
        let directory = self.requested_directory(parent).unwrap();
        let wanted = name.to_owned();
        let mut i: usize = 0;
        while i < directory.nodes.len()
            invariant
                i <= directory.nodes.len(),
                self@.directory_sound(directory@),
                self@.requested_directory(parent) == Some(directory@),
                wanted@ == name@,
                forall|j: int|
                    0 <= j < i ==> #[trigger] self@.child_name(directory@, j) != Some(name@),
            decreases directory.nodes.len() - i,
        {
            let child = self.name_of_child(directory, i);
            if *child == wanted {
                proof {
                    assert(self@.child_resolves(directory@, i as int));
                    lemma_occurs(attribute_keys(self@.attributes), directory@.nodes[i as int]);
                    assert(self@.is_first_match(directory@, name@, i as int));
                }
                let node = directory.nodes[i];
                let attribute = FileAttr::find_by_node(&self.attributes, node).unwrap();
                return Some(*attribute);
            }
            i = i + 1;
        }
        None
    }

    /// The listing of directory `ino` from `offset`, or `None` for "not
    /// found" where the archive has no such directory. The sentinel names
    /// the root.
    pub fn readdir(&self, ino: u64, offset: i64) -> (r: Option<Vec<DirEntry>>)
        requires
            self@.wf(),
        ensures
            match r {
                Some(entries) => self@.requested_directory(ino) is Some && entry_models(entries@)
                    == self@.listing(self@.requested_directory(ino).unwrap(), offset),
                None => self@.requested_directory(ino) is None,
            },
    {
        proof {
            lemma_requested_sound(self@, ino);
        }
        let directory = match self.requested_directory(ino) {
            Some(directory) => directory,
            None => {
                return None;
            },
        };
        let mut entries: Vec<DirEntry> = Vec::new();
        proof {
            reveal_strlit(".");
            reveal_strlit("..");
        }
        if offset == 0 {
            entries.push(
                DirEntry {
                    ino: directory.node,
                    offset: 1,
                    kind: FileType::Directory,
                    name: ".".to_owned(),
                },
            );
        }
        if offset < 2 {
            let up = if directory.is_root {
                directory.node
            } else {
                directory.parent_node
            };
            entries.push(
                DirEntry { ino: up, offset: 2, kind: FileType::Directory, name: "..".to_owned() },
            );
        }
        assert(".."@ =~= seq!['.', '.']);
        assert("."@ =~= seq!['.']);
        if offset < 0 || offset as u64 >= directory.nodes.len() as u64 {
            return Some(entries);
        }
        let first = offset as usize;
        let mut i: usize = first;
        while i < directory.nodes.len()
            invariant
                first <= i <= directory.nodes.len(),
                first == offset,
                self@.directory_sound(directory@),
                entry_models(entries@) == dot_entries(directory@, offset) + Seq::new(
                    (i - first) as nat,
                    |k: int| self@.child_entry(directory@, offset, offset + k),
                ),
            decreases directory.nodes.len() - i,
        {
            let name = self.name_of_child(directory, i).clone();
            let kind = if directory.node_types[i] == TAG_FILE {
                FileType::RegularFile
            } else {
                FileType::Directory
            };
            let entry = DirEntry {
                ino: directory.nodes[i],
                offset: i as i64 + offset + 1,
                kind,
                name,
            };
            let ghost before = entry_models(entries@);
            entries.push(entry);
            i = i + 1;
            assert(before.push(entry@) =~= dot_entries(directory@, offset) + Seq::new(
                (i - first) as nat,
                |k: int| self@.child_entry(directory@, offset, offset + k),
            ));
        }
        Some(entries)
    }

    /// The attribute record of `ino`, or `None` for "not found".
    pub fn getattr(&self, ino: u64) -> (r: Option<FileAttr>)
        ensures
            r == self@.attribute(ino),
    {
        match FileAttr::find_by_node(&self.attributes, ino) {
            Some(attribute) => Some(*attribute),
            None => None,
        }
    }

    /// The content of file `ino` from `offset` to its end, or `None` for
    /// "not found". `_size`, the most that the caller asked for, does not
    /// shorten the answer.
    pub fn read(&self, ino: u64, offset: i64, _size: u32) -> (r: Option<&[u8]>)
        ensures
            match r {
                Some(bytes) => self@.file(ino) is Some && bytes@ == content_from(
                    self@.file(ino).unwrap().data,
                    offset,
                ),
                None => self@.file(ino) is None,
            },
            r matches Some(bytes) ==> 0 <= offset < self@.file(ino).unwrap().data.len()
                ==> bytes@ == self@.file(ino).unwrap().data.subrange(
                offset as int,
                self@.file(ino).unwrap().data.len() as int,
            ),
    {
        match FuseFile::find_by_node(&self.files, ino) {
            Some(file) => {
                let len = file.data.len();
                let from = if offset >= 0 && offset as u64 <= len as u64 {
                    offset as usize
                } else {
                    len
                };
                let bytes = slice_subrange(file.data.as_slice(), from, len);
                Some(bytes)
            },
            None => None,
        }
    }
}

} // verus!
