//! Packing a directory tree into an archive.
//!
//! The tree is given as a snapshot: what listing, reading and examining each
//! path gave, as plain values. Packing numbers the tree and records its
//! directories and files; harvesting then adds an attribute record for each.

use crate::bytes::{i32_from_bits, i32_of_pattern, i64_from_bits, i64_of_pattern, push_all};
use crate::common::{root_attribute, FuseCommon};
use crate::integrity::{lemma_packed_archive_well_formed, lemma_root_is_last};
use crate::numbering::lemma_own_directories_count_up;
use crate::model::{
    directory_models, file_models, find_directory, find_file, ArchiveModel, DirectoryModel,
    FileAttr, FileModel, FileType, FuseDirectory, FuseFile, FuseStructure, Timespec, MAX_CHILDREN,
    ROOT_SENTINEL, TAG_DIRECTORY, TAG_FILE,
};
use vstd::prelude::*;

verus! {

/// A time as the host gives it: whole seconds since the epoch and the
/// nanoseconds within the second.
#[derive(Clone, Copy, Debug, PartialEq, Eq, Structural)]
pub struct SourceTime {
    pub secs: u64,
    pub nanos: u32,
}

/// What examining a path gave: its mode bits and its three times.
#[derive(Clone, Copy, Debug, PartialEq, Eq, Structural)]
pub struct SourceStat {
    pub mode: u32,
    pub accessed: SourceTime,
    pub modified: SourceTime,
    pub created: SourceTime,
}

/// What a path holds, by its kind. `None` inside stands for a failure to
/// read the content or to list the entries.
#[derive(Debug)]
pub enum SourceContent {
    File(Option<Vec<u8>>),
    Directory(Option<Vec<SourceNode>>),
    Other,
}

/// One path of the snapshot. `name` is `None` where the path's last
/// component is missing or is not valid text, `stat` where examining the
/// path failed.
#[derive(Debug)]
pub struct SourceNode {
    pub name: Option<String>,
    pub stat: Option<SourceStat>,
    pub content: SourceContent,
}

/// What packing a tree gives: the files and the directories to record, in
/// recording order, and the next free node id.
pub struct Packed {
    pub files: Seq<FileModel>,
    pub directories: Seq<DirectoryModel>,
    pub next: u64,
}

/// Whether `node` is a file.
pub open spec fn is_file(node: SourceNode) -> bool {
    node.content is File
}

/// Whether `node` is a directory.
pub open spec fn is_directory(node: SourceNode) -> bool {
    node.content is Directory
}

/// How many of the first `k` entries are directories.
pub open spec fn directories_among(entries: Seq<SourceNode>, k: nat) -> nat
    decreases k,
{
    if k == 0 {
        0
    } else {
        directories_among(entries, (k - 1) as nat) + if is_directory(entries[k - 1]) {
            1nat
        } else {
            0nat
        }
    }
}

/// The files among the first `k` entries, in order, numbered from `inode`
/// on, with the next free id. `None` where a file has no name or no content,
/// or the ids run out.
pub open spec fn own_files(entries: Seq<SourceNode>, k: nat, inode: u64) -> Option<
    (Seq<FileModel>, u64),
>
    decreases k,
{
    if k == 0 {
        Some((Seq::empty(), inode))
    } else {
        match own_files(entries, (k - 1) as nat, inode) {
            None => None,
            Some((files, next)) => match entries[k - 1].content {
                SourceContent::File(data) => if entries[k - 1].name is Some && data is Some && next
                    < u64::MAX {
                    Some(
                        (
                            files.push(
                                FileModel {
                                    name: entries[k - 1].name.unwrap()@,
                                    data: data.unwrap()@,
                                    node: next,
                                },
                            ),
                            (next + 1) as u64,
                        ),
                    )
                } else {
                    None
                },
                _ => Some((files, next)),
            },
        }
    }
}

/// The directories among the first `k` entries, in order, numbered from
/// `inode` on and still without children, with the next free id. `None`
/// where a directory has no name or the ids run out.
pub open spec fn own_directories(entries: Seq<SourceNode>, k: nat, inode: u64) -> Option<
    (Seq<DirectoryModel>, u64),
>
    decreases k,
{
    if k == 0 {
        Some((Seq::empty(), inode))
    } else {
        match own_directories(entries, (k - 1) as nat, inode) {
            None => None,
            Some((dirs, next)) => if is_directory(entries[k - 1]) {
                if entries[k - 1].name is Some && next < u64::MAX {
                    Some(
                        (
                            dirs.push(
                                DirectoryModel {
                                    name: entries[k - 1].name.unwrap()@,
                                    nodes: Seq::empty(),
                                    node_types: Seq::empty(),
                                    node: next,
                                    is_root: false,
                                    parent_node: 0,
                                },
                            ),
                            (next + 1) as u64,
                        ),
                    )
                } else {
                    None
                }
            } else {
                Some((dirs, next))
            },
        }
    }
}

/// The child lists of a directory with `files` and `shells` as its immediate
/// files and subdirectories: the ids of the files, then those of the
/// subdirectories.
pub open spec fn child_ids(files: Seq<FileModel>, shells: Seq<DirectoryModel>) -> Seq<u64> {
    Seq::new(
        files.len() + shells.len(),
        |i: int|
            if i < files.len() {
                files[i].node
            } else {
                shells[i - files.len()].node
            },
    )
}

/// The kind tags that go with `child_ids`.
pub open spec fn child_tags(files: Seq<FileModel>, shells: Seq<DirectoryModel>) -> Seq<u8> {
    Seq::new(
        files.len() + shells.len(),
        |i: int|
            if i < files.len() {
                TAG_FILE
            } else {
                TAG_DIRECTORY
            },
    )
}

/// What packing the subdirectories among the first `k` entries gives, one
/// whole subtree after the other: subdirectory `j` is packed under the id of
/// `shells[j]`, with `parent` as its parent, from the counter that its
/// elder sibling left. `counter` is the first free id.
pub open spec fn packed_below(
    entries: Seq<SourceNode>,
    k: nat,
    shells: Seq<DirectoryModel>,
    counter: u64,
    parent: u64,
) -> Option<Packed>
    decreases entries, k,
{
    if k == 0 || k > entries.len() {
        Some(Packed { files: Seq::empty(), directories: Seq::empty(), next: counter })
    } else {
        match packed_below(entries, (k - 1) as nat, shells, counter, parent) {
            None => None,
            Some(before) => if is_directory(entries[k - 1]) {
                let shell = shells[directories_among(entries, (k - 1) as nat) as int];
                match packed(entries[k - 1], before.next, parent, shell.node, false) {
                    None => None,
                    Some(sub) => Some(
                        Packed {
                            files: before.files + sub.files,
                            directories: before.directories + sub.directories,
                            next: sub.next,
                        },
                    ),
                }
            } else {
                Some(before)
            },
        }
    }
}

/// What packing the tree under `source` gives, when `source` gets the id
/// `current_node` and fresh ids start at `inode`.
///
/// The immediate files are numbered first, in listing order, then the
/// immediate subdirectories. Then each subdirectory's whole subtree is
/// packed, one after the other, each from the counter that the one before
/// left. The directory's children are its files, then its subdirectories.
/// Its own files are recorded after those of its subtrees, and the directory
/// itself after all directories below it.
///
/// `None` where a listing or a file's content is missing, a file or a
/// directory has no name, or the ids run out. A `source` that is no
/// directory packs to nothing.
pub open spec fn packed(
    source: SourceNode,
    inode: u64,
    parent: u64,
    current_node: u64,
    is_root: bool,
) -> Option<Packed>
    decreases source, 0nat,
{
    match source.content {
        SourceContent::Directory(listing) => match listing {
            None => None,
            Some(entries) => {
                let files = own_files(entries@, entries@.len(), inode);
                let shells = own_directories(entries@, entries@.len(), files.unwrap().1);
                let below = packed_below(
                    entries@,
                    entries@.len(),
                    shells.unwrap().0,
                    shells.unwrap().1,
                    current_node,
                );
                if files is Some && shells is Some && below is Some && source.name is Some {
                    Some(
                        Packed {
                            files: below.unwrap().files + files.unwrap().0,
                            directories: below.unwrap().directories.push(
                                DirectoryModel {
                                    name: source.name.unwrap()@,
                                    nodes: child_ids(files.unwrap().0, shells.unwrap().0),
                                    node_types: child_tags(files.unwrap().0, shells.unwrap().0),
                                    node: current_node,
                                    is_root,
                                    parent_node: parent,
                                },
                            ),
                            next: below.unwrap().next,
                        },
                    )
                } else {
                    None
                }
            },
        },
        _ => Some(Packed { files: Seq::empty(), directories: Seq::empty(), next: inode }),
    }
}

/// The file that the snapshot entry `entry` becomes under the id `inode`.
fn blob_read_file(entry: &SourceNode, inode: u64) -> (r: Option<FuseFile>)
    ensures
        match r {
            Some(file) => entry.content matches SourceContent::File(Some(data)) && entry.name
                is Some && file@ == (FileModel {
                name: entry.name.unwrap()@,
                data: data@,
                node: inode,
            }),
            None => !(entry.content matches SourceContent::File(Some(data)) && entry.name
                is Some),
        },
{
    let name = match &entry.name {
        Some(name) => name.clone(),
        None => {
            return None;
        },
    };
    match &entry.content {
        SourceContent::File(Some(content)) => {
            let mut data: Vec<u8> = Vec::new();
            push_all(&mut data, content.as_slice());
            Some(FuseFile { name, node: inode, data })
        },
        _ => None,
    }
}

/// The immediate files of a directory with the entries `working_directory`,
/// numbered from `inode` on, and the next free id.
fn blob_read_all_files(working_directory: &Vec<SourceNode>, inode: u64) -> (r: Option<
    (Vec<FuseFile>, u64),
>)
    ensures
        match r {
            Some((files, next)) => own_files(
                working_directory@,
                working_directory@.len(),
                inode,
            ) == Some((file_models(files@), next)),
            None => own_files(working_directory@, working_directory@.len(), inode) is None,
        },
{
    let mut next = inode;
    let mut files: Vec<FuseFile> = Vec::new();
    let mut k: usize = 0;
    while k < working_directory.len()
        invariant
            k <= working_directory.len(),
            own_files(working_directory@, k as nat, inode) == Some((file_models(files@), next)),
        decreases working_directory.len() - k,
    {
        let entry = &working_directory[k];
        match &entry.content {
            SourceContent::File(_) => {
                let file = match blob_read_file(entry, next) {
                    Some(file) => file,
                    None => {
                        proof {
                            lemma_files_stay_none(
                                working_directory@,
                                (k + 1) as nat,
                                working_directory@.len(),
                                inode,
                            );
                        }
                        return None;
                    },
                };
                if next == u64::MAX {
                    proof {
                        lemma_files_stay_none(
                            working_directory@,
                            (k + 1) as nat,
                            working_directory@.len(),
                            inode,
                        );
                    }
                    return None;
                }
                files.push(file);
                next = next + 1;
            },
            _ => {},
        }
        k = k + 1;
    }
    Some((files, next))
}

/// The immediate subdirectories of a directory with the entries
/// `working_directory`, numbered from `inode` on and still without children,
/// and the next free id.
fn blob_read_all_directories(working_directory: &Vec<SourceNode>, inode: u64) -> (r: Option<
    (Vec<FuseDirectory>, u64),
>)
    ensures
        match r {
            Some((directories, next)) => own_directories(
                working_directory@,
                working_directory@.len(),
                inode,
            ) == Some((directory_models(directories@), next)),
            None => own_directories(working_directory@, working_directory@.len(), inode)
                is None,
        },
{
    let mut next = inode;
    let mut directories: Vec<FuseDirectory> = Vec::new();
    let mut k: usize = 0;
    while k < working_directory.len()
        invariant
            k <= working_directory.len(),
            own_directories(working_directory@, k as nat, inode) == Some(
                (directory_models(directories@), next),
            ),
        decreases working_directory.len() - k,
    {
        let entry = &working_directory[k];
        match &entry.content {
            SourceContent::Directory(_) => {
                let name = match &entry.name {
                    Some(name) => name.clone(),
                    None => {
                        proof {
                            lemma_directories_stay_none(
                                working_directory@,
                                (k + 1) as nat,
                                working_directory@.len(),
                                inode,
                            );
                        }
                        return None;
                    },
                };
                if next == u64::MAX {
                    proof {
                        lemma_directories_stay_none(
                            working_directory@,
                            (k + 1) as nat,
                            working_directory@.len(),
                            inode,
                        );
                    }
                    return None;
                }
                let shell = FuseDirectory {
                    name,
                    node: next,
                    parent_node: 0,
                    nodes: Vec::new(),
                    node_types: Vec::new(),
                    is_root: false,
                };
                directories.push(shell);
                next = next + 1;
            },
            _ => {},
        }
        k = k + 1;
    }
    Some((directories, next))
}

/// Once the files among some entries fail, they fail among more entries.
proof fn lemma_files_stay_none(entries: Seq<SourceNode>, k: nat, more: nat, inode: u64)
    requires
        own_files(entries, k, inode) is None,
        k <= more,
    ensures
        own_files(entries, more, inode) is None,
    decreases more,
{
    if k < more {
        lemma_files_stay_none(entries, k, (more - 1) as nat, inode);
    }
}

/// Once the directories among some entries fail, they fail among more
/// entries.
proof fn lemma_directories_stay_none(entries: Seq<SourceNode>, k: nat, more: nat, inode: u64)
    requires
        own_directories(entries, k, inode) is None,
        k <= more,
    ensures
        own_directories(entries, more, inode) is None,
    decreases more,
{
    if k < more {
        lemma_directories_stay_none(entries, k, (more - 1) as nat, inode);
    }
}

/// Once packing the subtrees of some entries fails, it fails for more
/// entries.
proof fn lemma_below_stays_none(
    entries: Seq<SourceNode>,
    k: nat,
    more: nat,
    shells: Seq<DirectoryModel>,
    counter: u64,
    parent: u64,
)
    requires
        packed_below(entries, k, shells, counter, parent) is None,
        k <= more <= entries.len(),
    ensures
        packed_below(entries, more, shells, counter, parent) is None,
    decreases more,
{
    if k < more {
        lemma_below_stays_none(entries, k, (more - 1) as nat, shells, counter, parent);
    }
}

/// Packs the tree under `source`: the files and directories to record, in
/// recording order, and the next free id.
#[verifier::loop_isolation(false)]
fn pack_tree(source: &SourceNode, inode: u64, parent: u64, current_node: u64, is_root: bool) -> (r:
    Option<(Vec<FuseFile>, Vec<FuseDirectory>, u64)>)
    ensures
        match r {
            Some((files, directories, next)) => packed(
                *source,
                inode,
                parent,
                current_node,
                is_root,
            ) == Some(
                Packed {
                    files: file_models(files@),
                    directories: directory_models(directories@),
                    next,
                },
            ),
            None => packed(*source, inode, parent, current_node, is_root) is None,
        },
    decreases source,
{
    let entries = match &source.content {
        SourceContent::Directory(Some(entries)) => entries,
        SourceContent::Directory(None) => {
            return None;
        },
        _ => {
            let files: Vec<FuseFile> = Vec::new();
            let directories: Vec<FuseDirectory> = Vec::new();
            assert(file_models(files@) =~= Seq::empty());
            assert(directory_models(directories@) =~= Seq::empty());
            return Some((files, directories, inode));
        },
    };
    let (mut temp_files, after_files) = blob_read_all_files(entries, inode)?;
    let (temp_directories, after_shells) = blob_read_all_directories(entries, after_files)?;
    let ghost shells = directory_models(temp_directories@);
    proof {
        lemma_own_directories_count_up(entries@, entries@.len(), after_files);
    }

    let mut files: Vec<FuseFile> = Vec::new();
    let mut directories: Vec<FuseDirectory> = Vec::new();
    let mut counter = after_shells;
    let mut shell: usize = 0;
    let mut k: usize = 0;
    assert(file_models(files@) =~= Seq::empty());
    assert(directory_models(directories@) =~= Seq::empty());
    while k < entries.len()
        invariant
            k <= entries.len(),
            source.content == SourceContent::Directory(Some(*entries)),
            shells == directory_models(temp_directories@),
            shells.len() == directories_among(entries@, entries@.len()),
            shell == directories_among(entries@, k as nat),
            shell <= k,
            packed_below(entries@, k as nat, shells, after_shells, current_node) == Some(
                Packed {
                    files: file_models(files@),
                    directories: directory_models(directories@),
                    next: counter,
                },
            ),
        decreases entries.len() - k,
    {
        proof {
            lemma_among_grows(entries@, (k + 1) as nat, entries@.len());
        }
        match &entries[k].content {
            SourceContent::Directory(_) => {
                let ghost before_files = file_models(files@);
                let ghost before_directories = directory_models(directories@);
                match pack_tree(
                    &entries[k],
                    counter,
                    current_node,
                    temp_directories[shell].node,
                    false,
                ) {
                    Some((mut more_files, mut more_directories, next)) => {
                        let ghost sub_files = file_models(more_files@);
                        let ghost sub_directories = directory_models(more_directories@);
                        files.append(&mut more_files);
                        directories.append(&mut more_directories);
                        counter = next;
                        shell = shell + 1;
                        assert(file_models(files@) =~= before_files + sub_files);
                        assert(directory_models(directories@) =~= before_directories
                            + sub_directories);
                    },
                    None => {
                        proof {
                            lemma_below_stays_none(
                                entries@,
                                (k + 1) as nat,
                                entries@.len(),
                                shells,
                                after_shells,
                                current_node,
                            );
                        }
                        return None;
                    },
                }
            },
            _ => {},
        }
        k = k + 1;
    }

    let name = match &source.name {
        Some(name) => name.clone(),
        None => {
            return None;
        },
    };
    let ghost own = file_models(temp_files@);
    let mut nodes: Vec<u64> = Vec::new();
    let mut node_types: Vec<u8> = Vec::new();
    let mut i: usize = 0;
    while i < temp_files.len()
        invariant
            i <= temp_files.len(),
            own == file_models(temp_files@),
            nodes@ == Seq::new(i as nat, |j: int| own[j].node),
            node_types@ == Seq::new(i as nat, |j: int| TAG_FILE),
        decreases temp_files.len() - i,
    {
        nodes.push(temp_files[i].node);
        node_types.push(TAG_FILE);
        i = i + 1;
    }
    let mut i: usize = 0;
    while i < temp_directories.len()
        invariant
            i <= temp_directories.len(),
            shells == directory_models(temp_directories@),
            nodes@ == Seq::new(
                own.len() + i as nat,
                |j: int|
                    if j < own.len() {
                        own[j].node
                    } else {
                        shells[j - own.len()].node
                    },
            ),
            node_types@ == Seq::new(
                own.len() + i as nat,
                |j: int|
                    if j < own.len() {
                        TAG_FILE
                    } else {
                        TAG_DIRECTORY
                    },
            ),
        decreases temp_directories.len() - i,
    {
        nodes.push(temp_directories[i].node);
        node_types.push(TAG_DIRECTORY);
        i = i + 1;
    }
    let ghost below_files = file_models(files@);
    let ghost below_directories = directory_models(directories@);
    files.append(&mut temp_files);
    let directory = FuseDirectory {
        name,
        nodes,
        node_types,
        node: current_node,
        is_root,
        parent_node: parent,
    };
    directories.push(directory);
    assert(file_models(files@) =~= below_files + own);
    assert(directory_models(directories@) =~= below_directories.push(directory@));
    Some((files, directories, counter))
}

/// Among more entries there are no fewer directories.
pub proof fn lemma_among_grows(entries: Seq<SourceNode>, k: nat, more: nat)
    requires
        k <= more,
    ensures
        directories_among(entries, k) <= directories_among(entries, more),
    decreases more,
{
    if k < more {
        lemma_among_grows(entries, k, (more - 1) as nat);
    }
}

/// What `fuse` is once `packed` is recorded in it: its files and directories
/// with those of `packed` after them, and its attribute records and epoch
/// as before.
pub open spec fn recorded(fuse: ArchiveModel, packed: Packed) -> ArchiveModel {
    ArchiveModel {
        epoch: fuse.epoch,
        directories: fuse.directories + packed.directories,
        files: fuse.files + packed.files,
        attributes: fuse.attributes,
    }
}

/// Packs the tree under `source` into `fuse`: `source` becomes a directory
/// with the id `current_node` and the parent `parent`, and everything below
/// it gets the ids from `inode` on. Gives the next free id. Where packing
/// fails, `fuse` is left as it was.
pub fn build_blob(
    source: &SourceNode,
    inode: u64,
    parent: u64,
    current_node: u64,
    fuse: &mut FuseStructure,
    is_root: bool,
) -> (r: Option<u64>)
    ensures
        match r {
            Some(next) => packed(*source, inode, parent, current_node, is_root) matches Some(
                tree,
            ) && next == tree.next && final(fuse)@ == recorded(old(fuse)@, tree),
            None => packed(*source, inode, parent, current_node, is_root) is None
                && *final(fuse) == *old(fuse),
        },
{
    let (mut files, mut directories, next) = pack_tree(
        source,
        inode,
        parent,
        current_node,
        is_root,
    )?;
    let ghost tree = packed(*source, inode, parent, current_node, is_root).unwrap();
    let ghost before = fuse@;
    fuse.files.append(&mut files);
    fuse.directories.append(&mut directories);
    assert(fuse@.files =~= before.files + tree.files);
    assert(fuse@.directories =~= before.directories + tree.directories);
    Some(next)
}

/// Whether `node` has the name `name`.
pub open spec fn has_name(node: SourceNode, name: Seq<char>) -> bool {
    node.name matches Some(own) && own@ == name
}

/// Entry `i` is the first of `entries` with the name `name`.
pub open spec fn is_first_named(entries: Seq<SourceNode>, name: Seq<char>, i: int) -> bool {
    &&& 0 <= i < entries.len()
    &&& has_name(entries[i], name)
    &&& forall|j: int| 0 <= j < i ==> !has_name(#[trigger] entries[j], name)
}

/// The index of the first of `entries` with the name `name`, if any has it:
/// the entry that the path made of a directory and `name` leads to.
pub open spec fn entry_named(entries: Seq<SourceNode>, name: Seq<char>) -> Option<int> {
    if exists|i: int| is_first_named(entries, name, i) {
        Some(choose|i: int| is_first_named(entries, name, i))
    } else {
        None
    }
}

/// The time `time` as an archive keeps it.
pub open spec fn time_of(time: SourceTime) -> Timespec {
    Timespec { sec: i64_of_pattern(time.secs), nsec: i32_of_pattern(time.nanos) }
}

/// The attribute record that harvesting makes for node `ino` of kind `kind`
/// and size `size`, examined as `stat`: the three times, with the creation
/// time for the change time too, and the low sixteen mode bits.
pub open spec fn harvested_record(
    ino: u64,
    size: u64,
    kind: FileType,
    stat: SourceStat,
) -> FileAttr {
    FileAttr {
        ino,
        size,
        blocks: 0,
        atime: time_of(stat.accessed),
        mtime: time_of(stat.modified),
        ctime: time_of(stat.created),
        crtime: time_of(stat.created),
        kind,
        perm: (stat.mode % 0x1_0000) as u16,
        nlink: 1,
        uid: 501,
        gid: 20,
        rdev: 0,
        flags: 0,
    }
}

/// The attribute records of the first `k` children of `dir`, in harvesting
/// order, where `source` is the snapshot of `dir`: one record for a file, and
/// for a subdirectory all the records below it and then its own.
///
/// `None` where a child has no kind tag or does not resolve in `dirs` or
/// `files`, where the snapshot has no entry of its name, or no directory for
/// a subdirectory, and where an entry was not examined.
pub open spec fn harvested_children(
    source: SourceNode,
    dir: DirectoryModel,
    dirs: Seq<DirectoryModel>,
    files: Seq<FileModel>,
    k: nat,
) -> Option<Seq<FileAttr>>
    decreases source, 0nat, k,
{
    if k == 0 {
        Some(Seq::empty())
    } else {
        let i = k - 1;
        match (harvested_children(source, dir, dirs, files, (k - 1) as nat), source.content) {
            (Some(records), SourceContent::Directory(Some(entries))) => {
                if i >= dir.nodes.len() || i >= dir.node_types.len() {
                    None
                } else if dir.node_types[i] == TAG_FILE {
                    match find_file(files, dir.nodes[i]) {
                        None => None,
                        Some(file) => match entry_named(entries@, file.name) {
                            None => None,
                            Some(j) => match entries@[j].stat {
                                None => None,
                                Some(stat) => Some(
                                    records.push(
                                        harvested_record(
                                            file.node,
                                            file.data.len() as u64,
                                            FileType::RegularFile,
                                            stat,
                                        ),
                                    ),
                                ),
                            },
                        },
                    }
                } else {
                    match find_directory(dirs, dir.nodes[i]) {
                        None => None,
                        Some(sub) => match entry_named(entries@, sub.name) {
                            None => None,
                            Some(j) => if 0 <= j < entries@.len() && is_directory(entries@[j]) {
                                match harvested(entries@[j], sub, dirs, files) {
                                    None => None,
                                    Some(more) => Some(records + more),
                                }
                            } else {
                                None
                            },
                        },
                    }
                }
            },
            _ => None,
        }
    }
}

/// The attribute records of everything below `dir` and of `dir` itself, in
/// harvesting order: the children in stored order, each subdirectory after
/// all that is below it, and `dir` last. `source` is the snapshot of `dir`.
pub open spec fn harvested(
    source: SourceNode,
    dir: DirectoryModel,
    dirs: Seq<DirectoryModel>,
    files: Seq<FileModel>,
) -> Option<Seq<FileAttr>>
    decreases source, 1nat, 0nat,
{
    match (harvested_children(source, dir, dirs, files, dir.nodes.len()), source.stat) {
        (Some(records), Some(stat)) => Some(
            records.push(harvested_record(dir.node, 0, FileType::Directory, stat)),
        ),
        _ => None,
    }
}

/// Once harvesting some children fails, harvesting more of them fails.
proof fn lemma_harvest_stays_none(
    source: SourceNode,
    dir: DirectoryModel,
    dirs: Seq<DirectoryModel>,
    files: Seq<FileModel>,
    k: nat,
    more: nat,
)
    requires
        harvested_children(source, dir, dirs, files, k) is None,
        k <= more,
    ensures
        harvested_children(source, dir, dirs, files, more) is None,
    decreases more,
{
    if k < more {
        lemma_harvest_stays_none(source, dir, dirs, files, k, (more - 1) as nat);
    }
}

/// The first of `entries` with the name `name`.
fn find_entry<'a>(entries: &'a Vec<SourceNode>, name: &String) -> (r: Option<&'a SourceNode>)
    ensures
        match r {
            Some(entry) => entry_named(entries@, name@) matches Some(j) && 0 <= j < entries@.len()
                && *entry == entries@[j],
            None => entry_named(entries@, name@) is None,
        },
{
    let mut i: usize = 0;
    while i < entries.len()
        invariant
            i <= entries.len(),
            forall|j: int| 0 <= j < i ==> !has_name(#[trigger] entries@[j], name@),
        decreases entries.len() - i,
    {
        let found = match &entries[i].name {
            Some(own) => *own == *name,
            None => false,
        };
        if found {
            proof {
                assert(is_first_named(entries@, name@, i as int));
                let j = choose|j: int| is_first_named(entries@, name@, j);
                assert(is_first_named(entries@, name@, j));
                if j < i {
                    assert(!has_name(entries@[j], name@));
                } else if i < j {
                    assert(!has_name(entries@[i as int], name@));
                }
            }
            return Some(&entries[i]);
        }
        i = i + 1;
    }
    proof {
        if exists|j: int| is_first_named(entries@, name@, j) {
            let j = choose|j: int| is_first_named(entries@, name@, j);
            assert(!has_name(entries@[j], name@));
        }
    }
    None
}

/// The time `time` as an archive keeps it.
fn systemtime_to_timespec(time: SourceTime) -> (r: Timespec)
    ensures
        r == time_of(time),
{
    Timespec { sec: i64_from_bits(time.secs), nsec: i32_from_bits(time.nanos) }
}

/// The attribute record for node `ino`, examined as `stat`.
fn make_record(ino: u64, size: u64, kind: FileType, stat: &SourceStat) -> (r: FileAttr)
    ensures
        r == harvested_record(ino, size, kind, *stat),
{
    let created = systemtime_to_timespec(stat.created);
    FileAttr {
        ino,
        size,
        blocks: 0,
        atime: systemtime_to_timespec(stat.accessed),
        mtime: systemtime_to_timespec(stat.modified),
        ctime: created,
        crtime: created,
        kind,
        perm: (stat.mode % 0x1_0000) as u16,
        nlink: 1,
        uid: 501,
        gid: 20,
        rdev: 0,
        flags: 0,
    }
}

/// The attribute records of everything below `directory` and of `directory`
/// itself, in harvesting order.
#[verifier::loop_isolation(false)]
fn harvest(
    source: &SourceNode,
    directory: &FuseDirectory,
    directories: &Vec<FuseDirectory>,
    files: &Vec<FuseFile>,
) -> (r: Option<Vec<FileAttr>>)
    ensures
        match r {
            Some(records) => harvested(
                *source,
                directory@,
                directory_models(directories@),
                file_models(files@),
            ) == Some(records@),
            None => harvested(
                *source,
                directory@,
                directory_models(directories@),
                file_models(files@),
            ) is None,
        },
    decreases source,
{
    let ghost dirs = directory_models(directories@);
    let ghost all = file_models(files@);
    let mut records: Vec<FileAttr> = Vec::new();
    let mut i: usize = 0;
    while i < directory.nodes.len()
        invariant
            i <= directory.nodes.len(),
            harvested_children(*source, directory@, dirs, all, i as nat) == Some(records@),
        decreases directory.nodes.len() - i,
    {
        let ghost fail = harvested_children(*source, directory@, dirs, all, (i + 1) as nat)
            is None;
        proof {
            if fail {
                lemma_harvest_stays_none(
                    *source,
                    directory@,
                    dirs,
                    all,
                    (i + 1) as nat,
                    directory@.nodes.len(),
                );
            }
        }
        let entries = match &source.content {
            SourceContent::Directory(Some(entries)) => entries,
            _ => {
                return None;
            },
        };
        if i >= directory.node_types.len() {
            return None;
        }
        let node = directory.nodes[i];
        if directory.node_types[i] == TAG_FILE {
            let file = FuseFile::find_by_node(files, node)?;
            let entry = find_entry(entries, &file.name)?;
            let stat = match &entry.stat {
                Some(stat) => stat,
                None => {
                    return None;
                },
            };
            let size = file.data.len() as u64;
            records.push(make_record(file.node, size, FileType::RegularFile, stat));
        } else {
            let sub = FuseDirectory::find_by_node(directories, node)?;
            let entry = find_entry(entries, &sub.name)?;
            match &entry.content {
                SourceContent::Directory(_) => {},
                _ => {
                    return None;
                },
            }
            let ghost before = records@;
            let mut more = harvest(entry, sub, directories, files)?;
            let ghost below = more@;
            records.append(&mut more);
            assert(records@ =~= before + below);
        }
        i = i + 1;
    }
    let stat = match &source.stat {
        Some(stat) => stat,
        None => {
            return None;
        },
    };
    records.push(make_record(directory.node, 0, FileType::Directory, stat));
    Some(records)
}

/// What `fuse` is once `records` are added to its attribute records.
pub open spec fn with_records(fuse: ArchiveModel, records: Seq<FileAttr>) -> ArchiveModel {
    ArchiveModel {
        epoch: fuse.epoch,
        directories: fuse.directories,
        files: fuse.files,
        attributes: fuse.attributes + records,
    }
}

/// Adds to `fuse` the attribute records of everything below `directory` and
/// of `directory` itself, in harvesting order. `source` is the snapshot of
/// the directory. Where harvesting fails, `fuse` is left as it was.
pub fn blob_generate_attributes(
    source: &SourceNode,
    directory: &FuseDirectory,
    fuse: &mut FuseStructure,
) -> (r: Option<()>)
    ensures
        match r {
            Some(_) => harvested(
                *source,
                directory@,
                old(fuse)@.directories,
                old(fuse)@.files,
            ) matches Some(records) && final(fuse)@ == with_records(old(fuse)@, records),
            None => harvested(*source, directory@, old(fuse)@.directories, old(fuse)@.files)
                is None && *final(fuse) == *old(fuse),
        },
{
    let mut records = harvest(source, directory, &fuse.directories, &fuse.files)?;
    let ghost added = records@;
    let ghost before = fuse@;
    fuse.attributes.append(&mut records);
    assert(fuse@.attributes =~= before.attributes + added);
    Some(())
}

/// The id of the root directory of a generated archive.
pub const ROOT_NODE: u64 = 2;

/// The first id that is given out below the root of a generated archive.
pub const FIRST_NODE: u64 = 3;

/// What a new archive is.
pub open spec fn new_archive() -> ArchiveModel {
    ArchiveModel {
        epoch: Timespec { sec: 0, nsec: 0 },
        directories: Seq::empty(),
        files: Seq::empty(),
        attributes: seq![root_attribute()],
    }
}

/// The archive of the directory `source`: a new archive into which `source`
/// was packed as the root, with the attribute records harvested from that
/// root. `None` where `source` is no directory, or packing or harvesting
/// fails.
pub open spec fn generated(source: SourceNode) -> Option<ArchiveModel> {
    match packed(source, FIRST_NODE, ROOT_SENTINEL, ROOT_NODE, true) {
        Some(tree) => match harvested(
            source,
            tree.directories.last(),
            tree.directories,
            tree.files,
        ) {
            Some(records) => if is_directory(source) {
                Some(with_records(recorded(new_archive(), tree), records))
            } else {
                None
            },
            None => None,
        },
        None => None,
    }
}

/// The archive of the directory `source`, or `None` where `source` is no
/// directory or something in it could not be read, named or examined.
///
/// The root gets the id `ROOT_NODE`, and what is below it the ids from
/// `FIRST_NODE` on. The archive keeps the invariants of the data model,
/// unless it holds more nodes than a child list can have.
pub fn generate(source: &SourceNode) -> (r: Option<FuseStructure>)
    ensures
        match r {
            Some(archive) => generated(*source) == Some(archive@),
            None => generated(*source) is None,
        },
        r matches Some(archive) ==> packed(
            *source,
            FIRST_NODE,
            ROOT_SENTINEL,
            ROOT_NODE,
            true,
        ).unwrap().next - FIRST_NODE <= MAX_CHILDREN ==> archive@.wf(),
{
    let ghost tree = packed(*source, FIRST_NODE, ROOT_SENTINEL, ROOT_NODE, true);
    match &source.content {
        SourceContent::Directory(_) => {},
        _ => {
            return None;
        },
    }
    let mut fuse = FuseStructure::new();
    let ghost fresh = fuse@;
    assert(fresh.directories =~= Seq::empty());
    assert(fresh.files =~= Seq::empty());
    assert(fresh == new_archive());
    build_blob(source, FIRST_NODE, ROOT_SENTINEL, ROOT_NODE, &mut fuse, true)?;
    proof {
        lemma_root_is_last(*source, FIRST_NODE, ROOT_SENTINEL, ROOT_NODE);
        assert(fuse@.directories =~= tree.unwrap().directories);
        assert(fuse@.files =~= tree.unwrap().files);
    }
    let root = FuseDirectory::find_root_directory(&fuse.directories).unwrap();
    let mut records = harvest(source, root, &fuse.directories, &fuse.files)?;
    let ghost added = records@;
    let ghost before = fuse@;
    fuse.attributes.append(&mut records);
    proof {
        assert(fuse@.attributes =~= before.attributes + added);
        assert(fuse@ == with_records(recorded(new_archive(), tree.unwrap()), added));
        if tree.unwrap().next - FIRST_NODE <= MAX_CHILDREN {
            lemma_packed_archive_well_formed(
                *source,
                FIRST_NODE,
                ROOT_SENTINEL,
                ROOT_NODE,
                *source,
                new_archive(),
            );
        }
    }
    Some(fuse)
}

} // verus!
