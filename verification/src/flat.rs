//! Looking up a name in the archive of a directory that holds files only:
//! the first file of that name is found, with its size and mode bits.

use crate::common::root_attribute;
use crate::generate::{
    directories_among, entry_named, generated, harvested, harvested_children, harvested_record,
    has_name, is_file, is_first_named, own_directories, own_files, packed, packed_below, Packed,
    SourceContent, SourceNode, FIRST_NODE, ROOT_NODE,
};
use crate::integrity::lemma_root_is_last;
use crate::model::{
    attribute_keys, directory_keys, file_keys, find_file, is_first, lemma_first_index,
    DirectoryModel, FileAttr, FileModel, FileType, ROOT_SENTINEL, TAG_FILE,
};
use vstd::prelude::*;

verus! {

/// `source` is a directory whose entries are all files.
pub open spec fn flat(source: SourceNode) -> bool {
    source.content matches SourceContent::Directory(Some(list)) && forall|i: int|
        0 <= i < list@.len() ==> is_file(#[trigger] list@[i])
}

/// The entries of a directory that was listed.
pub open spec fn entries_of(source: SourceNode) -> Seq<SourceNode> {
    source.content->Directory_0.unwrap()@
}

/// The file that entry `i` of a directory is packed as, when ids start at
/// `inode`.
pub open spec fn file_of(entries: Seq<SourceNode>, i: int, inode: u64) -> FileModel {
    FileModel {
        name: entries[i].name.unwrap()@,
        data: entries[i].content->File_0.unwrap()@,
        node: (inode + i) as u64,
    }
}

proof fn lemma_flat_files(entries: Seq<SourceNode>, k: nat, inode: u64)
    requires
        k <= entries.len(),
        forall|i: int| 0 <= i < entries.len() ==> is_file(#[trigger] entries[i]),
        own_files(entries, k, inode) is Some,
    ensures
        ({
            let (files, next) = own_files(entries, k, inode).unwrap();
            &&& files.len() == k
            &&& next == inode + k
            &&& forall|i: int| 0 <= i < k ==> #[trigger] files[i] == file_of(entries, i, inode)
            &&& forall|i: int|
                0 <= i < k ==> (#[trigger] entries[i]).name is Some && entries[i].content
                    matches SourceContent::File(Some(_))
        }),
    decreases k,
{
    if k > 0 {
        lemma_flat_files(entries, (k - 1) as nat, inode);
    }
}

proof fn lemma_flat_directories(entries: Seq<SourceNode>, k: nat, inode: u64)
    requires
        k <= entries.len(),
        forall|i: int| 0 <= i < entries.len() ==> is_file(#[trigger] entries[i]),
    ensures
        own_directories(entries, k, inode) == Some((Seq::<DirectoryModel>::empty(), inode)),
        directories_among(entries, k) == 0,
    decreases k,
{
    if k > 0 {
        lemma_flat_directories(entries, (k - 1) as nat, inode);
    }
}

proof fn lemma_flat_below(
    entries: Seq<SourceNode>,
    k: nat,
    shells: Seq<DirectoryModel>,
    counter: u64,
    parent: u64,
)
    requires
        k <= entries.len(),
        forall|i: int| 0 <= i < entries.len() ==> is_file(#[trigger] entries[i]),
    ensures
        packed_below(entries, k, shells, counter, parent) == Some(
            Packed { files: Seq::empty(), directories: Seq::empty(), next: counter },
        ),
    decreases k,
{
    if k > 0 {
        lemma_flat_below(entries, (k - 1) as nat, shells, counter, parent);
    }
}

/// An entry of `entries` has the name `name`, and the first that has it was
/// examined.
pub open spec fn examined(entries: Seq<SourceNode>, name: Seq<char>) -> bool {
    entry_named(entries, name) matches Some(j) && entries[j].stat is Some
}

/// The attribute record that harvesting makes for child `i` of a flat
/// directory: that of the file, examined as the first entry of its name.
pub open spec fn record_of(entries: Seq<SourceNode>, i: int, inode: u64) -> FileAttr {
    let file = file_of(entries, i, inode);
    harvested_record(
        file.node,
        file.data.len() as u64,
        FileType::RegularFile,
        entries[entry_named(entries, file.name).unwrap()].stat.unwrap(),
    )
}

proof fn lemma_flat_harvest(
    source: SourceNode,
    dir: DirectoryModel,
    dirs: Seq<DirectoryModel>,
    files: Seq<FileModel>,
    k: nat,
    inode: u64,
)
    requires
        flat(source),
        k <= entries_of(source).len(),
        files.len() == entries_of(source).len(),
        dir.nodes.len() == files.len(),
        inode + files.len() <= u64::MAX,
        forall|i: int| 0 <= i < files.len() ==> #[trigger] files[i] == file_of(
            entries_of(source),
            i,
            inode,
        ),
        forall|i: int|
            0 <= i < files.len() ==> dir.nodes[i] == inode + i && dir.node_types[i] == TAG_FILE,
        harvested_children(source, dir, dirs, files, k) is Some,
    ensures
        ({
            let records = harvested_children(source, dir, dirs, files, k).unwrap();
            &&& records.len() == k
            &&& forall|i: int|
                0 <= i < k ==> #[trigger] records[i] == record_of(entries_of(source), i, inode)
            &&& forall|i: int|
                0 <= i < k ==> examined(entries_of(source), (#[trigger] files[i]).name)
        }),
    decreases k,
{
    if k > 0 {
        lemma_flat_harvest(source, dir, dirs, files, (k - 1) as nat, inode);
        let keys = file_keys(files);
        assert forall|j: int| 0 <= j < k - 1 implies keys[j] != dir.nodes[k - 1] by {}
        lemma_first_index(keys, dir.nodes[k - 1], k - 1);
    }
}

/// In the archive of a directory that holds files only, entry `i`, if it is
/// the first of its name, is the first child of the root with that name, and
/// the attribute record of that child has the size of the file's content and
/// the low sixteen bits of its mode.
pub proof fn lemma_flat_lookup(source: SourceNode, i: int)
    requires
        flat(source),
        generated(source) is Some,
        0 <= i < entries_of(source).len(),
        entries_of(source)[i].name is Some,
        is_first_named(entries_of(source), entries_of(source)[i].name.unwrap()@, i),
    ensures
        ({
            let archive = generated(source).unwrap();
            let entry = entries_of(source)[i];
            let root = archive.requested_directory(ROOT_SENTINEL);
            &&& root is Some
            &&& entry.stat is Some
            &&& entry.content matches SourceContent::File(Some(_))
            &&& archive.is_first_match(root.unwrap(), entry.name.unwrap()@, i)
            &&& archive.attribute(root.unwrap().nodes[i]) == Some(
                harvested_record(
                    (FIRST_NODE + i) as u64,
                    entry.content->File_0.unwrap()@.len() as u64,
                    FileType::RegularFile,
                    entry.stat.unwrap(),
                ),
            )
        }),
{
    let entries = entries_of(source);
    let name = entries[i].name.unwrap()@;
    lemma_flat_shape(source);
    let archive = generated(source).unwrap();
    let root = archive.directories[0];
    assert forall|j: int| 0 <= j < i implies archive.child_name(root, j) != Some(name) by {
        lemma_flat_child(source, j);
    }
    lemma_flat_child(source, i);
    // the record was made from entry `i` itself, and it is the first record
    // with the child's id
    let keys = attribute_keys(archive.attributes);
    assert forall|j: int| 0 <= j < 1 + i implies keys[j] != FIRST_NODE + i by {
        if j > 0 {
            assert(archive.files[j - 1] == file_of(entries, j - 1, FIRST_NODE));
        }
    }
    lemma_first_index(keys, (FIRST_NODE + i) as u64, 1 + i);
}

/// In the archive of a directory that holds files only, no child of the
/// root has a name that no entry has.
pub proof fn lemma_flat_lookup_absent(source: SourceNode, name: Seq<char>)
    requires
        flat(source),
        generated(source) is Some,
        forall|i: int| 0 <= i < entries_of(source).len() ==> !has_name(
            #[trigger] entries_of(source)[i],
            name,
        ),
    ensures
        ({
            let archive = generated(source).unwrap();
            let root = archive.requested_directory(ROOT_SENTINEL);
            &&& root is Some
            &&& forall|i: int|
                0 <= i < root.unwrap().nodes.len() ==> #[trigger] archive.child_name(
                    root.unwrap(),
                    i,
                ) != Some(name)
        }),
{
    lemma_flat_shape(source);
    let archive = generated(source).unwrap();
    let root = archive.directories[0];
    assert forall|i: int| 0 <= i < root.nodes.len() implies #[trigger] archive.child_name(
        root,
        i,
    ) != Some(name) by {
        lemma_flat_child(source, i);
    }
}

/// What the archive of a directory that holds files only is: one directory,
/// the root, with one child for each entry; the entries as files; and the
/// new archive's record, one record for each file, and the root's.
proof fn lemma_flat_shape(source: SourceNode)
    requires
        flat(source),
        generated(source) is Some,
    ensures
        ({
            let archive = generated(source).unwrap();
            let entries = entries_of(source);
            let root = archive.directories[0];
            &&& archive.directories.len() == 1
            &&& archive.requested_directory(ROOT_SENTINEL) == Some(root)
            &&& root.nodes.len() == entries.len()
            &&& root.node_types.len() == entries.len()
            &&& archive.files.len() == entries.len()
            &&& archive.attributes.len() == entries.len() + 2
            &&& FIRST_NODE + entries.len() <= u64::MAX
            &&& forall|i: int|
                0 <= i < entries.len() ==> {
                    &&& root.nodes[i] == FIRST_NODE + i
                    &&& root.node_types[i] == TAG_FILE
                    &&& #[trigger] archive.files[i] == file_of(entries, i, FIRST_NODE)
                    &&& archive.attributes[1 + i] == record_of(entries, i, FIRST_NODE)
                    &&& entries[i].name is Some
                    &&& entries[i].content matches SourceContent::File(Some(_))
                    &&& examined(entries, entries[i].name.unwrap()@)
                }
            &&& archive.attributes[0] == root_attribute()
        }),
{
    let entries = entries_of(source);
    let tree = packed(source, FIRST_NODE, ROOT_SENTINEL, ROOT_NODE, true).unwrap();
    lemma_flat_files(entries, entries.len(), FIRST_NODE);
    let (files, after_files) = own_files(entries, entries.len(), FIRST_NODE).unwrap();
    lemma_flat_directories(entries, entries.len(), after_files);
    lemma_flat_below(entries, entries.len(), Seq::empty(), after_files, ROOT_NODE);
    lemma_root_is_last(source, FIRST_NODE, ROOT_SENTINEL, ROOT_NODE);
    let archive = generated(source).unwrap();
    let root = tree.directories.last();
    assert(tree.files =~= files);
    assert(archive.files =~= files);
    assert(archive.directories =~= seq![root]);
    let keys = directory_keys(archive.directories);
    assert(is_first(keys, ROOT_NODE, 0));
    lemma_first_index(keys, ROOT_NODE, 0);
    let children = harvested_children(source, root, tree.directories, tree.files, root.nodes.len());
    assert(harvested(source, root, tree.directories, tree.files) is Some);
    lemma_flat_harvest(
        source,
        root,
        tree.directories,
        tree.files,
        entries.len(),
        FIRST_NODE,
    );
    assert forall|i: int| 0 <= i < entries.len() implies archive.attributes[1 + i] == record_of(
        entries,
        i,
        FIRST_NODE,
    ) by {
        assert(children.unwrap()[i] == record_of(entries, i, FIRST_NODE));
    }
    assert forall|i: int| 0 <= i < entries.len() implies examined(
        entries,
        (#[trigger] entries[i]).name.unwrap()@,
    ) by {
        assert(tree.files[i] == file_of(entries, i, FIRST_NODE));
        assert(examined(entries, tree.files[i].name));
    }
}

/// Child `i` of the root of a flat archive has the name of entry `i`.
proof fn lemma_flat_child(source: SourceNode, i: int)
    requires
        flat(source),
        generated(source) is Some,
        0 <= i < entries_of(source).len(),
    ensures
        ({
            let archive = generated(source).unwrap();
            archive.child_name(archive.directories[0], i) == Some(
                entries_of(source)[i].name.unwrap()@,
            )
        }),
{
    lemma_flat_shape(source);
    let archive = generated(source).unwrap();
    let entries = entries_of(source);
    let keys = file_keys(archive.files);
    assert forall|j: int| 0 <= j < i implies keys[j] != FIRST_NODE + i by {
        assert(archive.files[j] == file_of(entries, j, FIRST_NODE));
    }
    assert(archive.files[i] == file_of(entries, i, FIRST_NODE));
    assert(is_first(keys, (FIRST_NODE + i) as u64, i));
    lemma_first_index(keys, (FIRST_NODE + i) as u64, i);
}

} // verus!
