//! How packing numbers a tree: every file and every directory below the top
//! gets one id of its own, and together they use up the ids from the first
//! free one to the next free one.

use crate::generate::{
    directories_among, is_directory, lemma_among_grows, own_directories, own_files, packed,
    packed_below, Packed, SourceContent, SourceNode,
};
use crate::model::{directory_keys, file_keys, occurrences, DirectoryModel, FileModel};
use vstd::prelude::*;

verus! {

/// Every id from `low` up to but not including `high` stands in `keys` once,
/// and no other id stands there.
pub open spec fn numbers(keys: Seq<u64>, low: int, high: int) -> bool {
    forall|x: u64|
        occurrences(keys, x) == if low <= x < high {
            1nat
        } else {
            0nat
        }
}

/// The ids that a packing gave out: those of its files and of its
/// directories but the last, which is the top directory and had its id
/// before.
pub open spec fn given_ids(tree: Packed) -> Seq<u64> {
    file_keys(tree.files) + directory_keys(tree.directories.drop_last())
}

/// An id stands in two lists in a row as often as in both together.
pub proof fn lemma_occurrences_add(a: Seq<u64>, b: Seq<u64>, x: u64)
    ensures
        occurrences(a + b, x) == occurrences(a, x) + occurrences(b, x),
    decreases b.len(),
{
    if b.len() > 0 {
        lemma_occurrences_add(a, b.drop_last(), x);
        assert((a + b).drop_last() =~= a + b.drop_last());
    }
}

/// Ids that count up from `low` number the range that they run through.
pub proof fn lemma_counting_up(keys: Seq<u64>, low: int)
    requires
        forall|i: int| 0 <= i < keys.len() ==> keys[i] == low + i,
    ensures
        numbers(keys, low, low + keys.len()),
    decreases keys.len(),
{
    if keys.len() > 0 {
        let front = keys.drop_last();
        lemma_counting_up(front, low);
        assert forall|x: u64|
            occurrences(keys, x) == if low <= x < low + keys.len() {
                1nat
            } else {
                0nat
            } by {
            assert(occurrences(front, x) == if low <= x < low + front.len() {
                1nat
            } else {
                0nat
            });
        }
    }
}

/// The files of a directory get the ids from `inode` on, one after the
/// other.
pub proof fn lemma_own_files_count_up(entries: Seq<SourceNode>, k: nat, inode: u64)
    requires
        own_files(entries, k, inode) is Some,
    ensures
        ({
            let (files, next) = own_files(entries, k, inode).unwrap();
            &&& next == inode + files.len()
            &&& forall|i: int| 0 <= i < files.len() ==> (#[trigger] files[i]).node == inode + i
        }),
    decreases k,
{
    if k > 0 {
        lemma_own_files_count_up(entries, (k - 1) as nat, inode);
    }
}

/// The subdirectories of a directory get the ids from `inode` on, one after
/// the other, and there is one shell for each of them.
pub proof fn lemma_own_directories_count_up(entries: Seq<SourceNode>, k: nat, inode: u64)
    requires
        own_directories(entries, k, inode) is Some,
    ensures
        ({
            let (shells, next) = own_directories(entries, k, inode).unwrap();
            &&& next == inode + shells.len()
            &&& shells.len() == directories_among(entries, k)
            &&& forall|i: int| 0 <= i < shells.len() ==> (#[trigger] shells[i]).node == inode + i
        }),
    decreases k,
{
    if k > 0 {
        lemma_own_directories_count_up(entries, (k - 1) as nat, inode);
    }
}

/// The ids of files in a row are the ids of the one list, then of the other.
pub proof fn lemma_file_keys_add(a: Seq<FileModel>, b: Seq<FileModel>)
    ensures
        file_keys(a + b) == file_keys(a) + file_keys(b),
{
}

/// The ids of directories in a row are the ids of the one list, then of the
/// other.
pub proof fn lemma_directory_keys_add(a: Seq<DirectoryModel>, b: Seq<DirectoryModel>)
    ensures
        directory_keys(a + b) == directory_keys(a) + directory_keys(b),
{
}

/// Packing the subtrees of the first `k` entries uses up the ids from
/// `counter` to the next free one, for the files and directories below the
/// subdirectories. The subdirectories themselves stand there under the ids
/// of their shells.
pub proof fn lemma_below_numbers(
    entries: Seq<SourceNode>,
    k: nat,
    shells: Seq<DirectoryModel>,
    counter: u64,
    parent: u64,
    first_shell: int,
)
    requires
        k <= entries.len(),
        packed_below(entries, k, shells, counter, parent) is Some,
        shells.len() == directories_among(entries, entries.len()),
        forall|i: int| 0 <= i < shells.len() ==> (#[trigger] shells[i]).node == first_shell + i,
    ensures
        ({
            let below = packed_below(entries, k, shells, counter, parent).unwrap();
            &&& counter <= below.next
            &&& forall|x: u64|
                occurrences(file_keys(below.files), x) + occurrences(
                    directory_keys(below.directories),
                    x,
                ) == (if counter <= x < below.next {
                    1nat
                } else {
                    0nat
                }) + (if first_shell <= x < first_shell + directories_among(entries, k) {
                    1nat
                } else {
                    0nat
                })
        }),
    decreases entries, k,
{
    if k > 0 {
        let before = packed_below(entries, (k - 1) as nat, shells, counter, parent).unwrap();
        lemma_below_numbers(entries, (k - 1) as nat, shells, counter, parent, first_shell);
        if is_directory(entries[k - 1]) {
            let j = directories_among(entries, (k - 1) as nat) as int;
            lemma_among_grows(entries, k, entries.len());
            let shell = shells[j];
            let sub = packed(entries[k - 1], before.next, parent, shell.node, false).unwrap();
            lemma_packed_numbers(entries[k - 1], before.next, parent, shell.node, false);
            let below = packed_below(entries, k, shells, counter, parent).unwrap();
            lemma_file_keys_add(before.files, sub.files);
            lemma_directory_keys_add(before.directories, sub.directories);
            assert forall|x: u64|
                occurrences(file_keys(below.files), x) + occurrences(
                    directory_keys(below.directories),
                    x,
                ) == (if counter <= x < below.next {
                    1nat
                } else {
                    0nat
                }) + (if first_shell <= x < first_shell + directories_among(entries, k) {
                    1nat
                } else {
                    0nat
                }) by {
                lemma_occurrences_add(file_keys(before.files), file_keys(sub.files), x);
                lemma_occurrences_add(
                    directory_keys(before.directories),
                    directory_keys(sub.directories),
                    x,
                );
                lemma_occurrences_add(
                    file_keys(sub.files),
                    directory_keys(sub.directories.drop_last()),
                    x,
                );
                assert(directory_keys(sub.directories).drop_last() =~= directory_keys(
                    sub.directories.drop_last(),
                ));
            }
        }
    }
}

/// Packing a directory uses up the ids from `inode` to the next free one:
/// each of them goes to exactly one file or directory below the top, and no
/// file or directory below the top has another id. The top directory stands
/// last, under the id `current_node`.
pub proof fn lemma_packed_numbers(
    source: SourceNode,
    inode: u64,
    parent: u64,
    current_node: u64,
    is_root: bool,
)
    requires
        is_directory(source),
        packed(source, inode, parent, current_node, is_root) is Some,
    ensures
        ({
            let tree = packed(source, inode, parent, current_node, is_root).unwrap();
            &&& inode <= tree.next
            &&& numbers(given_ids(tree), inode as int, tree.next as int)
            &&& tree.directories.len() > 0
            &&& tree.directories.last().node == current_node
        }),
    decreases source, 0nat,
{
    let tree = packed(source, inode, parent, current_node, is_root).unwrap();
    match source.content {
        SourceContent::Directory(Some(list)) => {
            let entries = list@;
            let (files, after_files) = own_files(entries, entries.len(), inode).unwrap();
            let (shells, after_shells) = own_directories(
                entries,
                entries.len(),
                after_files,
            ).unwrap();
            let below = packed_below(
                entries,
                entries.len(),
                shells,
                after_shells,
                current_node,
            ).unwrap();
            lemma_own_files_count_up(entries, entries.len(), inode);
            lemma_own_directories_count_up(entries, entries.len(), after_files);
            lemma_below_numbers(
                entries,
                entries.len(),
                shells,
                after_shells,
                current_node,
                after_files as int,
            );
            lemma_counting_up(file_keys(files), inode as int);
            lemma_file_keys_add(below.files, files);
            assert(tree.directories.drop_last() =~= below.directories);
            assert forall|x: u64|
                occurrences(given_ids(tree), x) == if inode <= x < tree.next {
                    1nat
                } else {
                    0nat
                } by {
                lemma_occurrences_add(file_keys(tree.files), directory_keys(below.directories), x);
                lemma_occurrences_add(file_keys(below.files), file_keys(files), x);
            }
        },
        _ => {},
    }
}

} // verus!
