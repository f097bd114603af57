//! A tree that was packed and harvested keeps the invariants of the data
//! model: the archive that comes out can be served.

use crate::generate::{
    directories_among, entry_named, harvested, harvested_children, is_directory, lemma_among_grows,
    own_directories, own_files, packed, packed_below, recorded, with_records, Packed,
    SourceContent, SourceNode,
};
use crate::model::{
    attribute_keys, directory_keys, file_keys, find_directory, find_file, find_root, first_index,
    is_first, lemma_first_index, occurrences, root_marks, ArchiveModel, DirectoryModel, FileAttr,
    FileModel, MAX_CHILDREN, ROOT_SENTINEL, TAG_DIRECTORY, TAG_FILE,
};
use crate::numbering::{
    given_ids, lemma_below_numbers, lemma_counting_up, lemma_directory_keys_add,
    lemma_file_keys_add, lemma_occurrences_add, lemma_own_directories_count_up,
    lemma_own_files_count_up, lemma_packed_numbers, numbers,
};
use crate::serve::lemma_occurs;
use vstd::prelude::*;

verus! {

/// Child `i` of `dir` is a file or a directory of `tree`, as its tag says.
pub open spec fn child_in(tree: Packed, dir: DirectoryModel, i: int) -> bool {
    ||| dir.node_types[i] == TAG_FILE && occurrences(file_keys(tree.files), dir.nodes[i]) > 0
    ||| dir.node_types[i] == TAG_DIRECTORY && occurrences(
        directory_keys(tree.directories),
        dir.nodes[i],
    ) > 0
}

/// `dir` has its child lists in step, no more than `most` children, and
/// each child in `tree`.
pub open spec fn sound_in(tree: Packed, dir: DirectoryModel, most: int) -> bool {
    &&& dir.nodes.len() == dir.node_types.len()
    &&& dir.nodes.len() <= most
    &&& forall|i: int| 0 <= i < dir.nodes.len() ==> #[trigger] child_in(tree, dir, i)
}

/// Every directory of `part` is no root and is sound in `tree`.
pub open spec fn all_sound(part: Seq<DirectoryModel>, tree: Packed, most: int) -> bool {
    forall|d: int|
        0 <= d < part.len() ==> !(#[trigger] part[d]).is_root && sound_in(tree, part[d], most)
}

/// A directory that is sound in a tree is sound in every tree that holds
/// the files and directories of the first, before or after others.
proof fn lemma_sound_grows(small: Packed, large: Packed, dir: DirectoryModel, most: int, more: int)
    requires
        sound_in(small, dir, most),
        most <= more,
        exists|a: Seq<FileModel>, b: Seq<FileModel>| large.files == a + small.files + b,
        exists|a: Seq<DirectoryModel>, b: Seq<DirectoryModel>|
            large.directories == a + small.directories + b,
    ensures
        sound_in(large, dir, more),
{
    let (fa, fb) = choose|a: Seq<FileModel>, b: Seq<FileModel>| large.files == a + small.files + b;
    let (da, db) = choose|a: Seq<DirectoryModel>, b: Seq<DirectoryModel>|
        large.directories == a + small.directories + b;
    lemma_file_keys_add(fa + small.files, fb);
    lemma_file_keys_add(fa, small.files);
    lemma_directory_keys_add(da + small.directories, db);
    lemma_directory_keys_add(da, small.directories);
    assert forall|i: int| 0 <= i < dir.nodes.len() implies #[trigger] child_in(large, dir, i) by {
        assert(child_in(small, dir, i));
        let x = dir.nodes[i];
        lemma_occurrences_add(file_keys(fa) + file_keys(small.files), file_keys(fb), x);
        lemma_occurrences_add(file_keys(fa), file_keys(small.files), x);
        lemma_occurrences_add(
            directory_keys(da) + directory_keys(small.directories),
            directory_keys(db),
            x,
        );
        lemma_occurrences_add(directory_keys(da), directory_keys(small.directories), x);
    }
}

/// What packing the subtrees of the first `k` entries gives holds no root,
/// and each of its directories is sound in it. The subdirectories stand in
/// it under the ids of their shells.
pub proof fn lemma_below_shape(
    entries: Seq<SourceNode>,
    k: nat,
    shells: Seq<DirectoryModel>,
    counter: u64,
    parent: u64,
)
    requires
        k <= entries.len(),
        packed_below(entries, k, shells, counter, parent) is Some,
        shells.len() == directories_among(entries, entries.len()),
    ensures
        ({
            let below = packed_below(entries, k, shells, counter, parent).unwrap();
            &&& counter <= below.next
            &&& all_sound(below.directories, below, below.next - counter)
            &&& forall|j: int|
                0 <= j < directories_among(entries, k) ==> occurrences(
                    directory_keys(below.directories),
                    (#[trigger] shells[j]).node,
                ) > 0
        }),
    decreases entries, k,
{
    if k > 0 {
        let before = packed_below(entries, (k - 1) as nat, shells, counter, parent).unwrap();
        lemma_below_shape(entries, (k - 1) as nat, shells, counter, parent);
        if is_directory(entries[k - 1]) {
            let j = directories_among(entries, (k - 1) as nat) as int;
            lemma_among_grows(entries, k, entries.len());
            let shell = shells[j];
            let sub = packed(entries[k - 1], before.next, parent, shell.node, false).unwrap();
            lemma_packed_shape(entries[k - 1], before.next, parent, shell.node, false);
            let below = packed_below(entries, k, shells, counter, parent).unwrap();
            let most = below.next - counter;
            assert forall|d: int| 0 <= d < below.directories.len() implies !(
            #[trigger] below.directories[d]).is_root && sound_in(
                below,
                below.directories[d],
                most,
            ) by {
                if d < before.directories.len() {
                    assert(below.directories[d] == before.directories[d]);
                    assert(below.files == Seq::<FileModel>::empty() + before.files + sub.files);
                    assert(below.directories == Seq::<DirectoryModel>::empty()
                        + before.directories + sub.directories);
                    lemma_sound_grows(
                        before,
                        below,
                        before.directories[d],
                        before.next - counter,
                        most,
                    );
                } else {
                    let e = d - before.directories.len();
                    assert(below.directories[d] == sub.directories[e]);
                    if e < sub.directories.len() - 1 {
                        assert(sub.directories.drop_last()[e] == sub.directories[e]);
                    }
                    assert(below.files == before.files + sub.files + Seq::<FileModel>::empty());
                    assert(below.directories == before.directories + sub.directories
                        + Seq::<DirectoryModel>::empty());
                    lemma_sound_grows(
                        sub,
                        below,
                        sub.directories[e],
                        sub.next - before.next,
                        most,
                    );
                }
            }
            lemma_directory_keys_add(before.directories, sub.directories);
            assert forall|i: int| 0 <= i < directories_among(entries, k) implies occurrences(
                directory_keys(below.directories),
                (#[trigger] shells[i]).node,
            ) > 0 by {
                lemma_occurrences_add(
                    directory_keys(before.directories),
                    directory_keys(sub.directories),
                    shells[i].node,
                );
                if i == j {
                    let keys = directory_keys(sub.directories);
                    assert(keys.last() == shell.node);
                }
            }
        }
    }
}

/// What packing a directory gives has the directory itself last, as the
/// root if it was packed as the root, and no root before it. Each of its
/// directories is sound in it.
pub proof fn lemma_packed_shape(
    source: SourceNode,
    inode: u64,
    parent: u64,
    current_node: u64,
    is_root: bool,
)
    requires
        is_directory(source),
        packed(source, inode, parent, current_node, is_root) is Some,
    ensures
        ({
            let tree = packed(source, inode, parent, current_node, is_root).unwrap();
            &&& inode <= tree.next
            &&& tree.directories.len() > 0
            &&& tree.directories.last().node == current_node
            &&& tree.directories.last().is_root == is_root
            &&& all_sound(tree.directories.drop_last(), tree, tree.next - inode)
            &&& sound_in(tree, tree.directories.last(), tree.next - inode)
        }),
    decreases source, 0nat,
{
    let tree = packed(source, inode, parent, current_node, is_root).unwrap();
    match source.content {
        SourceContent::Directory(Some(list)) => {
            let entries = list@;
            let (files, after_files) = own_files(entries, entries.len(), inode).unwrap();
            let (shells, after_shells) = own_directories(
                entries,
                entries.len(),
                after_files,
            ).unwrap();
            let below = packed_below(
                entries,
                entries.len(),
                shells,
                after_shells,
                current_node,
            ).unwrap();
            lemma_own_files_count_up(entries, entries.len(), inode);
            lemma_own_directories_count_up(entries, entries.len(), after_files);
            lemma_below_shape(entries, entries.len(), shells, after_shells, current_node);
            let top = tree.directories.last();
            let most = tree.next - inode;
            assert(tree.directories.drop_last() =~= below.directories);
            assert(tree.files == below.files + files);
            assert(tree.directories == below.directories + seq![top]);
            assert forall|d: int| 0 <= d < below.directories.len() implies !(
            #[trigger] below.directories[d]).is_root && sound_in(
                tree,
                below.directories[d],
                most,
            ) by {
                assert(tree.files == Seq::<FileModel>::empty() + below.files + files);
                assert(tree.directories == Seq::<DirectoryModel>::empty() + below.directories
                    + seq![top]);
                lemma_sound_grows(
                    below,
                    tree,
                    below.directories[d],
                    below.next - after_shells,
                    most,
                );
            }
            lemma_file_keys_add(below.files, files);
            lemma_directory_keys_add(below.directories, seq![top]);
            assert forall|i: int| 0 <= i < top.nodes.len() implies #[trigger] child_in(
                tree,
                top,
                i,
            ) by {
                let x = top.nodes[i];
                lemma_occurrences_add(file_keys(below.files), file_keys(files), x);
                lemma_occurrences_add(
                    directory_keys(below.directories),
                    directory_keys(seq![top]),
                    x,
                );
                if i < files.len() {
                    lemma_holds_key(file_keys(files), i);
                } else {
                    assert(x == shells[i - files.len()].node);
                }
            }
        },
        _ => {},
    }
}

/// A key that stands in a list occurs in it.
pub proof fn lemma_holds_key(keys: Seq<u64>, i: int)
    requires
        0 <= i < keys.len(),
    ensures
        occurrences(keys, keys[i]) > 0,
    decreases keys.len(),
{
    if i < keys.len() - 1 {
        lemma_holds_key(keys.drop_last(), i);
    }
}

/// No id stands in `keys` twice.
pub open spec fn distinct(keys: Seq<u64>) -> bool {
    forall|x: u64| occurrences(keys, x) <= 1
}

/// Every directory of `part` is one of `whole`.
pub open spec fn within(part: Seq<DirectoryModel>, whole: Seq<DirectoryModel>) -> bool {
    forall|i: int| 0 <= i < part.len() ==> whole.contains(#[trigger] part[i])
}

/// A key that stands in two places occurs twice.
proof fn lemma_two_places(keys: Seq<u64>, i: int, j: int)
    requires
        0 <= i < j < keys.len(),
        keys[i] == keys[j],
    ensures
        occurrences(keys, keys[i]) >= 2,
    decreases keys.len(),
{
    if j == keys.len() - 1 {
        lemma_holds_key(keys.drop_last(), i);
    } else {
        lemma_two_places(keys.drop_last(), i, j);
    }
}

/// Where no id is on two directories, a directory of the list is the one
/// that its id finds.
proof fn lemma_found_is_listed(dirs: Seq<DirectoryModel>, dir: DirectoryModel)
    requires
        distinct(directory_keys(dirs)),
        dirs.contains(dir),
    ensures
        find_directory(dirs, dir.node) == Some(dir),
{
    let keys = directory_keys(dirs);
    let i = choose|i: int| 0 <= i < dirs.len() && dirs[i] == dir;
    assert(keys[i] == dir.node);
    if !is_first(keys, dir.node, i) {
        let j = choose|j: int| 0 <= j < i && keys[j] == dir.node;
        lemma_two_places(keys, j, i);
        assert(occurrences(keys, dir.node) <= 1);
    }
    lemma_first_index(keys, dir.node, i);
}

/// The ids of attribute records in a row are the ids of the one list, then
/// of the other.
proof fn lemma_attribute_keys_add(a: Seq<FileAttr>, b: Seq<FileAttr>)
    ensures
        attribute_keys(a + b) == attribute_keys(a) + attribute_keys(b),
{
    assert(attribute_keys(a + b) =~= attribute_keys(a) + attribute_keys(b));
}

/// Harvesting some children gives a record for each of them.
proof fn lemma_harvest_prefix(
    src: SourceNode,
    dir: DirectoryModel,
    dirs: Seq<DirectoryModel>,
    files: Seq<FileModel>,
    k: nat,
    more: nat,
)
    requires
        harvested_children(src, dir, dirs, files, more) is Some,
        k <= more,
    ensures
        harvested_children(src, dir, dirs, files, k) is Some,
    decreases more,
{
    if k < more {
        lemma_harvest_prefix(src, dir, dirs, files, k, (more - 1) as nat);
    }
}

/// The records of the first `i` children of a directory whose first
/// children are files numbered from `low` on carry those numbers.
proof fn lemma_harvest_files(
    src: SourceNode,
    dir: DirectoryModel,
    dirs: Seq<DirectoryModel>,
    files: Seq<FileModel>,
    i: nat,
    low: int,
)
    requires
        harvested_children(src, dir, dirs, files, i) is Some,
        i <= dir.nodes.len(),
        forall|t: int| 0 <= t < i ==> dir.nodes[t] == low + t && dir.node_types[t] == TAG_FILE,
    ensures
        numbers(
            attribute_keys(harvested_children(src, dir, dirs, files, i).unwrap()),
            low,
            low + i,
        ),
        harvested_children(src, dir, dirs, files, i).unwrap().len() == i,
        forall|t: int|
            0 <= t < i ==> (#[trigger] harvested_children(
                src,
                dir,
                dirs,
                files,
                i,
            ).unwrap()[t]).ino == low + t,
    decreases i,
{
    let records = harvested_children(src, dir, dirs, files, i).unwrap();
    if i > 0 {
        lemma_harvest_files(src, dir, dirs, files, (i - 1) as nat, low);
        let found = first_index(file_keys(files), dir.nodes[i - 1]).unwrap();
        assert(is_first(file_keys(files), dir.nodes[i - 1], found));
        assert(find_file(files, dir.nodes[i - 1]).unwrap().node == dir.nodes[i - 1]);
    }
    assert forall|t: int| 0 <= t < attribute_keys(records).len() implies attribute_keys(
        records,
    )[t] == low + t by {
        assert(records[t].ino == low + t);
    }
    lemma_counting_up(attribute_keys(records), low);
}

/// Once packing the subtrees of some entries has come to a list of
/// directories, packing more of them adds to that list.
proof fn lemma_below_extends(
    entries: Seq<SourceNode>,
    k: nat,
    more: nat,
    shells: Seq<DirectoryModel>,
    counter: u64,
    parent: u64,
)
    requires
        k <= more <= entries.len(),
        packed_below(entries, more, shells, counter, parent) is Some,
    ensures
        packed_below(entries, k, shells, counter, parent) is Some,
        within(
            packed_below(entries, k, shells, counter, parent).unwrap().directories,
            packed_below(entries, more, shells, counter, parent).unwrap().directories,
        ),
    decreases more,
{
    let whole = packed_below(entries, more, shells, counter, parent).unwrap().directories;
    if k < more {
        lemma_below_extends(entries, k, (more - 1) as nat, shells, counter, parent);
        let part = packed_below(entries, k, shells, counter, parent).unwrap().directories;
        let before = packed_below(
            entries,
            (more - 1) as nat,
            shells,
            counter,
            parent,
        ).unwrap().directories;
        assert forall|i: int| 0 <= i < part.len() implies whole.contains(#[trigger] part[i]) by {
            assert(before.contains(part[i]));
            let at = choose|at: int| 0 <= at < before.len() && before[at] == part[i];
            assert(whole[at] == part[i]);
        }
    } else {
        assert forall|i: int| 0 <= i < whole.len() implies whole.contains(#[trigger] whole[i]) by {
            assert(whole[i] == whole[i]);
        }
    }
}

/// The records that harvesting makes for the children of a packed
/// directory, up to the subdirectories among its first `k` entries, carry
/// the ids of its files, of those subdirectories, and of all that was packed
/// below them, each id once.
proof fn lemma_harvest_below(
    source: SourceNode,
    inode: u64,
    parent: u64,
    current_node: u64,
    is_root: bool,
    k: nat,
    src: SourceNode,
    dirs: Seq<DirectoryModel>,
    files: Seq<FileModel>,
)
    requires
        source.content matches SourceContent::Directory(Some(list)) && k <= list@.len(),
        packed(source, inode, parent, current_node, is_root) is Some,
        distinct(directory_keys(dirs)),
        within(packed(source, inode, parent, current_node, is_root).unwrap().directories, dirs),
        ({
            let entries = source.content->Directory_0.unwrap()@;
            let own = own_files(entries, entries.len(), inode).unwrap();
            let tree = packed(source, inode, parent, current_node, is_root).unwrap();
            let top = tree.directories.last();
            harvested_children(
                src,
                top,
                dirs,
                files,
                own.0.len() + directories_among(entries, k),
            ) is Some
        }),
    ensures
        ({
            let entries = source.content->Directory_0.unwrap()@;
            let own = own_files(entries, entries.len(), inode).unwrap();
            let shells = own_directories(entries, entries.len(), own.1).unwrap();
            let below = packed_below(entries, k, shells.0, shells.1, current_node).unwrap();
            let tree = packed(source, inode, parent, current_node, is_root).unwrap();
            let top = tree.directories.last();
            let records = harvested_children(
                src,
                top,
                dirs,
                files,
                own.0.len() + directories_among(entries, k),
            ).unwrap();
            forall|x: u64|
                occurrences(attribute_keys(records), x) == (if inode <= x < own.1
                    + directories_among(entries, k) {
                    1nat
                } else {
                    0nat
                }) + (if shells.1 <= x < below.next {
                    1nat
                } else {
                    0nat
                })
        }),
    decreases source, 0nat, k,
{
    let entries = source.content->Directory_0.unwrap()@;
    let tree = packed(source, inode, parent, current_node, is_root).unwrap();
    let (own, after_files) = own_files(entries, entries.len(), inode).unwrap();
    let (shells, after_shells) = own_directories(entries, entries.len(), after_files).unwrap();
    let whole = packed_below(entries, entries.len(), shells, after_shells, current_node).unwrap();
    let top = tree.directories.last();
    let m = own.len();
    lemma_own_files_count_up(entries, entries.len(), inode);
    lemma_own_directories_count_up(entries, entries.len(), after_files);
    lemma_among_grows(entries, k, entries.len());
    lemma_below_extends(entries, k, entries.len(), shells, after_shells, current_node);
    let below = packed_below(entries, k, shells, after_shells, current_node).unwrap();
    let at = m + directories_among(entries, k);
    let records = harvested_children(src, top, dirs, files, at).unwrap();
    if k == 0 {
        lemma_harvest_files(src, top, dirs, files, m, inode as int);
    } else {
        let j = directories_among(entries, (k - 1) as nat);
        lemma_harvest_prefix(src, top, dirs, files, m + j, at);
        lemma_harvest_below(
            source,
            inode,
            parent,
            current_node,
            is_root,
            (k - 1) as nat,
            src,
            dirs,
            files,
        );
        if is_directory(entries[k - 1]) {
            let before = packed_below(
                entries,
                (k - 1) as nat,
                shells,
                after_shells,
                current_node,
            ).unwrap();
            let shell = shells[j as int];
            let sub = packed(entries[k - 1], before.next, current_node, shell.node, false).unwrap();
            lemma_below_numbers(
                entries,
                (k - 1) as nat,
                shells,
                after_shells,
                current_node,
                after_files as int,
            );
            lemma_packed_numbers(
                entries[k - 1],
                before.next,
                current_node,
                shell.node,
                false,
            );
            // the subdirectory is found by its shell's id
            assert(within(sub.directories, dirs)) by {
                assert forall|i: int| 0 <= i < sub.directories.len() implies dirs.contains(
                    #[trigger] sub.directories[i],
                ) by {
                    assert(below.directories[before.directories.len() + i] == sub.directories[i]);
                    assert(whole.directories.contains(
                        below.directories[before.directories.len() + i],
                    ));
                    let w = choose|w: int|
                        0 <= w < whole.directories.len() && whole.directories[w]
                            == sub.directories[i];
                    assert(tree.directories[w] == sub.directories[i]);
                    assert(dirs.contains(tree.directories[w]));
                }
            }
            let child = sub.directories.last();
            assert(dirs.contains(child));
            lemma_found_is_listed(dirs, child);
            assert(top.nodes[(m + j) as int] == shell.node);
            assert(top.node_types[(m + j) as int] == TAG_DIRECTORY);
            let earlier = harvested_children(src, top, dirs, files, (at - 1) as nat).unwrap();
            let listing = src.content->Directory_0.unwrap()@;
            let named = entry_named(listing, child.name).unwrap();
            let more = harvested(listing[named], child, dirs, files).unwrap();
            assert(records == earlier + more);
            lemma_harvest_top(
                entries[k - 1],
                before.next,
                current_node,
                shell.node,
                false,
                listing[named],
                dirs,
                files,
            );
            lemma_attribute_keys_add(earlier, more);
            let keys = attribute_keys(more);
            assert(keys =~= keys.drop_last().push(shell.node));
            assert forall|x: u64|
                occurrences(attribute_keys(records), x) == (if inode <= x < after_files
                    + directories_among(entries, k) {
                    1nat
                } else {
                    0nat
                }) + (if after_shells <= x < below.next {
                    1nat
                } else {
                    0nat
                }) by {
                lemma_occurrences_add(attribute_keys(earlier), keys, x);
                assert(occurrences(attribute_keys(earlier), x) == (if inode <= x < after_files
                    + j {
                    1nat
                } else {
                    0nat
                }) + (if after_shells <= x < before.next {
                    1nat
                } else {
                    0nat
                }));
                assert(occurrences(keys.drop_last(), x) == if before.next <= x < sub.next {
                    1nat
                } else {
                    0nat
                });
                assert(occurrences(keys, x) == occurrences(keys.drop_last(), x) + if keys.last()
                    == x {
                    1nat
                } else {
                    0nat
                });
                assert(keys.last() == after_files + j);
                assert(below.next == sub.next);
                assert(after_shells <= before.next <= sub.next);
                assert(directories_among(entries, k) == j + 1);
            }
        }
    }
}

/// The records that harvesting makes for a packed directory carry the ids
/// that packing gave out below it, each id once, and then the directory's
/// own id.
pub proof fn lemma_harvest_top(
    source: SourceNode,
    inode: u64,
    parent: u64,
    current_node: u64,
    is_root: bool,
    src: SourceNode,
    dirs: Seq<DirectoryModel>,
    files: Seq<FileModel>,
)
    requires
        is_directory(source),
        packed(source, inode, parent, current_node, is_root) is Some,
        distinct(directory_keys(dirs)),
        within(packed(source, inode, parent, current_node, is_root).unwrap().directories, dirs),
        harvested(
            src,
            packed(source, inode, parent, current_node, is_root).unwrap().directories.last(),
            dirs,
            files,
        ) is Some,
    ensures
        ({
            let tree = packed(source, inode, parent, current_node, is_root).unwrap();
            let records = harvested(src, tree.directories.last(), dirs, files).unwrap();
            &&& records.len() > 0
            &&& attribute_keys(records).last() == current_node
            &&& numbers(attribute_keys(records).drop_last(), inode as int, tree.next as int)
        }),
    decreases source, 1nat, 0nat,
{
    let entries = source.content->Directory_0.unwrap()@;
    let tree = packed(source, inode, parent, current_node, is_root).unwrap();
    let (own, after_files) = own_files(entries, entries.len(), inode).unwrap();
    let (shells, after_shells) = own_directories(entries, entries.len(), after_files).unwrap();
    let top = tree.directories.last();
    lemma_own_files_count_up(entries, entries.len(), inode);
    lemma_own_directories_count_up(entries, entries.len(), after_files);
    lemma_harvest_below(
        source,
        inode,
        parent,
        current_node,
        is_root,
        entries.len(),
        src,
        dirs,
        files,
    );
    lemma_below_numbers(
        entries,
        entries.len(),
        shells,
        after_shells,
        current_node,
        after_files as int,
    );
    let records = harvested(src, top, dirs, files).unwrap();
    let children = harvested_children(src, top, dirs, files, top.nodes.len()).unwrap();
    assert(attribute_keys(records).drop_last() =~= attribute_keys(children));
}

/// A directory that was packed as the root is the root that is found among
/// the packed directories.
pub proof fn lemma_root_is_last(source: SourceNode, inode: u64, parent: u64, current_node: u64)
    requires
        is_directory(source),
        packed(source, inode, parent, current_node, true) is Some,
    ensures
        ({
            let tree = packed(source, inode, parent, current_node, true).unwrap();
            find_root(tree.directories) == Some(tree.directories.last())
        }),
{
    let tree = packed(source, inode, parent, current_node, true).unwrap();
    let dirs = tree.directories;
    lemma_packed_shape(source, inode, parent, current_node, true);
    let marks = root_marks(dirs);
    assert forall|j: int| 0 <= j < dirs.len() - 1 implies marks[j] != ROOT_SENTINEL by {
        assert(!dirs.drop_last()[j].is_root);
    }
    assert(is_first(marks, ROOT_SENTINEL, dirs.len() - 1));
    lemma_first_index(marks, ROOT_SENTINEL, dirs.len() - 1);
}

/// The ids that packing a directory gave out and the directory's own id:
/// the ids of all that the packed tree holds.
pub open spec fn in_tree(tree: Packed, inode: u64, current_node: u64, x: u64) -> bool {
    inode <= x < tree.next || x == current_node
}

/// Packing a directory into an archive without nodes, as the root, and then
/// harvesting from that root gives an archive that keeps the invariants of
/// the data model: one root, child lists in step, every child resolved by
/// its kind, and one attribute record for every directory and every child.
///
/// It holds where the root's own id is none of the fresh ids, the archive's
/// earlier attribute records describe none of the tree's ids, and the fresh
/// ids are few enough for a child list.
pub proof fn lemma_packed_archive_well_formed(
    source: SourceNode,
    inode: u64,
    parent: u64,
    current_node: u64,
    src: SourceNode,
    fuse: ArchiveModel,
)
    requires
        is_directory(source),
        fuse.directories.len() == 0,
        fuse.files.len() == 0,
        packed(source, inode, parent, current_node, true) is Some,
        ({
            let tree = packed(source, inode, parent, current_node, true).unwrap();
            &&& !(inode <= current_node < tree.next)
            &&& tree.next - inode <= MAX_CHILDREN
            &&& forall|i: int|
                0 <= i < fuse.attributes.len() ==> !in_tree(
                    tree,
                    inode,
                    current_node,
                    (#[trigger] fuse.attributes[i]).ino,
                )
            &&& harvested(src, tree.directories.last(), tree.directories, tree.files) is Some
        }),
    ensures
        ({
            let tree = packed(source, inode, parent, current_node, true).unwrap();
            let records = harvested(
                src,
                tree.directories.last(),
                tree.directories,
                tree.files,
            ).unwrap();
            with_records(recorded(fuse, tree), records).wf()
        }),
{
    let tree = packed(source, inode, parent, current_node, true).unwrap();
    let records = harvested(src, tree.directories.last(), tree.directories, tree.files).unwrap();
    let archive = with_records(recorded(fuse, tree), records);
    let dirs = tree.directories;
    let most = tree.next - inode;
    assert(archive.directories =~= dirs);
    assert(archive.files =~= tree.files);
    lemma_packed_numbers(source, inode, parent, current_node, true);
    lemma_packed_shape(source, inode, parent, current_node, true);
    let front = directory_keys(dirs.drop_last());
    assert(directory_keys(dirs) =~= front.push(current_node));
    assert(directory_keys(dirs).drop_last() =~= front);

    // every id of a directory or of a file is an id of the tree
    assert forall|x: u64| occurrences(front, x) > 0 || occurrences(file_keys(tree.files), x)
        > 0 implies inode <= x < tree.next by {
        lemma_occurrences_add(file_keys(tree.files), front, x);
        assert(occurrences(given_ids(tree), x) > 0);
    }
    assert forall|x: u64| occurrences(directory_keys(dirs), x) <= 1 by {
        lemma_occurrences_add(file_keys(tree.files), front, x);
        assert(occurrences(given_ids(tree), x) <= 1);
    }
    assert forall|i: int| 0 <= i < dirs.len() implies dirs.contains(#[trigger] dirs[i]) by {
        assert(dirs[i] == dirs[i]);
    }
    lemma_harvest_top(source, inode, parent, current_node, true, src, dirs, tree.files);

    // every id of the tree has one attribute record
    let old_keys = attribute_keys(fuse.attributes);
    let new_keys = attribute_keys(records);
    lemma_attribute_keys_add(fuse.attributes, records);
    assert forall|x: u64| in_tree(tree, inode, current_node, x) implies occurrences(
        attribute_keys(archive.attributes),
        x,
    ) == 1 by {
        lemma_occurrences_add(old_keys, new_keys, x);
        lemma_occurs(old_keys, x);
        if occurrences(old_keys, x) > 0 {
            let i = choose|i: int| 0 <= i < old_keys.len() && old_keys[i] == x;
            assert(fuse.attributes[i].ino == x);
        }
        assert(occurrences(new_keys, x) == occurrences(new_keys.drop_last(), x) + if new_keys.last()
            == x {
            1nat
        } else {
            0nat
        });
    }

    // one root
    let marks = root_marks(dirs);
    assert(occurrences(marks, ROOT_SENTINEL) == 1) by {
        lemma_occurs(marks.drop_last(), ROOT_SENTINEL);
        if occurrences(marks.drop_last(), ROOT_SENTINEL) > 0 {
            let i = choose|i: int|
                0 <= i < marks.drop_last().len() && marks.drop_last()[i] == ROOT_SENTINEL;
            assert(!dirs.drop_last()[i].is_root);
        }
    }

    // every directory is sound
    assert forall|d: int|
        0 <= d < archive.directories.len() implies #[trigger] archive.directory_sound(
        archive.directories[d],
    ) by {
        let dir = dirs[d];
        if d < dirs.len() - 1 {
            assert(dirs.drop_last()[d] == dir);
            lemma_holds_key(front, d);
        }
        assert(sound_in(tree, dir, most));
        assert(in_tree(tree, inode, current_node, dir.node));
        assert forall|i: int| 0 <= i < dir.nodes.len() implies #[trigger] archive.child_resolves(
            dir,
            i,
        ) by {
            assert(child_in(tree, dir, i));
            let x = dir.nodes[i];
            lemma_occurs(file_keys(tree.files), x);
            lemma_occurs(directory_keys(dirs), x);
            if dir.node_types[i] == TAG_DIRECTORY {
                assert(occurrences(directory_keys(dirs), x) == occurrences(front, x) + if x
                    == current_node {
                    1nat
                } else {
                    0nat
                });
            }
            assert(in_tree(tree, inode, current_node, x));
        }
    }
}

} // verus!
