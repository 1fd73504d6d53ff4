//! What a search finds, stated without regard to the order of the search.

use crate::util::file_filter::{
    image_file, is_image_entry, is_image_name, listed_kind, listing_of, scan_children, scan_dir,
    scan_of, EntryKind, FsEntry, FsNode, ImageFile, ScanFailure,
};
use crate::util::scanner::{images_listed, Listed};
use vstd::prelude::*;

verus! {

/// `path` leads from the directory that holds `entry` to `target`, at or
/// below that entry.
pub open spec fn entry_leads_to(entry: FsEntry, path: Seq<Seq<u8>>, target: FsNode) -> bool
    decreases path.len(), 0nat,
{
    &&& path.len() > 0
    &&& path[0] == entry.name@
    &&& if path.len() == 1 {
        entry.node == target
    } else {
        match entry.node {
            FsNode::Directory(below) => leads_to(below@, path.drop_first(), target),
            _ => false,
        }
    }
}

/// `path` leads from a directory with these entries to `target`.
pub open spec fn leads_to(entries: Seq<FsEntry>, path: Seq<Seq<u8>>, target: FsNode) -> bool
    decreases path.len(), 1nat,
{
    &&& path.len() > 0
    &&& exists|i: int|
        #![trigger entries[i]]
        0 <= i < entries.len() && entry_leads_to(entries[i], path, target)
}

/// `path` leads from the directory `tree` to an image file.
pub open spec fn holds_image_file(tree: FsNode, path: Seq<Seq<u8>>) -> bool {
    match tree {
        FsNode::Directory(entries) => leads_to(entries@, path, FsNode::File) && is_image_name(
            path.last(),
        ),
        _ => false,
    }
}

/// No directory at or below these entries holds two entries of one name.
pub open spec fn distinct_names(entries: Seq<FsEntry>) -> bool
    decreases entries,
{
    &&& forall|i: int, j: int|
        0 <= i < j < entries.len() ==> (#[trigger] entries[i]).name@ != (
        #[trigger] entries[j]).name@
    &&& forall|i: int|
        0 <= i < entries.len() ==> match (#[trigger] entries[i]).node {
            FsNode::Directory(below) => distinct_names(below@),
            _ => true,
        }
}

/// Every path among the image files of a listing is the path of an entry
/// that the listing shows as an image file.
proof fn lemma_images_listed_sound(listing: Seq<Listed>, dir: Seq<Seq<u8>>, k: int)
    requires
        0 <= k < images_listed(listing, dir).len(),
    ensures
        exists|i: int|
            #![trigger listing[i]]
            0 <= i < listing.len() && is_image_entry(listing[i].name, listing[i].kind)
                && images_listed(listing, dir)[k] == dir.push(listing[i].name),
    decreases listing.len(),
{
    let front = listing.drop_last();
    let before = images_listed(front, dir);
    if k < before.len() {
        lemma_images_listed_sound(front, dir, k);
    }
}

/// Every entry that a listing shows as an image file has its path among
/// the image files of the listing.
proof fn lemma_images_listed_complete(listing: Seq<Listed>, dir: Seq<Seq<u8>>, i: int)
    requires
        0 <= i < listing.len(),
        is_image_entry(listing[i].name, listing[i].kind),
    ensures
        images_listed(listing, dir).contains(dir.push(listing[i].name)),
    decreases listing.len(),
{
    let front = listing.drop_last();
    let before = images_listed(front, dir);
    let all = images_listed(listing, dir);
    if i < front.len() {
        lemma_images_listed_complete(front, dir, i);
        let k = choose|k: int| 0 <= k < before.len() && before[k] == dir.push(front[i].name);
        assert(all[k] == dir.push(listing[i].name));
    } else {
        assert(all[before.len() as int] == dir.push(listing[i].name));
    }
}

/// Where no two entries of a listing have one name, no path occurs twice
/// among its image files.
proof fn lemma_images_listed_once(listing: Seq<Listed>, dir: Seq<Seq<u8>>)
    requires
        forall|i: int, j: int|
            0 <= i < j < listing.len() ==> (#[trigger] listing[i]).name != (
            #[trigger] listing[j]).name,
    ensures
        images_listed(listing, dir).no_duplicates(),
    decreases listing.len(),
{
    if listing.len() > 0 {
        let front = listing.drop_last();
        let before = images_listed(front, dir);
        lemma_images_listed_once(front, dir);
        let last = listing.last();
        assert forall|k: int| 0 <= k < before.len() implies before[k] != dir.push(last.name) by {
            lemma_images_listed_sound(front, dir, k);
            let i = choose|i: int|
                #![trigger front[i]]
                0 <= i < front.len() && is_image_entry(front[i].name, front[i].kind) && before[k]
                    == dir.push(front[i].name);
            assert(dir.push(front[i].name).last() == front[i].name);
        }
    }
}

proof fn lemma_found_sound_dir(node: FsNode, dir: Seq<Seq<u8>>, k: int)
    requires
        scan_dir(node, dir) is Ok,
        0 <= k < scan_dir(node, dir)->Ok_0.len(),
    ensures
        ({
            let q = scan_dir(node, dir)->Ok_0[k];
            &&& q.len() > dir.len()
            &&& q.take(dir.len() as int) == dir
            &&& node is Directory
            &&& leads_to(node->Directory_0@, q.skip(dir.len() as int), FsNode::File)
            &&& is_image_name(q.last())
        }),
    decreases node, 0nat,
{
    let entries = node->Directory_0@;
    let shown = listing_of(entries);
    let images = images_listed(shown, dir);
    if k < images.len() {
        lemma_images_listed_sound(shown, dir, k);
    } else {
        lemma_found_sound_children(entries, dir, entries.len(), k - images.len());
    }
}

proof fn lemma_found_sound_children(entries: Seq<FsEntry>, dir: Seq<Seq<u8>>, n: nat, k: int)
    requires
        n <= entries.len(),
        scan_children(entries, dir, n) is Ok,
        0 <= k < scan_children(entries, dir, n)->Ok_0.len(),
    ensures
        ({
            let q = scan_children(entries, dir, n)->Ok_0[k];
            &&& q.len() > dir.len() + 1
            &&& q.take(dir.len() as int) == dir
            &&& exists|i: int|
                #![trigger entries[i]]
                0 <= i < n && entry_leads_to(entries[i], q.skip(dir.len() as int), FsNode::File)
            &&& is_image_name(q.last())
        }),
    decreases entries, n,
{
    let entry = entries[n - 1];
    let at = dir.push(entry.name@);
    let first = scan_dir(entry.node, at)->Ok_0;
    let q = scan_children(entries, dir, n)->Ok_0[k];
    let p = q.skip(dir.len() as int);
    if k < first.len() {
        lemma_found_sound_dir(entry.node, at, k);
        assert(q[dir.len() as int] == q.take(at.len() as int)[dir.len() as int]);
        assert(p.drop_first() =~= q.skip(at.len() as int));
    } else {
        lemma_found_sound_children(entries, dir, (n - 1) as nat, k - first.len());
    }
}

proof fn lemma_found_complete_dir(node: FsNode, dir: Seq<Seq<u8>>, path: Seq<Seq<u8>>)
    requires
        scan_dir(node, dir) is Ok,
        node is Directory,
        leads_to(node->Directory_0@, path, FsNode::File),
        is_image_name(path.last()),
    ensures
        scan_dir(node, dir)->Ok_0.contains(dir + path),
    decreases node, 0nat,
{
    let entries = node->Directory_0@;
    let shown = listing_of(entries);
    let images = images_listed(shown, dir);
    let below = scan_children(entries, dir, entries.len())->Ok_0;
    let found = scan_dir(node, dir)->Ok_0;
    let i = choose|i: int|
        #![trigger entries[i]]
        0 <= i < entries.len() && entry_leads_to(entries[i], path, FsNode::File);
    if path.len() == 1 {
        lemma_images_listed_complete(shown, dir, i);
        assert(dir + path =~= dir.push(path[0]));
        let k = choose|k: int| 0 <= k < images.len() && images[k] == dir + path;
        assert(found[k] == dir + path);
    } else {
        lemma_found_complete_children(entries, dir, entries.len(), i, path);
        let k = choose|k: int| 0 <= k < below.len() && below[k] == dir + path;
        assert(found[images.len() + k] == dir + path);
    }
}

proof fn lemma_found_complete_children(
    entries: Seq<FsEntry>,
    dir: Seq<Seq<u8>>,
    n: nat,
    i: int,
    path: Seq<Seq<u8>>,
)
    requires
        n <= entries.len(),
        scan_children(entries, dir, n) is Ok,
        0 <= i < n,
        path.len() > 1,
        entry_leads_to(entries[i], path, FsNode::File),
        is_image_name(path.last()),
    ensures
        scan_children(entries, dir, n)->Ok_0.contains(dir + path),
    decreases entries, n,
{
    let entry = entries[n - 1];
    let at = dir.push(entry.name@);
    let first = scan_dir(entry.node, at)->Ok_0;
    let later = scan_children(entries, dir, (n - 1) as nat)->Ok_0;
    let found = scan_children(entries, dir, n)->Ok_0;
    if i == n - 1 {
        lemma_found_complete_dir(entry.node, at, path.drop_first());
        assert(at + path.drop_first() =~= dir + path);
        let k = choose|k: int| 0 <= k < first.len() && first[k] == dir + path;
        assert(found[k] == dir + path);
    } else {
        lemma_found_complete_children(entries, dir, (n - 1) as nat, i, path);
        let k = choose|k: int| 0 <= k < later.len() && later[k] == dir + path;
        assert(found[first.len() + k] == dir + path);
    }
}

proof fn lemma_found_once_dir(node: FsNode, dir: Seq<Seq<u8>>)
    requires
        scan_dir(node, dir) is Ok,
        node is Directory ==> distinct_names(node->Directory_0@),
    ensures
        scan_dir(node, dir)->Ok_0.no_duplicates(),
    decreases node, 0nat,
{
    if node is Directory {
        let entries = node->Directory_0@;
        let shown = listing_of(entries);
        let images = images_listed(shown, dir);
        let below = scan_children(entries, dir, entries.len())->Ok_0;
        lemma_images_listed_once(shown, dir);
        lemma_found_once_children(entries, dir, entries.len());
        assert forall|a: int, b: int|
            0 <= a < images.len() && 0 <= b < below.len() implies images[a] != below[b] by {
            lemma_images_listed_sound(shown, dir, a);
            lemma_found_sound_children(entries, dir, entries.len(), b);
        }
    }
}

proof fn lemma_found_once_children(entries: Seq<FsEntry>, dir: Seq<Seq<u8>>, n: nat)
    requires
        n <= entries.len(),
        scan_children(entries, dir, n) is Ok,
        distinct_names(entries),
    ensures
        scan_children(entries, dir, n)->Ok_0.no_duplicates(),
    decreases entries, n,
{
    if n > 0 {
        let entry = entries[n - 1];
        let at = dir.push(entry.name@);
        let first = scan_dir(entry.node, at)->Ok_0;
        let later = scan_children(entries, dir, (n - 1) as nat)->Ok_0;
        lemma_found_once_dir(entry.node, at);
        lemma_found_once_children(entries, dir, (n - 1) as nat);
        assert forall|a: int, b: int| 0 <= a < first.len() && 0 <= b < later.len() implies first[a]
            != later[b] by {
            lemma_found_sound_dir(entry.node, at, a);
            lemma_found_sound_children(entries, dir, (n - 1) as nat, b);
            assert(first[a].take(at.len() as int)[dir.len() as int] == entry.name@);
        }
    }
}

/// A search that succeeds finds the image files of the tree and nothing
/// else, whatever the order in which it went through them: a path is the
/// relative path of an item found exactly when it leads to an image file.
/// Every item found names its file by that path.
pub proof fn lemma_scan_finds_the_image_files(root: Seq<u8>, tree: FsNode)
    requires
        scan_of(root, tree) is Ok,
    ensures
        forall|path: Seq<Seq<u8>>|
            holds_image_file(tree, path) <==> exists|k: int|
                0 <= k < scan_of(root, tree)->Ok_0.len() && (#[trigger] scan_of(
                    root,
                    tree,
                )->Ok_0[k]).relative_path == path,
        forall|k: int|
            0 <= k < scan_of(root, tree)->Ok_0.len() ==> (#[trigger] scan_of(root, tree)->Ok_0[k])
                == image_file(root, scan_of(root, tree)->Ok_0[k].relative_path),
{
    let found = scan_of(root, tree)->Ok_0;
    let none = Seq::<Seq<u8>>::empty();
    let relatives = scan_dir(tree, none)->Ok_0;
    assert forall|path: Seq<Seq<u8>>| holds_image_file(tree, path) implies exists|k: int|
        0 <= k < found.len() && (#[trigger] found[k]).relative_path == path by {
        lemma_found_complete_dir(tree, none, path);
        let k = choose|k: int| 0 <= k < relatives.len() && relatives[k] == path;
        assert(found[k].relative_path == path);
    }
    assert forall|path: Seq<Seq<u8>>|
        (exists|k: int|
            0 <= k < found.len() && (#[trigger] found[k]).relative_path
                == path) implies holds_image_file(tree, path) by {
        let k = choose|k: int| 0 <= k < found.len() && (#[trigger] found[k]).relative_path == path;
        lemma_found_sound_dir(tree, none, k);
        assert(path.skip(0) =~= path);
    }
}

/// Where no directory holds two entries of one name, a search that succeeds
/// finds no file twice: the items found differ in their relative paths.
pub proof fn lemma_scan_finds_each_file_once(root: Seq<u8>, tree: FsNode)
    requires
        scan_of(root, tree) is Ok,
        tree is Directory ==> distinct_names(tree->Directory_0@),
    ensures
        forall|a: int, b: int|
            0 <= a < b < scan_of(root, tree)->Ok_0.len() ==> (#[trigger] scan_of(
                root,
                tree,
            )->Ok_0[a]).relative_path != (#[trigger] scan_of(root, tree)->Ok_0[b]).relative_path,
{
    lemma_found_once_dir(tree, Seq::empty());
}

proof fn lemma_failure_sound_dir(node: FsNode, dir: Seq<Seq<u8>>)
    requires
        scan_dir(node, dir) is Err,
    ensures
        ({
            let q = scan_dir(node, dir)->Err_0;
            &&& q.len() >= dir.len()
            &&& q.take(dir.len() as int) == dir
            &&& if q.len() == dir.len() {
                node is Unreadable
            } else {
                node is Directory && leads_to(
                    node->Directory_0@,
                    q.skip(dir.len() as int),
                    FsNode::Unreadable,
                )
            }
        }),
    decreases node, 0nat,
{
    if node is Directory {
        lemma_failure_sound_children(node->Directory_0@, dir, node->Directory_0@.len());
    } else {
    }
}

proof fn lemma_failure_sound_children(entries: Seq<FsEntry>, dir: Seq<Seq<u8>>, n: nat)
    requires
        n <= entries.len(),
        scan_children(entries, dir, n) is Err,
    ensures
        ({
            let q = scan_children(entries, dir, n)->Err_0;
            &&& q.len() > dir.len()
            &&& q.take(dir.len() as int) == dir
            &&& leads_to(entries, q.skip(dir.len() as int), FsNode::Unreadable)
        }),
    decreases entries, n,
{
    let entry = entries[n - 1];
    let at = dir.push(entry.name@);
    let q = scan_children(entries, dir, n)->Err_0;
    let p = q.skip(dir.len() as int);
    if scan_dir(entry.node, at) is Err {
        lemma_failure_sound_dir(entry.node, at);
        assert(q[dir.len() as int] == q.take(at.len() as int)[dir.len() as int]);
        if q.len() > at.len() {
            assert(p.drop_first() =~= q.skip(at.len() as int));
        }
    } else {
        lemma_failure_sound_children(entries, dir, (n - 1) as nat);
    }
}

proof fn lemma_success_dir(node: FsNode, dir: Seq<Seq<u8>>, path: Seq<Seq<u8>>)
    requires
        scan_dir(node, dir) is Ok,
        node is Directory,
    ensures
        !leads_to(node->Directory_0@, path, FsNode::Unreadable),
    decreases node, 0nat,
{
    let entries = node->Directory_0@;
    if leads_to(entries, path, FsNode::Unreadable) {
        let i = choose|i: int|
            #![trigger entries[i]]
            0 <= i < entries.len() && entry_leads_to(entries[i], path, FsNode::Unreadable);
        lemma_success_children(entries, dir, entries.len(), i, path);
    }
}

proof fn lemma_success_children(
    entries: Seq<FsEntry>,
    dir: Seq<Seq<u8>>,
    n: nat,
    i: int,
    path: Seq<Seq<u8>>,
)
    requires
        n <= entries.len(),
        scan_children(entries, dir, n) is Ok,
        0 <= i < n,
    ensures
        !entry_leads_to(entries[i], path, FsNode::Unreadable),
    decreases entries, n,
{
    if i == n - 1 {
        let entry = entries[n - 1];
        if entry_leads_to(entry, path, FsNode::Unreadable) && path.len() > 1 {
            lemma_success_dir(entry.node, dir.push(entry.name@), path.drop_first());
        }
    } else {
        lemma_success_children(entries, dir, (n - 1) as nat, i, path);
    }
}

/// A search succeeds exactly where it starts at a directory and every
/// directory at or below it could be listed. Where it fails for a
/// directory below the start, the path that it names leads to a directory
/// that could not be listed.
pub proof fn lemma_scan_fails_on_unreadable_only(root: Seq<u8>, tree: FsNode)
    ensures
        scan_of(root, tree) is Ok <==> tree is Directory && forall|path: Seq<Seq<u8>>|
            !leads_to(tree->Directory_0@, path, FsNode::Unreadable),
        tree is Directory ==> forall|path: Seq<Seq<u8>>|
            scan_of(root, tree) == Err::<Seq<ImageFile>, ScanFailure>(
                ScanFailure::Unreadable(path),
            ) ==> leads_to(tree->Directory_0@, path, FsNode::Unreadable),
{
    if tree is Directory {
        let entries = tree->Directory_0@;
        let none = Seq::<Seq<u8>>::empty();
        if scan_dir(tree, none) is Ok {
            assert forall|path: Seq<Seq<u8>>| !leads_to(entries, path, FsNode::Unreadable) by {
                lemma_success_dir(tree, none, path);
            }
        } else {
            let q = scan_dir(tree, none)->Err_0;
            lemma_failure_sound_dir(tree, none);
            assert(q.skip(0) =~= q);
        }
    }
}

} // verus!
