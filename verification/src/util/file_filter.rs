//! Which entries are image files, and the search for them below a directory.

use crate::util::path::{
    ascii_bytes, display_name_of, extension, extension_of, lowercase, to_lowercase, EntryPath,
};
use crate::util::scanner::{directories_listed, images_listed, Listed, ListedEntry, Scanner};
use vstd::prelude::*;
use vstd::slice::slice_to_vec;
use vstd::string::*;

verus! {

/// What the file system reports about an entry, symbolic links followed.
#[derive(Clone, Copy, Debug, PartialEq, Eq, Structural)]
pub enum EntryKind {
    /// A regular file.
    File,
    /// A directory.
    Directory,
    /// Anything else: a special file, a dangling link, an entry that
    /// vanished after it was listed.
    Other,
}

/// A directory tree as a value: what stands at a path, with everything
/// below it.
#[derive(Debug, PartialEq, Eq)]
pub enum FsNode {
    /// Nothing exists at the path.
    Missing,
    /// A regular file.
    File,
    /// Something that is neither a regular file nor a directory.
    Other,
    /// A directory whose entries could not be listed.
    Unreadable,
    /// A directory and its entries, in the order in which they were listed.
    Directory(Vec<FsEntry>),
}

/// One entry of a directory.
#[derive(Debug, PartialEq, Eq)]
pub struct FsEntry {
    /// The entry's name, as the operating system gives it.
    pub name: Vec<u8>,
    /// What the name stands for.
    pub node: FsNode,
}

/// An image file that the search has found.
#[derive(Debug, Clone, PartialEq, Eq)]
pub struct ImageFileInfo {
    /// The names that lead from the directory searched to the file.
    pub relative_path: EntryPath,
    /// The file's name, for messages.
    pub filename: String,
    /// The directory searched, followed by `relative_path`.
    pub full_path: EntryPath,
}

/// An `ImageFileInfo` as a mathematical value.
pub struct ImageFile {
    pub relative_path: Seq<Seq<u8>>,
    pub filename: Seq<char>,
    pub full_path: Seq<Seq<u8>>,
}

impl View for ImageFileInfo {
    type V = ImageFile;

    open spec fn view(&self) -> ImageFile {
        ImageFile {
            relative_path: self.relative_path@,
            filename: self.filename@,
            full_path: self.full_path@,
        }
    }
}

impl DeepView for ImageFileInfo {
    type V = ImageFile;

    open spec fn deep_view(&self) -> ImageFile {
        self@
    }
}

impl ImageFileInfo {
    /// A copy of this item.
    pub fn duplicate(&self) -> (r: ImageFileInfo)
        ensures
            r@ == self@,
    {
        ImageFileInfo {
            relative_path: self.relative_path.duplicate(),
            filename: self.filename.clone(),
            full_path: self.full_path.duplicate(),
        }
    }
}

/// Why a search came to nothing.
#[derive(Debug, Clone, PartialEq, Eq)]
pub enum ScanError {
    /// Nothing exists at the path that was to be searched.
    NotFound,
    /// The path that was to be searched is not a directory.
    NotADirectory,
    /// A directory could not be listed. The path leads to it from the
    /// directory searched, and is empty for that directory itself.
    Unreadable(EntryPath),
}

/// A `ScanError` as a mathematical value.
pub enum ScanFailure {
    NotFound,
    NotADirectory,
    Unreadable(Seq<Seq<u8>>),
}

impl View for ScanError {
    type V = ScanFailure;

    open spec fn view(&self) -> ScanFailure {
        match self {
            ScanError::NotFound => ScanFailure::NotFound,
            ScanError::NotADirectory => ScanFailure::NotADirectory,
            ScanError::Unreadable(path) => ScanFailure::Unreadable(path@),
        }
    }
}

/// The extensions, in small letters, that mark an image file.
pub open spec fn is_image_extension(e: Seq<u8>) -> bool {
    ||| e == ascii_bytes("jpg"@)
    ||| e == ascii_bytes("jpeg"@)
    ||| e == ascii_bytes("png"@)
    ||| e == ascii_bytes("gif"@)
    ||| e == ascii_bytes("bmp"@)
    ||| e == ascii_bytes("tiff"@)
    ||| e == ascii_bytes("tif"@)
    ||| e == ascii_bytes("webp"@)
    ||| e == ascii_bytes("svg"@)
    ||| e == ascii_bytes("ico"@)
    ||| e == ascii_bytes("raw"@)
    ||| e == ascii_bytes("heic"@)
    ||| e == ascii_bytes("heif"@)
    ||| e == ascii_bytes("avif"@)
}

/// The name has an extension that marks an image file, in capital or small
/// letters.
pub open spec fn is_image_name(name: Seq<u8>) -> bool {
    match extension_of(name) {
        Some(e) => is_image_extension(lowercase(e)),
        None => false,
    }
}

/// The entry is a regular file whose name marks an image file.
pub open spec fn is_image_entry(name: Seq<u8>, kind: EntryKind) -> bool {
    kind == EntryKind::File && is_image_name(name)
}

fn same_bytes(a: &[u8], b: &[u8]) -> (r: bool)
    ensures
        r == (a@ == b@),
{
    if a.len() != b.len() {
        return false;
    }
    let mut i: usize = 0;
    while i < a.len()
        invariant
            a@.len() == b@.len(),
            i <= a@.len(),
            forall|j: int| 0 <= j < i ==> a@[j] == b@[j],
        decreases a@.len() - i,
    {
        if a[i] != b[i] {
            return false;
        }
        i += 1;
    }
    assert(a@ =~= b@);
    true
}

fn spells(bytes: &[u8], word: &str) -> (r: bool)
    requires
        is_ascii(word),
    ensures
        r == (bytes@ == ascii_bytes(word@)),
{
    broadcast use is_ascii_spec_bytes;

    same_bytes(bytes, word.as_bytes())
}

/// Whether `e`, an extension in small letters, marks an image file.
pub fn has_image_extension(e: &[u8]) -> (r: bool)
    ensures
        r == is_image_extension(e@),
{
    proof {
        reveal_strlit("jpg");
        reveal_strlit("jpeg");
        reveal_strlit("png");
        reveal_strlit("gif");
        reveal_strlit("bmp");
        reveal_strlit("tiff");
        reveal_strlit("tif");
        reveal_strlit("webp");
        reveal_strlit("svg");
        reveal_strlit("ico");
        reveal_strlit("raw");
        reveal_strlit("heic");
        reveal_strlit("heif");
        reveal_strlit("avif");
    }
    spells(e, "jpg") || spells(e, "jpeg") || spells(e, "png") || spells(e, "gif") || spells(
        e,
        "bmp",
    ) || spells(e, "tiff") || spells(e, "tif") || spells(e, "webp") || spells(e, "svg")
        || spells(e, "ico") || spells(e, "raw") || spells(e, "heic") || spells(e, "heif")
        || spells(e, "avif")
}

/// Whether an entry is an image file: a regular file whose extension, in
/// capital or small letters, is one of the image extensions. A directory
/// is none, whatever its name; a name without an extension is none.
pub fn is_image_file(name: &[u8], kind: EntryKind) -> (r: bool)
    ensures
        r == is_image_entry(name@, kind),
{
    if kind != EntryKind::File {
        return false;
    }
    match extension(name) {
        Some(e) => {
            let lower = to_lowercase(e);
            has_image_extension(lower.as_slice())
        },
        None => false,
    }
}

/// The kind under which a listing shows an entry that stands for `node`.
pub open spec fn listed_kind(node: FsNode) -> EntryKind {
    match node {
        FsNode::File => EntryKind::File,
        FsNode::Directory(_) => EntryKind::Directory,
        FsNode::Unreadable => EntryKind::Directory,
        _ => EntryKind::Other,
    }
}

/// The listing of a directory that holds `entries`.
pub open spec fn listing_of(entries: Seq<FsEntry>) -> Seq<Listed> {
    Seq::new(
        entries.len(),
        |i: int| Listed { name: entries[i].name@, kind: listed_kind(entries[i].node) },
    )
}

/// What a search comes to when the second part follows the first: the
/// files of both, or the failure that comes first.
pub open spec fn then_found(
    first: Result<Seq<Seq<Seq<u8>>>, Seq<Seq<u8>>>,
    second: Result<Seq<Seq<Seq<u8>>>, Seq<Seq<u8>>>,
) -> Result<Seq<Seq<Seq<u8>>>, Seq<Seq<u8>>> {
    match first {
        Err(failed) => Err(failed),
        Ok(files) => match second {
            Err(failed) => Err(failed),
            Ok(more) => Ok(files + more),
        },
    }
}

/// The image files at or below `node`, which stands at the path `dir`, as
/// paths that start with `dir`; or the path of the first directory that
/// could not be listed. A directory's own image files come first, in the
/// order of its listing; then come those of its sub-directories, the
/// sub-directory listed last before the others.
pub open spec fn scan_dir(node: FsNode, dir: Seq<Seq<u8>>) -> Result<
    Seq<Seq<Seq<u8>>>,
    Seq<Seq<u8>>,
>
    decreases node, 0nat,
{
    match node {
        FsNode::Directory(entries) => then_found(
            Ok(images_listed(listing_of(entries@), dir)),
            scan_children(entries@, dir, entries@.len()),
        ),
        FsNode::Unreadable => Err(dir),
        _ => Ok(Seq::empty()),
    }
}

/// As `scan_dir`, for what lies below the first `n` entries of the
/// directory `dir`: the last of them is searched first.
pub open spec fn scan_children(entries: Seq<FsEntry>, dir: Seq<Seq<u8>>, n: nat) -> Result<
    Seq<Seq<Seq<u8>>>,
    Seq<Seq<u8>>,
>
    decreases entries, n,
{
    if n == 0 || n > entries.len() {
        Ok(Seq::empty())
    } else {
        then_found(
            scan_dir(entries[n - 1].node, dir.push(entries[n - 1].name@)),
            scan_children(entries, dir, (n - 1) as nat),
        )
    }
}

/// The image file at the path `relative` below the directory `root`.
pub open spec fn image_file(root: Seq<u8>, relative: Seq<Seq<u8>>) -> ImageFile {
    ImageFile {
        relative_path: relative,
        filename: display_name_of(relative.last()),
        full_path: seq![root] + relative,
    }
}

/// The image files at the paths `relatives` below the directory `root`.
pub open spec fn image_files(root: Seq<u8>, relatives: Seq<Seq<Seq<u8>>>) -> Seq<ImageFile> {
    Seq::new(relatives.len(), |i: int| image_file(root, relatives[i]))
}

/// What a search of `tree`, the directory named `root`, comes to.
pub open spec fn scan_of(root: Seq<u8>, tree: FsNode) -> Result<Seq<ImageFile>, ScanFailure> {
    match tree {
        FsNode::Missing => Err(ScanFailure::NotFound),
        FsNode::File => Err(ScanFailure::NotADirectory),
        FsNode::Other => Err(ScanFailure::NotADirectory),
        _ => match scan_dir(tree, Seq::empty()) {
            Ok(relatives) => Ok(image_files(root, relatives)),
            Err(failed) => Err(ScanFailure::Unreadable(failed)),
        },
    }
}

/// The directories among `entries`, in their order.
spec fn directories_below(entries: Seq<FsEntry>) -> Seq<FsNode>
    decreases entries.len(),
{
    if entries.len() == 0 {
        Seq::empty()
    } else {
        let before = directories_below(entries.drop_last());
        if listed_kind(entries.last().node) == EntryKind::Directory {
            before.push(entries.last().node)
        } else {
            before
        }
    }
}

/// What the search of a stack of directories comes to: `nodes` stand at
/// the paths `dirs`, and the last of them is searched first.
spec fn scan_stack(nodes: Seq<FsNode>, dirs: Seq<Seq<Seq<u8>>>) -> Result<
    Seq<Seq<Seq<u8>>>,
    Seq<Seq<u8>>,
>
    decreases nodes.len(),
{
    if nodes.len() == 0 || dirs.len() != nodes.len() {
        Ok(Seq::empty())
    } else {
        then_found(
            scan_dir(nodes.last(), dirs.last()),
            scan_stack(nodes.drop_last(), dirs.drop_last()),
        )
    }
}

/// The number of directories and files at and below `node`.
spec fn size_of(node: FsNode) -> nat
    decreases node, 0nat,
{
    match node {
        FsNode::Directory(entries) => 1 + size_of_first(entries@, entries@.len()),
        _ => 1,
    }
}

/// The number of directories and files at and below the first `n` of
/// `entries`.
spec fn size_of_first(entries: Seq<FsEntry>, n: nat) -> nat
    decreases entries, n,
{
    if n == 0 || n > entries.len() {
        0
    } else {
        size_of_first(entries, (n - 1) as nat) + size_of(entries[n - 1].node)
    }
}

/// The number of directories and files at and below the nodes of a stack.
spec fn size_of_stack(nodes: Seq<FsNode>) -> nat
    decreases nodes.len(),
{
    if nodes.len() == 0 {
        0
    } else {
        size_of_stack(nodes.drop_last()) + size_of(nodes.last())
    }
}

proof fn lemma_then_found_joins(
    a: Result<Seq<Seq<Seq<u8>>>, Seq<Seq<u8>>>,
    b: Result<Seq<Seq<Seq<u8>>>, Seq<Seq<u8>>>,
    c: Result<Seq<Seq<Seq<u8>>>, Seq<Seq<u8>>>,
)
    ensures
        then_found(then_found(a, b), c) == then_found(a, then_found(b, c)),
        then_found(Ok(Seq::empty()), a) == a,
        then_found(a, Ok(Seq::empty())) == a,
{
    if a is Ok && b is Ok && c is Ok {
        assert((a->Ok_0 + b->Ok_0) + c->Ok_0 =~= a->Ok_0 + (b->Ok_0 + c->Ok_0));
    }
}

/// The directories that a listing shows, put on top of a stack, are
/// searched as the entries of the directory are.
proof fn lemma_stack_of_directories(
    nodes: Seq<FsNode>,
    dirs: Seq<Seq<Seq<u8>>>,
    entries: Seq<FsEntry>,
    dir: Seq<Seq<u8>>,
    n: nat,
)
    requires
        nodes.len() == dirs.len(),
        n <= entries.len(),
    ensures
        directories_below(entries.take(n as int)).len() == directories_listed(
            listing_of(entries).take(n as int),
            dir,
        ).len(),
        scan_stack(
            nodes + directories_below(entries.take(n as int)),
            dirs + directories_listed(listing_of(entries).take(n as int), dir),
        ) == then_found(scan_children(entries, dir, n), scan_stack(nodes, dirs)),
        size_of_stack(nodes + directories_below(entries.take(n as int))) <= size_of_stack(nodes)
            + size_of_first(entries, n),
    decreases n,
{
    let shown = listing_of(entries);
    if n == 0 {
        lemma_then_found_joins(scan_stack(nodes, dirs), Ok(Seq::empty()), Ok(Seq::empty()));
    } else {
        let m = (n - 1) as nat;
        lemma_stack_of_directories(nodes, dirs, entries, dir, m);
        let entry = entries[n - 1];
        let below = directories_below(entries.take(m as int));
        let listed = directories_listed(shown.take(m as int), dir);
        assert(entries.take(n as int).drop_last() =~= entries.take(m as int));
        assert(shown.take(n as int).drop_last() =~= shown.take(m as int));
        let at = dir.push(entry.name@);
        lemma_then_found_joins(
            scan_dir(entry.node, at),
            scan_children(entries, dir, m),
            scan_stack(nodes, dirs),
        );
        if listed_kind(entry.node) == EntryKind::Directory {
            let new_nodes = nodes + below.push(entry.node);
            let new_dirs = dirs + listed.push(at);
            assert(new_nodes.drop_last() =~= nodes + below);
            assert(new_dirs.drop_last() =~= dirs + listed);
        } else {
            lemma_then_found_joins(
                then_found(scan_children(entries, dir, m), scan_stack(nodes, dirs)),
                Ok(Seq::empty()),
                Ok(Seq::empty()),
            );
        }
    }
}

impl FsNode {
    /// The kind of entry that stands at the path, if any does.
    pub fn kind(&self) -> (r: Option<EntryKind>)
        ensures
            r == match *self {
                FsNode::Missing => None,
                FsNode::File => Some(EntryKind::File),
                FsNode::Other => Some(EntryKind::Other),
                FsNode::Unreadable => Some(EntryKind::Directory),
                FsNode::Directory(_) => Some(EntryKind::Directory),
            },
    {
        match self {
            FsNode::Missing => None,
            FsNode::File => Some(EntryKind::File),
            FsNode::Other => Some(EntryKind::Other),
            FsNode::Unreadable => Some(EntryKind::Directory),
            FsNode::Directory(_) => Some(EntryKind::Directory),
        }
    }

    /// The listing of the directory, where the node is one that could be
    /// listed.
    pub fn listing(&self) -> (r: Option<Vec<ListedEntry>>)
        ensures
            match *self {
                FsNode::Directory(entries) => r is Some && r->0.deep_view() == listing_of(
                    entries@,
                ),
                _ => r is None,
            },
    {
        match self {
            FsNode::Directory(entries) => {
                let mut listing: Vec<ListedEntry> = Vec::new();
                let mut i: usize = 0;
                while i < entries.len()
                    invariant
                        i <= entries@.len(),
                        listing.deep_view() == listing_of(entries@).take(i as int),
                    decreases entries@.len() - i,
                {
                    let kind = match entries[i].node.kind() {
                        Some(kind) => kind,
                        None => EntryKind::Other,
                    };
                    let ghost before = listing.deep_view();
                    listing.push(
                        ListedEntry { name: slice_to_vec(entries[i].name.as_slice()), kind },
                    );
                    assert(listing.deep_view() =~= before.push(listing_of(entries@)[i as int]));
                    i += 1;
                }
                Some(listing)
            },
            _ => None,
        }
    }
}

/// Every node among the directories below is a directory.
proof fn lemma_directories_below(entries: Seq<FsEntry>, k: int)
    requires
        0 <= k < directories_below(entries).len(),
    ensures
        listed_kind(directories_below(entries)[k]) == EntryKind::Directory,
    decreases entries.len(),
{
    if entries.len() > 0 {
        let before = directories_below(entries.drop_last());
        if k < before.len() {
            lemma_directories_below(entries.drop_last(), k);
        }
    }
}

/// Finds the image files below a directory. `tree` is what stands at the
/// path `folder_path`: the directory with everything below it.
///
/// The search lists one directory at a time, as a `Scanner` asks for them.
/// It finds nothing where nothing exists at the path, where the path is no
/// directory, and where any directory at or below it could not be listed.
pub fn get_image_files(folder_path: &[u8], tree: &FsNode) -> (r: Result<
    Vec<ImageFileInfo>,
    ScanError,
>)
    ensures
        match scan_of(folder_path@, *tree) {
            Ok(found) => r is Ok && r->Ok_0.deep_view() == found,
            Err(failure) => r is Err && r->Err_0@ == failure,
        },
{
    let mut scanner = Scanner::new(folder_path, tree.kind());
    if scanner.is_done() {
        return scanner.finish().unwrap();
    }
    let mut nodes: Vec<&FsNode> = Vec::new();
    nodes.push(tree);
    let ghost mut stack: Seq<FsNode> = seq![*tree];
    let ghost mut found: Seq<Seq<Seq<u8>>> = Seq::empty();
    proof {
        let all = scan_dir(*tree, Seq::empty());
        assert(scan_stack(stack.drop_last(), scanner@.pending.drop_last()) == Ok::<
            Seq<Seq<Seq<u8>>>,
            Seq<Seq<u8>>,
        >(Seq::empty()));
        lemma_then_found_joins(all, Ok(Seq::empty()), Ok(Seq::empty()));
    }
    while nodes.len() > 0
        invariant
            listed_kind(*tree) == EntryKind::Directory,
            scanner@.root == folder_path@,
            scanner@.failure is None,
            scanner@.found == image_files(folder_path@, found),
            nodes@.len() == stack.len(),
            stack.len() == scanner@.pending.len(),
            forall|k: int| 0 <= k < stack.len() ==> *(#[trigger] nodes@[k]) == stack[k],
            forall|k: int|
                0 <= k < stack.len() ==> listed_kind(#[trigger] stack[k]) == EntryKind::Directory,
            then_found(Ok(found), scan_stack(stack, scanner@.pending)) == scan_dir(
                *tree,
                Seq::empty(),
            ),
        decreases size_of_stack(stack),
    {
        let ghost before = scanner@;
        let ghost below = stack.drop_last();
        let ghost dir = before.pending.last();
        let node = nodes.pop().unwrap();
        match node {
            FsNode::Directory(entries) => {
                scanner.record_listing(node.listing());
                let mut i: usize = 0;
                while i < entries.len()
                    invariant
                        i <= entries@.len(),
                        nodes@.len() == below.len() + directories_below(
                            entries@.take(i as int),
                        ).len(),
                        forall|k: int|
                            0 <= k < nodes@.len() ==> *(#[trigger] nodes@[k]) == (below
                                + directories_below(entries@.take(i as int)))[k],
                    decreases entries@.len() - i,
                {
                    proof {
                        assert(entries@.take(i + 1).drop_last() =~= entries@.take(i as int));
                    }
                    match &entries[i].node {
                        FsNode::Directory(_) => {
                            nodes.push(&entries[i].node);
                        },
                        FsNode::Unreadable => {
                            nodes.push(&entries[i].node);
                        },
                        _ => {},
                    }
                    i += 1;
                }
                proof {
                    let images = images_listed(listing_of(entries@), dir);
                    let rest = scan_stack(below, before.pending.drop_last());
                    let children = scan_children(entries@, dir, entries@.len());
                    assert(entries@.take(entries@.len() as int) =~= entries@);
                    assert(listing_of(entries@).take(entries@.len() as int) =~= listing_of(
                        entries@,
                    ));
                    lemma_stack_of_directories(
                        below,
                        before.pending.drop_last(),
                        entries@,
                        dir,
                        entries@.len(),
                    );
                    lemma_then_found_joins(Ok(images), children, rest);
                    lemma_then_found_joins(Ok(found), Ok(images), then_found(children, rest));
                    assert forall|k: int|
                        0 <= k < (below + directories_below(entries@)).len() implies listed_kind(
                        #[trigger] (below + directories_below(entries@))[k],
                    ) == EntryKind::Directory by {
                        if k >= below.len() {
                            lemma_directories_below(entries@, k - below.len());
                        }
                    }
                    stack = below + directories_below(entries@);
                    found = found + images;
                }
            },
            _ => {
                scanner.record_listing(None);
                return scanner.finish().unwrap();
            },
        }
    }
    proof {
    }
    scanner.finish().unwrap()
}

} // verus!
