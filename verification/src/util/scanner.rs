//! The search for image files, one directory at a time: the scanner says
//! which directory it wants listed next, and takes the listing.

use crate::util::file_filter::{
    image_file, image_files, is_image_entry, is_image_file, EntryKind, ImageFile, ImageFileInfo,
    ScanError, ScanFailure,
};
use crate::util::path::{display_name, EntryPath};
use vstd::prelude::*;
use vstd::slice::slice_to_vec;

verus! {

/// One entry of a directory, as a listing shows it.
#[derive(Debug, Clone, PartialEq, Eq)]
pub struct ListedEntry {
    /// The entry's name, as the operating system gives it.
    pub name: Vec<u8>,
    /// What the name stands for.
    pub kind: EntryKind,
}

/// A `ListedEntry` as a mathematical value.
pub struct Listed {
    pub name: Seq<u8>,
    pub kind: EntryKind,
}

impl View for ListedEntry {
    type V = Listed;

    open spec fn view(&self) -> Listed {
        Listed { name: self.name@, kind: self.kind }
    }
}

impl DeepView for ListedEntry {
    type V = Listed;

    open spec fn deep_view(&self) -> Listed {
        self@
    }
}

/// The paths of the image files that the listing of the directory `dir`
/// shows, in the order of the listing.
pub open spec fn images_listed(listing: Seq<Listed>, dir: Seq<Seq<u8>>) -> Seq<Seq<Seq<u8>>>
    decreases listing.len(),
{
    if listing.len() == 0 {
        Seq::empty()
    } else {
        let before = images_listed(listing.drop_last(), dir);
        let entry = listing.last();
        if is_image_entry(entry.name, entry.kind) {
            before.push(dir.push(entry.name))
        } else {
            before
        }
    }
}

/// The paths of the directories that the listing of the directory `dir`
/// shows, in the order of the listing.
pub open spec fn directories_listed(listing: Seq<Listed>, dir: Seq<Seq<u8>>) -> Seq<
    Seq<Seq<u8>>,
>
    decreases listing.len(),
{
    if listing.len() == 0 {
        Seq::empty()
    } else {
        let before = directories_listed(listing.drop_last(), dir);
        let entry = listing.last();
        if entry.kind == EntryKind::Directory {
            before.push(dir.push(entry.name))
        } else {
            before
        }
    }
}

/// A search in progress.
#[derive(Debug)]
pub struct Scanner {
    root: Vec<u8>,
    pending: Vec<EntryPath>,
    found: Vec<ImageFileInfo>,
    failure: Option<ScanError>,
}

/// A `Scanner` as a mathematical value.
pub struct ScannerView {
    /// The directory that is searched.
    pub root: Seq<u8>,
    /// The directories that have been seen in a listing and not been
    /// listed themselves, as paths that lead to them from `root`. The last
    /// one is listed next.
    pub pending: Seq<Seq<Seq<u8>>>,
    /// The image files found so far.
    pub found: Seq<ImageFile>,
    /// Why the search came to nothing, if it did.
    pub failure: Option<ScanFailure>,
}

impl ScannerView {
    /// The search as it begins: `kind` says what stands at `root`, if
    /// anything does.
    pub open spec fn start(root: Seq<u8>, kind: Option<EntryKind>) -> ScannerView {
        ScannerView {
            root,
            pending: if kind == Some(EntryKind::Directory) {
                seq![Seq::<Seq<u8>>::empty()]
            } else {
                Seq::empty()
            },
            found: Seq::empty(),
            failure: match kind {
                None => Some(ScanFailure::NotFound),
                Some(EntryKind::Directory) => None,
                Some(_) => Some(ScanFailure::NotADirectory),
            },
        }
    }

    /// The directory whose listing the search needs next, as a path that
    /// leads to it from `root`. A search that has failed needs none, nor
    /// does one that has been through every directory.
    pub open spec fn wanted(self) -> Option<Seq<Seq<u8>>> {
        if self.failure is None && self.pending.len() > 0 {
            Some(self.pending.last())
        } else {
            None
        }
    }

    /// The search after it has taken the listing of the directory that it
    /// wanted: the image files of the listing are found, its directories
    /// are to be listed before any other. Without a listing, because the
    /// directory could not be read, the search has failed. A search that
    /// wanted no listing stays as it is.
    pub open spec fn after_listing(self, listing: Option<Seq<Listed>>) -> ScannerView {
        match self.wanted() {
            None => self,
            Some(dir) => match listing {
                None => ScannerView { failure: Some(ScanFailure::Unreadable(dir)), ..self },
                Some(entries) => ScannerView {
                    pending: self.pending.drop_last() + directories_listed(entries, dir),
                    found: self.found + image_files(self.root, images_listed(entries, dir)),
                    ..self
                },
            },
        }
    }

    /// What the search has come to, once it wants no more listings.
    pub open spec fn result(self) -> Option<Result<Seq<ImageFile>, ScanFailure>> {
        match self.failure {
            Some(failure) => Some(Err(failure)),
            None => if self.pending.len() > 0 {
                None
            } else {
                Some(Ok(self.found))
            },
        }
    }
}

impl View for Scanner {
    type V = ScannerView;

    closed spec fn view(&self) -> ScannerView {
        ScannerView {
            root: self.root@,
            pending: self.pending.deep_view(),
            found: self.found.deep_view(),
            failure: match self.failure {
                Some(failure) => Some(failure@),
                None => None,
            },
        }
    }
}

impl Scanner {
    /// A search of the directory `root`. `kind` says what stands at that
    /// path, if anything does.
    pub fn new(root: &[u8], kind: Option<EntryKind>) -> (r: Scanner)
        ensures
            r@ == ScannerView::start(root@, kind),
    {
        let mut pending: Vec<EntryPath> = Vec::new();
        let failure = match kind {
            None => Some(ScanError::NotFound),
            Some(EntryKind::Directory) => {
                pending.push(EntryPath::new());
                None
            },
            Some(_) => Some(ScanError::NotADirectory),
        };
        let r = Scanner { root: slice_to_vec(root), pending, found: Vec::new(), failure };
        assert(r@.pending =~= ScannerView::start(root@, kind).pending);
        assert(r@.found =~= ScannerView::start(root@, kind).found);
        r
    }

    /// Whether the search wants no more listings: it has failed, or it
    /// has been through every directory.
    pub fn is_done(&self) -> (r: bool)
        ensures
            r == self@.wanted() is None,
    {
        self.failure.is_some() || self.pending.len() == 0
    }

    /// The directory that is to be listed next, if the search needs one:
    /// its path, with `root` as the first piece.
    pub fn next_directory(&self) -> (r: Option<EntryPath>)
        ensures
            match self@.wanted() {
                Some(dir) => r is Some && r->0@ == seq![self@.root] + dir,
                None => r is None,
            },
    {
        let n = self.pending.len();
        if self.failure.is_some() || n == 0 {
            None
        } else {
            Some(EntryPath::from_root(self.root.as_slice()).concat(&self.pending[n - 1]))
        }
    }

    /// Takes the listing of the directory that was to be listed next, or
    /// takes note that the directory could not be listed.
    pub fn record_listing(&mut self, listing: Option<Vec<ListedEntry>>)
        ensures
            final(self)@ == old(self)@.after_listing(
                match listing {
                    Some(entries) => Some(entries.deep_view()),
                    None => None,
                },
            ),
    {
        let n = self.pending.len();
        if self.failure.is_some() || n == 0 {
            return ;
        }
        let entries = match listing {
            Some(entries) => entries,
            None => {
                self.failure = Some(ScanError::Unreadable(self.pending[n - 1].duplicate()));
                return ;
            },
        };
        let ghost before = self@;
        let ghost shown = entries.deep_view();
        let dir = self.pending.pop().unwrap();
        let mut i: usize = 0;
        while i < entries.len()
            invariant
                i <= entries@.len(),
                shown == entries.deep_view(),
                self.root@ == before.root,
                self.failure is None,
                dir@ == before.pending.last(),
                self.pending.deep_view() == before.pending.drop_last() + directories_listed(
                    shown.take(i as int),
                    dir@,
                ),
                self.found.deep_view() == before.found + image_files(
                    before.root,
                    images_listed(shown.take(i as int), dir@),
                ),
            decreases entries@.len() - i,
        {
            let entry = &entries[i];
            let ghost pending_before = self.pending.deep_view();
            let ghost found_before = self.found.deep_view();
            proof {
                assert(shown.take(i + 1).drop_last() =~= shown.take(i as int));
            }
            if is_image_file(entry.name.as_slice(), entry.kind) {
                let path = dir.join(entry.name.as_slice());
                let image_info = ImageFileInfo {
                    relative_path: path.duplicate(),
                    filename: display_name(entry.name.as_slice()),
                    full_path: EntryPath::from_root(self.root.as_slice()).concat(&path),
                };
                self.found.push(image_info);
                assert(self.found.deep_view() =~= found_before.push(
                    image_file(before.root, path@),
                ));
            } else if entry.kind == EntryKind::Directory {
                let path = dir.join(entry.name.as_slice());
                self.pending.push(path);
                assert(self.pending.deep_view() =~= pending_before.push(path@));
            }
            i += 1;
        }
        assert(shown.take(entries@.len() as int) =~= shown);
    }

    /// What the search has come to: the image files in the order in which
    /// they were found, or the reason for which the search failed. There
    /// is no result while the search wants a listing.
    pub fn finish(self) -> (r: Option<Result<Vec<ImageFileInfo>, ScanError>>)
        ensures
            match self@.result() {
                None => r is None,
                Some(Ok(found)) => r is Some && r->0 is Ok && r->0->Ok_0.deep_view() == found,
                Some(Err(failure)) => r is Some && r->0 is Err && r->0->Err_0@ == failure,
            },
    {
        match self.failure {
            Some(failure) => Some(Err(failure)),
            None => if self.pending.len() > 0 {
                None
            } else {
                Some(Ok(self.found))
            },
        }
    }
}

} // verus!
