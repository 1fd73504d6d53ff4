use webp_batch::util::file_filter::{
    get_image_files, EntryKind, FsEntry, FsNode, ImageFileInfo, ScanError,
};
use webp_batch::util::path::EntryPath;
use webp_batch::util::scanner::{ListedEntry, Scanner};

fn path(pieces: &[&[u8]]) -> EntryPath {
    EntryPath { pieces: pieces.iter().map(|p| p.to_vec()).collect() }
}

fn entry(name: &[u8], node: FsNode) -> FsEntry {
    FsEntry { name: name.to_vec(), node }
}

fn dir(entries: Vec<FsEntry>) -> FsNode {
    FsNode::Directory(entries)
}

fn item(root: &[u8], relative: &[&[u8]], filename: &str) -> ImageFileInfo {
    ImageFileInfo {
        relative_path: path(relative),
        filename: filename.to_string(),
        full_path: EntryPath::from_root(root).concat(&path(relative)),
    }
}

#[test]
fn finds_the_image_and_leaves_the_text_file() {
    let tree = dir(vec![
        entry(b"a", dir(vec![entry(b"b.jpg", FsNode::File)])),
        entry(b"c.txt", FsNode::File),
    ]);
    let found = get_image_files(b"input", &tree).unwrap();
    assert_eq!(found.len(), 1);
    assert_eq!(found[0].relative_path, path(&[b"a", b"b.jpg"]));
    assert_eq!(found[0].filename, "b.jpg");
    assert_eq!(found[0].full_path, path(&[b"input", b"a", b"b.jpg"]));
}

#[test]
fn missing_root_is_not_found() {
    assert_eq!(get_image_files(b"nowhere", &FsNode::Missing), Err(ScanError::NotFound));
}

#[test]
fn root_that_is_a_file_is_not_a_directory() {
    assert_eq!(get_image_files(b"photo.png", &FsNode::File), Err(ScanError::NotADirectory));
    assert_eq!(get_image_files(b"socket", &FsNode::Other), Err(ScanError::NotADirectory));
}

#[test]
fn unreadable_root_fails_with_the_empty_path() {
    assert_eq!(
        get_image_files(b"locked", &FsNode::Unreadable),
        Err(ScanError::Unreadable(EntryPath::new()))
    );
}

#[test]
fn unreadable_directory_below_fails_the_whole_search() {
    let tree = dir(vec![
        entry(b"first.png", FsNode::File),
        entry(b"a", dir(vec![entry(b"locked", FsNode::Unreadable)])),
        entry(b"last.png", FsNode::File),
    ]);
    assert_eq!(
        get_image_files(b"input", &tree),
        Err(ScanError::Unreadable(path(&[b"a", b"locked"])))
    );
}

#[test]
fn directory_listed_last_is_searched_first() {
    let tree = dir(vec![
        entry(b"x", dir(vec![entry(b"y", FsNode::Unreadable)])),
        entry(b"z", FsNode::Unreadable),
    ]);
    assert_eq!(get_image_files(b"input", &tree), Err(ScanError::Unreadable(path(&[b"z"]))));
    let other = dir(vec![
        entry(b"z", FsNode::Unreadable),
        entry(b"x", dir(vec![entry(b"y", FsNode::Unreadable)])),
    ]);
    assert_eq!(get_image_files(b"input", &other), Err(ScanError::Unreadable(path(&[b"x", b"y"]))));
}

#[test]
fn empty_directory_holds_nothing() {
    assert_eq!(get_image_files(b"input", &dir(vec![])), Ok(vec![]));
    let nested = dir(vec![entry(b"a", dir(vec![entry(b"b", dir(vec![]))]))]);
    assert_eq!(get_image_files(b"input", &nested), Ok(vec![]));
}

#[test]
fn items_come_in_the_order_of_the_search() {
    let tree = dir(vec![
        entry(b"1.png", FsNode::File),
        entry(
            b"sub",
            dir(vec![
                entry(b"2.gif", FsNode::File),
                entry(b"deeper", dir(vec![entry(b"3.BMP", FsNode::File)])),
                entry(b"4.webp", FsNode::File),
            ]),
        ),
        entry(b"5.jpeg", FsNode::File),
    ]);
    let found = get_image_files(b"/data", &tree).unwrap();
    assert_eq!(
        found,
        vec![
            item(b"/data", &[b"1.png"], "1.png"),
            item(b"/data", &[b"5.jpeg"], "5.jpeg"),
            item(b"/data", &[b"sub", b"2.gif"], "2.gif"),
            item(b"/data", &[b"sub", b"4.webp"], "4.webp"),
            item(b"/data", &[b"sub", b"deeper", b"3.BMP"], "3.BMP"),
        ]
    );
}

#[test]
fn sub_directories_come_last_one_first() {
    let tree = dir(vec![
        entry(b"a", dir(vec![entry(b"1.png", FsNode::File)])),
        entry(b"b", dir(vec![entry(b"2.png", FsNode::File)])),
        entry(b"c", dir(vec![entry(b"3.png", FsNode::File)])),
    ]);
    let found = get_image_files(b"in", &tree).unwrap();
    assert_eq!(
        found,
        vec![
            item(b"in", &[b"c", b"3.png"], "3.png"),
            item(b"in", &[b"b", b"2.png"], "2.png"),
            item(b"in", &[b"a", b"1.png"], "1.png"),
        ]
    );
}

#[test]
fn directory_with_an_image_name_is_searched_not_listed() {
    let tree = dir(vec![entry(b"album.png", dir(vec![entry(b"c.gif", FsNode::File)]))]);
    let found = get_image_files(b"in", &tree).unwrap();
    assert_eq!(found, vec![item(b"in", &[b"album.png", b"c.gif"], "c.gif")]);
}

#[test]
fn entries_that_are_no_regular_files_are_left_out() {
    let tree = dir(vec![
        entry(b"pipe.png", FsNode::Other),
        entry(b"gone.png", FsNode::Missing),
        entry(b"real.png", FsNode::File),
    ]);
    let found = get_image_files(b"in", &tree).unwrap();
    assert_eq!(found, vec![item(b"in", &[b"real.png"], "real.png")]);
}

#[test]
fn every_image_is_found_once_and_nothing_else() {
    let tree = dir(vec![
        entry(b"a.png", FsNode::File),
        entry(b"a.txt", FsNode::File),
        entry(b"b", dir(vec![entry(b"a.png", FsNode::File), entry(b"notes", FsNode::File)])),
        entry(b"c", dir(vec![entry(b"a.png", FsNode::File), entry(b"x.mp4", FsNode::File)])),
    ]);
    let found = get_image_files(b"in", &tree).unwrap();
    let relatives: Vec<EntryPath> = found.iter().map(|i| i.relative_path.clone()).collect();
    assert_eq!(relatives.len(), 3);
    for wanted in [path(&[b"a.png"]), path(&[b"b", b"a.png"]), path(&[b"c", b"a.png"])] {
        assert_eq!(relatives.iter().filter(|r| **r == wanted).count(), 1);
    }
}

#[test]
fn name_that_is_not_utf8_is_kept_in_the_paths() {
    let tree = dir(vec![entry(b"\xff", dir(vec![entry(b"\xfe.png", FsNode::File)]))]);
    let found = get_image_files(b"in", &tree).unwrap();
    assert_eq!(found.len(), 1);
    assert_eq!(found[0].relative_path, path(&[b"\xff", b"\xfe.png"]));
    assert_eq!(found[0].full_path, path(&[b"in", b"\xff", b"\xfe.png"]));
    assert_eq!(found[0].filename, "unknown");
}

#[test]
fn kind_of_a_node() {
    assert_eq!(FsNode::Missing.kind(), None);
    assert_eq!(FsNode::File.kind(), Some(EntryKind::File));
    assert_eq!(FsNode::Other.kind(), Some(EntryKind::Other));
    assert_eq!(FsNode::Unreadable.kind(), Some(EntryKind::Directory));
    assert_eq!(dir(vec![]).kind(), Some(EntryKind::Directory));
}

#[test]
fn duplicate_of_an_item_is_equal() {
    let i = item(b"in", &[b"a", b"b.jpg"], "b.jpg");
    assert_eq!(i.duplicate(), i);
}

#[test]
fn listing_of_a_node() {
    let tree = dir(vec![
        entry(b"a.png", FsNode::File),
        entry(b"sub", dir(vec![entry(b"b.png", FsNode::File)])),
        entry(b"locked", FsNode::Unreadable),
        entry(b"pipe", FsNode::Other),
        entry(b"gone", FsNode::Missing),
    ]);
    let listing = tree.listing().unwrap();
    let expected = vec![
        ListedEntry { name: b"a.png".to_vec(), kind: EntryKind::File },
        ListedEntry { name: b"sub".to_vec(), kind: EntryKind::Directory },
        ListedEntry { name: b"locked".to_vec(), kind: EntryKind::Directory },
        ListedEntry { name: b"pipe".to_vec(), kind: EntryKind::Other },
        ListedEntry { name: b"gone".to_vec(), kind: EntryKind::Other },
    ];
    assert_eq!(listing, expected);
    assert_eq!(FsNode::File.listing(), None);
    assert_eq!(FsNode::Unreadable.listing(), None);
    assert_eq!(FsNode::Missing.listing(), None);
    assert_eq!(dir(vec![]).listing(), Some(vec![]));
}

fn listed(name: &[u8], kind: EntryKind) -> ListedEntry {
    ListedEntry { name: name.to_vec(), kind }
}

#[test]
fn scanner_of_a_missing_root_has_failed() {
    let scanner = Scanner::new(b"nowhere", None);
    assert!(scanner.is_done());
    assert_eq!(scanner.next_directory(), None);
    assert_eq!(scanner.finish(), Some(Err(ScanError::NotFound)));
}

#[test]
fn scanner_of_a_file_has_failed() {
    for kind in [EntryKind::File, EntryKind::Other] {
        let scanner = Scanner::new(b"a.png", Some(kind));
        assert!(scanner.is_done());
        assert_eq!(scanner.next_directory(), None);
        assert_eq!(scanner.finish(), Some(Err(ScanError::NotADirectory)));
    }
}

#[test]
fn scanner_asks_for_the_root_first() {
    let scanner = Scanner::new(b"/data/in", Some(EntryKind::Directory));
    assert!(!scanner.is_done());
    assert_eq!(scanner.next_directory(), Some(path(&[b"/data/in"])));
    assert_eq!(scanner.finish(), None);
}

#[test]
fn scanner_goes_through_the_directories_one_by_one() {
    let mut scanner = Scanner::new(b"in", Some(EntryKind::Directory));
    scanner.record_listing(Some(vec![
        listed(b"a", EntryKind::Directory),
        listed(b"c.txt", EntryKind::File),
        listed(b"top.png", EntryKind::File),
        listed(b"z", EntryKind::Directory),
        listed(b"odd.png", EntryKind::Other),
    ]));
    assert_eq!(scanner.next_directory(), Some(path(&[b"in", b"z"])));
    scanner.record_listing(Some(vec![listed(b"deep", EntryKind::Directory)]));
    assert_eq!(scanner.next_directory(), Some(path(&[b"in", b"z", b"deep"])));
    scanner.record_listing(Some(vec![listed(b"d.GIF", EntryKind::File)]));
    assert_eq!(scanner.next_directory(), Some(path(&[b"in", b"a"])));
    assert!(!scanner.is_done());
    scanner.record_listing(Some(vec![listed(b"b.jpg", EntryKind::File)]));
    assert!(scanner.is_done());
    assert_eq!(scanner.next_directory(), None);
    assert_eq!(
        scanner.finish(),
        Some(Ok(vec![
            item(b"in", &[b"top.png"], "top.png"),
            item(b"in", &[b"z", b"deep", b"d.GIF"], "d.GIF"),
            item(b"in", &[b"a", b"b.jpg"], "b.jpg"),
        ]))
    );
}

#[test]
fn scanner_fails_at_a_directory_that_cannot_be_listed() {
    let mut scanner = Scanner::new(b"in", Some(EntryKind::Directory));
    scanner.record_listing(Some(vec![
        listed(b"a.png", EntryKind::File),
        listed(b"locked", EntryKind::Directory),
    ]));
    assert_eq!(scanner.next_directory(), Some(path(&[b"in", b"locked"])));
    scanner.record_listing(None);
    assert!(scanner.is_done());
    assert_eq!(scanner.next_directory(), None);
    assert_eq!(scanner.finish(), Some(Err(ScanError::Unreadable(path(&[b"locked"])))));
}

#[test]
fn scanner_fails_at_a_root_that_cannot_be_listed() {
    let mut scanner = Scanner::new(b"in", Some(EntryKind::Directory));
    scanner.record_listing(None);
    assert_eq!(scanner.finish(), Some(Err(ScanError::Unreadable(EntryPath::new()))));
}

#[test]
fn scanner_that_wants_nothing_takes_no_listing() {
    let mut failed = Scanner::new(b"in", None);
    failed.record_listing(Some(vec![listed(b"a.png", EntryKind::File)]));
    assert_eq!(failed.finish(), Some(Err(ScanError::NotFound)));

    let mut done = Scanner::new(b"in", Some(EntryKind::Directory));
    done.record_listing(Some(vec![listed(b"a.png", EntryKind::File)]));
    done.record_listing(Some(vec![listed(b"b.png", EntryKind::File)]));
    done.record_listing(None);
    assert_eq!(done.finish(), Some(Ok(vec![item(b"in", &[b"a.png"], "a.png")])));
}
