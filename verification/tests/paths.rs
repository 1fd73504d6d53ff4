use webp_batch::util::path::EntryPath;

fn path(pieces: &[&[u8]]) -> EntryPath {
    EntryPath { pieces: pieces.iter().map(|p| p.to_vec()).collect() }
}

#[test]
fn new_path_is_empty() {
    let p = EntryPath::new();
    assert_eq!(p.len(), 0);
    assert_eq!(p, path(&[]));
}

#[test]
fn from_root_holds_one_piece() {
    let p = EntryPath::from_root(b"/home/me/pictures");
    assert_eq!(p, path(&[b"/home/me/pictures"]));
    assert_eq!(p.len(), 1);
}

#[test]
fn push_and_join_append_a_name() {
    let mut p = EntryPath::from_root(b"in");
    p.push(b"a");
    assert_eq!(p, path(&[b"in", b"a"]));
    let q = p.join(b"b.jpg");
    assert_eq!(q, path(&[b"in", b"a", b"b.jpg"]));
    assert_eq!(p, path(&[b"in", b"a"]));
}

#[test]
fn concat_appends_every_piece() {
    let p = path(&[b"out"]);
    let q = path(&[b"a", b"b.jpg"]);
    assert_eq!(p.concat(&q), path(&[b"out", b"a", b"b.jpg"]));
    assert_eq!(p.concat(&EntryPath::new()), p);
    assert_eq!(EntryPath::new().concat(&q), q);
}

#[test]
fn prefix_takes_the_first_pieces() {
    let p = path(&[b"out", b"a", b"b.jpg"]);
    assert_eq!(p.prefix(0), EntryPath::new());
    assert_eq!(p.prefix(2), path(&[b"out", b"a"]));
    assert_eq!(p.prefix(3), p);
}

#[test]
fn duplicate_is_equal() {
    let p = path(&[b"out", b"\xff", b"b.jpg"]);
    assert_eq!(p.duplicate(), p);
}

#[test]
fn parent_drops_the_last_piece() {
    assert_eq!(path(&[b"out", b"a", b"b.jpg"]).parent(), Some(path(&[b"out", b"a"])));
    assert_eq!(path(&[b"out"]).parent(), Some(EntryPath::new()));
    assert_eq!(EntryPath::new().parent(), None);
}
