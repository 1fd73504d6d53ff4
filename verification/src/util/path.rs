//! File names as byte strings, and paths as lists of names.

use vstd::prelude::*;
use vstd::slice::*;
use vstd::string::*;
use vstd::utf8::*;

verus! {

/// The byte that separates a file name from its extension.
pub const DOT: u8 = 0x2e;

/// The bytes of a text made of ASCII characters only.
pub open spec fn ascii_bytes(text: Seq<char>) -> Seq<u8> {
    Seq::new(text.len(), |i: int| text[i] as u8)
}

/// An ASCII capital letter becomes its small letter; every other byte stays.
pub open spec fn ascii_lower(b: u8) -> u8 {
    if 0x41 <= b && b <= 0x5a {
        (b + 0x20) as u8
    } else {
        b
    }
}

/// `bytes` with every ASCII capital letter turned into its small letter.
pub open spec fn lowercase(bytes: Seq<u8>) -> Seq<u8> {
    Seq::new(bytes.len(), |i: int| ascii_lower(bytes[i]))
}

/// Position `i` holds the last dot of `name`.
pub open spec fn is_last_dot(name: Seq<u8>, i: int) -> bool {
    &&& 0 <= i < name.len()
    &&& name[i] == DOT
    &&& forall|j: int| i < j < name.len() ==> name[j] != DOT
}

/// The extension of a file name: what follows its last dot. A name without
/// a dot has none, and neither has a name whose only dot is its first byte.
pub open spec fn extension_of(name: Seq<u8>) -> Option<Seq<u8>> {
    if exists|i: int| 0 < i && is_last_dot(name, i) {
        let i = choose|i: int| 0 < i && is_last_dot(name, i);
        Some(name.subrange(i + 1, name.len() as int))
    } else {
        None
    }
}

/// The name under which a file is reported: its name read as UTF-8, or the
/// word `unknown` where the name is not well-formed UTF-8.
pub open spec fn display_name_of(name: Seq<u8>) -> Seq<char> {
    if valid_utf8(name) {
        decode_utf8(name)
    } else {
        "unknown"@
    }
}

/// A name has at most one last dot.
pub proof fn lemma_last_dot_unique(name: Seq<u8>, a: int, b: int)
    requires
        is_last_dot(name, a),
        is_last_dot(name, b),
    ensures
        a == b,
{
}

/// The byte `b`, or its small letter where it is an ASCII capital letter.
pub fn to_ascii_lower(b: u8) -> (r: u8)
    ensures
        r == ascii_lower(b),
{
    if 0x41 <= b && b <= 0x5a {
        b + 0x20
    } else {
        b
    }
}

/// `bytes` with every ASCII capital letter turned into its small letter.
pub fn to_lowercase(bytes: &[u8]) -> (r: Vec<u8>)
    ensures
        r@ == lowercase(bytes@),
{
    let mut out: Vec<u8> = Vec::new();
    let mut i: usize = 0;
    while i < bytes.len()
        invariant
            i <= bytes@.len(),
            out@.len() == i,
            forall|j: int| 0 <= j < i ==> out@[j] == ascii_lower(bytes@[j]),
        decreases bytes@.len() - i,
    {
        out.push(to_ascii_lower(bytes[i]));
        i += 1;
    }
    out
}

/// The extension of a file name, if it has one.
pub fn extension<'a>(name: &'a [u8]) -> (r: Option<&'a [u8]>)
    ensures
        r is Some == extension_of(name@) is Some,
        r matches Some(e) ==> extension_of(name@) == Some(e@),
{
    let n: usize = name.len();
    let mut i: usize = n;
    while i > 0
        invariant
            n == name@.len(),
            i <= n,
            forall|j: int| i <= j < n ==> name@[j] != DOT,
        decreases i,
    {
        i -= 1;
        if name[i] == DOT {
            assert(is_last_dot(name@, i as int));
            if i == 0 {
                return None;
            }
            let ghost k = choose|k: int| 0 < k && is_last_dot(name@, k);
            proof {
                lemma_last_dot_unique(name@, i as int, k);
            }
            return Some(slice_subrange(name, i + 1, n));
        }
    }
    None
}

/// `String::from_utf8`: the bytes become a text exactly when they are
/// well-formed UTF-8, and the text is then the one that they encode.
#[verifier::external_body]
fn text_from_utf8(bytes: Vec<u8>) -> (text: Option<String>)
    ensures
        text is Some <==> valid_utf8(bytes@),
        text matches Some(t) ==> t@ == decode_utf8(bytes@),
{
    match String::from_utf8(bytes) {
        Ok(text) => Some(text),
        Err(_) => None,
    }
}

/// The name under which a file is reported.
pub fn display_name(name: &[u8]) -> (r: String)
    ensures
        r@ == display_name_of(name@),
{
    match text_from_utf8(slice_to_vec(name)) {
        Some(text) => text,
        None => "unknown".to_owned(),
    }
}

/// A path: the names that lead, one directory at a time, to an entry. The
/// first piece may be a whole path by itself, such as the directory that a
/// search started from; every later piece is the name of one entry.
#[derive(Debug, Clone, PartialEq, Eq)]
pub struct EntryPath {
    pub pieces: Vec<Vec<u8>>,
}

/// The names that a list of pieces holds.
pub open spec fn names_of(pieces: Seq<Vec<u8>>) -> Seq<Seq<u8>> {
    Seq::new(pieces.len(), |i: int| pieces[i]@)
}

impl View for EntryPath {
    type V = Seq<Seq<u8>>;

    open spec fn view(&self) -> Seq<Seq<u8>> {
        names_of(self.pieces@)
    }
}

impl DeepView for EntryPath {
    type V = Seq<Seq<u8>>;

    open spec fn deep_view(&self) -> Seq<Seq<u8>> {
        self@
    }
}

impl EntryPath {
    /// The empty path.
    pub fn new() -> (r: EntryPath)
        ensures
            r@ == Seq::<Seq<u8>>::empty(),
    {
        EntryPath { pieces: Vec::new() }
    }

    /// The path that consists of `root` alone.
    pub fn from_root(root: &[u8]) -> (r: EntryPath)
        ensures
            r@ == seq![root@],
    {
        let mut pieces: Vec<Vec<u8>> = Vec::new();
        pieces.push(slice_to_vec(root));
        EntryPath { pieces }
    }

    /// The number of pieces.
    pub fn len(&self) -> (n: usize)
        ensures
            n == self@.len(),
    {
        self.pieces.len()
    }

    /// Appends one name.
    pub fn push(&mut self, name: &[u8])
        ensures
            final(self)@ == old(self)@.push(name@),
    {
        self.pieces.push(slice_to_vec(name));
    }

    /// A copy of this path.
    pub fn duplicate(&self) -> (r: EntryPath)
        ensures
            r@ == self@,
    {
        self.prefix(self.pieces.len())
    }

    /// The first `n` pieces of this path, or all of them where there are
    /// fewer.
    pub fn prefix(&self, n: usize) -> (r: EntryPath)
        ensures
            r@ == self@.take(
                if n <= self@.len() {
                    n as int
                } else {
                    self@.len() as int
                },
            ),
    {
        let end = if n <= self.pieces.len() {
            n
        } else {
            self.pieces.len()
        };
        let mut pieces: Vec<Vec<u8>> = Vec::new();
        let mut i: usize = 0;
        while i < end
            invariant
                i <= end <= self.pieces@.len(),
                pieces@.len() == i,
                forall|j: int| 0 <= j < i ==> pieces@[j]@ == self.pieces@[j]@,
            decreases end - i,
        {
            pieces.push(slice_to_vec(self.pieces[i].as_slice()));
            i += 1;
        }
        EntryPath { pieces }
    }

    /// This path with `name` appended.
    pub fn join(&self, name: &[u8]) -> (r: EntryPath)
        ensures
            r@ == self@.push(name@),
    {
        let mut r = self.duplicate();
        r.push(name);
        r
    }

    /// This path followed by the pieces of `tail`.
    pub fn concat(&self, tail: &EntryPath) -> (r: EntryPath)
        ensures
            r@ == self@ + tail@,
    {
        let mut r = self.duplicate();
        let mut i: usize = 0;
        while i < tail.pieces.len()
            invariant
                i <= tail@.len(),
                r@ == self@ + tail@.take(i as int),
            decreases tail@.len() - i,
        {
            r.push(tail.pieces[i].as_slice());
            i += 1;
        }
        r
    }

    /// The directory that holds the entry: this path without its last piece.
    /// The empty path has none.
    pub fn parent(&self) -> (r: Option<EntryPath>)
        ensures
            self@.len() == 0 ==> r is None,
            self@.len() > 0 ==> r is Some && r->0@ == self@.drop_last(),
    {
        let n = self.pieces.len();
        if n == 0 {
            None
        } else {
            Some(self.prefix(n - 1))
        }
    }
}

} // verus!
