//! Paths as the monitor sees them.
use vstd::prelude::*;

verus! {

/// The name of the record file, which stands in the watched directory itself.
pub const HASHES_FILENAME: &'static str = "hashes.txt";

/// A path of the file system: its text, with everything that is not Unicode replaced,
/// and its components, by which two paths are compared.
pub struct FilePath {
    pub text: String,
    pub parts: Vec<Vec<u8>>,
}

/// What a [`FilePath`] holds.
pub struct PathView {
    pub text: Seq<char>,
    pub parts: Seq<Seq<u8>>,
}

impl View for FilePath {
    type V = PathView;

    open spec fn view(&self) -> PathView {
        PathView { text: self.text@, parts: parts_view(self.parts@) }
    }
}

/// The bytes of each component.
pub open spec fn parts_view(parts: Seq<Vec<u8>>) -> Seq<Seq<u8>> {
    parts.map_values(|p: Vec<u8>| p@)
}

/// The text of an optional string.
pub open spec fn opt_text(o: Option<String>) -> Option<Seq<char>> {
    match o {
        Some(s) => Some(s@),
        None => None,
    }
}

/// Two paths are the same when their components are.
pub open spec fn same_path(a: PathView, b: PathView) -> bool {
    a.parts == b.parts
}

/// The text under which a file is recorded: that of its resolved path, or its own
/// where it could not be resolved.
pub open spec fn key_of(path: PathView, resolved: Option<Seq<char>>) -> Seq<char> {
    match resolved {
        Some(text) => text,
        None => path.text,
    }
}

/// Whether two components are the same.
fn same_bytes(a: &Vec<u8>, b: &Vec<u8>) -> (r: bool)
    ensures
        r == (a@ == b@),
{
    if a.len() != b.len() {
        return false;
    }
    let mut i: usize = 0;
    while i < a.len()
        invariant
            i <= a@.len(),
            a@.len() == b@.len(),
            forall|j: int| 0 <= j < i ==> a@[j] == b@[j],
        decreases a@.len() - i,
    {
        if a[i] != b[i] {
            return false;
        }
        i = i + 1;
    }
    assert(a@ =~= b@);
    true
}

/// Whether `path` is the record file. Only the record file itself is: a file of the same
/// name in another directory is not.
pub fn is_hashes_file(path: &FilePath, hashes_path: &FilePath) -> (r: bool)
    ensures
        r == same_path(path@, hashes_path@),
{
    let ghost a = parts_view(path.parts@);
    let ghost b = parts_view(hashes_path.parts@);
    if path.parts.len() != hashes_path.parts.len() {
        assert(a.len() != b.len());
        return false;
    }
    let mut i: usize = 0;
    while i < path.parts.len()
        invariant
            i <= path.parts@.len(),
            path.parts@.len() == hashes_path.parts@.len(),
            a == parts_view(path.parts@),
            b == parts_view(hashes_path.parts@),
            forall|j: int| 0 <= j < i ==> a[j] == b[j],
        decreases path.parts@.len() - i,
    {
        if !same_bytes(&path.parts[i], &hashes_path.parts[i]) {
            assert(a[i as int] != b[i as int]);
            return false;
        }
        i = i + 1;
    }
    assert(a =~= b);
    true
}

/// The text under which a file is recorded.
pub fn path_key(path: &FilePath, resolved: Option<String>) -> (r: String)
    ensures
        r@ == key_of(path@, opt_text(resolved)),
{
    match resolved {
        Some(text) => text,
        None => path.text.clone(),
    }
}

/// A file further down than the record file is never taken for it, whatever its name:
/// only the one in the watched directory itself is left out.
pub proof fn law_only_root_record_is_excluded(
    root: Seq<Seq<u8>>,
    below: Seq<Seq<u8>>,
    name: Seq<u8>,
    path: PathView,
    hashes_path: PathView,
)
    requires
        hashes_path.parts == root.push(name),
        path.parts == (root + below).push(name),
    ensures
        same_path(path, hashes_path) <==> below.len() == 0,
{
    if below.len() == 0 {
        assert(root + below =~= root);
    } else {
        assert(path.parts.len() != hashes_path.parts.len());
    }
}

} // verus!
