//! Scanning a directory for the files below it.
use crate::digest::{all_hashes, calculate_hash, hash_of, is_hash};
use crate::path::{is_hashes_file, key_of, opt_text, path_key, same_path, FilePath, PathView};
use crate::table::HashTable;
use vstd::prelude::*;

verus! {

/// What a directory entry is, with symbolic links followed.
#[derive(Debug, Clone, Copy, PartialEq, Eq, Structural)]
pub enum EntryKind {
    Directory,
    File,
    Other,
}

/// An entry of a directory. The caller finds it again by its handle.
pub struct ScanEntry {
    pub handle: usize,
    pub path: FilePath,
    pub kind: EntryKind,
}

/// What a [`ScanEntry`] holds.
pub struct EntryView {
    pub handle: usize,
    pub path: PathView,
    pub kind: EntryKind,
}

impl View for ScanEntry {
    type V = EntryView;

    open spec fn view(&self) -> EntryView {
        EntryView { handle: self.handle, path: self.path@, kind: self.kind }
    }
}

/// What a row of entries holds.
pub open spec fn entries_view(entries: Seq<ScanEntry>) -> Seq<EntryView> {
    entries.map_values(|e: ScanEntry| e@)
}

/// What a scan needs to know next.
#[derive(Debug, Clone, Copy, PartialEq, Eq, Structural)]
pub enum ScanRequest {
    /// The entries of the directory with this handle.
    List(usize),
    /// The contents of the file with this handle.
    Read(usize),
    /// Nothing: the scan is complete.
    Nothing,
}

/// The answer to a [`ScanRequest`].
pub enum ScanReply {
    /// The entries of the directory.
    Listing(Vec<ScanEntry>),
    /// What the file holds, and the text of its resolved path if it could be resolved.
    Contents { resolved: Option<String>, contents: Vec<u8> },
    /// The directory or the file could not be read.
    Failed,
}

/// Why a scan could not go on.
#[derive(Debug, Clone, Copy, PartialEq, Eq, Structural)]
pub enum ScanError {
    /// A directory or a file could not be read.
    Failed,
    /// The answer was not one to what had been asked.
    Unexpected,
}

/// A scan takes this entry up: it is a directory or a file, and not the record file.
pub open spec fn wanted(entry: EntryView, hashes_path: PathView) -> bool {
    !same_path(entry.path, hashes_path) && !(entry.kind is Other)
}

/// The entries that a scan takes up, in their order.
pub open spec fn wanted_entries(entries: Seq<EntryView>, hashes_path: PathView) -> Seq<EntryView> {
    entries.filter(|e: EntryView| wanted(e, hashes_path))
}

/// A scan of all files below a directory. It asks for what it needs to know and goes on
/// with each answer.
pub struct DirectoryScan {
    hashes_path: FilePath,
    /// What is still to be taken up, the next one last.
    pending: Vec<ScanEntry>,
    hashes: HashTable,
}

/// The state of a scan: what is still to be taken up, the next one first, and what has
/// been found.
pub struct ScanView {
    pub hashes_path: PathView,
    pub todo: Seq<EntryView>,
    pub table: Map<Seq<char>, Seq<char>>,
}

impl View for DirectoryScan {
    type V = ScanView;

    closed spec fn view(&self) -> ScanView {
        ScanView {
            hashes_path: self.hashes_path@,
            todo: entries_view(self.pending@).reverse(),
            table: self.hashes@,
        }
    }
}

impl ScanView {
    /// What the scan needs to know next.
    pub open spec fn request(self) -> ScanRequest {
        if self.todo.len() == 0 {
            ScanRequest::Nothing
        } else if self.todo[0].kind is Directory {
            ScanRequest::List(self.todo[0].handle)
        } else {
            ScanRequest::Read(self.todo[0].handle)
        }
    }

    /// The scan after a directory has been listed: its entries come next.
    pub open spec fn listed(self, entries: Seq<EntryView>) -> ScanView {
        ScanView {
            todo: wanted_entries(entries, self.hashes_path) + self.todo.skip(1),
            ..self
        }
    }

    /// The scan after a file has been read: its hash is recorded.
    pub open spec fn read(self, resolved: Option<Seq<char>>, contents: Seq<u8>) -> ScanView {
        ScanView {
            todo: self.todo.skip(1),
            table: self.table.insert(key_of(self.todo[0].path, resolved), hash_of(contents)),
            ..self
        }
    }
}

/// Starts a scan of the directory with the given handle and path.
pub fn scan_directory(handle: usize, watch_dir: FilePath, hashes_path: FilePath) -> (r:
    DirectoryScan)
    ensures
        r@ == (ScanView {
            hashes_path: hashes_path@,
            todo: seq![EntryView { handle, path: watch_dir@, kind: EntryKind::Directory }],
            table: Map::empty(),
        }),
{
    let ghost root = EntryView { handle, path: watch_dir@, kind: EntryKind::Directory };
    let mut pending: Vec<ScanEntry> = Vec::new();
    pending.push(ScanEntry { handle, path: watch_dir, kind: EntryKind::Directory });
    let r = DirectoryScan { hashes_path, pending, hashes: HashTable::new() };
    assert(r@.todo =~= seq![root]);
    r
}

impl DirectoryScan {
    /// What has been found is recorded with hashes.
    #[verifier::type_invariant]
    closed spec fn hashed(self) -> bool {
        all_hashes(self.hashes@)
    }

    /// What the scan needs to know next.
    pub fn request(&self) -> (r: ScanRequest)
        ensures
            r == self@.request(),
    {
        let n: usize = self.pending.len();
        if n == 0 {
            ScanRequest::Nothing
        } else {
            assert(self@.todo[0] == self.pending@[n - 1]@);
            match self.pending[n - 1].kind {
                EntryKind::Directory => ScanRequest::List(self.pending[n - 1].handle),
                _ => ScanRequest::Read(self.pending[n - 1].handle),
            }
        }
    }

    /// Goes on with an answer. Where there is none, or not one to what was asked, the scan
    /// stays as it was.
    pub fn reply(&mut self, reply: ScanReply) -> (r: Result<(), ScanError>)
        ensures
            match reply {
                ScanReply::Failed => r == Err::<(), ScanError>(ScanError::Failed) && final(self)@
                    == old(self)@,
                ScanReply::Listing(entries) => if old(self)@.request() is List {
                    r is Ok && final(self)@ == old(self)@.listed(entries_view(entries@))
                } else {
                    r == Err::<(), ScanError>(ScanError::Unexpected) && final(self)@ == old(self)@
                },
                ScanReply::Contents { resolved, contents } => if old(self)@.request() is Read {
                    &&& r is Ok
                    &&& final(self)@ == old(self)@.read(opt_text(resolved), contents@)
                    &&& is_hash(hash_of(contents@))
                } else {
                    r == Err::<(), ScanError>(ScanError::Unexpected) && final(self)@ == old(self)@
                },
            },
    {
        match (self.request(), reply) {
            (_, ScanReply::Failed) => Err(ScanError::Failed),
            (ScanRequest::List(_), ScanReply::Listing(entries)) => {
                self.take_listing(entries);
                Ok(())
            },
            (ScanRequest::Read(_), ScanReply::Contents { resolved, contents }) => {
                self.take_contents(resolved, contents);
                Ok(())
            },
            _ => Err(ScanError::Unexpected),
        }
    }

    /// Puts the entries of the directory that was listed in its place.
    fn take_listing(&mut self, listing: Vec<ScanEntry>)
        requires
            old(self)@.todo.len() > 0,
        ensures
            final(self)@ == old(self)@.listed(entries_view(listing@)),
    {
        proof {
            use_type_invariant(&*self);
        }
        let mut entries = listing;
        let ghost all = entries_view(listing@);
        let ghost before = self@;
        let ghost hashes_path = self.hashes_path@;
        let ghost pred = |e: EntryView| wanted(e, hashes_path);
        let mut pending: Vec<ScanEntry> = Vec::new();
        std::mem::swap(&mut self.pending, &mut pending);
        let _ = pending.pop();
        proof {
            assert(entries_view(pending@).reverse() =~= before.todo.skip(1));
            assert(all.skip(all.len() as int) =~= seq![]);
            reveal(Seq::filter);
            assert(wanted_entries(seq![], hashes_path) + before.todo.skip(1)
                =~= before.todo.skip(1));
        }
        while entries.len() > 0
            invariant
                all == entries_view(listing@),
                entries@.len() <= listing@.len(),
                entries@ == listing@.take(entries@.len() as int),
                hashes_path == self.hashes_path@,
                hashes_path == before.hashes_path,
                self.hashes@ == before.table,
                all_hashes(before.table),
                entries_view(pending@).reverse() == wanted_entries(
                    all.skip(entries@.len() as int),
                    hashes_path,
                ) + before.todo.skip(1),
            decreases entries@.len(),
        {
            let ghost n = entries@.len() - 1;
            let ghost others = pending@;
            let entry = entries.pop().unwrap();
            proof {
                assert(entry == listing@[n]);
                assert(entries@ =~= listing@.take(n));
                assert(all.skip(n) =~= seq![all[n]] + all.skip(n + 1));
                lemma_wanted_first(all[n], all.skip(n + 1), hashes_path);
            }
            let keep = match entry.kind {
                EntryKind::Other => false,
                _ => !is_hashes_file(&entry.path, &self.hashes_path),
            };
            if keep {
                pending.push(entry);
                proof {
                    assert(entries_view(pending@).reverse() =~= seq![entry@] + entries_view(
                        others,
                    ).reverse());
                    assert(seq![entry@] + (wanted_entries(all.skip(n + 1), hashes_path)
                        + before.todo.skip(1)) =~= (seq![entry@] + wanted_entries(
                        all.skip(n + 1),
                        hashes_path,
                    )) + before.todo.skip(1));
                }
            }
        }
        assert(all.skip(0) =~= all);
        self.pending = pending;
    }

    /// Records the hash of the file that was read.
    fn take_contents(&mut self, resolved: Option<String>, contents: Vec<u8>)
        requires
            old(self)@.todo.len() > 0,
        ensures
            final(self)@ == old(self)@.read(opt_text(resolved), contents@),
            is_hash(hash_of(contents@)),
    {
        proof {
            use_type_invariant(&*self);
        }
        let ghost before = self@;
        let n: usize = self.pending.len();
        assert(before.todo[0] == self.pending@[n - 1]@);
        let mut pending: Vec<ScanEntry> = Vec::new();
        std::mem::swap(&mut self.pending, &mut pending);
        let entry = pending.pop().unwrap();
        assert(entries_view(pending@).reverse() =~= before.todo.skip(1));
        let key = path_key(&entry.path, resolved);
        let hash = calculate_hash(contents.as_slice());
        let mut hashes = HashTable::new();
        std::mem::swap(&mut self.hashes, &mut hashes);
        hashes.insert(key, hash);
        self.hashes = hashes;
        self.pending = pending;
    }

    /// What the scan has found, once it is complete.
    pub fn finish(self) -> (r: Option<HashTable>)
        ensures
            match r {
                Some(table) => {
                    &&& self@.request() is Nothing
                    &&& table@ == self@.table
                    &&& all_hashes(table@)
                },
                None => !(self@.request() is Nothing),
            },
    {
        proof {
            use_type_invariant(&self);
        }
        if self.pending.len() == 0 {
            Some(self.hashes)
        } else {
            None
        }
    }
}

/// An entry in front of others comes first of those that are wanted, if it is wanted.
proof fn lemma_wanted_first(first: EntryView, rest: Seq<EntryView>, hashes_path: PathView)
    ensures
        wanted_entries(seq![first] + rest, hashes_path) == (if wanted(first, hashes_path) {
            seq![first] + wanted_entries(rest, hashes_path)
        } else {
            wanted_entries(rest, hashes_path)
        }),
{
    let pred = |e: EntryView| wanted(e, hashes_path);
    rest.lemma_filter_prepend(first, pred);
    assert(Seq::<EntryView>::empty() + rest.filter(pred) =~= rest.filter(pred));
}

} // verus!
