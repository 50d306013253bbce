//! What a scan asks for and what it finds, told over the directories and files themselves.
use crate::digest::hash_of;
use crate::path::{key_of, same_path, PathView};
use crate::scan::{
    wanted, wanted_entries, EntryView, ScanRequest, ScanView,
};
use vstd::prelude::*;

verus! {

/// What stands on the disk at a handle: how a listing shows it, the handles of what is
/// directly below it if it is a directory, and what it holds if it is a file.
pub struct DiskNode {
    pub entry: EntryView,
    pub children: Seq<usize>,
    pub resolved: Option<Seq<char>>,
    pub contents: Seq<u8>,
}

/// A scan asks for the first thing that it has still to take up: for the entries of a
/// directory, for the contents of anything else, and for nothing once there is nothing left.
pub proof fn law_scan_asks_for_the_first_entry(scan: ScanView)
    ensures
        scan.todo.len() == 0 <==> scan.request() is Nothing,
        scan.todo.len() > 0 && scan.todo[0].kind is Directory ==> scan.request()
            == ScanRequest::List(scan.todo[0].handle),
        scan.todo.len() > 0 && !(scan.todo[0].kind is Directory) ==> scan.request()
            == ScanRequest::Read(scan.todo[0].handle),
{
}

/// The entries of a directory take its place, in their order, all directories and files but
/// the record file. Nothing else about the scan changes.
pub proof fn law_listing_takes_the_place_of_its_directory(
    scan: ScanView,
    first: EntryView,
    rest: Seq<EntryView>,
)
    ensures
        scan.listed(Seq::<EntryView>::empty()).todo == scan.todo.skip(1),
        scan.listed(seq![first] + rest).todo == (if first.path.parts != scan.hashes_path.parts && (
        first.kind is Directory || first.kind is File) {
            seq![first]
        } else {
            Seq::<EntryView>::empty()
        }) + scan.listed(rest).todo,
        scan.listed(rest).table == scan.table,
        scan.listed(rest).hashes_path == scan.hashes_path,
{
    let pred = |e: EntryView| wanted(e, scan.hashes_path);
    reveal(Seq::filter);
    assert(wanted_entries(Seq::<EntryView>::empty(), scan.hashes_path) =~= Seq::<
        EntryView,
    >::empty());
    assert(scan.listed(Seq::<EntryView>::empty()).todo =~= scan.todo.skip(1));
    rest.lemma_filter_prepend(first, pred);
    assert(scan.listed(seq![first] + rest).todo =~= (if wanted(first, scan.hashes_path) {
        seq![first]
    } else {
        Seq::<EntryView>::empty()
    }) + scan.listed(rest).todo);
}

/// What a file holds is entered, as the hash of all of it, under the text of its resolved
/// path, or of its own where it could not be resolved. Nothing else about the scan changes.
pub proof fn law_contents_are_entered(
    scan: ScanView,
    resolved: Option<Seq<char>>,
    contents: Seq<u8>,
)
    ensures
        scan.read(resolved, contents).todo == scan.todo.skip(1),
        scan.read(resolved, contents).hashes_path == scan.hashes_path,
        scan.read(resolved, contents).table == scan.table.insert(
            match resolved {
                Some(text) => text,
                None => scan.todo[0].path.text,
            },
            hash_of(contents),
        ),
{
}

/// The listing of a directory on the disk.
spec fn listing_at(disk: Map<usize, DiskNode>, handle: usize) -> Seq<EntryView> {
    Seq::new(
        disk[handle].children.len(),
        |j: int| disk[disk[handle].children[j]].entry,
    )
}

/// One step of a scan that is told what is on the disk.
spec fn truthful_step(disk: Map<usize, DiskNode>, now: ScanView, next: ScanView) -> bool {
    match now.request() {
        ScanRequest::List(handle) => next == now.listed(listing_at(disk, handle)),
        ScanRequest::Read(handle) => next == now.read(disk[handle].resolved, disk[handle].contents),
        ScanRequest::Nothing => false,
    }
}

/// The states of a scan that starts at a directory and is told at each step what is on the
/// disk.
spec fn truthful_run(disk: Map<usize, DiskNode>, root: usize, run: Seq<ScanView>) -> bool {
    &&& run.len() > 0
    &&& disk.contains_key(root)
    &&& forall|h: usize| #[trigger]
        disk.contains_key(h) ==> disk[h].entry.handle == h && (forall|j: int|
            0 <= j < disk[h].children.len() ==> disk.contains_key(#[trigger] disk[h].children[j]))
    &&& disk[root].entry.kind is Directory
    &&& run[0].todo == seq![disk[root].entry]
    &&& run[0].table == Map::<Seq<char>, Seq<char>>::empty()
    &&& forall|i: int, j: int|
        0 <= i && j == i + 1 && j < run.len() ==> truthful_step(
            disk,
            #[trigger] run[i],
            #[trigger] run[j],
        )
}

/// A way down from the root to something on the disk, from directory to directory, that does
/// not lead through the record file.
spec fn way_down(
    disk: Map<usize, DiskNode>,
    root: usize,
    hashes_path: PathView,
    way: Seq<usize>,
) -> bool {
    &&& way.len() > 0
    &&& way[0] == root
    &&& forall|i: int| 0 <= i < way.len() - 1 ==> disk[#[trigger] way[i]].entry.kind is Directory
    &&& forall|i: int, j: int|
        0 <= i && j == i + 1 && j < way.len() ==> disk[#[trigger] way[i]].children.contains(
            #[trigger] way[j],
        )
    &&& forall|i: int|
        0 < i < way.len() ==> disk[#[trigger] way[i]].entry.path.parts != hashes_path.parts
}

/// A scan never takes another file for the record file.
proof fn lemma_record_stays(
    disk: Map<usize, DiskNode>,
    root: usize,
    run: Seq<ScanView>,
    n: int,
)
    requires
        truthful_run(disk, root, run),
        0 <= n < run.len(),
    ensures
        run[n].hashes_path == run[0].hashes_path,
    decreases n,
{
    if n > 0 {
        lemma_record_stays(disk, root, run, n - 1);
        assert(truthful_step(disk, run[n - 1], run[n]));
    }
}

/// What is on a way down is on the disk.
proof fn lemma_way_is_on_disk(
    disk: Map<usize, DiskNode>,
    root: usize,
    run: Seq<ScanView>,
    way: Seq<usize>,
    n: int,
)
    requires
        truthful_run(disk, root, run),
        way_down(disk, root, run[0].hashes_path, way),
        0 <= n < way.len(),
    ensures
        disk.contains_key(way[n]),
    decreases n,
{
    if n > 0 {
        let up = n - 1;
        lemma_way_is_on_disk(disk, root, run, way, up);
        assert(disk[way[up]].children.contains(way[n]));
        let children = disk[way[up]].children;
        let j = choose|j: int| 0 <= j < children.len() && #[trigger] children[j] == way[n];
        assert(disk.contains_key(disk[way[up]].children[j]));
    }
}

/// What is wanted of a listing comes to be taken up.
proof fn lemma_listed_contains(scan: ScanView, entries: Seq<EntryView>, j: int)
    requires
        0 <= j < entries.len(),
        entries[j].path.parts != scan.hashes_path.parts,
        !(entries[j].kind is Other),
    ensures
        scan.listed(entries).todo.contains(entries[j]),
{
    let pred = |e: EntryView| wanted(e, scan.hashes_path);
    assert(pred(entries[j]));
    entries.lemma_filter_contains(pred, j);
    let kept = wanted_entries(entries, scan.hashes_path);
    let i = choose|i: int| 0 <= i < kept.len() && kept[i] == entries[j];
    assert(scan.listed(entries).todo[i] == entries[j]);
}

/// At every step of a scan, a file to which a way leads is in the table, or something on the
/// way to it is still to be taken up: its place on the way is returned.
proof fn lemma_way_is_followed(
    disk: Map<usize, DiskNode>,
    root: usize,
    run: Seq<ScanView>,
    way: Seq<usize>,
    n: int,
) -> (at: int)
    requires
        truthful_run(disk, root, run),
        way_down(disk, root, run[0].hashes_path, way),
        disk[way.last()].entry.kind is File,
        0 <= n < run.len(),
    ensures
        run[n].table.contains_key(
            key_of(disk[way.last()].entry.path, disk[way.last()].resolved),
        ) || (0 <= at < way.len() && run[n].todo.contains(disk[way[at]].entry)),
    decreases n,
{
    let key = key_of(disk[way.last()].entry.path, disk[way.last()].resolved);
    if n == 0 {
        assert(run[0].todo[0] == disk[way[0]].entry);
        0
    } else {
        let now = run[n - 1];
        let next = run[n];
        let at = lemma_way_is_followed(disk, root, run, way, n - 1);
        lemma_record_stays(disk, root, run, n - 1);
        assert(truthful_step(disk, now, next));
        if now.table.contains_key(key) {
            at
        } else {
            let entry = disk[way[at]].entry;
            lemma_way_is_on_disk(disk, root, run, way, at);
            let p = choose|p: int| 0 <= p < now.todo.len() && now.todo[p] == entry;
            let rest = now.todo.skip(1);
            if p > 0 {
                assert(rest[p - 1] == entry);
                if now.request() is List {
                    let entries = listing_at(disk, now.todo[0].handle);
                    let kept = wanted_entries(entries, now.hashes_path);
                    assert(next.todo[kept.len() + p - 1] == entry);
                } else {
                    assert(next.todo[p - 1] == entry);
                }
                at
            } else if at == way.len() - 1 {
                assert(now.request() == ScanRequest::Read(way[at]));
                at
            } else {
                let down = at + 1;
                assert(disk[way[at]].children.contains(way[down]));
                let children = disk[way[at]].children;
                let j = choose|j: int|
                    0 <= j < children.len() && #[trigger] children[j] == way[down];
                let entries = listing_at(disk, way[at]);
                assert(entries[j] == disk[way[down]].entry);
                assert(now.request() == ScanRequest::List(way[at]));
                assert(!(disk[way[down]].entry.kind is Other)) by {
                    if down < way.len() - 1 {
                        let below = down + 1;
                        assert(disk[way[below]].entry.handle == way[below]);
                        assert(disk[way[down]].entry.kind is Directory);
                    }
                }
                lemma_listed_contains(now, entries, j);
                down
            }
        }
    }
}

/// A complete scan has found every file below the directory, however deep: if a way leads to
/// the file from the root, each thing on it directly below the one before, and nothing on it
/// below the root is at the path of the record file, then the file is in the table.
pub proof fn law_complete_scan_misses_no_file(
    disk: Map<usize, DiskNode>,
    root: usize,
    run: Seq<ScanView>,
    way: Seq<usize>,
)
    requires
        disk.contains_key(root),
        forall|h: usize| #[trigger]
            disk.contains_key(h) ==> disk[h].entry.handle == h && (forall|j: int|
                0 <= j < disk[h].children.len() ==> disk.contains_key(
                    #[trigger] disk[h].children[j],
                )),
        run.len() > 0,
        disk[root].entry.kind is Directory,
        run[0].todo == seq![disk[root].entry],
        run[0].table == Map::<Seq<char>, Seq<char>>::empty(),
        forall|i: int, j: int|
            #![trigger run[i], run[j]]
            0 <= i && j == i + 1 && j < run.len() ==> match run[i].request() {
                ScanRequest::List(handle) => run[j] == run[i].listed(
                    Seq::new(
                        disk[handle].children.len(),
                        |k: int| disk[disk[handle].children[k]].entry,
                    ),
                ),
                ScanRequest::Read(handle) => run[j] == run[i].read(
                    disk[handle].resolved,
                    disk[handle].contents,
                ),
                ScanRequest::Nothing => false,
            },
        run.last().todo.len() == 0,
        way.len() > 0,
        way[0] == root,
        forall|i: int|
            0 <= i < way.len() - 1 ==> disk[#[trigger] way[i]].entry.kind is Directory,
        forall|i: int, j: int|
            0 <= i && j == i + 1 && j < way.len() ==> disk[#[trigger] way[i]].children.contains(
                #[trigger] way[j],
            ),
        forall|i: int|
            0 < i < way.len() ==> disk[#[trigger] way[i]].entry.path.parts
                != run[0].hashes_path.parts,
        disk[way.last()].entry.kind is File,
    ensures
        run.last().table.contains_key(
            match disk[way.last()].resolved {
                Some(text) => text,
                None => disk[way.last()].entry.path.text,
            },
        ),
{
    assert forall|i: int, j: int| 0 <= i && j == i + 1 && j < run.len() implies truthful_step(
        disk,
        #[trigger] run[i],
        #[trigger] run[j],
    ) by {
        if let ScanRequest::List(handle) = run[i].request() {
            assert(listing_at(disk, handle) =~= Seq::new(
                disk[handle].children.len(),
                |k: int| disk[disk[handle].children[k]].entry,
            ));
        }
    }
    let at = lemma_way_is_followed(disk, root, run, way, run.len() - 1);
}

/// A way to each thing that a scan has still to take up.
proof fn lemma_way_to_pending(
    disk: Map<usize, DiskNode>,
    root: usize,
    run: Seq<ScanView>,
    n: int,
    p: int,
) -> (way: Seq<usize>)
    requires
        truthful_run(disk, root, run),
        0 <= n < run.len(),
        0 <= p < run[n].todo.len(),
    ensures
        way_down(disk, root, run[0].hashes_path, way),
        disk.contains_key(way.last()),
        run[n].todo[p] == disk[way.last()].entry,
        !(run[n].todo[p].kind is Other),
    decreases n,
{
    if n == 0 {
        seq![root]
    } else {
        let now = run[n - 1];
        lemma_record_stays(disk, root, run, n - 1);
        assert(truthful_step(disk, now, run[n]));
        if now.request() is Read {
            assert(run[n].todo[p] == now.todo[p + 1]);
            lemma_way_to_pending(disk, root, run, n - 1, p + 1)
        } else {
            let entries = listing_at(disk, now.todo[0].handle);
            let kept = wanted_entries(entries, now.hashes_path);
            if p >= kept.len() {
                assert(run[n].todo[p] == now.todo[p - kept.len() + 1]);
                lemma_way_to_pending(disk, root, run, n - 1, p - kept.len() + 1)
            } else {
                let up = lemma_way_to_pending(disk, root, run, n - 1, 0);
                let dir = up.last();
                assert(now.todo[0].handle == dir);
                let pred = |e: EntryView| wanted(e, now.hashes_path);
                entries.lemma_filter_pred(pred, p);
                assert(kept.contains(kept[p]));
                entries.lemma_filter_contains_rev(pred, kept[p]);
                let j = choose|j: int| 0 <= j < entries.len() && entries[j] == kept[p];
                let child = disk[dir].children[j];
                assert(disk[dir].children.contains(child));
                assert(entries[j] == disk[child].entry);
                let way = up.push(child);
                assert forall|i: int| 0 <= i < way.len() - 1 implies disk[
                    #[trigger] way[i]
                ].entry.kind is Directory by {
                    if i < up.len() - 1 {
                        assert(up[i] == way[i]);
                    } else {
                        assert(way[i] == dir);
                    }
                }
                assert forall|i: int, k: int|
                    0 <= i && k == i + 1 && k < way.len() implies disk[
                    #[trigger] way[i]
                ].children.contains(#[trigger] way[k]) by {
                    if k < up.len() {
                        assert(up[i] == way[i] && up[k] == way[k]);
                    } else {
                        assert(way[i] == dir);
                    }
                }
                assert forall|i: int| 0 < i < way.len() implies disk[
                    #[trigger] way[i]
                ].entry.path.parts != run[0].hashes_path.parts by {
                    if i < up.len() {
                        assert(up[i] == way[i]);
                    }
                }
                way
            }
        }
    }
}

/// A way to each file that a scan has found.
proof fn lemma_way_to_found(
    disk: Map<usize, DiskNode>,
    root: usize,
    run: Seq<ScanView>,
    n: int,
    key: Seq<char>,
) -> (way: Seq<usize>)
    requires
        truthful_run(disk, root, run),
        0 <= n < run.len(),
        run[n].table.contains_key(key),
    ensures
        way_down(disk, root, run[0].hashes_path, way),
        disk[way.last()].entry.kind is File,
        key == key_of(disk[way.last()].entry.path, disk[way.last()].resolved),
        run[n].table[key] == hash_of(disk[way.last()].contents),
    decreases n,
{
    let now = run[n - 1];
    assert(n > 0);
    assert(truthful_step(disk, now, run[n]));
    if now.request() is Read {
        let way = lemma_way_to_pending(disk, root, run, n - 1, 0);
        let file = way.last();
        assert(now.todo[0].handle == file);
        if key == key_of(disk[file].entry.path, disk[file].resolved) {
            way
        } else {
            lemma_way_to_found(disk, root, run, n - 1, key)
        }
    } else {
        lemma_way_to_found(disk, root, run, n - 1, key)
    }
}

/// A scan finds nothing but the files below the directory: for each entry of its table a way
/// leads from the root to a file with that text, each thing on the way directly below the
/// one before and none of them below the root at the path of the record file, and the entry
/// is the hash of what that file holds. The way is returned.
pub proof fn law_scan_finds_only_files_below(
    disk: Map<usize, DiskNode>,
    root: usize,
    run: Seq<ScanView>,
    key: Seq<char>,
) -> (way: Seq<usize>)
    requires
        disk.contains_key(root),
        forall|h: usize| #[trigger]
            disk.contains_key(h) ==> disk[h].entry.handle == h && (forall|j: int|
                0 <= j < disk[h].children.len() ==> disk.contains_key(
                    #[trigger] disk[h].children[j],
                )),
        run.len() > 0,
        disk[root].entry.kind is Directory,
        run[0].todo == seq![disk[root].entry],
        run[0].table == Map::<Seq<char>, Seq<char>>::empty(),
        forall|i: int, j: int|
            #![trigger run[i], run[j]]
            0 <= i && j == i + 1 && j < run.len() ==> match run[i].request() {
                ScanRequest::List(handle) => run[j] == run[i].listed(
                    Seq::new(
                        disk[handle].children.len(),
                        |k: int| disk[disk[handle].children[k]].entry,
                    ),
                ),
                ScanRequest::Read(handle) => run[j] == run[i].read(
                    disk[handle].resolved,
                    disk[handle].contents,
                ),
                ScanRequest::Nothing => false,
            },
        run.last().table.contains_key(key),
    ensures
        way.len() > 0,
        way[0] == root,
        forall|i: int|
            0 <= i < way.len() - 1 ==> disk[#[trigger] way[i]].entry.kind is Directory,
        forall|i: int, j: int|
            0 <= i && j == i + 1 && j < way.len() ==> disk[#[trigger] way[i]].children.contains(
                #[trigger] way[j],
            ),
        forall|i: int|
            0 < i < way.len() ==> disk[#[trigger] way[i]].entry.path.parts
                != run[0].hashes_path.parts,
        disk[way.last()].entry.kind is File,
        key == (match disk[way.last()].resolved {
            Some(text) => text,
            None => disk[way.last()].entry.path.text,
        }),
        run.last().table[key] == hash_of(disk[way.last()].contents),
{
    assert forall|i: int, j: int| 0 <= i && j == i + 1 && j < run.len() implies truthful_step(
        disk,
        #[trigger] run[i],
        #[trigger] run[j],
    ) by {
        if let ScanRequest::List(handle) = run[i].request() {
            assert(listing_at(disk, handle) =~= Seq::new(
                disk[handle].children.len(),
                |k: int| disk[disk[handle].children[k]].entry,
            ));
        }
    }
    lemma_way_to_found(disk, root, run, run.len() - 1, key)
}

} // verus!
