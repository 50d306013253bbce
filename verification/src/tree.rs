//! What a scan finds, told over the tree of the directory that is scanned.
use crate::digest::hash_of;
use crate::path::{key_of, same_path, PathView};
use crate::scan::{wanted, wanted_entries, EntryKind, EntryView, ScanRequest, ScanView};
use vstd::prelude::*;

verus! {

/// A directory with all that is below it, a file with its contents, or something else.
pub enum FsNode {
    Directory { handle: usize, path: PathView, children: Seq<FsNode> },
    File { handle: usize, path: PathView, resolved: Option<Seq<char>>, contents: Seq<u8> },
    Other { handle: usize, path: PathView },
}

impl FsNode {
    /// How a listing shows the node.
    pub open spec fn entry(self) -> EntryView {
        match self {
            FsNode::Directory { handle, path, .. } => EntryView {
                handle,
                path,
                kind: EntryKind::Directory,
            },
            FsNode::File { handle, path, .. } => EntryView { handle, path, kind: EntryKind::File },
            FsNode::Other { handle, path } => EntryView { handle, path, kind: EntryKind::Other },
        }
    }
}

/// How a listing shows a row of nodes.
pub open spec fn listing_of(nodes: Seq<FsNode>) -> Seq<EntryView> {
    nodes.map_values(|n: FsNode| n.entry())
}

/// The nodes that a scan takes up.
pub open spec fn wanted_nodes(nodes: Seq<FsNode>, hashes_path: PathView) -> Seq<FsNode> {
    nodes.filter(|n: FsNode| wanted(n.entry(), hashes_path))
}

/// The files among the nodes and below them, all but the record file: for each the text
/// under which it is recorded, and its hash.
pub open spec fn files_below(nodes: Seq<FsNode>, hashes_path: PathView) -> Seq<
    (Seq<char>, Seq<char>),
>
    decreases nodes,
{
    if nodes.len() == 0 {
        seq![]
    } else {
        let first = if same_path(nodes[0].entry().path, hashes_path) {
            seq![]
        } else {
            match nodes[0] {
                FsNode::Directory { children, .. } => files_below(children, hashes_path),
                FsNode::File { path, resolved, contents, .. } => seq![
                    (key_of(path, resolved), hash_of(contents)),
                ],
                FsNode::Other { .. } => seq![],
            }
        };
        first + files_below(nodes.subrange(1, nodes.len() as int), hashes_path)
    }
}

/// How many nodes there are, with all that is below them.
pub open spec fn node_count(nodes: Seq<FsNode>) -> nat
    decreases nodes,
{
    if nodes.len() == 0 {
        0
    } else {
        let below = match nodes[0] {
            FsNode::Directory { children, .. } => node_count(children),
            _ => 0,
        };
        1 + below + node_count(nodes.subrange(1, nodes.len() as int))
    }
}

/// A table after files have been recorded, one after the other.
pub open spec fn enter_files(
    table: Map<Seq<char>, Seq<char>>,
    files: Seq<(Seq<char>, Seq<char>)>,
) -> Map<Seq<char>, Seq<char>>
    decreases files.len(),
{
    if files.len() == 0 {
        table
    } else {
        enter_files(table.insert(files[0].0, files[0].1), files.skip(1))
    }
}

/// The scan has `nodes` still to take up, and with them it will have found `goal`.
pub open spec fn on_course(
    scan: ScanView,
    nodes: Seq<FsNode>,
    goal: Map<Seq<char>, Seq<char>>,
) -> bool {
    &&& scan.todo == listing_of(nodes)
    &&& forall|i: int|
        0 <= i < nodes.len() ==> wanted((#[trigger] nodes[i]).entry(), scan.hashes_path)
    &&& enter_files(scan.table, files_below(nodes, scan.hashes_path)) == goal
}

/// Files are recorded one after the other.
proof fn lemma_enter_files_joined(
    table: Map<Seq<char>, Seq<char>>,
    a: Seq<(Seq<char>, Seq<char>)>,
    b: Seq<(Seq<char>, Seq<char>)>,
)
    ensures
        enter_files(table, a + b) == enter_files(enter_files(table, a), b),
    decreases a.len(),
{
    if a.len() == 0 {
        assert(a + b =~= b);
    } else {
        assert((a + b).skip(1) =~= a.skip(1) + b);
        lemma_enter_files_joined(table.insert(a[0].0, a[0].1), a.skip(1), b);
    }
}

/// The files below two rows of nodes are those below the first and those below the second.
proof fn lemma_files_below_joined(a: Seq<FsNode>, b: Seq<FsNode>, hashes_path: PathView)
    ensures
        files_below(a + b, hashes_path) == files_below(a, hashes_path) + files_below(
            b,
            hashes_path,
        ),
    decreases a.len(),
{
    if a.len() == 0 {
        assert(a + b =~= b);
        assert(files_below(a, hashes_path) + files_below(b, hashes_path) =~= files_below(
            b,
            hashes_path,
        ));
    } else {
        let rest = a.subrange(1, a.len() as int);
        assert((a + b).subrange(1, (a + b).len() as int) =~= rest + b);
        lemma_files_below_joined(rest, b, hashes_path);
        assert(files_below(a + b, hashes_path) =~= files_below(a, hashes_path) + files_below(
            b,
            hashes_path,
        ));
    }
}

/// The nodes of two rows are counted together.
proof fn lemma_node_count_joined(a: Seq<FsNode>, b: Seq<FsNode>)
    ensures
        node_count(a + b) == node_count(a) + node_count(b),
    decreases a.len(),
{
    if a.len() == 0 {
        assert(a + b =~= b);
    } else {
        let rest = a.subrange(1, a.len() as int);
        assert((a + b).subrange(1, (a + b).len() as int) =~= rest + b);
        lemma_node_count_joined(rest, b);
    }
}

/// The nodes that a scan does not take up add no files, and leaving them out leaves no
/// more nodes than there were.
proof fn lemma_unwanted_nodes(nodes: Seq<FsNode>, hashes_path: PathView)
    ensures
        files_below(wanted_nodes(nodes, hashes_path), hashes_path) == files_below(
            nodes,
            hashes_path,
        ),
        listing_of(wanted_nodes(nodes, hashes_path)) == wanted_entries(
            listing_of(nodes),
            hashes_path,
        ),
        node_count(wanted_nodes(nodes, hashes_path)) <= node_count(nodes),
    decreases nodes.len(),
{
    reveal(Seq::filter);
    let pred = |n: FsNode| wanted(n.entry(), hashes_path);
    if nodes.len() > 0 {
        let front = nodes.drop_last();
        let last = nodes.last();
        lemma_unwanted_nodes(front, hashes_path);
        assert(nodes =~= front + seq![last]);
        assert(listing_of(nodes).drop_last() =~= listing_of(front));
        assert(seq![last].subrange(1, 1) =~= seq![]);
        lemma_files_below_joined(front, seq![last], hashes_path);
        lemma_node_count_joined(front, seq![last]);
        let kept = wanted_nodes(front, hashes_path);
        if pred(last) {
            assert(wanted_nodes(nodes, hashes_path) =~= kept + seq![last]);
            lemma_files_below_joined(kept, seq![last], hashes_path);
            lemma_node_count_joined(kept, seq![last]);
            assert(listing_of(kept + seq![last]) =~= listing_of(kept).push(last.entry()));
        } else {
            assert(files_below(Seq::<FsNode>::empty(), hashes_path) =~= seq![]);
            assert(files_below(seq![last], hashes_path) =~= seq![]);
            assert(files_below(front, hashes_path) + seq![] =~= files_below(front, hashes_path));
        }
    } else {
        assert(wanted_nodes(nodes, hashes_path) =~= nodes);
        assert(listing_of(nodes) =~= seq![]);
        assert(wanted_entries(listing_of(nodes), hashes_path) =~= seq![]);
    }
}

/// A scan that has just been started on a directory will find the files below it.
pub proof fn law_scan_starts(root: FsNode, scan: ScanView)
    requires
        root is Directory,
        !same_path(root.entry().path, scan.hashes_path),
        scan.todo == seq![root.entry()],
        scan.table == Map::<Seq<char>, Seq<char>>::empty(),
    ensures
        on_course(
            scan,
            seq![root],
            enter_files(Map::empty(), files_below(root->children, scan.hashes_path)),
        ),
{
    assert(seq![root].subrange(1, 1) =~= seq![]);
    assert(files_below(Seq::<FsNode>::empty(), scan.hashes_path) =~= seq![]);
    assert(files_below(seq![root], scan.hashes_path) =~= files_below(
        root->children,
        scan.hashes_path,
    ));
    assert(listing_of(seq![root]) =~= seq![root.entry()]);
}

/// A scan that is told truly what a directory holds goes on to the same end, and comes
/// nearer to it.
pub proof fn law_listing_keeps_course(
    scan: ScanView,
    nodes: Seq<FsNode>,
    goal: Map<Seq<char>, Seq<char>>,
)
    requires
        on_course(scan, nodes, goal),
        nodes.len() > 0,
        nodes[0] is Directory,
    ensures
        scan.request() == ScanRequest::List(nodes[0]->Directory_handle),
        on_course(
            scan.listed(listing_of(nodes[0]->children)),
            wanted_nodes(nodes[0]->children, scan.hashes_path) + nodes.skip(1),
            goal,
        ),
        node_count(wanted_nodes(nodes[0]->children, scan.hashes_path) + nodes.skip(1))
            < node_count(nodes),
{
    let hashes_path = scan.hashes_path;
    let children = nodes[0]->children;
    let kept = wanted_nodes(children, hashes_path);
    let rest = nodes.skip(1);
    assert(scan.todo[0] == nodes[0].entry());
    lemma_unwanted_nodes(children, hashes_path);
    lemma_files_below_joined(kept, rest, hashes_path);
    lemma_node_count_joined(kept, rest);
    assert(nodes.subrange(1, nodes.len() as int) =~= rest);
    assert(scan.listed(listing_of(children)).todo =~= listing_of(kept + rest));
    assert forall|i: int| 0 <= i < (kept + rest).len() implies wanted(
        (#[trigger] (kept + rest)[i]).entry(),
        hashes_path,
    ) by {
        if i < kept.len() {
            children.lemma_filter_pred(|n: FsNode| wanted(n.entry(), hashes_path), i);
        } else {
            assert((kept + rest)[i] == nodes[i - kept.len() + 1]);
        }
    }
}

/// A scan that is told truly what a file holds goes on to the same end, and comes nearer
/// to it.
pub proof fn law_contents_keep_course(
    scan: ScanView,
    nodes: Seq<FsNode>,
    goal: Map<Seq<char>, Seq<char>>,
)
    requires
        on_course(scan, nodes, goal),
        nodes.len() > 0,
        nodes[0] is File,
    ensures
        scan.request() == ScanRequest::Read(nodes[0]->File_handle),
        on_course(
            scan.read(nodes[0]->resolved, nodes[0]->contents),
            nodes.skip(1),
            goal,
        ),
        node_count(nodes.skip(1)) < node_count(nodes),
{
    let rest = nodes.skip(1);
    let next = scan.read(nodes[0]->resolved, nodes[0]->contents);
    let files = files_below(nodes, scan.hashes_path);
    assert(scan.todo[0] == nodes[0].entry());
    assert(nodes.subrange(1, nodes.len() as int) =~= rest);
    assert(files.skip(1) =~= files_below(rest, scan.hashes_path));
    assert(next.todo =~= listing_of(rest));
    assert forall|i: int| 0 <= i < rest.len() implies wanted(
        (#[trigger] rest[i]).entry(),
        scan.hashes_path,
    ) by {
        assert(rest[i] == nodes[i + 1]);
    }
}

/// A scan that asks for nothing more has found what it was to find.
pub proof fn law_scan_ends(
    scan: ScanView,
    nodes: Seq<FsNode>,
    goal: Map<Seq<char>, Seq<char>>,
)
    requires
        on_course(scan, nodes, goal),
        scan.request() is Nothing,
    ensures
        scan.table == goal,
{
    assert(nodes.len() == 0) by {
        if nodes.len() > 0 {
            assert(scan.todo[0] == nodes[0].entry());
        }
    }
}

/// What a scan is to find are all files below the directory but the record file, and
/// nothing else: each under its own text, with the hash of a file of that text.
pub proof fn law_scan_finds_all_files(
    nodes: Seq<FsNode>,
    hashes_path: PathView,
    table: Map<Seq<char>, Seq<char>>,
)
    requires
        table == enter_files(Map::empty(), files_below(nodes, hashes_path)),
    ensures
        forall|i: int|
            0 <= i < files_below(nodes, hashes_path).len() ==> table.contains_key(
                (#[trigger] files_below(nodes, hashes_path)[i]).0,
            ),
        forall|k: Seq<char>| #[trigger]
            table.contains_key(k) ==> files_below(nodes, hashes_path).contains((k, table[k])),
{
    lemma_entered(Map::empty(), files_below(nodes, hashes_path));
}

/// What is in a table after files have been recorded.
proof fn lemma_entered(
    start: Map<Seq<char>, Seq<char>>,
    files: Seq<(Seq<char>, Seq<char>)>,
)
    ensures
        forall|k: Seq<char>| #[trigger]
            start.contains_key(k) ==> enter_files(start, files).contains_key(k),
        forall|i: int|
            0 <= i < files.len() ==> enter_files(start, files).contains_key(
                (#[trigger] files[i]).0,
            ),
        forall|k: Seq<char>| #[trigger]
            enter_files(start, files).contains_key(k) ==> files.contains(
                (k, enter_files(start, files)[k]),
            ) || (start.contains_key(k) && enter_files(start, files)[k] == start[k]),
    decreases files.len(),
{
    if files.len() > 0 {
        let next = start.insert(files[0].0, files[0].1);
        let rest = files.skip(1);
        let done = enter_files(start, files);
        lemma_entered(next, rest);
        assert(next.contains_key(files[0].0));
        assert forall|i: int| 0 <= i < files.len() implies done.contains_key(
            (#[trigger] files[i]).0,
        ) by {
            if i > 0 {
                assert(rest[i - 1] == files[i]);
            }
        }
        assert forall|k: Seq<char>| #[trigger] start.contains_key(k) implies done.contains_key(
            k,
        ) by {
            assert(next.contains_key(k));
        }
        assert forall|k: Seq<char>| #[trigger] done.contains_key(k) implies files.contains(
            (k, done[k]),
        ) || (start.contains_key(k) && done[k] == start[k]) by {
            if rest.contains((k, done[k])) {
                let j = choose|j: int| 0 <= j < rest.len() && rest[j] == (k, done[k]);
                assert(files[j + 1] == (k, done[k]));
            } else if k == files[0].0 {
                assert(files[0] == (k, done[k]));
            }
        }
    }
}

} // verus!
