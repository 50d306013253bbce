//! File events, and what each of them calls for.
use crate::path::{is_hashes_file, same_path, FilePath, PathView};
use vstd::prelude::*;

verus! {

/// What about a file was modified.
#[derive(Debug, Clone, Copy, PartialEq, Eq, Structural)]
pub enum ModifyKind {
    Any,
    Data,
    Metadata,
    Name,
    Other,
}

/// What happened.
#[derive(Debug, Clone, Copy, PartialEq, Eq, Structural)]
pub enum EventKind {
    Any,
    Access,
    Create,
    Modify(ModifyKind),
    Remove,
    Other,
}

/// Something that happened to files of the watched directory. With `rescan`, events may
/// have been missed.
pub struct WatchEvent {
    pub kind: EventKind,
    pub paths: Vec<FilePath>,
    pub rescan: bool,
}

/// What a row of paths holds.
pub open spec fn paths_view(paths: Seq<FilePath>) -> Seq<PathView> {
    paths.map_values(|p: FilePath| p@)
}

/// What an event calls for. Paths are given by their place in the event.
pub enum EventRoute {
    /// Nothing.
    Ignore,
    /// The whole directory has to be scanned again.
    Rescan,
    /// These paths have to be looked at: files there may be new or changed.
    Changes(Vec<usize>),
    /// What was at these paths is gone.
    Removals(Vec<usize>),
}

/// What an [`EventRoute`] holds.
pub enum RouteView {
    Ignore,
    Rescan,
    Changes(Seq<usize>),
    Removals(Seq<usize>),
}

impl View for EventRoute {
    type V = RouteView;

    open spec fn view(&self) -> RouteView {
        match *self {
            EventRoute::Ignore => RouteView::Ignore,
            EventRoute::Rescan => RouteView::Rescan,
            EventRoute::Changes(places) => RouteView::Changes(places@),
            EventRoute::Removals(places) => RouteView::Removals(places@),
        }
    }
}

/// The numbers below `n`.
pub open spec fn places(n: nat) -> Seq<usize> {
    Seq::new(n, |i: int| i as usize)
}

/// Every one of the numbers is below `n`.
pub open spec fn all_below(numbers: Seq<usize>, n: nat) -> bool {
    forall|j: int| 0 <= j < numbers.len() ==> (#[trigger] numbers[j]) < n
}

/// The places of all paths but the record file.
pub open spec fn watched_places(paths: Seq<PathView>, hashes_path: PathView) -> Seq<usize> {
    places(paths.len()).filter(|i: usize| !same_path(paths[i as int], hashes_path))
}

/// The event is about nothing but the record file.
pub open spec fn only_record_file(paths: Seq<PathView>, hashes_path: PathView) -> bool {
    forall|i: int| 0 <= i < paths.len() ==> same_path(#[trigger] paths[i], hashes_path)
}

/// What an event calls for. Where events may have been missed, a scan; nothing, where the
/// event is about the record file alone; a scan, where something was given another name.
pub open spec fn route_of(
    kind: EventKind,
    paths: Seq<PathView>,
    rescan: bool,
    hashes_path: PathView,
) -> RouteView {
    if rescan {
        RouteView::Rescan
    } else if only_record_file(paths, hashes_path) {
        RouteView::Ignore
    } else {
        match kind {
            EventKind::Modify(ModifyKind::Name) => RouteView::Rescan,
            EventKind::Create | EventKind::Modify(_) => RouteView::Changes(
                watched_places(paths, hashes_path),
            ),
            EventKind::Remove => RouteView::Removals(watched_places(paths, hashes_path)),
            _ => RouteView::Ignore,
        }
    }
}

/// The places of all paths of an event but the record file.
fn find_watched(paths: &Vec<FilePath>, hashes_path: &FilePath) -> (r: Vec<usize>)
    ensures
        r@ == watched_places(paths_view(paths@), hashes_path@),
        r@.len() == 0 <==> only_record_file(paths_view(paths@), hashes_path@),
        all_below(r@, paths@.len()),
{
    let ghost all = paths_view(paths@);
    let ghost pred = |i: usize| !same_path(all[i as int], hashes_path@);
    let ghost row = places(all.len());
    let mut found: Vec<usize> = Vec::new();
    let mut i: usize = 0;
    proof {
        reveal(Seq::filter);
        assert(row.take(0).filter(pred) =~= Seq::<usize>::empty());
    }
    while i < paths.len()
        invariant
            i <= paths@.len(),
            all == paths_view(paths@),
            row == places(all.len()),
            pred == (|i: usize| !same_path(all[i as int], hashes_path@)),
            found@ == row.take(i as int).filter(pred),
            found@.len() == 0 <==> (forall|j: int|
                0 <= j < i ==> same_path(#[trigger] all[j], hashes_path@)),
            all_below(found@, i as nat),
        decreases paths@.len() - i,
    {
        proof {
            assert(row.take(i + 1) =~= row.take(i as int).push(i));
            row.take(i as int).lemma_filter_push(i, pred);
            assert(all[i as int] == paths@[i as int]@);
        }
        if !is_hashes_file(&paths[i], hashes_path) {
            found.push(i);
        }
        i = i + 1;
    }
    assert(row.take(i as int) =~= row);
    found
}

/// Decides what an event calls for.
///
/// The places that it names are places of the event.
pub fn route_event(event: &WatchEvent, hashes_path: &FilePath) -> (r: EventRoute)
    ensures
        r@ == route_of(event.kind, paths_view(event.paths@), event.rescan, hashes_path@),
        match r@ {
            RouteView::Changes(places) => all_below(places, event.paths@.len()),
            RouteView::Removals(places) => all_below(places, event.paths@.len()),
            _ => true,
        },
{
    if event.rescan {
        return EventRoute::Rescan;
    }
    let watched = find_watched(&event.paths, hashes_path);
    if watched.len() == 0 {
        return EventRoute::Ignore;
    }
    match event.kind {
        EventKind::Modify(ModifyKind::Name) => EventRoute::Rescan,
        EventKind::Create | EventKind::Modify(_) => EventRoute::Changes(watched),
        EventKind::Remove => EventRoute::Removals(watched),
        _ => EventRoute::Ignore,
    }
}

/// The record file is never looked at, and every other path of the event is: the monitor
/// does not answer its own writing, and overlooks nothing else.
pub proof fn law_record_file_is_never_looked_at(paths: Seq<PathView>, hashes_path: PathView)
    requires
        paths.len() <= usize::MAX,
    ensures
        forall|i: int|
            0 <= i < paths.len() ==> (watched_places(paths, hashes_path).contains(i as usize)
                <==> !same_path(#[trigger] paths[i], hashes_path)),
        all_below(watched_places(paths, hashes_path), paths.len()),
{
    let row = places(paths.len());
    let pred = |i: usize| !same_path(paths[i as int], hashes_path);
    let found = row.filter(pred);
    assert forall|i: int| 0 <= i < paths.len() implies (found.contains(i as usize)
        <==> !same_path(#[trigger] paths[i], hashes_path)) by {
        assert(row[i] == i as usize);
        if pred(i as usize) {
            row.lemma_filter_contains(pred, i);
        }
        if found.contains(i as usize) {
            let j = choose|j: int| 0 <= j < found.len() && found[j] == i as usize;
            row.lemma_filter_pred(pred, j);
        }
    }
    assert forall|j: int| 0 <= j < found.len() implies (#[trigger] found[j]) < paths.len() by {
        assert(found.contains(found[j]));
        row.lemma_filter_contains_rev(pred, found[j]);
    }
}

} // verus!
