//! What events come to, told over plain values: paths, hashes, tables and texts.
use crate::digest::{hash_of, is_hash};
use crate::event::{
    all_below, law_record_file_is_never_looked_at, only_record_file, places, route_of,
    watched_places, EventKind, ModifyKind, RouteView,
};
use crate::laws::{law_rescan_reports_each_difference, reported_keys};
use crate::monitor::{
    are_timestamps, evidence_hashed, outcome_of, removed_at, seen_at, EvidenceView,
};
use crate::notice::{is_timestamp, JobView};
use crate::notice_laws::{law_change_is_told_line_by_line, law_notices_are_told_line_by_line};
use crate::path::{key_of, same_path, PathView};
use crate::plan::{
    after_changes, after_removals, all_hashed, all_readable, changed_keys, differs, found_hashed,
    gone_keys, hash_key_of, rescan_jobs, EventError, InspectionView, OutcomeView, RemovedView,
    SeenView,
};
use crate::record_laws::law_listing_names_each_file_once;
use vstd::prelude::*;

verus! {

/// Two paths are the same if all their components are. A file is recorded under the text of
/// its resolved path, or under its own where it could not be resolved. It differs from what
/// is recorded unless just its hash is recorded under that text.
pub proof fn law_files_are_known_by_path_and_hash(
    a: PathView,
    b: PathView,
    resolved: Seq<char>,
    table: Map<Seq<char>, Seq<char>>,
    key: Seq<char>,
    hash: Seq<char>,
)
    ensures
        same_path(a, b) <==> a.parts.len() == b.parts.len() && (forall|i: int|
            0 <= i < a.parts.len() ==> #[trigger] a.parts[i] == b.parts[i]),
        key_of(a, Some(resolved)) == resolved,
        key_of(a, None) == a.text,
        !differs(table, key, hash) <==> table.contains_key(key) && table[key] == hash,
{
    if a.parts.len() == b.parts.len() && (forall|i: int|
        0 <= i < a.parts.len() ==> #[trigger] a.parts[i] == b.parts[i]) {
        assert(a.parts =~= b.parts);
    }
}

/// A removed file is looked for under the text of its path, then under that of its resolved
/// path, and nowhere else.
pub proof fn law_removed_file_is_found_by_its_text(
    table: Map<Seq<char>, Seq<char>>,
    path: PathView,
    resolved: Option<Seq<char>>,
)
    ensures
        table.contains_key(path.text) ==> hash_key_of(table, path, resolved) == Some(path.text),
        !table.contains_key(path.text) ==> (resolved matches Some(text) ==> (table.contains_key(
            text,
        ) ==> hash_key_of(table, path, resolved) == Some(text))),
        !table.contains_key(path.text) && (resolved matches Some(text) ==> !table.contains_key(
            text,
        )) ==> hash_key_of(table, path, resolved) is None,
{
}

/// A row of numbers, each larger than the one before, keeps that when it is filtered.
proof fn lemma_filter_rises(row: Seq<usize>, pred: spec_fn(usize) -> bool)
    requires
        forall|i: int, j: int| 0 <= i < j < row.len() ==> row[i] < row[j],
    ensures
        forall|i: int, j: int|
            0 <= i < j < row.filter(pred).len() ==> row.filter(pred)[i] < row.filter(pred)[j],
    decreases row.len(),
{
    reveal(Seq::filter);
    if row.len() > 0 {
        let front = row.drop_last();
        let kept = front.filter(pred);
        lemma_filter_rises(front, pred);
        assert forall|i: int| 0 <= i < kept.len() implies #[trigger] kept[i] < row.last() by {
            assert(kept.contains(kept[i]));
            front.lemma_filter_contains_rev(pred, kept[i]);
            let j = choose|j: int| 0 <= j < front.len() && front[j] == kept[i];
            assert(row[j] < row[row.len() - 1]);
        }
    }
}

/// The places that an event names are those of all its paths but the record file, in their
/// order.
proof fn lemma_watched_places(paths: Seq<PathView>, hashes_path: PathView)
    requires
        paths.len() <= usize::MAX,
    ensures
        ({
            let named = watched_places(paths, hashes_path);
            &&& forall|i: int, j: int| 0 <= i < j < named.len() ==> named[i] < named[j]
            &&& forall|i: int|
                0 <= i < named.len() ==> #[trigger] named[i] < paths.len()
                    && paths[named[i] as int].parts != hashes_path.parts
            &&& forall|i: int|
                0 <= i < paths.len() && (#[trigger] paths[i]).parts != hashes_path.parts
                    ==> named.contains(i as usize)
        }),
{
    let named = watched_places(paths, hashes_path);
    law_record_file_is_never_looked_at(paths, hashes_path);
    lemma_filter_rises(
        places(paths.len()),
        |i: usize| !same_path(paths[i as int], hashes_path),
    );
    assert forall|i: int| 0 <= i < named.len() implies #[trigger] named[i] < paths.len()
        && paths[named[i] as int].parts != hashes_path.parts by {
        let k = named[i] as int;
        assert(all_below(named, paths.len()));
        assert(named.contains(k as usize));
        assert(!same_path(paths[k], hashes_path));
    }
    assert forall|i: int|
        0 <= i < paths.len() && (#[trigger] paths[i]).parts
            != hashes_path.parts implies named.contains(i as usize) by {
        assert(!same_path(paths[i], hashes_path));
    }
}

/// What an event calls for. Where events may have been missed, a scan, whatever else it
/// says. Otherwise, where all its paths are the record file, nothing. Otherwise a scan where
/// something was given another name, a look at the files where something was created or
/// modified, the removals where something was removed, and nothing else. What is looked at
/// are all paths but the record file, in their order.
pub proof fn law_event_calls_for(
    kind: EventKind,
    paths: Seq<PathView>,
    rescan: bool,
    hashes_path: PathView,
)
    requires
        paths.len() <= usize::MAX,
    ensures
        rescan ==> route_of(kind, paths, rescan, hashes_path) is Rescan,
        !rescan && (forall|i: int|
            0 <= i < paths.len() ==> (#[trigger] paths[i]).parts == hashes_path.parts) ==> route_of(
            kind,
            paths,
            rescan,
            hashes_path,
        ) is Ignore,
        !rescan && (exists|i: int|
            0 <= i < paths.len() && (#[trigger] paths[i]).parts != hashes_path.parts) ==> match kind {
            EventKind::Any => route_of(kind, paths, rescan, hashes_path) is Ignore,
            EventKind::Access => route_of(kind, paths, rescan, hashes_path) is Ignore,
            EventKind::Other => route_of(kind, paths, rescan, hashes_path) is Ignore,
            EventKind::Create => route_of(kind, paths, rescan, hashes_path) is Changes,
            EventKind::Modify(ModifyKind::Name) => route_of(
                kind,
                paths,
                rescan,
                hashes_path,
            ) is Rescan,
            EventKind::Modify(_) => route_of(kind, paths, rescan, hashes_path) is Changes,
            EventKind::Remove => route_of(kind, paths, rescan, hashes_path) is Removals,
        },
        route_of(kind, paths, rescan, hashes_path) matches RouteView::Changes(named) ==> ({
            &&& forall|i: int, j: int| 0 <= i < j < named.len() ==> named[i] < named[j]
            &&& forall|i: int|
                0 <= i < named.len() ==> #[trigger] named[i] < paths.len()
                    && paths[named[i] as int].parts != hashes_path.parts
            &&& forall|i: int|
                0 <= i < paths.len() && (#[trigger] paths[i]).parts != hashes_path.parts
                    ==> named.contains(i as usize)
        }),
        route_of(kind, paths, rescan, hashes_path) matches RouteView::Removals(named) ==> ({
            &&& forall|i: int, j: int| 0 <= i < j < named.len() ==> named[i] < named[j]
            &&& forall|i: int|
                0 <= i < named.len() ==> #[trigger] named[i] < paths.len()
                    && paths[named[i] as int].parts != hashes_path.parts
            &&& forall|i: int|
                0 <= i < paths.len() && (#[trigger] paths[i]).parts != hashes_path.parts
                    ==> named.contains(i as usize)
        }),
{
    lemma_watched_places(paths, hashes_path);
    if exists|i: int| 0 <= i < paths.len() && (#[trigger] paths[i]).parts != hashes_path.parts {
        let i = choose|i: int|
            0 <= i < paths.len() && (#[trigger] paths[i]).parts != hashes_path.parts;
        assert(!same_path(paths[i], hashes_path));
        assert(!only_record_file(paths, hashes_path));
    }
    if forall|i: int| 0 <= i < paths.len() ==> (#[trigger] paths[i]).parts == hashes_path.parts {
        assert forall|i: int| 0 <= i < paths.len() implies same_path(
            #[trigger] paths[i],
            hashes_path,
        ) by {}
    }
}

/// One path more in an event is looked at after the others. Where there is no file, nothing
/// comes of it. Where there is a file with the hash that stands in the table, nothing comes
/// of it either. Where there is a file with another hash, or one that is not in the table,
/// its hash is entered and one notification is added, with the time of that path.
pub proof fn law_each_path_takes_its_step(
    start: OutcomeView,
    seen: Seq<SeenView>,
    next: SeenView,
    to: Seq<char>,
    times: Seq<Seq<char>>,
)
    ensures
        after_changes(start, Seq::<SeenView>::empty(), to, times) == start,
        !(next.found is File) ==> after_changes(start, seen.push(next), to, times) == after_changes(
            start,
            seen,
            to,
            times,
        ),
        next.found matches InspectionView::File { resolved, contents } ==> ({
            let before = after_changes(start, seen, to, times);
            let after = after_changes(start, seen.push(next), to, times);
            let time = times[seen.len() as int];
            let hash = hash_of(contents);
            let key = match resolved {
                Some(text) => text,
                None => next.path.text,
            };
            if !before.table.contains_key(key) {
                &&& after.table == before.table.insert(key, hash)
                &&& after.emails == before.emails.push(
                    JobView {
                        to,
                        body: "檔案變動時間: "@ + time + ("\n路徑: "@ + key) + ("\n新的雜湊值: "@ + hash),
                    },
                )
            } else if before.table[key] != hash {
                &&& after.table == before.table.insert(key, hash)
                &&& after.emails == before.emails.push(
                    JobView {
                        to,
                        body: "檔案變動時間: "@ + time + ("\n路徑: "@ + key) + ("\n原始雜湊值: "@
                            + before.table[key]) + ("\n新的雜湊值: "@ + hash),
                    },
                )
            } else {
                after == before
            }
        }),
{
    let before = after_changes(start, seen, to, times);
    assert(seen.push(next).drop_last() =~= seen);
    assert(seen.push(next).last() == next);
    if let InspectionView::File { resolved, contents } = next.found {
        law_change_is_told_line_by_line(
            before.table,
            key_of(next.path, resolved),
            hash_of(contents),
            times[seen.len() as int],
        );
    }
}

/// One removed path more in an event is taken after the others. Where it is in the table, by
/// its own text or else by that of its resolved path, it leaves the table and one
/// notification is added, with the time of that path and the hash that the table had. Where
/// it is not, nothing comes of it.
pub proof fn law_each_removal_takes_its_step(
    start: OutcomeView,
    removed: Seq<RemovedView>,
    next: RemovedView,
    to: Seq<char>,
    times: Seq<Seq<char>>,
)
    ensures
        after_removals(start, Seq::<RemovedView>::empty(), to, times) == start,
        ({
            let before = after_removals(start, removed, to, times);
            let after = after_removals(start, removed.push(next), to, times);
            let time = times[removed.len() as int];
            let key = if before.table.contains_key(next.path.text) {
                next.path.text
            } else {
                match next.resolved {
                    Some(text) => text,
                    None => next.path.text,
                }
            };
            if before.table.contains_key(key) {
                &&& after.table == before.table.remove(key)
                &&& after.emails == before.emails.push(
                    JobView {
                        to,
                        body: "檔案刪除時間: "@ + time + ("\n路徑: "@ + key) + ("\n刪除前雜湊值: "@
                            + before.table[key]),
                    },
                )
            } else {
                after == before
            }
        }),
{
    let before = after_removals(start, removed, to, times);
    let time = times[removed.len() as int];
    assert(removed.push(next).drop_last() =~= removed);
    assert(removed.push(next).last() == next);
    if let Some(key) = hash_key_of(before.table, next.path, next.resolved) {
        law_notices_are_told_line_by_line(time, key, before.table[key], before.table[key]);
    }
}

/// What was seen at one place more stands behind what was seen at the others.
proof fn lemma_seen_at_push(
    paths: Seq<PathView>,
    named: Seq<usize>,
    place: usize,
    found: Seq<InspectionView>,
    next: InspectionView,
)
    requires
        found.len() == named.len(),
    ensures
        seen_at(paths, named.push(place), found.push(next)) == seen_at(paths, named, found).push(
            SeenView { path: paths[place as int], found: next },
        ),
{
    assert(seen_at(paths, named.push(place), found.push(next)) =~= seen_at(
        paths,
        named,
        found,
    ).push(SeenView { path: paths[place as int], found: next }));
}

/// What was removed at one place more stands behind what was removed at the others.
proof fn lemma_removed_at_push(
    paths: Seq<PathView>,
    named: Seq<usize>,
    place: usize,
    resolved: Seq<Option<Seq<char>>>,
    next: Option<Seq<char>>,
)
    requires
        resolved.len() == named.len(),
    ensures
        removed_at(paths, named.push(place), resolved.push(next)) == removed_at(
            paths,
            named,
            resolved,
        ).push(RemovedView { path: paths[place as int], resolved: next }),
{
    assert(removed_at(paths, named.push(place), resolved.push(next)) =~= removed_at(
        paths,
        named,
        resolved,
    ).push(RemovedView { path: paths[place as int], resolved: next }));
}

/// An event about created or modified files comes to something exactly if each of its files
/// could be read, and then grows path by path: one path more changes the table by at most
/// that file, and adds at most the notification about it.
pub proof fn law_change_event_grows_path_by_path(
    paths: Seq<PathView>,
    named: Seq<usize>,
    place: usize,
    current: Map<Seq<char>, Seq<char>>,
    current_keys: Seq<Seq<char>>,
    found: Seq<InspectionView>,
    next: InspectionView,
    to: Seq<char>,
    times: Seq<Seq<char>>,
)
    requires
        found.len() == named.len(),
    ensures
        outcome_of(
            RouteView::Changes(Seq::<usize>::empty()),
            paths,
            current,
            current_keys,
            EvidenceView::Inspected(Seq::<InspectionView>::empty()),
            to,
            times,
        ) == Ok::<OutcomeView, EventError>(
            OutcomeView { table: current, emails: Seq::<JobView>::empty() },
        ),
        ({
            let fewer = outcome_of(
                RouteView::Changes(named),
                paths,
                current,
                current_keys,
                EvidenceView::Inspected(found),
                to,
                times,
            );
            let more = outcome_of(
                RouteView::Changes(named.push(place)),
                paths,
                current,
                current_keys,
                EvidenceView::Inspected(found.push(next)),
                to,
                times,
            );
            match (fewer, next) {
                (Err(_), _) => more == Err::<OutcomeView, EventError>(EventError::Unreadable),
                (Ok(_), InspectionView::Unreadable) => more == Err::<OutcomeView, EventError>(
                    EventError::Unreadable,
                ),
                (Ok(_), InspectionView::NotAFile) => more == fewer,
                (Ok(before), InspectionView::File { resolved, contents }) => {
                    let time = times[named.len() as int];
                    let hash = hash_of(contents);
                    let key = match resolved {
                        Some(text) => text,
                        None => paths[place as int].text,
                    };
                    &&& more matches Ok(after)
                    &&& if !before.table.contains_key(key) {
                        &&& after.table == before.table.insert(key, hash)
                        &&& after.emails == before.emails.push(
                            JobView {
                                to,
                                body: "檔案變動時間: "@ + time + ("\n路徑: "@ + key) + ("\n新的雜湊值: "@
                                    + hash),
                            },
                        )
                    } else if before.table[key] != hash {
                        &&& after.table == before.table.insert(key, hash)
                        &&& after.emails == before.emails.push(
                            JobView {
                                to,
                                body: "檔案變動時間: "@ + time + ("\n路徑: "@ + key) + ("\n原始雜湊值: "@
                                    + before.table[key]) + ("\n新的雜湊值: "@ + hash),
                            },
                        )
                    } else {
                        after == before
                    }
                },
            }
        }),
{
    let start = OutcomeView { table: current, emails: seq![] };
    let seen = seen_at(paths, named, found);
    let all = seen_at(paths, named.push(place), found.push(next));
    let one = SeenView { path: paths[place as int], found: next };
    lemma_seen_at_push(paths, named, place, found, next);
    law_each_path_takes_its_step(start, seen, one, to, times);
    let none = seen_at(paths, Seq::<usize>::empty(), Seq::<InspectionView>::empty());
    assert(none =~= Seq::<SeenView>::empty());
    assert(all == seen.push(one));
    assert(all_readable(all) <==> all_readable(seen) && !(next is Unreadable)) by {
        if all_readable(all) {
            assert forall|i: int| 0 <= i < seen.len() implies !((
            #[trigger] seen[i]).found is Unreadable) by {
                assert(all[i] == seen[i]);
            }
            assert(!(all[seen.len() as int].found is Unreadable));
        }
    }
}

/// An event about removed files always comes to something, and grows path by path: one path
/// more takes at most that file out of the table, and adds at most the notification about
/// it.
pub proof fn law_removal_event_grows_path_by_path(
    paths: Seq<PathView>,
    named: Seq<usize>,
    place: usize,
    current: Map<Seq<char>, Seq<char>>,
    current_keys: Seq<Seq<char>>,
    resolved: Seq<Option<Seq<char>>>,
    next: Option<Seq<char>>,
    to: Seq<char>,
    times: Seq<Seq<char>>,
)
    requires
        resolved.len() == named.len(),
    ensures
        outcome_of(
            RouteView::Removals(Seq::<usize>::empty()),
            paths,
            current,
            current_keys,
            EvidenceView::Resolved(Seq::<Option<Seq<char>>>::empty()),
            to,
            times,
        ) == Ok::<OutcomeView, EventError>(
            OutcomeView { table: current, emails: Seq::<JobView>::empty() },
        ),
        ({
            let fewer = outcome_of(
                RouteView::Removals(named),
                paths,
                current,
                current_keys,
                EvidenceView::Resolved(resolved),
                to,
                times,
            );
            let more = outcome_of(
                RouteView::Removals(named.push(place)),
                paths,
                current,
                current_keys,
                EvidenceView::Resolved(resolved.push(next)),
                to,
                times,
            );
            &&& fewer matches Ok(before)
            &&& more matches Ok(after)
            &&& ({
                let time = times[named.len() as int];
                let key = if before.table.contains_key(paths[place as int].text) {
                    paths[place as int].text
                } else {
                    match next {
                        Some(text) => text,
                        None => paths[place as int].text,
                    }
                };
                if before.table.contains_key(key) {
                    &&& after.table == before.table.remove(key)
                    &&& after.emails == before.emails.push(
                        JobView {
                            to,
                            body: "檔案刪除時間: "@ + time + ("\n路徑: "@ + key) + ("\n刪除前雜湊值: "@
                                + before.table[key]),
                        },
                    )
                } else {
                    after == before
                }
            })
        }),
{
    let start = OutcomeView { table: current, emails: seq![] };
    let removed = removed_at(paths, named, resolved);
    let one = RemovedView { path: paths[place as int], resolved: next };
    lemma_removed_at_push(paths, named, place, resolved, next);
    law_each_removal_takes_its_step(start, removed, one, to, times);
    let none = removed_at(paths, Seq::<usize>::empty(), Seq::<Option<Seq<char>>>::empty());
    assert(none =~= Seq::<RemovedView>::empty());
}

/// After an event about created or modified files that could all be read, the table holds
/// for each file that was found the hash of what the last file found under its text holds.
/// What stands under a text under which nothing was found stays as it was.
pub proof fn law_found_files_are_in_the_table(
    paths: Seq<PathView>,
    named: Seq<usize>,
    current: Map<Seq<char>, Seq<char>>,
    current_keys: Seq<Seq<char>>,
    found: Seq<InspectionView>,
    to: Seq<char>,
    times: Seq<Seq<char>>,
    key: Seq<char>,
)
    requires
        found.len() == named.len(),
        forall|i: int| 0 <= i < found.len() ==> !(#[trigger] found[i] is Unreadable),
    ensures
        ({
            let named_file = |i: int|
                found[i] matches InspectionView::File { resolved, .. } && key == (match resolved {
                    Some(text) => text,
                    None => paths[named[i] as int].text,
                });
            let outcome = outcome_of(
                RouteView::Changes(named),
                paths,
                current,
                current_keys,
                EvidenceView::Inspected(found),
                to,
                times,
            );
            &&& outcome matches Ok(after)
            &&& forall|i: int| #[trigger]
                named_file(i) && 0 <= i < found.len() && (forall|j: int|
                    i < j < found.len() ==> !(#[trigger] named_file(j)))
                    ==> after.table.contains_key(key) && after.table[key] == hash_of(
                    found[i]->contents,
                )
            &&& (forall|i: int| 0 <= i < found.len() ==> !(#[trigger] named_file(i))) ==> (
            after.table.contains_key(key) <==> current.contains_key(key)) && (
            current.contains_key(key) ==> after.table[key] == current[key])
        }),
    decreases named.len(),
{
    let start = OutcomeView { table: current, emails: seq![] };
    let named_file = |i: int|
        found[i] matches InspectionView::File { resolved, .. } && key == (match resolved {
            Some(text) => text,
            None => paths[named[i] as int].text,
        });
    if named.len() == 0 {
        law_change_event_grows_path_by_path(
            paths,
            named,
            0,
            current,
            current_keys,
            found,
            InspectionView::NotAFile,
            to,
            times,
        );
        assert(named =~= Seq::<usize>::empty());
        assert(found =~= Seq::<InspectionView>::empty());
    } else {
        let n = named.len() - 1;
        let fewer = named.drop_last();
        let front = found.drop_last();
        let front_file = |i: int|
            front[i] matches InspectionView::File { resolved, .. } && key == (match resolved {
                Some(text) => text,
                None => paths[fewer[i] as int].text,
            });
        assert forall|i: int| 0 <= i < front.len() implies !(#[trigger] front[i] is Unreadable) by {
            assert(front[i] == found[i]);
        }
        law_found_files_are_in_the_table(
            paths,
            fewer,
            current,
            current_keys,
            front,
            to,
            times,
            key,
        );
        law_change_event_grows_path_by_path(
            paths,
            fewer,
            named.last(),
            current,
            current_keys,
            front,
            found.last(),
            to,
            times,
        );
        assert(fewer.push(named.last()) =~= named);
        assert(front.push(found.last()) =~= found);
        assert(found.last() == found[n]);
        assert forall|i: int| 0 <= i < n implies #[trigger] named_file(i) == front_file(i) by {
            assert(front[i] == found[i] && fewer[i] == named[i]);
        }
        let after = outcome_of(
            RouteView::Changes(named),
            paths,
            current,
            current_keys,
            EvidenceView::Inspected(found),
            to,
            times,
        )->Ok_0;
        assert forall|i: int| #[trigger]
            named_file(i) && 0 <= i < found.len() && (forall|j: int|
                i < j < found.len() ==> !(#[trigger] named_file(j)))
            implies after.table.contains_key(key) && after.table[key] == hash_of(
            found[i]->contents,
        ) by {
            if i < n {
                assert(!named_file(n));
                assert(front_file(i));
                assert forall|j: int| i < j < front.len() implies !(#[trigger] front_file(j)) by {
                    assert(named_file(j) == front_file(j));
                }
                assert(front[i] == found[i]);
            }
        }
        if forall|i: int| 0 <= i < found.len() ==> !(#[trigger] named_file(i)) {
            assert(!named_file(n));
            assert forall|i: int| 0 <= i < front.len() implies !(#[trigger] front_file(i)) by {
                assert(named_file(i) == front_file(i));
            }
        }
    }
}

/// Each file whose entry an event about created or modified files changed has a notification
/// to the given address, with the time of one of the paths, the path of the file and, at its
/// end, the hash that is now in the table; between them stands nothing, or the hash that was
/// there before.
pub proof fn law_changed_entries_are_reported(
    paths: Seq<PathView>,
    named: Seq<usize>,
    current: Map<Seq<char>, Seq<char>>,
    current_keys: Seq<Seq<char>>,
    found: Seq<InspectionView>,
    to: Seq<char>,
    times: Seq<Seq<char>>,
    key: Seq<char>,
) -> (r: (int, int, Seq<char>))
    requires
        found.len() == named.len(),
        outcome_of(
            RouteView::Changes(named),
            paths,
            current,
            current_keys,
            EvidenceView::Inspected(found),
            to,
            times,
        ) matches Ok(after) && after.table.contains_key(key) && !(current.contains_key(key)
            && current[key] == after.table[key]),
    ensures
        ({
            let after = outcome_of(
                RouteView::Changes(named),
                paths,
                current,
                current_keys,
                EvidenceView::Inspected(found),
                to,
                times,
            )->Ok_0;
            let (i, j, middle) = r;
            &&& 0 <= i < after.emails.len()
            &&& 0 <= j < named.len()
            &&& middle.len() == 0 || exists|old_hash: Seq<char>|
                middle == #[trigger] ("\n原始雜湊值: "@ + old_hash)
            &&& after.emails[i] == (JobView {
                to,
                body: "檔案變動時間: "@ + times[j] + ("\n路徑: "@ + key) + middle + ("\n新的雜湊值: "@
                    + after.table[key]),
            })
        }),
    decreases named.len(),
{
    law_change_event_grows_path_by_path(
        paths,
        Seq::<usize>::empty(),
        0,
        current,
        current_keys,
        Seq::<InspectionView>::empty(),
        InspectionView::NotAFile,
        to,
        times,
    );
    if named.len() == 0 {
        assert(named =~= Seq::<usize>::empty());
        assert(found =~= Seq::<InspectionView>::empty());
        (0, 0, seq![])
    } else {
        let n = named.len() - 1;
        let fewer = named.drop_last();
        let front = found.drop_last();
        law_change_event_grows_path_by_path(
            paths,
            fewer,
            named.last(),
            current,
            current_keys,
            front,
            found.last(),
            to,
            times,
        );
        assert(fewer.push(named.last()) =~= named);
        assert(front.push(found.last()) =~= found);
        let before = outcome_of(
            RouteView::Changes(fewer),
            paths,
            current,
            current_keys,
            EvidenceView::Inspected(front),
            to,
            times,
        )->Ok_0;
        let after = outcome_of(
            RouteView::Changes(named),
            paths,
            current,
            current_keys,
            EvidenceView::Inspected(found),
            to,
            times,
        )->Ok_0;
        if before.table.contains_key(key) && before.table[key] == after.table[key] {
            let (i, j, middle) = law_changed_entries_are_reported(
                paths,
                fewer,
                current,
                current_keys,
                front,
                to,
                times,
                key,
            );
            assert(after.emails[i] == before.emails[i]);
            (i, j, middle)
        } else {
            let i = before.emails.len() as int;
            if before.table.contains_key(key) {
                let middle = "\n原始雜湊值: "@ + before.table[key];
                (i, n as int, middle)
            } else {
                let body = "檔案變動時間: "@ + times[n as int] + ("\n路徑: "@ + key);
                assert(body + Seq::<char>::empty() =~= body);
                (i, n as int, Seq::<char>::empty())
            }
        }
    }
}

/// After an event about removed files, no file is in the table under the text of a removed
/// path; whatever is still in the table was there before, with the same hash; and whatever
/// is in it under neither the text of a removed path nor what one is resolved to stays.
pub proof fn law_removed_files_are_out_of_the_table(
    paths: Seq<PathView>,
    named: Seq<usize>,
    current: Map<Seq<char>, Seq<char>>,
    current_keys: Seq<Seq<char>>,
    resolved: Seq<Option<Seq<char>>>,
    to: Seq<char>,
    times: Seq<Seq<char>>,
    key: Seq<char>,
)
    requires
        resolved.len() == named.len(),
    ensures
        ({
            let outcome = outcome_of(
                RouteView::Removals(named),
                paths,
                current,
                current_keys,
                EvidenceView::Resolved(resolved),
                to,
                times,
            );
            &&& outcome matches Ok(after)
            &&& forall|i: int|
                0 <= i < named.len() ==> !after.table.contains_key(
                    paths[#[trigger] named[i] as int].text,
                )
            &&& after.table.contains_key(key) ==> current.contains_key(key) && after.table[key]
                == current[key]
            &&& current.contains_key(key) && (forall|i: int|
                0 <= i < named.len() ==> paths[#[trigger] named[i] as int].text != key
                    && resolved[i] != Some(key)) ==> after.table.contains_key(key)
        }),
    decreases named.len(),
{
    if named.len() == 0 {
        law_removal_event_grows_path_by_path(
            paths,
            named,
            0,
            current,
            current_keys,
            resolved,
            None,
            to,
            times,
        );
        assert(named =~= Seq::<usize>::empty());
        assert(resolved =~= Seq::<Option<Seq<char>>>::empty());
    } else {
        let n = named.len() - 1;
        let fewer = named.drop_last();
        let front = resolved.drop_last();
        law_removed_files_are_out_of_the_table(
            paths,
            fewer,
            current,
            current_keys,
            front,
            to,
            times,
            key,
        );
        law_removal_event_grows_path_by_path(
            paths,
            fewer,
            named.last(),
            current,
            current_keys,
            front,
            resolved.last(),
            to,
            times,
        );
        assert(fewer.push(named.last()) =~= named);
        assert(front.push(resolved.last()) =~= resolved);
        assert forall|i: int| 0 <= i < fewer.len() implies #[trigger] fewer[i] == named[i]
            && front[i] == resolved[i] by {}
        assert(named[n as int] == named.last() && resolved[n as int] == resolved.last());
        let before = outcome_of(
            RouteView::Removals(fewer),
            paths,
            current,
            current_keys,
            EvidenceView::Resolved(front),
            to,
            times,
        )->Ok_0;
        let after = outcome_of(
            RouteView::Removals(named),
            paths,
            current,
            current_keys,
            EvidenceView::Resolved(resolved),
            to,
            times,
        )->Ok_0;
        assert forall|i: int| 0 <= i < named.len() implies !after.table.contains_key(
            paths[#[trigger] named[i] as int].text,
        ) by {
            if i < n {
                assert(fewer[i] == named[i]);
            }
        }
        if current.contains_key(key) && (forall|i: int|
            0 <= i < named.len() ==> paths[#[trigger] named[i] as int].text != key && resolved[i]
                != Some(key)) {
            assert(paths[named[n as int] as int].text != key);
            assert forall|i: int| 0 <= i < fewer.len() implies paths[
                #[trigger] fewer[i] as int
            ].text != key && front[i] != Some(key) by {
                assert(named[i] == fewer[i]);
            }
        }
    }
}

/// Each file that an event about removed files took out of the table has a notification to
/// the given address, with the time of one of the paths, the path of the file and the hash
/// that it had in the table.
pub proof fn law_removed_entries_are_reported(
    paths: Seq<PathView>,
    named: Seq<usize>,
    current: Map<Seq<char>, Seq<char>>,
    current_keys: Seq<Seq<char>>,
    resolved: Seq<Option<Seq<char>>>,
    to: Seq<char>,
    times: Seq<Seq<char>>,
    key: Seq<char>,
) -> (r: (int, int))
    requires
        resolved.len() == named.len(),
        current.contains_key(key),
        outcome_of(
            RouteView::Removals(named),
            paths,
            current,
            current_keys,
            EvidenceView::Resolved(resolved),
            to,
            times,
        ) matches Ok(after) && !after.table.contains_key(key),
    ensures
        ({
            let after = outcome_of(
                RouteView::Removals(named),
                paths,
                current,
                current_keys,
                EvidenceView::Resolved(resolved),
                to,
                times,
            )->Ok_0;
            &&& 0 <= r.0 < after.emails.len()
            &&& 0 <= r.1 < named.len()
            &&& after.emails[r.0] == (JobView {
                to,
                body: "檔案刪除時間: "@ + times[r.1] + ("\n路徑: "@ + key) + ("\n刪除前雜湊值: "@
                    + current[key]),
            })
        }),
    decreases named.len(),
{
    law_removal_event_grows_path_by_path(
        paths,
        Seq::<usize>::empty(),
        0,
        current,
        current_keys,
        Seq::<Option<Seq<char>>>::empty(),
        None,
        to,
        times,
    );
    if named.len() == 0 {
        assert(named =~= Seq::<usize>::empty());
        assert(resolved =~= Seq::<Option<Seq<char>>>::empty());
        (0, 0)
    } else {
        let n = named.len() - 1;
        let fewer = named.drop_last();
        let front = resolved.drop_last();
        law_removed_files_are_out_of_the_table(
            paths,
            fewer,
            current,
            current_keys,
            front,
            to,
            times,
            key,
        );
        law_removal_event_grows_path_by_path(
            paths,
            fewer,
            named.last(),
            current,
            current_keys,
            front,
            resolved.last(),
            to,
            times,
        );
        assert(fewer.push(named.last()) =~= named);
        assert(front.push(resolved.last()) =~= resolved);
        let before = outcome_of(
            RouteView::Removals(fewer),
            paths,
            current,
            current_keys,
            EvidenceView::Resolved(front),
            to,
            times,
        )->Ok_0;
        let after = outcome_of(
            RouteView::Removals(named),
            paths,
            current,
            current_keys,
            EvidenceView::Resolved(resolved),
            to,
            times,
        )->Ok_0;
        if before.table.contains_key(key) {
            (before.emails.len() as int, n as int)
        } else {
            let (i, j) = law_removed_entries_are_reported(
                paths,
                fewer,
                current,
                current_keys,
                front,
                to,
                times,
                key,
            );
            assert(after.emails[i] == before.emails[i]);
            (i, j)
        }
    }
}

/// A scan is reported with one notification for each file in which it differs from what is
/// recorded, and with no other: the files that are new or have another hash first, then
/// those that are gone. The files are returned in the order of their notifications.
pub proof fn law_scan_is_reported_file_by_file(
    old_table: Map<Seq<char>, Seq<char>>,
    old_keys: Seq<Seq<char>>,
    new_table: Map<Seq<char>, Seq<char>>,
    new_keys: Seq<Seq<char>>,
    to: Seq<char>,
    time: Seq<char>,
) -> (files: Seq<Seq<char>>)
    requires
        old_keys.no_duplicates(),
        forall|k: Seq<char>| #[trigger] old_table.contains_key(k) <==> old_keys.contains(k),
        new_keys.no_duplicates(),
        forall|k: Seq<char>| #[trigger] new_table.contains_key(k) <==> new_keys.contains(k),
    ensures
        files.no_duplicates(),
        forall|k: Seq<char>| #[trigger]
            files.contains(k) <==> old_table.contains_key(k) != new_table.contains_key(k) || (
            old_table.contains_key(k) && old_table[k] != new_table[k]),
        forall|i: int, j: int|
            0 <= i < j < files.len() && new_table.contains_key(#[trigger] files[j])
                ==> new_table.contains_key(#[trigger] files[i]),
        rescan_jobs(old_table, old_keys, new_table, new_keys, to, time).len() == files.len(),
        forall|i: int|
            0 <= i < files.len() ==> #[trigger] rescan_jobs(
                old_table,
                old_keys,
                new_table,
                new_keys,
                to,
                time,
            )[i] == (JobView {
                to,
                body: if !new_table.contains_key(files[i]) {
                    "檔案刪除時間: "@ + time + ("\n路徑: "@ + files[i]) + ("\n刪除前雜湊值: "@
                        + old_table[files[i]])
                } else if !old_table.contains_key(files[i]) {
                    "檔案變動時間: "@ + time + ("\n路徑: "@ + files[i]) + ("\n新的雜湊值: "@
                        + new_table[files[i]])
                } else {
                    "檔案變動時間: "@ + time + ("\n路徑: "@ + files[i]) + ("\n原始雜湊值: "@
                        + old_table[files[i]]) + ("\n新的雜湊值: "@ + new_table[files[i]])
                },
            }),
{
    law_listing_names_each_file_once(old_keys, old_table);
    law_listing_names_each_file_once(new_keys, new_table);
    law_rescan_reports_each_difference(old_table, old_keys, new_table, new_keys, to, time);
    let files = reported_keys(old_table, old_keys, new_table, new_keys);
    let jobs = rescan_jobs(old_table, old_keys, new_table, new_keys, to, time);
    let changed = changed_keys(old_table, new_table, new_keys);
    let gone = gone_keys(new_table, old_keys);
    let is_gone = |k: Seq<char>| !new_table.contains_key(k);
    let is_changed = |k: Seq<char>| differs(old_table, k, new_table[k]);
    assert forall|i: int, j: int|
        0 <= i < j < files.len() && new_table.contains_key(
            #[trigger] files[j],
        ) implies new_table.contains_key(#[trigger] files[i]) by {
        if j >= changed.len() {
            assert(files[j] == gone[j - changed.len()]);
            old_keys.lemma_filter_pred(is_gone, j - changed.len());
        }
        assert(files[i] == changed[i]);
        assert(changed.contains(changed[i]));
        new_keys.lemma_filter_contains_rev(is_changed, changed[i]);
    }
    assert forall|i: int| 0 <= i < files.len() implies #[trigger] jobs[i] == (JobView {
        to,
        body: if !new_table.contains_key(files[i]) {
            "檔案刪除時間: "@ + time + ("\n路徑: "@ + files[i]) + ("\n刪除前雜湊值: "@
                + old_table[files[i]])
        } else if !old_table.contains_key(files[i]) {
            "檔案變動時間: "@ + time + ("\n路徑: "@ + files[i]) + ("\n新的雜湊值: "@
                + new_table[files[i]])
        } else {
            "檔案變動時間: "@ + time + ("\n路徑: "@ + files[i]) + ("\n原始雜湊值: "@
                + old_table[files[i]]) + ("\n新的雜湊值: "@ + new_table[files[i]])
        },
    }) by {
        law_change_is_told_line_by_line(old_table, files[i], new_table[files[i]], time);
        law_notices_are_told_line_by_line(
            time,
            files[i],
            old_table[files[i]],
            old_table[files[i]],
        );
    }
    files
}

/// An event that calls for a scan, once the scan is complete, always comes to something: the
/// next table is the one that the scan found, whatever it found, and there is one
/// notification, at the time of the scan, for each file in which the two tables differ. The
/// files are returned in the order of their notifications.
pub proof fn law_scan_becomes_the_table(
    paths: Seq<PathView>,
    current: Map<Seq<char>, Seq<char>>,
    current_keys: Seq<Seq<char>>,
    table: Map<Seq<char>, Seq<char>>,
    keys: Seq<Seq<char>>,
    to: Seq<char>,
    times: Seq<Seq<char>>,
) -> (files: Seq<Seq<char>>)
    requires
        current_keys.no_duplicates(),
        forall|k: Seq<char>| #[trigger] current.contains_key(k) <==> current_keys.contains(k),
        keys.no_duplicates(),
        forall|k: Seq<char>| #[trigger] table.contains_key(k) <==> keys.contains(k),
    ensures
        files.no_duplicates(),
        forall|k: Seq<char>| #[trigger]
            files.contains(k) <==> current.contains_key(k) != table.contains_key(k) || (
            current.contains_key(k) && current[k] != table[k]),
        forall|i: int, j: int|
            0 <= i < j < files.len() && table.contains_key(#[trigger] files[j])
                ==> table.contains_key(#[trigger] files[i]),
        outcome_of(
            RouteView::Rescan,
            paths,
            current,
            current_keys,
            EvidenceView::Scanned { table, keys },
            to,
            times,
        ) matches Ok(after) && after.table == table && after.emails.len() == files.len() && (forall|
            i: int,
        |
            0 <= i < files.len() ==> #[trigger] after.emails[i] == (JobView {
                to,
                body: if !table.contains_key(files[i]) {
                    "檔案刪除時間: "@ + times[0] + ("\n路徑: "@ + files[i]) + ("\n刪除前雜湊值: "@
                        + current[files[i]])
                } else if !current.contains_key(files[i]) {
                    "檔案變動時間: "@ + times[0] + ("\n路徑: "@ + files[i]) + ("\n新的雜湊值: "@
                        + table[files[i]])
                } else {
                    "檔案變動時間: "@ + times[0] + ("\n路徑: "@ + files[i]) + ("\n原始雜湊值: "@
                        + current[files[i]]) + ("\n新的雜湊值: "@ + table[files[i]])
                },
            })),
{
    law_scan_is_reported_file_by_file(current, current_keys, table, keys, to, times[0])
}

/// An event that calls for nothing leaves the table as it is and notifies nobody, whatever
/// was looked up. An event that calls for a scan comes to nothing if the scan failed. An
/// event for which something else was looked up than it called for, or not as much, comes to
/// nothing.
pub proof fn law_events_need_what_they_call_for(
    route: RouteView,
    paths: Seq<PathView>,
    current: Map<Seq<char>, Seq<char>>,
    current_keys: Seq<Seq<char>>,
    evidence: EvidenceView,
    to: Seq<char>,
    times: Seq<Seq<char>>,
)
    ensures
        ({
            let outcome = outcome_of(route, paths, current, current_keys, evidence, to, times);
            let unanswered = Err::<OutcomeView, EventError>(EventError::Unanswered);
            match (route, evidence) {
                (RouteView::Ignore, _) => outcome == Ok::<OutcomeView, EventError>(
                    OutcomeView { table: current, emails: Seq::<JobView>::empty() },
                ),
                (RouteView::Rescan, EvidenceView::Scanned { .. }) => outcome is Ok,
                (RouteView::Rescan, EvidenceView::ScanFailed) => outcome == Err::<
                    OutcomeView,
                    EventError,
                >(EventError::Unreadable),
                (RouteView::Changes(named), EvidenceView::Inspected(found)) => {
                    &&& found.len() != named.len() ==> outcome == unanswered
                    &&& found.len() == named.len() && (forall|i: int|
                        0 <= i < found.len() ==> !(#[trigger] found[i] is Unreadable))
                        ==> outcome is Ok
                    &&& found.len() == named.len() && (exists|i: int|
                        0 <= i < found.len() && #[trigger] found[i] is Unreadable) ==> outcome
                        == Err::<OutcomeView, EventError>(EventError::Unreadable)
                },
                (RouteView::Removals(named), EvidenceView::Resolved(resolved)) => {
                    &&& resolved.len() != named.len() ==> outcome == unanswered
                    &&& resolved.len() == named.len() ==> outcome is Ok
                },
                _ => outcome == unanswered,
            }
        }),
{
    if let RouteView::Changes(named) = route {
        if let EvidenceView::Inspected(found) = evidence {
            if found.len() == named.len() {
                let seen = seen_at(paths, named, found);
                assert forall|i: int| 0 <= i < found.len() implies (#[trigger] seen[i]).found
                    == found[i] by {}
                if exists|i: int| 0 <= i < found.len() && #[trigger] found[i] is Unreadable {
                    let i = choose|i: int| 0 <= i < found.len() && #[trigger] found[i] is Unreadable;
                    assert(seen[i].found is Unreadable);
                }
            }
        }
    }
}

/// The clock is read once for a scan, once for each path that was looked at or removed, and
/// not at all otherwise. Each reading is a time.
pub proof fn law_clock_is_read_for_each_notification(
    table: Map<Seq<char>, Seq<char>>,
    keys: Seq<Seq<char>>,
    found: Seq<InspectionView>,
    resolved: Seq<Option<Seq<char>>>,
    times: Seq<Seq<char>>,
    n: nat,
)
    ensures
        EvidenceView::Nothing.clock_readings() == 0,
        EvidenceView::ScanFailed.clock_readings() == 0,
        (EvidenceView::Scanned { table, keys }).clock_readings() == 1,
        EvidenceView::Inspected(found).clock_readings() == found.len(),
        EvidenceView::Resolved(resolved).clock_readings() == resolved.len(),
        are_timestamps(times, n) <==> times.len() == n && (forall|i: int|
            0 <= i < times.len() ==> is_timestamp(#[trigger] times[i])),
{
}

/// All files that were found could be read if none of them could not, wherever it stands.
pub proof fn law_all_readable_is_each_readable(seen: Seq<SeenView>)
    ensures
        all_readable(seen) <==> !(exists|i: int|
            0 <= i < seen.len() && (#[trigger] seen[i]).found is Unreadable),
{
}

/// What is said of the hashes of all files that were found is said of each of them.
pub proof fn law_all_hashed_is_each_hashed(
    paths: Seq<PathView>,
    named: Seq<usize>,
    found: Seq<InspectionView>,
)
    requires
        found.len() == named.len(),
    ensures
        evidence_hashed(RouteView::Changes(named), paths, EvidenceView::Inspected(found)) <==> (
        forall|i: int|
            0 <= i < found.len() ==> (#[trigger] found[i] matches InspectionView::File {
                contents,
                ..
            } ==> is_hash(hash_of(contents)))),
{
    let seen = seen_at(paths, named, found);
    assert forall|i: int| 0 <= i < found.len() implies (#[trigger] seen[i]).found == found[i] by {}
    if all_hashed(seen) {
        assert forall|i: int| 0 <= i < found.len() implies (
        #[trigger] found[i] matches InspectionView::File { contents, .. } ==> is_hash(
            hash_of(contents),
        )) by {
            assert(found_hashed(seen[i].found));
        }
    }
}

} // verus!
