//! What holds of the monitor as a whole.
use crate::digest::{all_hashes, hash_of, is_hash, is_hex_digit};
use crate::event::RouteView;
use crate::monitor::{evidence_hashed, outcome_of, removed_at, seen_at, EvidenceView};
use crate::notice::{added_text, removed_text, JobView};
use crate::path::{key_of, PathView};
use crate::plan::{
    after_change, after_changes, after_removal, after_removals, all_hashed, change_text,
    changed_keys, differs, found_hashed, gone_keys, rescan_jobs, InspectionView, OutcomeView, RemovedView, SeenView,
};
use crate::record::{
    all_recordable, law_record_round_trip, record_text, recordable, recorded_table,
};
use crate::table::lists_keys;
use vstd::prelude::*;
use vstd::utf8::{encode_utf8, valid_utf8};

verus! {

/// A file whose contents are those that were recorded gives rise to nothing, whatever
/// else about it changed: the table stays as it is and nobody is notified.
pub proof fn law_unchanged_file_is_silent(
    before: OutcomeView,
    path: PathView,
    resolved: Option<Seq<char>>,
    contents: Seq<u8>,
    to: Seq<char>,
    time: Seq<char>,
)
    requires
        before.table.contains_key(key_of(path, resolved)),
        before.table[key_of(path, resolved)] == hash_of(contents),
    ensures
        after_change(before, key_of(path, resolved), hash_of(contents), to, time) == before,
{
}

/// A file that was found is recorded with its hash afterwards, all other files stay as
/// they were, and there is one notification if the hash differs from the recorded one and
/// none if it does not.
pub proof fn law_found_file_is_recorded(
    before: OutcomeView,
    key: Seq<char>,
    hash: Seq<char>,
    to: Seq<char>,
    time: Seq<char>,
)
    ensures
        ({
            let after = after_change(before, key, hash, to, time);
            &&& after.table.contains_key(key)
            &&& after.table[key] == hash
            &&& after.table.remove(key) == before.table.remove(key)
            &&& after.emails == (if differs(before.table, key, hash) {
                before.emails.push(
                    JobView { to, body: change_text(before.table, key, hash, time) },
                )
            } else {
                before.emails
            })
        }),
{
    let after = after_change(before, key, hash, to, time);
    assert(after.table.remove(key) =~= before.table.remove(key));
}

/// Finding a file again as it is says nothing new.
pub proof fn law_repeated_change_is_silent(
    before: OutcomeView,
    key: Seq<char>,
    hash: Seq<char>,
    to: Seq<char>,
    time: Seq<char>,
    later: Seq<char>,
)
    ensures
        ({
            let once = after_change(before, key, hash, to, time);
            after_change(once, key, hash, to, later) == once
        }),
{
}

/// Removing a file undoes the recording of a new one, and both are reported: whether the
/// removed path is the text under which the file was recorded, or is resolved to it.
pub proof fn law_removal_undoes_addition(
    before: OutcomeView,
    key: Seq<char>,
    hash: Seq<char>,
    removed: RemovedView,
    to: Seq<char>,
    time: Seq<char>,
    later: Seq<char>,
)
    requires
        !before.table.contains_key(key),
        removed.path.text == key || (removed.resolved == Some(key) && !before.table.contains_key(
            removed.path.text,
        )),
    ensures
        ({
            let added = after_change(before, key, hash, to, time);
            after_removal(added, removed, to, later) == (OutcomeView {
                table: before.table,
                emails: before.emails.push(
                    JobView { to, body: added_text(time, key, hash) },
                ).push(JobView { to, body: removed_text(later, key, hash) }),
            })
        }),
{
    let added = after_change(before, key, hash, to, time);
    assert(added.table.remove(key) =~= before.table);
}

/// A removal takes away at most the file that is recorded under the path itself or under
/// what it is resolved to. Files of the same name elsewhere stay.
pub proof fn law_removal_takes_only_that_file(
    before: OutcomeView,
    removed: RemovedView,
    to: Seq<char>,
    time: Seq<char>,
)
    ensures
        forall|k: Seq<char>| #[trigger]
            before.table.contains_key(k) && k != removed.path.text && removed.resolved != Some(k)
                ==> ({
                let after = after_removal(before, removed, to, time).table;
                after.contains_key(k) && after[k] == before.table[k]
            }),
        !before.table.contains_key(removed.path.text) && (removed.resolved matches Some(text)
            ==> !before.table.contains_key(text)) ==> after_removal(before, removed, to, time)
            == before,
{
}

/// A row without anything that passes the test is filtered down to nothing, and one with
/// something in it that does is not.
proof fn lemma_filter_empty(keys: Seq<Seq<char>>, pred: spec_fn(Seq<char>) -> bool)
    ensures
        keys.filter(pred).len() == 0 <==> (forall|i: int|
            0 <= i < keys.len() ==> !pred(#[trigger] keys[i])),
{
    if keys.filter(pred).len() == 0 {
        assert forall|i: int| 0 <= i < keys.len() implies !pred(#[trigger] keys[i]) by {
            if pred(keys[i]) {
                keys.lemma_filter_contains(pred, i);
            }
        }
    } else {
        let k = keys.filter(pred)[0];
        keys.lemma_filter_pred(pred, 0);
        assert(keys.filter(pred).contains(k));
        keys.lemma_filter_contains_rev(pred, k);
        let i = choose|i: int| 0 <= i < keys.len() && keys[i] == k;
        assert(pred(keys[i]));
    }
}

/// A scan leads to no notification exactly if it finds the directory as it is recorded.
pub proof fn law_rescan_is_silent_iff_nothing_changed(
    old_table: Map<Seq<char>, Seq<char>>,
    old_keys: Seq<Seq<char>>,
    new_table: Map<Seq<char>, Seq<char>>,
    new_keys: Seq<Seq<char>>,
    to: Seq<char>,
    time: Seq<char>,
)
    requires
        lists_keys(old_keys, old_table),
        lists_keys(new_keys, new_table),
    ensures
        rescan_jobs(old_table, old_keys, new_table, new_keys, to, time).len() == 0 <==> old_table
            == new_table,
{
    let changed = |k: Seq<char>| differs(old_table, k, new_table[k]);
    let gone = |k: Seq<char>| !new_table.contains_key(k);
    lemma_filter_empty(new_keys, changed);
    lemma_filter_empty(old_keys, gone);
    if rescan_jobs(old_table, old_keys, new_table, new_keys, to, time).len() == 0 {
        assert forall|k: Seq<char>| #[trigger] new_table.contains_key(k) implies
            old_table.contains_key(k) && old_table[k] == new_table[k] by {
            let i = choose|i: int| 0 <= i < new_keys.len() && new_keys[i] == k;
            assert(!changed(new_keys[i]));
        }
        assert forall|k: Seq<char>| #[trigger] old_table.contains_key(k) implies
            new_table.contains_key(k) by {
            let i = choose|i: int| 0 <= i < old_keys.len() && old_keys[i] == k;
            assert(!gone(old_keys[i]));
        }
        assert(old_table =~= new_table);
    }
    if old_table == new_table {
        assert forall|i: int| 0 <= i < new_keys.len() implies !changed(#[trigger] new_keys[i]) by {
            assert(new_table.contains_key(new_keys[i]));
        }
        assert forall|i: int| 0 <= i < old_keys.len() implies !gone(#[trigger] old_keys[i]) by {
            assert(old_table.contains_key(old_keys[i]));
        }
    }
}

/// The two tables differ in this file: it is in one of them alone, or has another hash.
pub open spec fn entry_differs(
    old_table: Map<Seq<char>, Seq<char>>,
    new_table: Map<Seq<char>, Seq<char>>,
    key: Seq<char>,
) -> bool {
    if new_table.contains_key(key) {
        differs(old_table, key, new_table[key])
    } else {
        old_table.contains_key(key)
    }
}

/// The notification about a file in which two tables differ.
pub open spec fn difference_job(
    old_table: Map<Seq<char>, Seq<char>>,
    new_table: Map<Seq<char>, Seq<char>>,
    key: Seq<char>,
    to: Seq<char>,
    time: Seq<char>,
) -> JobView {
    if new_table.contains_key(key) {
        JobView { to, body: change_text(old_table, key, new_table[key], time) }
    } else {
        JobView { to, body: removed_text(time, key, old_table[key]) }
    }
}

/// The files that a scan reports, in the order of their notifications.
pub open spec fn reported_keys(
    old_table: Map<Seq<char>, Seq<char>>,
    old_keys: Seq<Seq<char>>,
    new_table: Map<Seq<char>, Seq<char>>,
    new_keys: Seq<Seq<char>>,
) -> Seq<Seq<char>> {
    changed_keys(old_table, new_table, new_keys) + gone_keys(new_table, old_keys)
}

/// A row in which each text stands once keeps that when it is filtered.
proof fn lemma_filter_no_duplicates(keys: Seq<Seq<char>>, pred: spec_fn(Seq<char>) -> bool)
    requires
        keys.no_duplicates(),
    ensures
        keys.filter(pred).no_duplicates(),
    decreases keys.len(),
{
    reveal(Seq::filter);
    if keys.len() > 0 {
        let front = keys.drop_last();
        let kept = front.filter(pred);
        lemma_filter_no_duplicates(front, pred);
        assert forall|i: int| 0 <= i < kept.len() implies #[trigger] kept[i] != keys.last() by {
            assert(kept.contains(kept[i]));
            front.lemma_filter_contains_rev(pred, kept[i]);
            let j = choose|j: int| 0 <= j < front.len() && front[j] == kept[i];
            assert(keys[j] == kept[i]);
        }
    }
}

/// What is left of a row are the texts of it that pass the test.
proof fn lemma_filter_exact(keys: Seq<Seq<char>>, pred: spec_fn(Seq<char>) -> bool, key: Seq<char>)
    ensures
        keys.filter(pred).contains(key) <==> keys.contains(key) && pred(key),
{
    let kept = keys.filter(pred);
    if kept.contains(key) {
        let i = choose|i: int| 0 <= i < kept.len() && kept[i] == key;
        keys.lemma_filter_pred(pred, i);
        keys.lemma_filter_contains_rev(pred, key);
    }
    if keys.contains(key) && pred(key) {
        let i = choose|i: int| 0 <= i < keys.len() && keys[i] == key;
        keys.lemma_filter_contains(pred, i);
    }
}

/// A scan reports every difference from what is recorded, each one once, and nothing else:
/// there is one notification for each file that is new, has another hash or is gone.
pub proof fn law_rescan_reports_each_difference(
    old_table: Map<Seq<char>, Seq<char>>,
    old_keys: Seq<Seq<char>>,
    new_table: Map<Seq<char>, Seq<char>>,
    new_keys: Seq<Seq<char>>,
    to: Seq<char>,
    time: Seq<char>,
)
    requires
        lists_keys(old_keys, old_table),
        lists_keys(new_keys, new_table),
    ensures
        ({
            let keys = reported_keys(old_table, old_keys, new_table, new_keys);
            let jobs = rescan_jobs(old_table, old_keys, new_table, new_keys, to, time);
            &&& keys.no_duplicates()
            &&& forall|k: Seq<char>| #[trigger]
                keys.contains(k) <==> entry_differs(old_table, new_table, k)
            &&& jobs.len() == keys.len()
            &&& forall|i: int|
                0 <= i < keys.len() ==> #[trigger] jobs[i] == difference_job(
                    old_table,
                    new_table,
                    keys[i],
                    to,
                    time,
                )
        }),
{
    let changed = |k: Seq<char>| differs(old_table, k, new_table[k]);
    let gone = |k: Seq<char>| !new_table.contains_key(k);
    let found = new_keys.filter(changed);
    let lost = old_keys.filter(gone);
    let keys = reported_keys(old_table, old_keys, new_table, new_keys);
    let jobs = rescan_jobs(old_table, old_keys, new_table, new_keys, to, time);
    assert(keys == found + lost);
    lemma_filter_no_duplicates(new_keys, changed);
    lemma_filter_no_duplicates(old_keys, gone);
    assert forall|i: int| 0 <= i < found.len() implies new_table.contains_key(
        #[trigger] found[i],
    ) by {
        assert(found.contains(found[i]));
        lemma_filter_exact(new_keys, changed, found[i]);
        let j = choose|j: int| 0 <= j < new_keys.len() && new_keys[j] == found[i];
        assert(new_table.contains_key(new_keys[j]));
    }
    assert forall|i: int| 0 <= i < lost.len() implies !new_table.contains_key(
        #[trigger] lost[i],
    ) by {
        old_keys.lemma_filter_pred(gone, i);
    }
    assert forall|i: int, j: int|
        0 <= i < keys.len() && 0 <= j < keys.len() && i != j implies keys[i] != keys[j] by {
        if i < found.len() && j < found.len() {
            assert(found[i] != found[j]);
        } else if i >= found.len() && j >= found.len() {
            assert(lost[i - found.len()] != lost[j - found.len()]);
        } else if i < found.len() {
            assert(new_table.contains_key(found[i]));
            assert(!new_table.contains_key(lost[j - found.len()]));
        } else {
            assert(new_table.contains_key(found[j]));
            assert(!new_table.contains_key(lost[i - found.len()]));
        }
    }
    assert forall|k: Seq<char>| #[trigger] keys.contains(k) <==> entry_differs(
        old_table,
        new_table,
        k,
    ) by {
        lemma_filter_exact(new_keys, changed, k);
        lemma_filter_exact(old_keys, gone, k);
        assert(new_keys.contains(k) <==> new_table.contains_key(k));
        assert(old_keys.contains(k) <==> old_table.contains_key(k));
        lemma_joined_contains(found, lost, k);
    }
    assert forall|i: int| 0 <= i < keys.len() implies #[trigger] jobs[i] == difference_job(
        old_table,
        new_table,
        keys[i],
        to,
        time,
    ) by {
        if i < found.len() {
            assert(keys[i] == found[i]);
        } else {
            assert(keys[i] == lost[i - found.len()]);
        }
    }
}

/// A text stands in two joined rows if it stands in one of them.
proof fn lemma_joined_contains(a: Seq<Seq<char>>, b: Seq<Seq<char>>, key: Seq<char>)
    ensures
        (a + b).contains(key) <==> a.contains(key) || b.contains(key),
{
    if a.contains(key) {
        let i = choose|i: int| 0 <= i < a.len() && a[i] == key;
        assert((a + b)[i] == key);
    }
    if b.contains(key) {
        let i = choose|i: int| 0 <= i < b.len() && b[i] == key;
        assert((a + b)[a.len() + i] == key);
    }
    if (a + b).contains(key) {
        let i = choose|i: int| 0 <= i < (a + b).len() && (a + b)[i] == key;
        if i < a.len() {
            assert(a[i] == key);
        } else {
            assert(b[i - a.len()] == key);
        }
    }
}

/// A row in which each text stands once is filtered down to the one text that passes.
proof fn lemma_filter_one(
    keys: Seq<Seq<char>>,
    pred: spec_fn(Seq<char>) -> bool,
    key: Seq<char>,
)
    requires
        keys.no_duplicates(),
        keys.contains(key),
        forall|i: int| 0 <= i < keys.len() ==> (pred(#[trigger] keys[i]) <==> keys[i] == key),
    ensures
        keys.filter(pred) == seq![key],
    decreases keys.len(),
{
    reveal(Seq::filter);
    let front = keys.drop_last();
    assert forall|i: int| 0 <= i < front.len() implies (pred(#[trigger] front[i]) <==> front[i]
        == key) by {
        assert(front[i] == keys[i]);
    }
    if keys.last() == key {
        assert forall|i: int| 0 <= i < front.len() implies !pred(#[trigger] front[i]) by {
            assert(front[i] == keys[i]);
            assert(keys[i] != keys[keys.len() - 1]);
        }
        lemma_filter_empty(front, pred);
        assert(front.filter(pred) =~= seq![]);
        assert(pred(keys[keys.len() - 1]));
        assert(keys.filter(pred) =~= seq![key]);
    } else {
        let i = choose|i: int| 0 <= i < keys.len() && keys[i] == key;
        assert(front[i] == key);
        lemma_filter_one(front, pred, key);
        assert(!pred(keys[keys.len() - 1]));
    }
}

/// A file that was given another name is reported as added under the new name and as
/// removed under the old one, and nothing else is reported.
pub proof fn law_rename_is_addition_and_removal(
    old_table: Map<Seq<char>, Seq<char>>,
    old_keys: Seq<Seq<char>>,
    new_table: Map<Seq<char>, Seq<char>>,
    new_keys: Seq<Seq<char>>,
    old_name: Seq<char>,
    new_name: Seq<char>,
    to: Seq<char>,
    time: Seq<char>,
)
    requires
        lists_keys(old_keys, old_table),
        lists_keys(new_keys, new_table),
        old_table.contains_key(old_name),
        !old_table.contains_key(new_name),
        new_table == old_table.remove(old_name).insert(new_name, old_table[old_name]),
    ensures
        rescan_jobs(old_table, old_keys, new_table, new_keys, to, time) == seq![
            JobView { to, body: added_text(time, new_name, old_table[old_name]) },
            JobView { to, body: removed_text(time, old_name, old_table[old_name]) },
        ],
{
    let changed = |k: Seq<char>| differs(old_table, k, new_table[k]);
    let gone = |k: Seq<char>| !new_table.contains_key(k);
    assert forall|i: int| 0 <= i < new_keys.len() implies (changed(#[trigger] new_keys[i])
        <==> new_keys[i] == new_name) by {
        assert(new_table.contains_key(new_keys[i]));
    }
    assert forall|i: int| 0 <= i < old_keys.len() implies (gone(#[trigger] old_keys[i])
        <==> old_keys[i] == old_name) by {
        assert(old_table.contains_key(old_keys[i]));
    }
    assert(new_table.contains_key(new_name));
    lemma_filter_one(new_keys, changed, new_name);
    lemma_filter_one(old_keys, gone, old_name);
    assert(rescan_jobs(old_table, old_keys, new_table, new_keys, to, time) =~= seq![
        JobView { to, body: added_text(time, new_name, old_table[old_name]) },
        JobView { to, body: removed_text(time, old_name, old_table[old_name]) },
    ]);
}

/// Notifications only come to be more, and where none was added the table is the same.
proof fn lemma_changes_are_reported(
    start: OutcomeView,
    seen: Seq<SeenView>,
    to: Seq<char>,
    times: Seq<Seq<char>>,
)
    ensures
        after_changes(start, seen, to, times).emails.len() >= start.emails.len(),
        after_changes(start, seen, to, times).emails.len() == start.emails.len()
            ==> after_changes(start, seen, to, times).table == start.table,
    decreases seen.len(),
{
    if seen.len() > 0 {
        lemma_changes_are_reported(start, seen.drop_last(), to, times);
    }
}

/// Notifications only come to be more, and where none was added the table is the same.
proof fn lemma_removals_are_reported(
    start: OutcomeView,
    removed: Seq<RemovedView>,
    to: Seq<char>,
    times: Seq<Seq<char>>,
)
    ensures
        after_removals(start, removed, to, times).emails.len() >= start.emails.len(),
        after_removals(start, removed, to, times).emails.len() == start.emails.len()
            ==> after_removals(start, removed, to, times).table == start.table,
    decreases removed.len(),
{
    if removed.len() > 0 {
        lemma_removals_are_reported(start, removed.drop_last(), to, times);
    }
}

/// The table never changes without a notification.
pub proof fn law_no_change_goes_unreported(
    route: RouteView,
    paths: Seq<PathView>,
    current: Map<Seq<char>, Seq<char>>,
    current_keys: Seq<Seq<char>>,
    evidence: EvidenceView,
    to: Seq<char>,
    times: Seq<Seq<char>>,
)
    requires
        lists_keys(current_keys, current),
        evidence matches EvidenceView::Scanned { table, keys } ==> lists_keys(keys, table),
    ensures
        outcome_of(route, paths, current, current_keys, evidence, to, times) matches Ok(outcome)
            ==> (outcome.table != current ==> outcome.emails.len() > 0),
{
    let start = OutcomeView { table: current, emails: seq![] };
    match (route, evidence) {
        (RouteView::Rescan, EvidenceView::Scanned { table, keys }) => {
            law_rescan_is_silent_iff_nothing_changed(
                current,
                current_keys,
                table,
                keys,
                to,
                times[0],
            );
        },
        (RouteView::Changes(places), EvidenceView::Inspected(found)) => {
            lemma_changes_are_reported(
                start,
                seen_at(paths, places, found),
                to,
                times,
            );
        },
        (RouteView::Removals(places), EvidenceView::Resolved(resolved)) => {
            lemma_removals_are_reported(
                start,
                removed_at(paths, places, resolved),
                to,
                times,
            );
        },
        _ => {},
    }
}

/// Every one of the notifications goes to `to`.
pub open spec fn all_to(emails: Seq<JobView>, to: Seq<char>) -> bool {
    forall|i: int| 0 <= i < emails.len() ==> (#[trigger] emails[i]).to == to
}

/// What is added to notifications about changes goes to the same address.
proof fn lemma_changes_go_to(
    start: OutcomeView,
    seen: Seq<SeenView>,
    to: Seq<char>,
    times: Seq<Seq<char>>,
)
    requires
        all_to(start.emails, to),
    ensures
        all_to(after_changes(start, seen, to, times).emails, to),
    decreases seen.len(),
{
    if seen.len() > 0 {
        lemma_changes_go_to(start, seen.drop_last(), to, times);
    }
}

/// What is added to notifications about removals goes to the same address.
proof fn lemma_removals_go_to(
    start: OutcomeView,
    removed: Seq<RemovedView>,
    to: Seq<char>,
    times: Seq<Seq<char>>,
)
    requires
        all_to(start.emails, to),
    ensures
        all_to(after_removals(start, removed, to, times).emails, to),
    decreases removed.len(),
{
    if removed.len() > 0 {
        lemma_removals_go_to(start, removed.drop_last(), to, times);
    }
}

/// Every notification goes to the address that was given.
pub proof fn law_all_mail_goes_to_the_given_address(
    route: RouteView,
    paths: Seq<PathView>,
    current: Map<Seq<char>, Seq<char>>,
    current_keys: Seq<Seq<char>>,
    evidence: EvidenceView,
    to: Seq<char>,
    times: Seq<Seq<char>>,
)
    ensures
        outcome_of(route, paths, current, current_keys, evidence, to, times) matches Ok(outcome)
            ==> all_to(outcome.emails, to),
{
    let start = OutcomeView { table: current, emails: seq![] };
    match (route, evidence) {
        (RouteView::Changes(places), EvidenceView::Inspected(found)) => {
            lemma_changes_go_to(start, seen_at(paths, places, found), to, times);
        },
        (RouteView::Removals(places), EvidenceView::Resolved(resolved)) => {
            lemma_removals_go_to(
                start,
                removed_at(paths, places, resolved),
                to,
                times,
            );
        },
        _ => {},
    }
}

/// The record can hold this path: it is not empty and has neither a tab nor a line feed in
/// it.
pub open spec fn fits_record(path: Seq<char>) -> bool {
    path.len() > 0 && !path.contains('\t') && !path.contains('\n')
}

/// The record can hold a hash that is computed exactly for the paths that it can hold.
pub proof fn law_hashes_can_be_recorded(path: Seq<char>, hash: Seq<char>)
    requires
        is_hash(hash),
    ensures
        recordable(path, hash) <==> fits_record(path),
{
    assert(!hash.contains('\n')) by {
        if hash.contains('\n') {
            let k = choose|k: int| 0 <= k < hash.len() && hash[k] == '\n';
            assert(is_hex_digit(hash[k]));
        }
    }
    assert(is_hex_digit(hash[63]));
}

/// Every file that was seen can be recorded.
pub open spec fn seen_recordable(seen: Seq<SeenView>) -> bool {
    forall|i: int|
        0 <= i < seen.len() ==> ((#[trigger] seen[i]).found matches InspectionView::File {
            resolved,
            contents,
        } ==> recordable(key_of(seen[i].path, resolved), hash_of(contents)))
}

/// The record can hold the path of every file that was seen.
pub open spec fn seen_fits_record(seen: Seq<SeenView>) -> bool {
    forall|i: int|
        0 <= i < seen.len() ==> ((#[trigger] seen[i]).found matches InspectionView::File {
            resolved,
            ..
        } ==> fits_record(key_of(seen[i].path, resolved)))
}

/// The record can hold every file that was seen exactly if it can hold their paths.
pub proof fn law_seen_files_can_be_recorded(seen: Seq<SeenView>)
    requires
        all_hashed(seen),
    ensures
        seen_recordable(seen) <==> seen_fits_record(seen),
{
    assert forall|i: int| 0 <= i < seen.len() implies ((
    #[trigger] seen[i]).found matches InspectionView::File { resolved, contents } ==> (recordable(
        key_of(seen[i].path, resolved),
        hash_of(contents),
    ) <==> fits_record(key_of(seen[i].path, resolved)))) by {
        assert(found_hashed(seen[i].found));
        if let InspectionView::File { resolved, contents } = seen[i].found {
            law_hashes_can_be_recorded(key_of(seen[i].path, resolved), hash_of(contents));
        }
    }
}

/// The record can hold the path of every file of the table.
pub open spec fn table_fits_record(table: Map<Seq<char>, Seq<char>>) -> bool {
    forall|k: Seq<char>| #[trigger] table.contains_key(k) ==> fits_record(k)
}

/// The record can hold all that a scan has found exactly if it can hold the paths.
pub proof fn law_scanned_files_can_be_recorded(table: Map<Seq<char>, Seq<char>>)
    requires
        all_hashes(table),
    ensures
        all_recordable(table) <==> table_fits_record(table),
{
    assert forall|k: Seq<char>| #[trigger] table.contains_key(k) implies (recordable(k, table[k])
        <==> fits_record(k)) by {
        law_hashes_can_be_recorded(k, table[k]);
    }
}

/// Changes keep a table such that the record can hold it.
proof fn lemma_changes_keep_recordable(
    start: OutcomeView,
    seen: Seq<SeenView>,
    to: Seq<char>,
    times: Seq<Seq<char>>,
)
    requires
        all_recordable(start.table),
        seen_recordable(seen),
    ensures
        all_recordable(after_changes(start, seen, to, times).table),
    decreases seen.len(),
{
    if seen.len() > 0 {
        let front = seen.drop_last();
        assert(seen_recordable(front)) by {
            assert forall|i: int| 0 <= i < front.len() implies ((
            #[trigger] front[i]).found matches InspectionView::File { resolved, contents }
                ==> recordable(key_of(front[i].path, resolved), hash_of(contents))) by {
                assert(front[i] == seen[i]);
            }
        }
        lemma_changes_keep_recordable(start, front, to, times);
        assert(seen.last() == seen[seen.len() - 1]);
    }
}

/// Removals keep a table such that the record can hold it.
proof fn lemma_removals_keep_recordable(
    start: OutcomeView,
    removed: Seq<RemovedView>,
    to: Seq<char>,
    times: Seq<Seq<char>>,
)
    requires
        all_recordable(start.table),
    ensures
        all_recordable(after_removals(start, removed, to, times).table),
    decreases removed.len(),
{
    if removed.len() > 0 {
        lemma_removals_keep_recordable(start, removed.drop_last(), to, times);
    }
}

/// A table that the record can hold stays one, whatever happens, as long as the record can
/// hold the files that are found. What is written after an event is then what the next
/// start begins with.
pub proof fn law_events_keep_table_recordable(
    route: RouteView,
    paths: Seq<PathView>,
    current: Map<Seq<char>, Seq<char>>,
    current_keys: Seq<Seq<char>>,
    evidence: EvidenceView,
    to: Seq<char>,
    times: Seq<Seq<char>>,
)
    requires
        all_recordable(current),
        match (route, evidence) {
            (RouteView::Changes(places), EvidenceView::Inspected(found)) => seen_recordable(
                seen_at(paths, places, found),
            ),
            (RouteView::Rescan, EvidenceView::Scanned { table, .. }) => all_recordable(table),
            _ => true,
        },
    ensures
        outcome_of(route, paths, current, current_keys, evidence, to, times) matches Ok(outcome)
            ==> all_recordable(outcome.table),
{
    let start = OutcomeView { table: current, emails: seq![] };
    match (route, evidence) {
        (RouteView::Changes(places), EvidenceView::Inspected(found)) => {
            lemma_changes_keep_recordable(start, seen_at(paths, places, found), to, times);
        },
        (RouteView::Removals(places), EvidenceView::Resolved(resolved)) => {
            lemma_removals_keep_recordable(start, removed_at(paths, places, resolved), to, times);
        },
        _ => {},
    }
}

/// The bytes of the record file once an outcome has been committed to: written anew where
/// the table changed, the same ones where it did not.
pub open spec fn record_after(
    record: Seq<u8>,
    current: Map<Seq<char>, Seq<char>>,
    next: Map<Seq<char>, Seq<char>>,
    next_keys: Seq<Seq<char>>,
) -> Seq<u8> {
    if next == current {
        record
    } else {
        encode_utf8(record_text(next_keys, next))
    }
}

/// The record file and the table in force stay the same: if the one stands for the other
/// before an outcome is committed to, it does so afterwards, exactly if the table did not
/// change or the record can hold the files of the outcome. A start after such an event goes
/// on from where it was left.
pub proof fn law_record_stands_for_table(
    record: Seq<u8>,
    current: Map<Seq<char>, Seq<char>>,
    next: Map<Seq<char>, Seq<char>>,
    next_keys: Seq<Seq<char>>,
)
    requires
        valid_utf8(record),
        recorded_table(record) == current,
        lists_keys(next_keys, next),
    ensures
        valid_utf8(record_after(record, current, next, next_keys)),
        recorded_table(record_after(record, current, next, next_keys)) == next <==> next == current
            || all_recordable(next),
{
    law_record_round_trip(next_keys, next);
}

/// What an event brought up can be recorded, as far as its paths go.
pub open spec fn evidence_fits_record(
    route: RouteView,
    paths: Seq<PathView>,
    evidence: EvidenceView,
) -> bool {
    match (route, evidence) {
        (RouteView::Changes(places), EvidenceView::Inspected(found)) => seen_fits_record(
            seen_at(paths, places, found),
        ),
        (RouteView::Rescan, EvidenceView::Scanned { table, .. }) => table_fits_record(table),
        _ => true,
    }
}

/// After every event that comes to something, the record file stands for the table in
/// force, if it did before and the record can hold the paths that the event brought up.
pub proof fn law_record_stands_after_event(
    route: RouteView,
    paths: Seq<PathView>,
    current: Map<Seq<char>, Seq<char>>,
    current_keys: Seq<Seq<char>>,
    evidence: EvidenceView,
    to: Seq<char>,
    times: Seq<Seq<char>>,
    record: Seq<u8>,
    next_keys: Seq<Seq<char>>,
)
    requires
        valid_utf8(record),
        recorded_table(record) == current,
        all_recordable(current),
        evidence_hashed(route, paths, evidence),
        evidence matches EvidenceView::Scanned { table, .. } ==> all_hashes(table),
        evidence_fits_record(route, paths, evidence),
    ensures
        outcome_of(route, paths, current, current_keys, evidence, to, times) matches Ok(outcome)
            ==> all_recordable(outcome.table) && (lists_keys(next_keys, outcome.table) ==> ({
            let after = record_after(record, current, outcome.table, next_keys);
            valid_utf8(after) && recorded_table(after) == outcome.table
        })),
{
    match (route, evidence) {
        (RouteView::Changes(places), EvidenceView::Inspected(found)) => {
            law_seen_files_can_be_recorded(seen_at(paths, places, found));
        },
        (RouteView::Rescan, EvidenceView::Scanned { table, .. }) => {
            law_scanned_files_can_be_recorded(table);
        },
        _ => {},
    }
    law_events_keep_table_recordable(route, paths, current, current_keys, evidence, to, times);
    if let Ok(outcome) = outcome_of(route, paths, current, current_keys, evidence, to, times) {
        if lists_keys(next_keys, outcome.table) {
            law_record_stands_for_table(record, current, outcome.table, next_keys);
        }
    }
}

} // verus!
