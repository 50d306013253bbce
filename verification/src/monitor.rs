//! From an event to the next state: planning what it comes to, then committing to it.
use crate::event::{all_below, paths_view, route_event, route_of, EventRoute, RouteView, WatchEvent};
use crate::notice::{is_timestamp, jobs_view, queue_email, timestamp_now, MailQueue};
use crate::path::{opt_text, FilePath, PathView};
use crate::plan::{
    after_changes, after_removals, all_hashed, all_readable, inspections_view, plan_changes, plan_removals,
    plan_rescan, removed_view, rescan_jobs, seen_view, EventError, EventOutcome, Inspection,
    InspectionView, OutcomeView, RemovedPath, RemovedView, SeenPath, SeenView,
};
use crate::record::{record_text, write_hashes};
use crate::table::{lists_keys, HashTable};
use crate::text::texts;
use vstd::prelude::*;

verus! {

/// What was looked up for an event.
pub enum Evidence {
    /// Nothing: the event calls for nothing.
    Nothing,
    /// What a scan of the directory found.
    Scanned(HashTable),
    /// A scan of the directory did not come to its end.
    ScanFailed,
    /// What was found at each of the paths that had to be looked at.
    Inspected(Vec<Inspection>),
    /// For each of the removed paths, the text of its resolved path if it could still be
    /// resolved.
    Resolved(Vec<Option<String>>),
}

/// What an [`Evidence`] holds.
pub enum EvidenceView {
    Nothing,
    Scanned { table: Map<Seq<char>, Seq<char>>, keys: Seq<Seq<char>> },
    ScanFailed,
    Inspected(Seq<InspectionView>),
    Resolved(Seq<Option<Seq<char>>>),
}

impl View for Evidence {
    type V = EvidenceView;

    open spec fn view(&self) -> EvidenceView {
        match *self {
            Evidence::Nothing => EvidenceView::Nothing,
            Evidence::Scanned(table) => EvidenceView::Scanned { table: table@, keys: table.keys() },
            Evidence::ScanFailed => EvidenceView::ScanFailed,
            Evidence::Inspected(found) => EvidenceView::Inspected(inspections_view(found@)),
            Evidence::Resolved(texts) => EvidenceView::Resolved(opt_texts(texts@)),
        }
    }
}

/// The texts of a row of optional strings.
pub open spec fn opt_texts(v: Seq<Option<String>>) -> Seq<Option<Seq<char>>> {
    v.map_values(|o: Option<String>| opt_text(o))
}

impl EvidenceView {
    /// How many times a notification may have to name.
    pub open spec fn clock_readings(self) -> nat {
        match self {
            EvidenceView::Scanned { .. } => 1,
            EvidenceView::Inspected(found) => found.len(),
            EvidenceView::Resolved(texts) => texts.len(),
            _ => 0,
        }
    }
}

/// What was found at the given places of an event.
pub open spec fn seen_at(
    paths: Seq<PathView>,
    places: Seq<usize>,
    found: Seq<InspectionView>,
) -> Seq<SeenView> {
    Seq::new(places.len(), |j: int| SeenView { path: paths[places[j] as int], found: found[j] })
}

/// What was removed at the given places of an event.
pub open spec fn removed_at(
    paths: Seq<PathView>,
    places: Seq<usize>,
    resolved: Seq<Option<Seq<char>>>,
) -> Seq<RemovedView> {
    Seq::new(
        places.len(),
        |j: int| RemovedView { path: paths[places[j] as int], resolved: resolved[j] },
    )
}

/// What an event comes to, by what it calls for and by what was looked up. An event about
/// which something could not be read comes to nothing.
pub open spec fn outcome_of(
    route: RouteView,
    paths: Seq<PathView>,
    current: Map<Seq<char>, Seq<char>>,
    current_keys: Seq<Seq<char>>,
    evidence: EvidenceView,
    to: Seq<char>,
    times: Seq<Seq<char>>,
) -> Result<OutcomeView, EventError> {
    let start = OutcomeView { table: current, emails: seq![] };
    match (route, evidence) {
        (RouteView::Ignore, _) => Ok(start),
        (RouteView::Rescan, EvidenceView::Scanned { table, keys }) => Ok(
            OutcomeView {
                table,
                emails: rescan_jobs(current, current_keys, table, keys, to, times[0]),
            },
        ),
        (RouteView::Rescan, EvidenceView::ScanFailed) => Err(EventError::Unreadable),
        (RouteView::Changes(places), EvidenceView::Inspected(found)) => if found.len()
            != places.len() {
            Err(EventError::Unanswered)
        } else if !all_readable(seen_at(paths, places, found)) {
            Err(EventError::Unreadable)
        } else {
            Ok(after_changes(start, seen_at(paths, places, found), to, times))
        },
        (RouteView::Removals(places), EvidenceView::Resolved(resolved)) => if resolved.len()
            != places.len() {
            Err(EventError::Unanswered)
        } else {
            Ok(after_removals(start, removed_at(paths, places, resolved), to, times))
        },
        _ => Err(EventError::Unanswered),
    }
}

/// What is recorded for each file that the event brought up is a hash.
pub open spec fn evidence_hashed(
    route: RouteView,
    paths: Seq<PathView>,
    evidence: EvidenceView,
) -> bool {
    match (route, evidence) {
        (RouteView::Changes(places), EvidenceView::Inspected(found)) => all_hashed(
            seen_at(paths, places, found),
        ),
        _ => true,
    }
}

/// The outcome, or why there is none.
pub open spec fn result_view(r: Result<EventOutcome, EventError>) -> Result<
    OutcomeView,
    EventError,
> {
    match r {
        Ok(outcome) => Ok(outcome@),
        Err(e) => Err(e),
    }
}

/// Puts what was found beside the paths at which it was found.
fn pair_seen<'a>(
    paths: &'a Vec<FilePath>,
    places: &Vec<usize>,
    found: &'a Vec<Inspection>,
) -> (r: Vec<SeenPath<'a>>)
    requires
        found@.len() == places@.len(),
        all_below(places@, paths@.len()),
    ensures
        seen_view(r@) == seen_at(paths_view(paths@), places@, inspections_view(found@)),
{
    let ghost all = seen_at(paths_view(paths@), places@, inspections_view(found@));
    let mut seen: Vec<SeenPath<'a>> = Vec::new();
    let mut i: usize = 0;
    while i < places.len()
        invariant
            i <= places@.len(),
            seen@.len() == i,
            found@.len() == places@.len(),
            all == seen_at(paths_view(paths@), places@, inspections_view(found@)),
            all_below(places@, paths@.len()),
            forall|j: int| 0 <= j < i ==> (#[trigger] seen@[j])@ == all[j],
        decreases places@.len() - i,
    {
        seen.push(SeenPath { path: &paths[places[i]], found: &found[i] });
        i = i + 1;
    }
    assert(seen_view(seen@) =~= all);
    seen
}

/// Puts what removed paths were resolved to beside them.
fn pair_removed<'a>(
    paths: &'a Vec<FilePath>,
    places: &Vec<usize>,
    resolved: &'a Vec<Option<String>>,
) -> (r: Vec<RemovedPath<'a>>)
    requires
        resolved@.len() == places@.len(),
        all_below(places@, paths@.len()),
    ensures
        removed_view(r@) == removed_at(paths_view(paths@), places@, opt_texts(resolved@)),
{
    let ghost all = removed_at(paths_view(paths@), places@, opt_texts(resolved@));
    let mut removed: Vec<RemovedPath<'a>> = Vec::new();
    let mut i: usize = 0;
    while i < places.len()
        invariant
            i <= places@.len(),
            removed@.len() == i,
            resolved@.len() == places@.len(),
            all == removed_at(paths_view(paths@), places@, opt_texts(resolved@)),
            all_below(places@, paths@.len()),
            forall|j: int| 0 <= j < i ==> (#[trigger] removed@[j])@ == all[j],
        decreases places@.len() - i,
    {
        removed.push(RemovedPath { path: &paths[places[i]], resolved: &resolved[i] });
        i = i + 1;
    }
    assert(removed_view(removed@) =~= all);
    removed
}

/// Plans what an event comes to, with the times that its notifications name. The table in
/// force stays as it is.
pub fn plan_event_at(
    event: &WatchEvent,
    hashes_path: &FilePath,
    current: &HashTable,
    evidence: Evidence,
    notify_email: &str,
    times: &Vec<String>,
) -> (r: Result<EventOutcome, EventError>)
    requires
        times@.len() == evidence@.clock_readings(),
    ensures
        lists_keys(current.keys(), current@),
        result_view(r) == outcome_of(
            route_of(event.kind, paths_view(event.paths@), event.rescan, hashes_path@),
            paths_view(event.paths@),
            current@,
            current.keys(),
            evidence@,
            notify_email@,
            texts(times@),
        ),
        r is Ok ==> evidence_hashed(
            route_of(event.kind, paths_view(event.paths@), event.rescan, hashes_path@),
            paths_view(event.paths@),
            evidence@,
        ),
{
    let _ = current.len();
    match (route_event(event, hashes_path), evidence) {
        (EventRoute::Ignore, _) => {
            let outcome = EventOutcome { hashes: current.clone(), emails: Vec::new() };
            assert(outcome@.emails =~= seq![]);
            Ok(outcome)
        },
        (EventRoute::Rescan, Evidence::Scanned(table)) => Ok(
            plan_rescan(current, table, notify_email, times[0].as_str()),
        ),
        (EventRoute::Rescan, Evidence::ScanFailed) => Err(EventError::Unreadable),
        (EventRoute::Changes(places), Evidence::Inspected(found)) => {
            if found.len() != places.len() {
                return Err(EventError::Unanswered);
            }
            let seen = pair_seen(&event.paths, &places, &found);
            plan_changes(current, &seen, notify_email, times)
        },
        (EventRoute::Removals(places), Evidence::Resolved(resolved)) => {
            if resolved.len() != places.len() {
                return Err(EventError::Unanswered);
            }
            let removed = pair_removed(&event.paths, &places, &resolved);
            Ok(plan_removals(current, &removed, notify_email, times))
        },
        _ => Err(EventError::Unanswered),
    }
}

/// `times` are `n` times of day.
pub open spec fn are_timestamps(times: Seq<Seq<char>>, n: nat) -> bool {
    &&& times.len() == n
    &&& forall|i: int| 0 <= i < n ==> is_timestamp(#[trigger] times[i])
}

/// Reads the clock `n` times.
fn read_clock(n: usize) -> (r: Vec<String>)
    ensures
        r@.len() == n,
        are_timestamps(texts(r@), n as nat),
{
    let mut times: Vec<String> = Vec::new();
    let mut i: usize = 0;
    while i < n
        invariant
            i <= n,
            times@.len() == i,
            are_timestamps(texts(times@), i as nat),
        decreases n - i,
    {
        let ghost before = texts(times@);
        times.push(timestamp_now());
        assert(texts(times@) =~= before.push(times@.last()@));
        i = i + 1;
    }
    times
}

/// Plans what an event comes to, at this time. The table in force stays as it is.
pub fn plan_event(
    event: &WatchEvent,
    hashes_path: &FilePath,
    current: &HashTable,
    evidence: Evidence,
    notify_email: &str,
) -> (r: Result<EventOutcome, EventError>)
    ensures
        lists_keys(current.keys(), current@),
        exists|times: Seq<Seq<char>>| #[trigger]
            are_timestamps(times, evidence@.clock_readings()) && result_view(r) == outcome_of(
                route_of(event.kind, paths_view(event.paths@), event.rescan, hashes_path@),
                paths_view(event.paths@),
                current@,
                current.keys(),
                evidence@,
                notify_email@,
                times,
            ),
        r is Ok ==> evidence_hashed(
            route_of(event.kind, paths_view(event.paths@), event.rescan, hashes_path@),
            paths_view(event.paths@),
            evidence@,
        ),
{
    let n: usize = match &evidence {
        Evidence::Scanned(_) => 1,
        Evidence::Inspected(found) => found.len(),
        Evidence::Resolved(resolved) => resolved.len(),
        _ => 0,
    };
    let times = read_clock(n);
    assert(are_timestamps(texts(times@), evidence@.clock_readings()));
    plan_event_at(event, hashes_path, current, evidence, notify_email, &times)
}

/// What has to be written to the record file before an outcome can be committed to: the
/// record of its table, or nothing where the table stays as it is.
pub fn record_to_write(current: &HashTable, outcome: &EventOutcome) -> (r: Option<String>)
    ensures
        match r {
            Some(text) => {
                &&& outcome.hashes@ != current@
                &&& lists_keys(outcome.hashes.keys(), outcome.hashes@)
                &&& text@ == record_text(outcome.hashes.keys(), outcome.hashes@)
            },
            None => outcome.hashes@ == current@,
        },
{
    if outcome.hashes.same_as(current) {
        None
    } else {
        Some(write_hashes(&outcome.hashes))
    }
}

/// Commits to an outcome once the record file has been written, or did not have to be:
/// its table is the one in force, and its notifications are queued in their order. Where
/// the record file could not be written, everything stays as it was. A closed queue takes
/// no notifications in, and undoes nothing; how many it did not take is returned.
pub fn commit_event(
    file_hashes: &mut HashTable,
    outcome: EventOutcome,
    written: bool,
    queue: &mut MailQueue,
) -> (r: Result<usize, EventError>)
    ensures
        final(queue).accepts() == old(queue).accepts(),
        if written || outcome.hashes@ == old(file_hashes)@ {
            &&& r == Ok::<usize, EventError>(
                if old(queue).accepts() {
                    0
                } else {
                    outcome.emails@.len() as usize
                },
            )
            &&& final(file_hashes)@ == outcome.hashes@
            &&& final(queue).waiting() == (if old(queue).accepts() {
                old(queue).waiting() + outcome@.emails
            } else {
                old(queue).waiting()
            })
        } else {
            &&& r == Err::<usize, EventError>(EventError::NotWritten)
            &&& final(file_hashes)@ == old(file_hashes)@
            &&& final(queue).waiting() == old(queue).waiting()
        },
{
    let ghost emails = outcome@.emails;
    let ghost before = queue.waiting();
    let ghost accepts = queue.accepts();
    let EventOutcome { hashes, emails: jobs } = outcome;
    if !written && !hashes.same_as(file_hashes) {
        return Err(EventError::NotWritten);
    }
    *file_hashes = hashes;
    let mut missed: usize = 0;
    let mut i: usize = 0;
    proof {
        assert(before + emails.take(0) =~= before);
    }
    while i < jobs.len()
        invariant
            i <= jobs@.len(),
            emails == jobs_view(jobs@),
            queue.accepts() == accepts,
            missed == (if accepts {
                0
            } else {
                i as int
            }),
            queue.waiting() == (if accepts {
                before + emails.take(i as int)
            } else {
                before
            }),
        decreases jobs@.len() - i,
    {
        let job = &jobs[i];
        if queue_email(queue, job.to.as_str(), job.body.clone()).is_err() {
            missed = missed + 1;
        }
        proof {
            assert(emails[i as int] == jobs@[i as int]@);
            assert((before + emails.take(i as int)).push(emails[i as int]) =~= before + emails.take(
                i + 1,
            ));
        }
        i = i + 1;
    }
    assert(emails.take(i as int) =~= emails);
    Ok(missed)
}

} // verus!
