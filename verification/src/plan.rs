//! What an event changes in the table, and which notifications it gives rise to.
use crate::digest::{calculate_hash, hash_of, is_hash};
use crate::notice::{
    added_body, added_text, changed_body, changed_text, jobs_view, removed_body,
    removed_text, EmailJob, JobView,
};
use crate::path::{key_of, opt_text, path_key, FilePath, PathView};
use crate::table::{lists_keys, HashTable};
use crate::text::texts;
use vstd::prelude::*;

verus! {

/// What was found at a path.
pub enum Inspection {
    /// There is no file, or there is something other than a file.
    NotAFile,
    /// There is a file, but it could not be read.
    Unreadable,
    /// There is a file that holds this; the text of its resolved path, if it could be
    /// resolved.
    File { resolved: Option<String>, contents: Vec<u8> },
}

/// What an [`Inspection`] holds.
pub enum InspectionView {
    NotAFile,
    Unreadable,
    File { resolved: Option<Seq<char>>, contents: Seq<u8> },
}

impl View for Inspection {
    type V = InspectionView;

    open spec fn view(&self) -> InspectionView {
        match *self {
            Inspection::NotAFile => InspectionView::NotAFile,
            Inspection::Unreadable => InspectionView::Unreadable,
            Inspection::File { resolved, contents } => InspectionView::File {
                resolved: opt_text(resolved),
                contents: contents@,
            },
        }
    }
}

/// What a row of inspections holds.
pub open spec fn inspections_view(found: Seq<Inspection>) -> Seq<InspectionView> {
    found.map_values(|f: Inspection| f@)
}

/// A path and what was found there.
pub struct SeenPath<'a> {
    pub path: &'a FilePath,
    pub found: &'a Inspection,
}

/// What a [`SeenPath`] holds.
pub struct SeenView {
    pub path: PathView,
    pub found: InspectionView,
}

impl<'a> View for SeenPath<'a> {
    type V = SeenView;

    open spec fn view(&self) -> SeenView {
        SeenView { path: self.path@, found: self.found@ }
    }
}

/// What a row of paths and findings holds.
pub open spec fn seen_view<'a>(seen: Seq<SeenPath<'a>>) -> Seq<SeenView> {
    seen.map_values(|s: SeenPath<'a>| s@)
}

/// A path at which something was removed, and the text of its resolved path if it could
/// still be resolved.
pub struct RemovedPath<'a> {
    pub path: &'a FilePath,
    pub resolved: &'a Option<String>,
}

/// What a [`RemovedPath`] holds.
pub struct RemovedView {
    pub path: PathView,
    pub resolved: Option<Seq<char>>,
}

impl<'a> View for RemovedPath<'a> {
    type V = RemovedView;

    open spec fn view(&self) -> RemovedView {
        RemovedView { path: self.path@, resolved: opt_text(*self.resolved) }
    }
}

/// What a row of removed paths holds.
pub open spec fn removed_view<'a>(removed: Seq<RemovedPath<'a>>) -> Seq<RemovedView> {
    removed.map_values(|p: RemovedPath<'a>| p@)
}

/// What an event comes to: the next table, and the notifications to send. The table that
/// is in force is not touched by planning.
pub struct EventOutcome {
    pub hashes: HashTable,
    pub emails: Vec<EmailJob>,
}

/// What an [`EventOutcome`] holds.
pub struct OutcomeView {
    pub table: Map<Seq<char>, Seq<char>>,
    pub emails: Seq<JobView>,
}

impl View for EventOutcome {
    type V = OutcomeView;

    open spec fn view(&self) -> OutcomeView {
        OutcomeView { table: self.hashes@, emails: jobs_view(self.emails@) }
    }
}

/// Why an event came to nothing.
#[derive(Debug, Clone, Copy, PartialEq, Eq, Structural)]
pub enum EventError {
    /// A file or a directory could not be read.
    Unreadable,
    /// What the event called for was not looked up.
    Unanswered,
    /// The record file could not be written.
    NotWritten,
}

/// The recorded hash of the file is another one, or none.
pub open spec fn differs(
    table: Map<Seq<char>, Seq<char>>,
    key: Seq<char>,
    hash: Seq<char>,
) -> bool {
    !(table.contains_key(key) && table[key] == hash)
}

/// What is said of a file that has come to have this hash.
pub open spec fn change_text(
    table: Map<Seq<char>, Seq<char>>,
    key: Seq<char>,
    hash: Seq<char>,
    time: Seq<char>,
) -> Seq<char> {
    if table.contains_key(key) {
        changed_text(time, key, table[key], hash)
    } else {
        added_text(time, key, hash)
    }
}

/// What is left to do about a file that was found: where its hash differs from the
/// recorded one, the new one is recorded and reported.
pub open spec fn after_change(
    before: OutcomeView,
    key: Seq<char>,
    hash: Seq<char>,
    to: Seq<char>,
    time: Seq<char>,
) -> OutcomeView {
    if differs(before.table, key, hash) {
        OutcomeView {
            table: before.table.insert(key, hash),
            emails: before.emails.push(
                JobView { to, body: change_text(before.table, key, hash, time) },
            ),
        }
    } else {
        before
    }
}

/// The text under which a removed file is recorded: the text of its path, or that of its
/// resolved path. A file that is recorded under neither is not known.
pub open spec fn hash_key_of(
    table: Map<Seq<char>, Seq<char>>,
    path: PathView,
    resolved: Option<Seq<char>>,
) -> Option<Seq<char>> {
    if table.contains_key(path.text) {
        Some(path.text)
    } else {
        match resolved {
            Some(text) => if table.contains_key(text) {
                Some(text)
            } else {
                None
            },
            None => None,
        }
    }
}

/// What is left to do about a removed path: a file that was recorded there is forgotten
/// and reported.
pub open spec fn after_removal(
    before: OutcomeView,
    removed: RemovedView,
    to: Seq<char>,
    time: Seq<char>,
) -> OutcomeView {
    match hash_key_of(before.table, removed.path, removed.resolved) {
        Some(key) => OutcomeView {
            table: before.table.remove(key),
            emails: before.emails.push(
                JobView { to, body: removed_text(time, key, before.table[key]) },
            ),
        },
        None => before,
    }
}

/// What comes of what was seen, taken one after the other, each at its own time.
pub open spec fn after_changes(
    start: OutcomeView,
    seen: Seq<SeenView>,
    to: Seq<char>,
    times: Seq<Seq<char>>,
) -> OutcomeView
    decreases seen.len(),
{
    if seen.len() == 0 {
        start
    } else {
        let before = after_changes(start, seen.drop_last(), to, times);
        match seen.last().found {
            InspectionView::File { resolved, contents } => after_change(
                before,
                key_of(seen.last().path, resolved),
                hash_of(contents),
                to,
                times[seen.len() - 1],
            ),
            _ => before,
        }
    }
}

/// What comes of a row of removed paths, taken one after the other, each at its own time.
pub open spec fn after_removals(
    start: OutcomeView,
    removed: Seq<RemovedView>,
    to: Seq<char>,
    times: Seq<Seq<char>>,
) -> OutcomeView
    decreases removed.len(),
{
    if removed.len() == 0 {
        start
    } else {
        let before = after_removals(start, removed.drop_last(), to, times);
        after_removal(before, removed.last(), to, times[removed.len() - 1])
    }
}

/// Every file that was found could be read.
pub open spec fn all_readable(seen: Seq<SeenView>) -> bool {
    forall|i: int| 0 <= i < seen.len() ==> !((#[trigger] seen[i]).found is Unreadable)
}

/// What is recorded for each file that was found is a hash.
pub open spec fn all_hashed(seen: Seq<SeenView>) -> bool {
    forall|i: int| 0 <= i < seen.len() ==> found_hashed((#[trigger] seen[i]).found)
}

/// What is recorded for a file that was found is a hash.
pub open spec fn found_hashed(found: InspectionView) -> bool {
    found matches InspectionView::File { contents, .. } ==> is_hash(hash_of(contents))
}

/// The files of `keys` whose hash in `new` differs from that in `old`.
pub open spec fn changed_keys(
    old_table: Map<Seq<char>, Seq<char>>,
    new_table: Map<Seq<char>, Seq<char>>,
    keys: Seq<Seq<char>>,
) -> Seq<Seq<char>> {
    keys.filter(|k: Seq<char>| differs(old_table, k, new_table[k]))
}

/// The files of `keys` that are not in `new`.
pub open spec fn gone_keys(
    new_table: Map<Seq<char>, Seq<char>>,
    keys: Seq<Seq<char>>,
) -> Seq<Seq<char>> {
    keys.filter(|k: Seq<char>| !new_table.contains_key(k))
}

/// One notification for each of `keys`, about its hash in `new`.
pub open spec fn change_jobs(
    old_table: Map<Seq<char>, Seq<char>>,
    new_table: Map<Seq<char>, Seq<char>>,
    keys: Seq<Seq<char>>,
    to: Seq<char>,
    time: Seq<char>,
) -> Seq<JobView> {
    keys.map_values(
        |k: Seq<char>| JobView { to, body: change_text(old_table, k, new_table[k], time) },
    )
}

/// One notification for each of `keys`, about its removal.
pub open spec fn removal_jobs(
    old_table: Map<Seq<char>, Seq<char>>,
    keys: Seq<Seq<char>>,
    to: Seq<char>,
    time: Seq<char>,
) -> Seq<JobView> {
    keys.map_values(|k: Seq<char>| JobView { to, body: removed_text(time, k, old_table[k]) })
}

/// The notifications after a scan: one for each file whose hash differs from the recorded
/// one, then one for each recorded file that is gone.
pub open spec fn rescan_jobs(
    old_table: Map<Seq<char>, Seq<char>>,
    old_keys: Seq<Seq<char>>,
    new_table: Map<Seq<char>, Seq<char>>,
    new_keys: Seq<Seq<char>>,
    to: Seq<char>,
    time: Seq<char>,
) -> Seq<JobView> {
    change_jobs(old_table, new_table, changed_keys(old_table, new_table, new_keys), to, time)
        + removal_jobs(old_table, gone_keys(new_table, old_keys), to, time)
}

/// Records the hash of a file that was found, where it differs from the recorded one, and
/// returns the notification about it.
pub fn handle_file_change(
    hashes: &mut HashTable,
    path: &FilePath,
    resolved: Option<String>,
    contents: &[u8],
    notify_email: &str,
    time: &str,
) -> (r: Option<EmailJob>)
    ensures
        ({
            let key = key_of(path@, opt_text(resolved));
            let hash = hash_of(contents@);
            if differs(old(hashes)@, key, hash) {
                &&& r matches Some(job) && job@ == (JobView {
                    to: notify_email@,
                    body: change_text(old(hashes)@, key, hash, time@),
                })
                &&& final(hashes)@ == old(hashes)@.insert(key, hash)
            } else {
                r is None && final(hashes)@ == old(hashes)@
            }
        }),
        is_hash(hash_of(contents@)),
{
    let key = path_key(path, resolved);
    let hash = calculate_hash(contents);
    let body = match hashes.get(key.as_str()) {
        Some(old_hash) => {
            if *old_hash == hash {
                return None;
            }
            changed_body(time, key.as_str(), old_hash.as_str(), hash.as_str())
        },
        None => added_body(time, key.as_str(), hash.as_str()),
    };
    hashes.insert(key, hash);
    Some(EmailJob { to: notify_email.to_owned(), body })
}

/// Finds the text under which a removed file is recorded.
pub fn find_hash_key(hashes: &HashTable, path: &FilePath, resolved: &Option<String>) -> (r: Option<
    String,
>)
    ensures
        opt_text(r) == hash_key_of(hashes@, path@, opt_text(*resolved)),
{
    if hashes.contains_key(path.text.as_str()) {
        return Some(path.text.clone());
    }
    match resolved {
        Some(text) => if hashes.contains_key(text.as_str()) {
            Some(text.clone())
        } else {
            None
        },
        None => None,
    }
}

/// Forgets a removed file, if it is recorded, and returns the notification about it.
pub fn handle_file_remove(
    hashes: &mut HashTable,
    removed: &RemovedPath<'_>,
    notify_email: &str,
    time: &str,
) -> (r: Option<EmailJob>)
    ensures
        match hash_key_of(old(hashes)@, removed@.path, removed@.resolved) {
            Some(key) => {
                &&& r matches Some(job) && job@ == (JobView {
                    to: notify_email@,
                    body: removed_text(time@, key, old(hashes)@[key]),
                })
                &&& final(hashes)@ == old(hashes)@.remove(key)
            },
            None => r is None && final(hashes)@ == old(hashes)@,
        },
{
    let key = match find_hash_key(hashes, removed.path, removed.resolved) {
        Some(key) => key,
        None => return None,
    };
    match hashes.remove(key.as_str()) {
        Some(old_hash) => Some(
            EmailJob {
                to: notify_email.to_owned(),
                body: removed_body(time, key.as_str(), old_hash.as_str()),
            },
        ),
        None => None,
    }
}

/// Adds a notification, if there is one.
fn push_job(emails: &mut Vec<EmailJob>, job: Option<EmailJob>)
    ensures
        jobs_view(final(emails)@) == (match job {
            Some(job) => jobs_view(old(emails)@).push(job@),
            None => jobs_view(old(emails)@),
        }),
{
    let ghost before = jobs_view(emails@);
    if let Some(job) = job {
        emails.push(job);
        assert(jobs_view(emails@) =~= before.push(job@));
    }
}

/// Plans what comes of the files that were found at the paths of an event, each at the
/// time given for it. Where one of them could not be read, the event comes to nothing.
pub fn plan_changes(
    current: &HashTable,
    seen: &Vec<SeenPath<'_>>,
    notify_email: &str,
    times: &Vec<String>,
) -> (r: Result<EventOutcome, EventError>)
    requires
        times@.len() == seen@.len(),
    ensures
        match r {
            Ok(outcome) => {
                &&& all_readable(seen_view(seen@))
                &&& outcome@ == after_changes(
                    OutcomeView { table: current@, emails: seq![] },
                    seen_view(seen@),
                    notify_email@,
                    texts(times@),
                )
                &&& all_hashed(seen_view(seen@))
            },
            Err(e) => e == EventError::Unreadable && !all_readable(seen_view(seen@)),
        },
{
    let ghost start = OutcomeView { table: current@, emails: seq![] };
    let ghost all = seen_view(seen@);
    let mut outcome = EventOutcome { hashes: current.clone(), emails: Vec::new() };
    let mut i: usize = 0;
    proof {
        assert(outcome@.emails =~= seq![]);
    }
    while i < seen.len()
        invariant
            i <= seen@.len(),
            times@.len() == seen@.len(),
            all == seen_view(seen@),
            forall|j: int| 0 <= j < i ==> !((#[trigger] all[j]).found is Unreadable),
            forall|j: int| 0 <= j < i ==> found_hashed((#[trigger] all[j]).found),
            outcome@ == after_changes(start, all.take(i as int), notify_email@, texts(times@)),
        decreases seen@.len() - i,
    {
        proof {
            assert(all.take(i + 1).drop_last() =~= all.take(i as int));
            assert(all[i as int] == seen@[i as int]@);
        }
        match seen[i].found {
            Inspection::NotAFile => {},
            Inspection::Unreadable => {
                return Err(EventError::Unreadable);
            },
            Inspection::File { resolved, contents } => {
                let job = handle_file_change(
                    &mut outcome.hashes,
                    seen[i].path,
                    resolved.clone(),
                    contents.as_slice(),
                    notify_email,
                    times[i].as_str(),
                );
                push_job(&mut outcome.emails, job);
            },
        }
        i = i + 1;
    }
    assert(all.take(i as int) =~= all);
    Ok(outcome)
}

/// Plans what comes of the removed paths of an event, each at the time given for it.
pub fn plan_removals(
    current: &HashTable,
    removed: &Vec<RemovedPath<'_>>,
    notify_email: &str,
    times: &Vec<String>,
) -> (r: EventOutcome)
    requires
        times@.len() == removed@.len(),
    ensures
        r@ == after_removals(
            OutcomeView { table: current@, emails: seq![] },
            removed_view(removed@),
            notify_email@,
            texts(times@),
        ),
{
    let ghost start = OutcomeView { table: current@, emails: seq![] };
    let ghost all = removed_view(removed@);
    let mut outcome = EventOutcome { hashes: current.clone(), emails: Vec::new() };
    let mut i: usize = 0;
    proof {
        assert(outcome@.emails =~= seq![]);
    }
    while i < removed.len()
        invariant
            i <= removed@.len(),
            times@.len() == removed@.len(),
            all == removed_view(removed@),
            outcome@ == after_removals(start, all.take(i as int), notify_email@, texts(times@)),
        decreases removed@.len() - i,
    {
        proof {
            assert(all.take(i + 1).drop_last() =~= all.take(i as int));
            assert(all[i as int] == removed@[i as int]@);
        }
        let job = handle_file_remove(
            &mut outcome.hashes,
            &removed[i],
            notify_email,
            times[i].as_str(),
        );
        push_job(&mut outcome.emails, job);
        i = i + 1;
    }
    assert(all.take(i as int) =~= all);
    outcome
}

/// Plans what comes of a scan that was made at the given time.
pub fn plan_rescan(
    current: &HashTable,
    scanned: HashTable,
    notify_email: &str,
    time: &str,
) -> (r: EventOutcome)
    ensures
        lists_keys(current.keys(), current@),
        lists_keys(scanned.keys(), scanned@),
        r.hashes.keys() == scanned.keys(),
        r@ == (OutcomeView {
            table: scanned@,
            emails: rescan_jobs(
                current@,
                current.keys(),
                scanned@,
                scanned.keys(),
                notify_email@,
                time@,
            ),
        }),
{
    let ghost old_table = current@;
    let ghost new_table = scanned@;
    let mut emails: Vec<EmailJob> = Vec::new();
    let n: usize = scanned.len();
    let ghost keys = scanned.keys();
    let ghost pred = |k: Seq<char>| differs(old_table, k, new_table[k]);
    let mut i: usize = 0;
    proof {
        reveal(Seq::filter);
        assert(keys.take(0).filter(pred) =~= Seq::<Seq<char>>::empty());
        assert(jobs_view(emails@) =~= change_jobs(
            old_table,
            new_table,
            keys.take(0).filter(pred),
            notify_email@,
            time@,
        ));
    }
    while i < n
        invariant
            i <= n,
            n == keys.len(),
            keys == scanned.keys(),
            old_table == current@,
            new_table == scanned@,
            pred == (|k: Seq<char>| differs(old_table, k, new_table[k])),
            jobs_view(emails@) == change_jobs(
                old_table,
                new_table,
                keys.take(i as int).filter(pred),
                notify_email@,
                time@,
            ),
        decreases n - i,
    {
        let path = scanned.path_at(i);
        let hash = scanned.hash_at(i);
        let ghost key = keys[i as int];
        proof {
            assert(keys.take(i + 1) =~= keys.take(i as int).push(key));
            keys.take(i as int).lemma_filter_push(key, pred);
        }
        let body = match current.get(path.as_str()) {
            Some(old_hash) => if *old_hash == *hash {
                None
            } else {
                Some(changed_body(time, path.as_str(), old_hash.as_str(), hash.as_str()))
            },
            None => Some(added_body(time, path.as_str(), hash.as_str())),
        };
        let ghost before = jobs_view(emails@);
        if let Some(body) = body {
            emails.push(EmailJob { to: notify_email.to_owned(), body });
            assert(jobs_view(emails@) =~= before.push(emails@.last()@));
        }
        assert(jobs_view(emails@) =~= change_jobs(
            old_table,
            new_table,
            keys.take(i + 1).filter(pred),
            notify_email@,
            time@,
        ));
        i = i + 1;
    }
    let ghost reported = jobs_view(emails@);
    let m: usize = current.len();
    let ghost old_keys = current.keys();
    let ghost gone = |k: Seq<char>| !new_table.contains_key(k);
    let mut j: usize = 0;
    proof {
        assert(keys.take(n as int) =~= keys);
        assert(old_keys.take(0).filter(gone) =~= Seq::<Seq<char>>::empty());
        assert(reported =~= reported + removal_jobs(
            old_table,
            old_keys.take(0).filter(gone),
            notify_email@,
            time@,
        ));
    }
    while j < m
        invariant
            j <= m,
            m == old_keys.len(),
            old_keys == current.keys(),
            old_table == current@,
            new_table == scanned@,
            gone == (|k: Seq<char>| !new_table.contains_key(k)),
            jobs_view(emails@) == reported + removal_jobs(
                old_table,
                old_keys.take(j as int).filter(gone),
                notify_email@,
                time@,
            ),
        decreases m - j,
    {
        let path = current.path_at(j);
        let ghost key = old_keys[j as int];
        proof {
            assert(old_keys.take(j + 1) =~= old_keys.take(j as int).push(key));
            old_keys.take(j as int).lemma_filter_push(key, gone);
        }
        let ghost before = jobs_view(emails@);
        if !scanned.contains_key(path.as_str()) {
            let body = removed_body(time, path.as_str(), current.hash_at(j).as_str());
            emails.push(EmailJob { to: notify_email.to_owned(), body });
            assert(jobs_view(emails@) =~= before.push(emails@.last()@));
        }
        assert(jobs_view(emails@) =~= reported + removal_jobs(
            old_table,
            old_keys.take(j + 1).filter(gone),
            notify_email@,
            time@,
        ));
        j = j + 1;
    }
    assert(old_keys.take(m as int) =~= old_keys);
    EventOutcome { hashes: scanned, emails }
}

} // verus!
