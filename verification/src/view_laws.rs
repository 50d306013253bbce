//! What the values that the library takes and gives stand for, field by field.
use crate::event::{paths_view, EventRoute, RouteView};
use crate::mail::{mail_view, party_view, MailError, MailParty, OutgoingMail};
use crate::monitor::{opt_texts, result_view, Evidence, EvidenceView};
use crate::notice::{jobs_view, EmailJob};
use crate::path::{opt_text, parts_view, FilePath};
use crate::plan::{
    inspections_view, removed_view, seen_view, EventError, EventOutcome, Inspection, InspectionView,
    RemovedPath, SeenPath,
};
use crate::scan::{entries_view, ScanEntry};
use crate::text::texts;
use vstd::prelude::*;

verus! {

/// A path stands for its text and for all bytes of each of its components.
pub proof fn law_path_stands_for_text_and_components(path: FilePath)
    ensures
        path@.text == path.text@,
        path@.parts.len() == path.parts@.len(),
        forall|i: int| 0 <= i < path.parts@.len() ==> #[trigger] path@.parts[i] == path.parts@[i]@,
{
    assert(parts_view(path.parts@).len() == path.parts@.len());
}

/// An optional string stands for its text, if there is one.
pub proof fn law_optional_text_stands_for_its_text(text: String)
    ensures
        opt_text(Some(text)) == Some(text@),
        opt_text(None) is None,
{
}

/// A row stands for what its members stand for, in their order, none left out and none
/// added.
pub proof fn law_rows_stand_for_their_members(
    strings: Seq<String>,
    options: Seq<Option<String>>,
    paths: Seq<FilePath>,
    jobs: Seq<EmailJob>,
    found: Seq<Inspection>,
    entries: Seq<ScanEntry>,
)
    ensures
        texts(strings).len() == strings.len(),
        forall|i: int| 0 <= i < strings.len() ==> #[trigger] texts(strings)[i] == strings[i]@,
        opt_texts(options).len() == options.len(),
        forall|i: int|
            0 <= i < options.len() ==> #[trigger] opt_texts(options)[i] == (match options[i] {
                Some(text) => Some(text@),
                None => None,
            }),
        paths_view(paths).len() == paths.len(),
        forall|i: int| 0 <= i < paths.len() ==> #[trigger] paths_view(paths)[i] == paths[i]@,
        jobs_view(jobs).len() == jobs.len(),
        forall|i: int|
            0 <= i < jobs.len() ==> (#[trigger] jobs_view(jobs)[i]).to == jobs[i].to@ && jobs_view(
                jobs,
            )[i].body == jobs[i].body@,
        inspections_view(found).len() == found.len(),
        forall|i: int|
            0 <= i < found.len() ==> #[trigger] inspections_view(found)[i] == found[i]@,
        entries_view(entries).len() == entries.len(),
        forall|i: int|
            0 <= i < entries.len() ==> ({
                let entry = #[trigger] entries_view(entries)[i];
                entry.handle == entries[i].handle && entry.path == entries[i].path@ && entry.kind
                    == entries[i].kind
            }),
{
}

/// What was seen or removed at paths stands for each path and what was found out about it.
pub proof fn law_pairs_stand_for_both_halves(
    seen: Seq<SeenPath<'_>>,
    removed: Seq<RemovedPath<'_>>,
)
    ensures
        seen_view(seen).len() == seen.len(),
        forall|i: int|
            0 <= i < seen.len() ==> (#[trigger] seen_view(seen)[i]).path == seen[i].path@
                && seen_view(seen)[i].found == seen[i].found@,
        removed_view(removed).len() == removed.len(),
        forall|i: int|
            0 <= i < removed.len() ==> (#[trigger] removed_view(removed)[i]).path
                == removed[i].path@ && removed_view(removed)[i].resolved == (
            match *removed[i].resolved {
                Some(text) => Some(text@),
                None => None,
            }),
{
}

/// What was found at a path stands for just that: no file, an unreadable one, or a file with
/// what it holds and what its path is resolved to.
pub proof fn law_inspection_stands_for_what_was_found(found: Inspection)
    ensures
        found is NotAFile ==> found@ is NotAFile,
        found is Unreadable ==> found@ is Unreadable,
        found matches Inspection::File { resolved, contents } ==> found@ == (InspectionView::File {
            resolved: match resolved {
                Some(text) => Some(text@),
                None => None,
            },
            contents: contents@,
        }),
{
}

/// What was looked up for an event stands for just that.
pub proof fn law_evidence_stands_for_what_was_looked_up(evidence: Evidence)
    ensures
        evidence is Nothing ==> evidence@ is Nothing,
        evidence is ScanFailed ==> evidence@ is ScanFailed,
        evidence matches Evidence::Scanned(table) ==> evidence@ == (EvidenceView::Scanned {
            table: table@,
            keys: table.keys(),
        }),
        evidence matches Evidence::Inspected(found) ==> (evidence@ matches EvidenceView::Inspected(
            seen,
        ) && seen.len() == found@.len() && (forall|i: int|
            0 <= i < found@.len() ==> #[trigger] seen[i] == found@[i]@)),
        evidence matches Evidence::Resolved(resolved) ==> (evidence@ matches EvidenceView::Resolved(
            known,
        ) && known.len() == resolved@.len() && (forall|i: int|
            0 <= i < resolved@.len() ==> #[trigger] known[i] == (match resolved@[i] {
                Some(text) => Some(text@),
                None => None,
            }))),
{
}

/// What an event calls for stands for just that.
pub proof fn law_route_stands_for_itself(route: EventRoute)
    ensures
        route is Ignore ==> route@ is Ignore,
        route is Rescan ==> route@ is Rescan,
        route matches EventRoute::Changes(named) ==> route@ == RouteView::Changes(named@),
        route matches EventRoute::Removals(named) ==> route@ == RouteView::Removals(named@),
{
}

/// An outcome stands for its table and for all its notifications in their order; that an
/// event came to something, and why it did not, is what was returned.
pub proof fn law_outcome_stands_for_table_and_notifications(
    outcome: EventOutcome,
    error: EventError,
)
    ensures
        outcome@.table == outcome.hashes@,
        outcome@.emails.len() == outcome.emails@.len(),
        forall|i: int|
            0 <= i < outcome.emails@.len() ==> (#[trigger] outcome@.emails[i]).to
                == outcome.emails@[i].to@ && outcome@.emails[i].body == outcome.emails@[i].body@,
        result_view(Ok(outcome)) == Ok::<_, EventError>(outcome@),
        result_view(Err(error)) == Err::<crate::plan::OutcomeView, EventError>(error),
{
}

/// A mail stands for its four parts, and each party for its three.
pub proof fn law_mail_stands_for_its_parts(mail: OutgoingMail, party: MailParty, error: MailError)
    ensures
        party@.name == (match party.name {
            Some(name) => Some(name@),
            None => None,
        }),
        party@.user == party.user@,
        party@.domain == party.domain@,
        party_view(Some(party)) == Some(party@),
        party_view(None) is None,
        mail@.from == mail.from@,
        mail@.to == mail.to@,
        mail@.subject == mail.subject@,
        mail@.body == mail.body@,
        mail_view(Ok(mail)) == Ok::<_, MailError>(mail@),
        mail_view(Err(error)) == Err::<crate::mail::MailView, MailError>(error),
{
}

} // verus!
