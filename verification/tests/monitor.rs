use std::collections::BTreeMap;
use watch_folder::digest::calculate_hash;
use watch_folder::event::{route_event, EventKind, EventRoute, ModifyKind, WatchEvent};
use watch_folder::monitor::{commit_event, plan_event, plan_event_at, record_to_write, Evidence};
use watch_folder::notice::{EmailJob, MailQueue};
use watch_folder::path::{is_hashes_file, path_key, FilePath, HASHES_FILENAME};
use watch_folder::plan::{
    find_hash_key, handle_file_change, handle_file_remove, plan_rescan, EventError, EventOutcome,
    Inspection, RemovedPath,
};
use watch_folder::record::{load_hashes, write_hashes, RecordSource};
use watch_folder::scan::{
    scan_directory, DirectoryScan, EntryKind, ScanEntry, ScanError, ScanReply, ScanRequest,
};
use watch_folder::table::HashTable;

const TIME: &str = "2026-07-15 09:30:00";

/// The files of a directory tree, by their paths.
struct Disk {
    files: BTreeMap<String, Vec<u8>>,
    read_only: bool,
}

fn disk(files: &[(&str, &str)]) -> Disk {
    let mut disk = Disk { files: BTreeMap::new(), read_only: false };
    for (path, contents) in files {
        disk.write(path, contents);
    }
    disk
}

fn path(text: &str) -> FilePath {
    FilePath {
        text: text.to_string(),
        parts: text.split('/').map(|part| part.as_bytes().to_vec()).collect(),
    }
}

fn root_record() -> String {
    format!("/w/{HASHES_FILENAME}")
}

fn table(entries: &[(&str, &str)]) -> HashTable {
    let mut table = HashTable::new();
    for (path, hash) in entries {
        table.insert(path.to_string(), hash.to_string());
    }
    table
}

fn times(n: usize) -> Vec<String> {
    vec![TIME.to_string(); n]
}

fn event(kind: EventKind, paths: &[&str]) -> WatchEvent {
    WatchEvent { kind, paths: paths.iter().map(|p| path(p)).collect(), rescan: false }
}

fn modified() -> EventKind {
    EventKind::Modify(ModifyKind::Data)
}

impl Disk {
    fn write(&mut self, path: &str, contents: &str) {
        self.files.insert(path.to_string(), contents.as_bytes().to_vec());
    }

    fn remove(&mut self, path: &str) -> Vec<u8> {
        self.files.remove(path).unwrap()
    }

    fn rename(&mut self, from: &str, to: &str) {
        let contents = self.remove(from);
        self.files.insert(to.to_string(), contents);
    }

    fn hash(&self, path: &str) -> String {
        calculate_hash(&self.files[path])
    }

    fn list(&self, dir: &str, known: &mut Vec<String>) -> Vec<ScanEntry> {
        let mut entries: Vec<ScanEntry> = Vec::new();
        for file in self.files.keys() {
            let Some(below) = file.strip_prefix(&format!("{dir}/")) else {
                continue;
            };
            let (name, kind) = match below.split_once('/') {
                Some((name, _)) => (name, EntryKind::Directory),
                None => (below, EntryKind::File),
            };
            let full = format!("{dir}/{name}");
            if entries.iter().all(|e| e.path.text != full) {
                entries.push(ScanEntry { handle: known.len(), path: path(&full), kind });
                known.push(full);
            }
        }
        entries
    }

    fn scan(&self, dir: &str) -> HashTable {
        let mut known = vec![dir.to_string()];
        let mut scan = scan_directory(0, path(dir), path(&root_record()));
        loop {
            let reply = match scan.request() {
                ScanRequest::Nothing => break,
                ScanRequest::List(handle) => {
                    let dir = known[handle].clone();
                    ScanReply::Listing(self.list(&dir, &mut known))
                }
                ScanRequest::Read(handle) => ScanReply::Contents {
                    resolved: Some(known[handle].clone()),
                    contents: self.files[&known[handle]].clone(),
                },
            };
            assert_eq!(scan.reply(reply), Ok(()));
        }
        scan.finish().unwrap()
    }

    fn load(&self) -> HashTable {
        let source = match self.files.get(&root_record()) {
            Some(bytes) => RecordSource::Bytes(bytes.clone()),
            None => RecordSource::Missing,
        };
        match load_hashes(source) {
            Ok(Some(table)) => table,
            Ok(None) => self.scan("/w"),
            Err(_) => panic!("the record is not loaded"),
        }
    }

    fn evidence(&self, event: &WatchEvent) -> Evidence {
        match route_event(event, &path(&root_record())) {
            EventRoute::Ignore => Evidence::Nothing,
            EventRoute::Rescan => Evidence::Scanned(self.scan("/w")),
            EventRoute::Changes(places) => Evidence::Inspected(
                places
                    .iter()
                    .map(|i| match self.files.get(&event.paths[*i].text) {
                        Some(contents) => Inspection::File {
                            resolved: Some(event.paths[*i].text.clone()),
                            contents: contents.clone(),
                        },
                        None => Inspection::NotAFile,
                    })
                    .collect(),
            ),
            EventRoute::Removals(places) => {
                Evidence::Resolved(places.iter().map(|_| None).collect())
            }
        }
    }

    fn process(
        &mut self,
        event: &WatchEvent,
        hashes: &mut HashTable,
        queue: &mut MailQueue,
    ) -> Result<usize, EventError> {
        let record = path(&root_record());
        let outcome =
            plan_event(event, &record, hashes, self.evidence(event), "to@example.com")?;
        let written = match record_to_write(hashes, &outcome) {
            Some(_) if self.read_only => false,
            Some(text) => {
                self.write(&root_record(), &text);
                true
            }
            None => false,
        };
        commit_event(hashes, outcome, written, queue)
    }
}

fn plan(
    event: &WatchEvent,
    current: &HashTable,
    evidence: Evidence,
    readings: usize,
) -> Result<EventOutcome, EventError> {
    plan_event_at(
        event,
        &path(&root_record()),
        current,
        evidence,
        "to@example.com",
        &times(readings),
    )
}

fn plan_error(event: &WatchEvent, evidence: Evidence, readings: usize) -> EventError {
    match plan(event, &HashTable::new(), evidence, readings) {
        Ok(_) => panic!("the event comes to something"),
        Err(e) => e,
    }
}

fn bodies(jobs: &[EmailJob]) -> Vec<String> {
    assert!(jobs.iter().all(|job| job.to == "to@example.com"));
    jobs.iter().map(|job| job.body.clone()).collect()
}

fn change(
    hashes: &mut HashTable,
    text: &str,
    resolved: Option<&str>,
    contents: &[u8],
) -> Option<EmailJob> {
    let resolved = resolved.map(|r| r.to_string());
    handle_file_change(hashes, &path(text), resolved, contents, "to@example.com", TIME)
}

fn removal(hashes: &mut HashTable, text: &str, resolved: Option<&str>) -> Option<EmailJob> {
    let resolved = resolved.map(|r| r.to_string());
    let path = path(text);
    let removed = RemovedPath { path: &path, resolved: &resolved };
    handle_file_remove(hashes, &removed, "to@example.com", TIME)
}

#[test]
fn scan_directory_and_hashes_round_trip() {
    let mut disk = disk(&[("/w/nested/data.txt", "initial")]);

    let hashes = disk.scan("/w");

    assert_eq!(
        hashes.get("/w/nested/data.txt"),
        Some(&disk.hash("/w/nested/data.txt"))
    );
    assert!(!hashes.contains_key(&root_record()));

    disk.write(&root_record(), &write_hashes(&hashes));
    assert!(disk.load().same_as(&hashes));
}

#[test]
fn process_file_lifecycle_updates_hashes_and_queues_notifications() {
    let mut disk = disk(&[]);
    let file = "/w/watched.txt";
    let mut queue = MailQueue::new();
    let mut hashes = HashTable::new();

    disk.write(file, "one");
    disk.process(&event(EventKind::Create, &[file]), &mut hashes, &mut queue).unwrap();
    assert_eq!(hashes.get(file), Some(&disk.hash(file)));
    assert_eq!(queue.take_all().len(), 1);
    assert!(disk.load().same_as(&hashes));

    disk.write(file, "two");
    disk.process(&event(modified(), &[file]), &mut hashes, &mut queue).unwrap();
    assert_eq!(queue.take_all().len(), 1);

    let unchanged = hashes.clone();
    disk.process(&event(modified(), &[file]), &mut hashes, &mut queue).unwrap();
    assert!(hashes.same_as(&unchanged));
    assert!(queue.take_all().is_empty());

    disk.remove(file);
    disk.process(&event(EventKind::Remove, &[file]), &mut hashes, &mut queue).unwrap();
    assert!(!hashes.contains_key(file));
    assert_eq!(queue.take_all().len(), 1);
    assert!(disk.load().same_as(&hashes));
}

#[test]
fn rename_event_removes_old_hash_and_persists_new_path() {
    let mut disk = disk(&[("/w/old.txt", "same contents")]);
    let mut hashes = disk.scan("/w");
    let mut queue = MailQueue::new();

    disk.rename("/w/old.txt", "/w/new.txt");
    disk.process(
        &event(EventKind::Modify(ModifyKind::Name), &["/w/old.txt", "/w/new.txt"]),
        &mut hashes,
        &mut queue,
    )
    .unwrap();

    assert!(!hashes.contains_key("/w/old.txt"));
    assert!(hashes.contains_key("/w/new.txt"));
    assert!(disk.load().same_as(&hashes));
    assert_eq!(queue.take_all().len(), 2);
}

#[test]
fn nested_hashes_file_is_monitored_but_root_hashes_file_is_ignored() {
    let nested_hashes = format!("/w/nested/{HASHES_FILENAME}");
    let root_hashes = root_record();
    let mut disk = disk(&[(nested_hashes.as_str(), "initial"), (root_hashes.as_str(), "")]);

    let mut hashes = disk.scan("/w");
    assert!(hashes.contains_key(&nested_hashes));
    assert!(!hashes.contains_key(&root_hashes));

    disk.write(&nested_hashes, "changed");
    let mut queue = MailQueue::new();
    disk.process(&event(modified(), &[nested_hashes.as_str()]), &mut hashes, &mut queue).unwrap();

    assert_eq!(hashes.get(&nested_hashes), Some(&disk.hash(&nested_hashes)));
    assert_eq!(queue.take_all().len(), 1);

    disk.remove(&nested_hashes);
    disk.process(&event(EventKind::Remove, &[nested_hashes.as_str()]), &mut hashes, &mut queue)
        .unwrap();
    assert!(!hashes.contains_key(&nested_hashes));
    assert_eq!(queue.take_all().len(), 1);
}

#[test]
fn remove_does_not_guess_hash_by_basename() {
    let hashes = table(&[("/w/first/file.txt", "first"), ("/w/second/file.txt", "second")]);

    assert_eq!(find_hash_key(&hashes, &path("file.txt"), &None), None);
}

#[test]
fn closed_email_queue_does_not_block_hash_persistence() {
    let mut disk = disk(&[("/w/watched.txt", "new content")]);
    let mut hashes = HashTable::new();
    let mut queue = MailQueue::new();
    queue.close();

    let result =
        disk.process(&event(EventKind::Create, &["/w/watched.txt"]), &mut hashes, &mut queue);

    assert_eq!(result, Ok(1));
    assert!(disk.load().same_as(&hashes));
    assert_eq!(hashes.get("/w/watched.txt"), Some(&disk.hash("/w/watched.txt")));
    assert!(queue.take_all().is_empty());
}

#[test]
fn failed_write_keeps_table_and_queue() {
    let mut disk = disk(&[("/w/a", "one")]);
    disk.read_only = true;
    let mut hashes = table(&[("/w/b", "01")]);
    let mut queue = MailQueue::new();

    let result = disk.process(&event(EventKind::Create, &["/w/a"]), &mut hashes, &mut queue);

    assert_eq!(result, Err(EventError::NotWritten));
    assert!(hashes.same_as(&table(&[("/w/b", "01")])));
    assert!(queue.take_all().is_empty());
}

#[test]
fn table_that_stays_as_it_is_need_not_be_written() {
    let hashes = table(&[("/w/a", "01")]);
    let same = EventOutcome { hashes: hashes.clone(), emails: Vec::new() };
    assert_eq!(record_to_write(&hashes, &same), None);
    let other = EventOutcome { hashes: table(&[("/w/b", "02")]), emails: Vec::new() };
    assert_eq!(record_to_write(&hashes, &other), Some("/w/b\t02\n".to_string()));
    let mut current = hashes.clone();
    assert_eq!(commit_event(&mut current, same, false, &mut MailQueue::new()), Ok(0));
}

#[test]
fn removing_one_of_two_files_of_a_name_leaves_the_other() {
    let mut disk = disk(&[("/w/first/file.txt", "one"), ("/w/second/file.txt", "one")]);
    let mut hashes = disk.scan("/w");
    let mut queue = MailQueue::new();
    disk.remove("/w/second/file.txt");
    disk.process(&event(EventKind::Remove, &["/w/second/file.txt"]), &mut hashes, &mut queue)
        .unwrap();
    assert!(hashes.contains_key("/w/first/file.txt"));
    assert!(!hashes.contains_key("/w/second/file.txt"));
    assert_eq!(queue.take_all().len(), 1);
}

#[test]
fn notifications_of_an_event_name_old_and_new_hash() {
    let current = table(&[("/w/b", "01")]);
    let inspected = |contents: &[u8]| Inspection::File { resolved: None, contents: contents.to_vec() };
    let found = vec![inspected(b"one"), Inspection::NotAFile, inspected(b"two")];
    let outcome = match plan(
        &event(modified(), &["/w/a", "/w/dir", "/w/b"]),
        &current,
        Evidence::Inspected(found),
        3,
    ) {
        Ok(outcome) => outcome,
        Err(_) => panic!("the event comes to nothing"),
    };
    let one = "7692c3ad3540bb803c020b3aee66cd8887123234ea0c6e7143c0add73ff431ed";
    let two = "3fc4ccfe745870e2c0d99f71f30ff0656c8dedd41cc1d7d3d376b0dbe685e2f3";
    assert_eq!(
        bodies(&outcome.emails),
        vec![
            format!("檔案變動時間: {TIME}\n路徑: /w/a\n新的雜湊值: {one}"),
            format!("檔案變動時間: {TIME}\n路徑: /w/b\n原始雜湊值: 01\n新的雜湊值: {two}"),
        ]
    );
    assert!(outcome.hashes.same_as(&table(&[("/w/a", one), ("/w/b", two)])));
    assert!(current.same_as(&table(&[("/w/b", "01")])));
}

#[test]
fn removal_of_an_event_names_the_last_hash() {
    let current = table(&[("/w/a", "01"), ("/w/b", "02")]);
    let resolved = vec![None, Some("/w/b".to_string()), None];
    let outcome = match plan(
        &event(EventKind::Remove, &["/w/a", "/w/link", "/w/none"]),
        &current,
        Evidence::Resolved(resolved),
        3,
    ) {
        Ok(outcome) => outcome,
        Err(_) => panic!("the event comes to nothing"),
    };
    assert_eq!(
        bodies(&outcome.emails),
        vec![
            format!("檔案刪除時間: {TIME}\n路徑: /w/a\n刪除前雜湊值: 01"),
            format!("檔案刪除時間: {TIME}\n路徑: /w/b\n刪除前雜湊值: 02"),
        ]
    );
    assert_eq!(outcome.hashes.len(), 0);
}

#[test]
fn rescan_reports_changed_new_and_gone_files() {
    let current = table(&[("/w/a", "01"), ("/w/b", "02"), ("/w/c", "03")]);
    let scanned = table(&[("/w/d", "04"), ("/w/b", "02"), ("/w/a", "05")]);
    let mut event = event(EventKind::Other, &[]);
    event.rescan = true;
    let outcome = match plan(&event, &current, Evidence::Scanned(scanned), 1) {
        Ok(outcome) => outcome,
        Err(_) => panic!("the event comes to nothing"),
    };
    assert_eq!(
        bodies(&outcome.emails),
        vec![
            format!("檔案變動時間: {TIME}\n路徑: /w/d\n新的雜湊值: 04"),
            format!("檔案變動時間: {TIME}\n路徑: /w/a\n原始雜湊值: 01\n新的雜湊值: 05"),
            format!("檔案刪除時間: {TIME}\n路徑: /w/c\n刪除前雜湊值: 03"),
        ]
    );
    assert!(outcome.hashes.same_as(&table(&[("/w/a", "05"), ("/w/b", "02"), ("/w/d", "04")])));
}

#[test]
fn rescan_of_an_unchanged_directory_is_silent() {
    let current = table(&[("/w/a", "01"), ("/w/b", "02")]);
    let scanned = table(&[("/w/b", "02"), ("/w/a", "01")]);
    let outcome = plan_rescan(&current, scanned, "to@example.com", TIME);
    assert!(outcome.emails.is_empty());
    assert!(outcome.hashes.same_as(&current));
}

#[test]
fn renamed_file_is_reported_as_added_then_removed() {
    let current = table(&[("/w/a", "01"), ("/w/b", "02")]);
    let scanned = table(&[("/w/c", "02"), ("/w/a", "01")]);
    let outcome = plan_rescan(&current, scanned, "to@example.com", TIME);
    assert_eq!(
        bodies(&outcome.emails),
        vec![
            format!("檔案變動時間: {TIME}\n路徑: /w/c\n新的雜湊值: 02"),
            format!("檔案刪除時間: {TIME}\n路徑: /w/b\n刪除前雜湊值: 02"),
        ]
    );
}

#[test]
fn unreadable_file_brings_the_whole_event_to_nothing() {
    let file = Inspection::File { resolved: None, contents: b"one".to_vec() };
    let error = plan_error(
        &event(EventKind::Create, &["/w/a", "/w/b"]),
        Evidence::Inspected(vec![file, Inspection::Unreadable]),
        2,
    );
    assert_eq!(error, EventError::Unreadable);
}

#[test]
fn failed_scan_brings_the_event_to_nothing() {
    let event = event(EventKind::Modify(ModifyKind::Name), &["/w/a"]);
    assert_eq!(plan_error(&event, Evidence::ScanFailed, 0), EventError::Unreadable);
}

#[test]
fn event_that_was_not_looked_up_comes_to_nothing() {
    let created = event(EventKind::Create, &["/w/a"]);
    assert_eq!(plan_error(&created, Evidence::Nothing, 0), EventError::Unanswered);
    assert_eq!(plan_error(&created, Evidence::Inspected(vec![]), 0), EventError::Unanswered);
    let removed = event(EventKind::Remove, &["/w/a"]);
    assert_eq!(
        plan_error(&removed, Evidence::Resolved(vec![None, None]), 2),
        EventError::Unanswered
    );
    let renamed = event(EventKind::Modify(ModifyKind::Name), &["/w/a"]);
    assert_eq!(plan_error(&renamed, Evidence::Resolved(vec![None]), 1), EventError::Unanswered);
}

#[test]
fn events_are_routed_by_their_kind() {
    let record = path(&root_record());
    let route = |kind: EventKind, paths: &[&str]| route_event(&event(kind, paths), &record);
    assert!(matches!(route(EventKind::Modify(ModifyKind::Name), &["/w/a"]), EventRoute::Rescan));
    for kind in [ModifyKind::Any, ModifyKind::Data, ModifyKind::Metadata, ModifyKind::Other] {
        match route(EventKind::Modify(kind), &["/w/a"]) {
            EventRoute::Changes(places) => assert_eq!(places, vec![0]),
            _ => panic!("a modification is looked at"),
        }
    }
    for kind in [EventKind::Any, EventKind::Access, EventKind::Other] {
        assert!(matches!(route(kind, &["/w/a"]), EventRoute::Ignore));
    }
    assert!(matches!(route(EventKind::Create, &[]), EventRoute::Ignore));
}

#[test]
fn record_file_is_left_out_of_an_event() {
    let record = root_record();
    let record = record.as_str();
    let hashes_path = path(record);
    let only = event(EventKind::Modify(ModifyKind::Name), &[record, record]);
    assert!(matches!(route_event(&only, &hashes_path), EventRoute::Ignore));
    match route_event(&event(EventKind::Create, &["/w/a", record, "/w/b"]), &hashes_path) {
        EventRoute::Changes(places) => assert_eq!(places, vec![0, 2]),
        _ => panic!("a creation is looked at"),
    }
    match route_event(&event(EventKind::Remove, &[record, "/w/b"]), &hashes_path) {
        EventRoute::Removals(places) => assert_eq!(places, vec![1]),
        _ => panic!("a removal is looked at"),
    }
    let mut missed = event(EventKind::Other, &[record]);
    missed.rescan = true;
    assert!(matches!(route_event(&missed, &hashes_path), EventRoute::Rescan));
}

#[test]
fn only_the_same_components_are_the_record_file() {
    let record = path(&root_record());
    assert!(is_hashes_file(&path("/w/hashes.txt"), &record));
    assert!(!is_hashes_file(&path("/w/nested/hashes.txt"), &record));
    assert!(!is_hashes_file(&path("/w/hashes.tx"), &record));
    assert!(!is_hashes_file(&path("/v/hashes.txt"), &record));
    assert!(!is_hashes_file(&path("/w"), &record));
}

#[test]
fn file_is_recorded_under_its_resolved_path() {
    assert_eq!(path_key(&path("/w/link"), Some("/w/file".to_string())), "/w/file");
    assert_eq!(path_key(&path("/w/link"), None), "/w/link");
    let mut hashes = HashTable::new();
    assert!(change(&mut hashes, "/w/link", Some("/w/file"), b"one").is_some());
    assert_eq!(hashes.get("/w/file"), Some(&calculate_hash(b"one")));
    assert!(!hashes.contains_key("/w/link"));
}

#[test]
fn same_contents_again_are_silent() {
    let mut hashes = HashTable::new();
    assert!(change(&mut hashes, "/w/a", None, b"one").is_some());
    assert!(change(&mut hashes, "/w/a", None, b"one").is_none());
    assert!(change(&mut hashes, "/w/a", None, b"two").is_some());
    assert_eq!(hashes.get("/w/a"), Some(&calculate_hash(b"two")));
}

#[test]
fn removal_undoes_an_addition() {
    let mut hashes = table(&[("/w/b", "02")]);
    assert!(change(&mut hashes, "/w/a", None, b"one").is_some());
    let job = removal(&mut hashes, "/w/a", None).unwrap();
    assert_eq!(
        job.body,
        format!("檔案刪除時間: {TIME}\n路徑: /w/a\n刪除前雜湊值: {}", calculate_hash(b"one"))
    );
    assert!(hashes.same_as(&table(&[("/w/b", "02")])));
    assert!(removal(&mut hashes, "/w/a", None).is_none());
    assert!(change(&mut hashes, "/w/link", Some("/w/a"), b"one").is_some());
    assert!(removal(&mut hashes, "/w/link", Some("/w/a")).is_some());
    assert!(hashes.same_as(&table(&[("/w/b", "02")])));
}

#[test]
fn removed_file_is_found_by_its_own_text_first() {
    let hashes = table(&[("/w/a", "01"), ("/w/b", "02")]);
    let resolved = Some("/w/b".to_string());
    assert_eq!(find_hash_key(&hashes, &path("/w/a"), &resolved), Some("/w/a".to_string()));
    assert_eq!(find_hash_key(&hashes, &path("/w/c"), &resolved), Some("/w/b".to_string()));
    assert_eq!(find_hash_key(&hashes, &path("/w/c"), &Some("/w/d".to_string())), None);
}

#[test]
fn record_follows_the_table_through_events() {
    let mut disk = disk(&[("/w/a", "one"), ("/w/sub/b", "two")]);
    let mut hashes = disk.load();
    disk.write(&root_record(), &write_hashes(&hashes));
    let mut queue = MailQueue::new();
    disk.write("/w/sub/c", "three");
    disk.remove("/w/a");
    for event in [
        event(EventKind::Create, &["/w/sub/c"]),
        event(EventKind::Remove, &["/w/a"]),
        event(EventKind::Access, &["/w/sub/b"]),
    ] {
        disk.process(&event, &mut hashes, &mut queue).unwrap();
        assert!(disk.load().same_as(&hashes));
    }
    assert!(disk.scan("/w").same_as(&hashes));
    assert_eq!(queue.take_all().len(), 2);
}

#[test]
fn scan_finds_every_file_below_the_directory() {
    let disk = disk(&[
        ("/w/a", "one"),
        ("/w/hashes.txt", "record"),
        ("/w/x/b", "two"),
        ("/w/x/y/hashes.txt", "three"),
    ]);
    let found = disk.scan("/w");
    assert!(found.same_as(&table(&[
        ("/w/a", &calculate_hash(b"one")),
        ("/w/x/b", &calculate_hash(b"two")),
        ("/w/x/y/hashes.txt", &calculate_hash(b"three")),
    ])));
}

fn started_scan() -> DirectoryScan {
    scan_directory(7, path("/w"), path(&root_record()))
}

fn entry(handle: usize, text: &str, kind: EntryKind) -> ScanEntry {
    ScanEntry { handle, path: path(text), kind }
}

#[test]
fn scan_asks_for_the_directory_then_for_its_entries() {
    let mut scan = started_scan();
    assert_eq!(scan.request(), ScanRequest::List(7));
    let entries = vec![
        entry(1, "/w/pipe", EntryKind::Other),
        entry(2, "/w/hashes.txt", EntryKind::File),
        entry(3, "/w/sub", EntryKind::Directory),
        entry(4, "/w/a", EntryKind::File),
    ];
    assert_eq!(scan.reply(ScanReply::Listing(entries)), Ok(()));
    assert_eq!(scan.request(), ScanRequest::List(3));
    assert_eq!(scan.reply(ScanReply::Listing(Vec::new())), Ok(()));
    assert_eq!(scan.request(), ScanRequest::Read(4));
    let contents = ScanReply::Contents { resolved: None, contents: b"one".to_vec() };
    assert_eq!(scan.reply(contents), Ok(()));
    assert_eq!(scan.request(), ScanRequest::Nothing);
    let found = scan.finish().unwrap();
    assert!(found.same_as(&table(&[("/w/a", &calculate_hash(b"one"))])));
}

#[test]
fn scan_stops_where_something_cannot_be_read() {
    let mut scan = started_scan();
    assert_eq!(scan.reply(ScanReply::Failed), Err(ScanError::Failed));
    assert_eq!(scan.request(), ScanRequest::List(7));
    assert!(scan.finish().is_none());
}

#[test]
fn scan_refuses_an_answer_to_another_question() {
    let mut scan = started_scan();
    let contents = || ScanReply::Contents { resolved: None, contents: Vec::new() };
    assert_eq!(scan.reply(contents()), Err(ScanError::Unexpected));
    assert_eq!(scan.reply(ScanReply::Listing(Vec::new())), Ok(()));
    assert_eq!(scan.reply(ScanReply::Listing(Vec::new())), Err(ScanError::Unexpected));
    assert_eq!(scan.reply(contents()), Err(ScanError::Unexpected));
}

#[test]
fn whatever_is_recorded_is_a_hash_that_the_record_can_hold() {
    let mut disk = disk(&[("/w/a", ""), ("/w/sub/b", "\n\t\r")]);
    let mut hashes = disk.scan("/w");
    let mut queue = MailQueue::new();
    disk.write("/w/c", "\r");
    disk.process(&event(EventKind::Create, &["/w/c"]), &mut hashes, &mut queue).unwrap();
    assert_eq!(hashes.len(), 3);
    for i in 0..hashes.len() {
        let hash = hashes.hash_at(i);
        assert_eq!(hash.len(), 64);
        assert!(hash.bytes().all(|b| b.is_ascii_digit() || (b'a'..=b'f').contains(&b)));
    }
    assert!(disk.load().same_as(&hashes));
}
