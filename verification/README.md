# watch_folder

Watches a directory and reports every file that is added, changed or removed below it by
mail. Files are compared by their SHA-256 hashes, which are kept in `hashes.txt` in the
watched directory itself.

- `src/` is the library: every decision of the monitor, with its contract, verified by
  Verus.
  - `text`, `path`, `table`: lines and numbers in text, paths, the table of hashes
  - `digest`, `record`: the hash of a file, and the record file
  - `scan`, `tree`: scanning a directory, and what a scan finds
  - `event`, `plan`, `monitor`: from a file event to the next table and its notifications
  - `notice`, `mail`: what notifications say, the queue they wait in, the mails they become
  - `config`: settings and arguments
  - `laws`: what holds of the monitor as a whole
- `app/` is the program around it: files, the watcher, the mail server.
- `tests/` runs the library.

An event is first planned, on a copy of the table. Then the record file is written. Only
then is the new table in force, and only then are the notifications queued; a queue that
is closed undoes nothing.

What the library takes from `sha2`, `hex`, `chrono`, `lettre` and from `String` itself is
stated in the contracts of the functions marked `external_body` and of
`assume_specification`, and is believed.
