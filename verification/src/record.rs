//! The record file: one line for each recorded file, its path and its hash with a tab
//! between them.
use crate::table::{lists_keys, HashTable};
use crate::text::{
    is_first, lemma_first_exists, lemma_lines_of_line, lemma_split_at_first, lemma_split_joined,
    lines_of, split_lines, split_once, split_once_at, texts, without_cr,
};
use vstd::prelude::*;
use vstd::utf8::{decode_utf8, encode_utf8, valid_utf8};

verus! {

/// What became of the attempt to read the record file.
pub enum RecordSource {
    /// There is no such file.
    Missing,
    /// The file is there but could not be opened.
    Unopenable,
    /// The file was opened but could not be read to its end.
    Unreadable,
    /// All that the file holds.
    Bytes(Vec<u8>),
}

/// Why the record file could not be loaded.
#[derive(Debug, Clone, Copy, PartialEq, Eq, Structural)]
pub enum LoadError {
    /// It could not be opened.
    Open,
    /// It could not be read, or holds something other than text.
    Read,
}

/// A path and a hash, where both are there and neither is empty.
pub open spec fn both_filled(
    pair: Option<(Seq<char>, Seq<char>)>,
) -> Option<(Seq<char>, Seq<char>)> {
    match pair {
        Some((path, hash)) => if path.len() > 0 && hash.len() > 0 {
            pair
        } else {
            None
        },
        None => None,
    }
}

/// What a line records. The path ends at the first tab; in a line that cannot be read
/// so, it ends at the first colon.
pub open spec fn recorded_by(line: Seq<char>) -> Option<(Seq<char>, Seq<char>)> {
    match both_filled(split_once_at(line, '\t')) {
        Some(pair) => Some(pair),
        None => both_filled(split_once_at(line, ':')),
    }
}

/// A table after the lines of a record have been entered, one after the other. A line
/// that records nothing changes nothing.
pub open spec fn enter_lines(
    table: Map<Seq<char>, Seq<char>>,
    lines: Seq<Seq<char>>,
) -> Map<Seq<char>, Seq<char>>
    decreases lines.len(),
{
    if lines.len() == 0 {
        table
    } else {
        let next = match recorded_by(lines[0]) {
            Some((path, hash)) => table.insert(path, hash),
            None => table,
        };
        enter_lines(next, lines.skip(1))
    }
}

/// The table that the bytes of a record file stand for.
pub open spec fn recorded_table(bytes: Seq<u8>) -> Map<Seq<char>, Seq<char>> {
    enter_lines(Map::empty(), lines_of(decode_utf8(bytes)))
}

/// The line that records a file, without the line feed that ends it.
pub open spec fn record_line(path: Seq<char>, hash: Seq<char>) -> Seq<char> {
    path + seq!['\t'] + hash
}

/// The text of a record of the files `keys`, in that order.
pub open spec fn record_text(
    keys: Seq<Seq<char>>,
    table: Map<Seq<char>, Seq<char>>,
) -> Seq<char>
    decreases keys.len(),
{
    if keys.len() == 0 {
        seq![]
    } else {
        record_line(keys[0], table[keys[0]]) + seq!['\n'] + record_text(keys.skip(1), table)
    }
}

/// The record can hold this file: neither text is empty, the path has neither a tab nor
/// a line feed in it, and the hash no line feed in it and no carriage return at its end.
pub open spec fn recordable(path: Seq<char>, hash: Seq<char>) -> bool {
    &&& path.len() > 0
    &&& !path.contains('\t')
    &&& !path.contains('\n')
    &&& hash.len() > 0
    &&& !hash.contains('\n')
    &&& hash.last() != '\r'
}

/// The record can hold every file of the table.
pub open spec fn all_recordable(table: Map<Seq<char>, Seq<char>>) -> bool {
    forall|k: Seq<char>| #[trigger] table.contains_key(k) ==> recordable(k, table[k])
}

/// `String::from_utf8`: the text that the bytes encode, if they are valid UTF-8.
#[verifier::external_body]
fn decode_text(bytes: Vec<u8>) -> (r: Option<String>)
    ensures
        match r {
            Some(text) => valid_utf8(bytes@) && text@ == decode_utf8(bytes@),
            None => !valid_utf8(bytes@),
        },
{
    String::from_utf8(bytes).ok()
}

/// Reads one line of the record.
pub fn parse_hash_line(line: &str) -> (r: Option<(String, String)>)
    ensures
        match r {
            Some((path, hash)) => recorded_by(line@) == Some((path@, hash@)),
            None => recorded_by(line@) is None,
        },
{
    if let Some((path, hash)) = split_once(line, '\t') {
        if !path.as_str().is_empty() && !hash.as_str().is_empty() {
            return Some((path, hash));
        }
    }
    match split_once(line, ':') {
        Some((path, hash)) => if !path.as_str().is_empty() && !hash.as_str().is_empty() {
            Some((path, hash))
        } else {
            None
        },
        None => None,
    }
}

/// Loads the record. Without a record file there is no table yet, and the directory has
/// to be scanned for one.
pub fn load_hashes(source: RecordSource) -> (r: Result<Option<HashTable>, LoadError>)
    ensures
        match source {
            RecordSource::Missing => r matches Ok(t) && t is None,
            RecordSource::Unopenable => r == Err::<Option<HashTable>, LoadError>(LoadError::Open),
            RecordSource::Unreadable => r == Err::<Option<HashTable>, LoadError>(LoadError::Read),
            RecordSource::Bytes(bytes) => if valid_utf8(bytes@) {
                r matches Ok(Some(table)) && table@ == recorded_table(bytes@)
            } else {
                r == Err::<Option<HashTable>, LoadError>(LoadError::Read)
            },
        },
{
    let bytes = match source {
        RecordSource::Missing => return Ok(None),
        RecordSource::Unopenable => return Err(LoadError::Open),
        RecordSource::Unreadable => return Err(LoadError::Read),
        RecordSource::Bytes(bytes) => bytes,
    };
    let text = match decode_text(bytes) {
        Some(text) => text,
        None => return Err(LoadError::Read),
    };
    let lines = split_lines(text.as_str());
    let ghost all = lines_of(text@);
    let mut table = HashTable::new();
    let mut i: usize = 0;
    proof {
        assert(all.skip(0) =~= all);
    }
    while i < lines.len()
        invariant
            i <= lines@.len(),
            all == texts(lines@),
            enter_lines(Map::empty(), all) == enter_lines(table@, all.skip(i as int)),
        decreases lines@.len() - i,
    {
        proof {
            assert(all.skip(i as int)[0] == lines@[i as int]@);
            assert(all.skip(i as int).skip(1) =~= all.skip(i + 1));
        }
        if let Some((path, hash)) = parse_hash_line(lines[i].as_str()) {
            table.insert(path, hash);
        }
        i = i + 1;
    }
    Ok(Some(table))
}

/// The text of the record file for a table.
pub fn write_hashes(hashes: &HashTable) -> (r: String)
    ensures
        r@ == record_text(hashes.keys(), hashes@),
        lists_keys(hashes.keys(), hashes@),
{
    let n: usize = hashes.len();
    let mut text = String::new();
    let mut i: usize = 0;
    let ghost keys = hashes.keys();
    proof {
        assert(keys.skip(0) =~= keys);
        assert(text@ + record_text(keys, hashes@) =~= record_text(keys, hashes@));
    }
    while i < n
        invariant
            i <= n,
            n == keys.len(),
            keys == hashes.keys(),
            record_text(keys, hashes@) == text@ + record_text(keys.skip(i as int), hashes@),
        decreases n - i,
    {
        let ghost before = text@;
        let ghost line = record_line(keys[i as int], hashes@[keys[i as int]]);
        text.append(hashes.path_at(i).as_str());
        text.push('\t');
        text.append(hashes.hash_at(i).as_str());
        text.push('\n');
        proof {
            assert(keys.skip(i as int)[0] == keys[i as int]);
            assert(keys.skip(i as int).skip(1) =~= keys.skip(i + 1));
            assert(text@ =~= before + line + seq!['\n']);
            let rest = record_text(keys.skip(i + 1), hashes@);
            assert(before + (line + seq!['\n'] + rest) =~= text@ + rest);
        }
        i = i + 1;
    }
    proof {
        assert(text@ + record_text(keys.skip(n as int), hashes@) =~= text@);
    }
    text
}

/// A line of the record is read as it was written, also where the path has colons in it,
/// exactly if neither text is empty and the path has no tab in it.
pub proof fn law_line_round_trip(path: Seq<char>, hash: Seq<char>)
    ensures
        recorded_by(record_line(path, hash)) == Some((path, hash)) <==> path.len() > 0
            && !path.contains('\t') && hash.len() > 0,
{
    let line = record_line(path, hash);
    if path.len() > 0 && !path.contains('\t') && hash.len() > 0 {
        lemma_split_joined(path, '\t', hash);
    }
    if recorded_by(line) == Some((path, hash)) {
        lemma_recorded_by(line, path, hash);
        assert(line[path.len() as int] == '\t');
        assert((path + seq![':'] + hash)[path.len() as int] == ':');
    }
}

/// A line with a colon between path and hash is still read, exactly if neither text is
/// empty, the path has no colon in it, and the line cannot be read at a tab. A line without
/// a tab never can.
pub proof fn law_legacy_line(path: Seq<char>, hash: Seq<char>)
    ensures
        recorded_by(path + seq![':'] + hash) == Some((path, hash)) <==> path.len() > 0
            && hash.len() > 0 && !path.contains(':') && both_filled(
            split_once_at(path + seq![':'] + hash, '\t'),
        ) is None,
        !path.contains('\t') && !hash.contains('\t') ==> both_filled(
            split_once_at(path + seq![':'] + hash, '\t'),
        ) is None,
{
    let line = path + seq![':'] + hash;
    if !path.contains('\t') && !hash.contains('\t') {
        assert(!line.contains('\t')) by {
            if line.contains('\t') {
                let k = choose|k: int| 0 <= k < line.len() && line[k] == '\t';
                if k < path.len() {
                    assert(path[k] == '\t');
                } else {
                    assert(hash[k - path.len() - 1] == '\t');
                }
            }
        }
    }
    if !path.contains(':') {
        lemma_split_joined(path, ':', hash);
    }
    if recorded_by(line) == Some((path, hash)) {
        lemma_recorded_by(line, path, hash);
        assert(line[path.len() as int] == ':');
        assert((path + seq!['\t'] + hash)[path.len() as int] == '\t');
    }
}

/// Lines are entered one after the other.
proof fn lemma_enter_lines_joined(
    table: Map<Seq<char>, Seq<char>>,
    a: Seq<Seq<char>>,
    b: Seq<Seq<char>>,
)
    ensures
        enter_lines(table, a + b) == enter_lines(enter_lines(table, a), b),
    decreases a.len(),
{
    if a.len() == 0 {
        assert(a + b =~= b);
    } else {
        let next = match recorded_by(a[0]) {
            Some((path, hash)) => table.insert(path, hash),
            None => table,
        };
        assert((a + b).skip(1) =~= a.skip(1) + b);
        lemma_enter_lines_joined(next, a.skip(1), b);
    }
}

/// A line that cannot be read is passed over: the record stands for the same table with
/// it and without it.
pub proof fn law_unreadable_line_is_ignored(
    before: Seq<Seq<char>>,
    line: Seq<char>,
    after: Seq<Seq<char>>,
)
    requires
        recorded_by(line) is None,
    ensures
        enter_lines(Map::empty(), before + seq![line] + after) == enter_lines(
            Map::empty(),
            before + after,
        ),
{
    let table = enter_lines(Map::empty(), before);
    lemma_enter_lines_joined(Map::empty(), before, seq![line] + after);
    lemma_enter_lines_joined(Map::empty(), before, after);
    assert(before + seq![line] + after =~= before + (seq![line] + after));
    assert((seq![line] + after).skip(1) =~= after);
    assert(enter_lines(table, seq![line] + after) == enter_lines(table, after));
}

/// Entering the lines of a record adds its files to a table.
proof fn lemma_enter_record(
    start: Map<Seq<char>, Seq<char>>,
    keys: Seq<Seq<char>>,
    table: Map<Seq<char>, Seq<char>>,
)
    requires
        forall|i: int|
            0 <= i < keys.len() ==> recordable(#[trigger] keys[i], table[keys[i]]),
    ensures
        forall|k: Seq<char>| #[trigger]
            enter_lines(start, lines_of(record_text(keys, table))).contains_key(k)
                <==> start.contains_key(k) || keys.contains(k),
        forall|k: Seq<char>|
            enter_lines(start, lines_of(record_text(keys, table))).contains_key(k)
                ==> #[trigger] enter_lines(start, lines_of(record_text(keys, table)))[k] == (
            if keys.contains(k) {
                table[k]
            } else {
                start[k]
            }),
    decreases keys.len(),
{
    let lines = lines_of(record_text(keys, table));
    if keys.len() == 0 {
        assert(lines =~= seq![]);
    } else {
        let path = keys[0];
        let hash = table[path];
        let line = record_line(path, hash);
        let rest = keys.skip(1);
        assert(!line.contains('\n')) by {
            if line.contains('\n') {
                let k = choose|k: int| 0 <= k < line.len() && line[k] == '\n';
                if k < path.len() {
                    assert(path[k] == '\n');
                } else {
                    assert(hash[k - path.len() - 1] == '\n');
                }
            }
        }
        assert(line.last() == hash.last());
        lemma_lines_of_line(line, record_text(rest, table));
        assert(without_cr(line) == line);
        law_line_round_trip(path, hash);
        assert(lines[0] == line);
        assert(lines.skip(1) =~= lines_of(record_text(rest, table)));
        let next = start.insert(path, hash);
        assert(enter_lines(start, lines) == enter_lines(next, lines.skip(1)));
        assert forall|i: int| 0 <= i < rest.len() implies recordable(
            #[trigger] rest[i],
            table[rest[i]],
        ) by {
            assert(rest[i] == keys[i + 1]);
        }
        lemma_enter_record(next, rest, table);
        assert forall|k: Seq<char>| keys.contains(k) <==> k == path || rest.contains(k) by {
            if keys.contains(k) && k != path {
                let i = choose|i: int| 0 <= i < keys.len() && keys[i] == k;
                assert(rest[i - 1] == k);
            }
            if rest.contains(k) {
                let i = choose|i: int| 0 <= i < rest.len() && rest[i] == k;
                assert(keys[i + 1] == k);
            }
            if k == path {
                assert(keys[0] == k);
            }
        }
    }
}

/// Everything in a loaded table stands in one of its lines.
proof fn lemma_entered_from_lines(
    start: Map<Seq<char>, Seq<char>>,
    lines: Seq<Seq<char>>,
    path: Seq<char>,
)
    requires
        enter_lines(start, lines).contains_key(path),
    ensures
        (start.contains_key(path) && enter_lines(start, lines)[path] == start[path]) || exists|i: int|
            0 <= i < lines.len() && recorded_by(#[trigger] lines[i]) == Some(
                (path, enter_lines(start, lines)[path]),
            ),
    decreases lines.len(),
{
    if lines.len() > 0 {
        let next = match recorded_by(lines[0]) {
            Some((p, h)) => start.insert(p, h),
            None => start,
        };
        let rest = lines.skip(1);
        let hash = enter_lines(start, lines)[path];
        lemma_entered_from_lines(next, rest, path);
        if next.contains_key(path) && hash == next[path] {
            if !(start.contains_key(path) && hash == start[path]) {
                assert(recorded_by(lines[0]) == Some((path, hash)));
            }
        } else {
            let i = choose|i: int|
                0 <= i < rest.len() && recorded_by(#[trigger] rest[i]) == Some((path, hash));
            assert(lines[i + 1] == rest[i]);
        }
    }
}

/// No line has a line feed in it.
proof fn lemma_lines_have_no_line_feed(s: Seq<char>)
    ensures
        forall|i: int| 0 <= i < lines_of(s).len() ==> !(#[trigger] lines_of(s)[i]).contains('\n'),
    decreases s.len(),
{
    if s.contains('\n') {
        let k = lemma_first_exists(s, '\n');
        lemma_split_at_first(s, '\n', k);
        let line = s.take(k);
        let rest = s.skip(k + 1);
        lemma_lines_have_no_line_feed(rest);
        assert(lines_of(s) == seq![without_cr(line)] + lines_of(rest));
        assert(!without_cr(line).contains('\n')) by {
            if without_cr(line).contains('\n') {
                let j = choose|j: int| 0 <= j < without_cr(line).len() && without_cr(line)[j]
                    == '\n';
                assert(s[j] == '\n');
            }
        }
        assert forall|i: int| 0 <= i < lines_of(s).len() implies !(
        #[trigger] lines_of(s)[i]).contains('\n') by {
            if i > 0 {
                assert(lines_of(s)[i] == lines_of(rest)[i - 1]);
            }
        }
    }
}

/// What is read in a line is not empty and stands in the line. The path ends at the first
/// tab, or at the first colon where nothing stands before the first tab or after it.
proof fn lemma_recorded_by(line: Seq<char>, path: Seq<char>, hash: Seq<char>)
    requires
        recorded_by(line) == Some((path, hash)),
    ensures
        path.len() > 0,
        hash.len() > 0,
        ({
            ||| line == path + seq!['\t'] + hash && !path.contains('\t')
            ||| line == path + seq![':'] + hash && !path.contains(':') && both_filled(
                split_once_at(line, '\t'),
            ) is None
        }),
{
    let c = if both_filled(split_once_at(line, '\t')) is Some {
        '\t'
    } else {
        ':'
    };
    assert(line.contains(c));
    let k = lemma_first_exists(line, c);
    lemma_split_at_first(line, c, k);
    assert(path == line.take(k));
    assert(hash == line.skip(k + 1));
    assert(line =~= path + seq![c] + hash);
    assert(!path.contains(c)) by {
        if path.contains(c) {
            let j = choose|j: int| 0 <= j < path.len() && path[j] == c;
            assert(line[j] == c);
        }
    }
}

/// The lines of a record without line feeds in its paths and hashes are the lines that
/// were written, but for a carriage return at the end.
proof fn lemma_lines_of_record(keys: Seq<Seq<char>>, table: Map<Seq<char>, Seq<char>>)
    requires
        forall|i: int|
            0 <= i < keys.len() ==> !(#[trigger] keys[i]).contains('\n')
                && !table[keys[i]].contains('\n'),
    ensures
        lines_of(record_text(keys, table)).len() == keys.len(),
        forall|i: int|
            0 <= i < keys.len() ==> #[trigger] lines_of(record_text(keys, table))[i] == without_cr(
                record_line(keys[i], table[keys[i]]),
            ),
    decreases keys.len(),
{
    let lines = lines_of(record_text(keys, table));
    if keys.len() > 0 {
        let path = keys[0];
        let hash = table[path];
        let line = record_line(path, hash);
        let rest = keys.skip(1);
        assert(!line.contains('\n')) by {
            if line.contains('\n') {
                let k = choose|k: int| 0 <= k < line.len() && line[k] == '\n';
                if k < path.len() {
                    assert(path[k] == '\n');
                } else {
                    assert(hash[k - path.len() - 1] == '\n');
                }
            }
        }
        lemma_lines_of_line(line, record_text(rest, table));
        assert forall|i: int| 0 <= i < rest.len() implies !(#[trigger] rest[i]).contains('\n')
            && !table[rest[i]].contains('\n') by {
            assert(rest[i] == keys[i + 1]);
        }
        lemma_lines_of_record(rest, table);
        assert forall|i: int| 0 <= i < keys.len() implies #[trigger] lines[i] == without_cr(
            record_line(keys[i], table[keys[i]]),
        ) by {
            if i > 0 {
                assert(lines[i] == lines_of(record_text(rest, table))[i - 1]);
                assert(rest[i - 1] == keys[i]);
            }
        }
    } else {
        assert(lines =~= seq![]);
    }
}

/// This file, with its hash, is what is read in line `i` of the record.
spec fn stands_in_line(
    keys: Seq<Seq<char>>,
    table: Map<Seq<char>, Seq<char>>,
    path: Seq<char>,
    i: int,
) -> bool {
    &&& 0 <= i < keys.len()
    &&& recorded_by(without_cr(record_line(keys[i], table[keys[i]]))) == Some((path, table[path]))
}

/// Every file of the table is read in some line of its record, and no path and no hash is
/// empty.
spec fn all_stand_in_lines(keys: Seq<Seq<char>>, table: Map<Seq<char>, Seq<char>>) -> bool {
    forall|j: int|
        0 <= j < keys.len() ==> (#[trigger] keys[j]).len() > 0 && table[keys[j]].len() > 0
            && exists|i: int| stands_in_line(keys, table, keys[j], i)
}

/// A path with a tab in it is only read in a line that starts with a tab and was written
/// for another path: a shorter one, or one with a colon in it.
proof fn lemma_tab_in_read_path(
    written_path: Seq<char>,
    written_hash: Seq<char>,
    path: Seq<char>,
    hash: Seq<char>,
)
    requires
        written_path.len() > 0,
        written_hash.len() > 0,
        recorded_by(without_cr(record_line(written_path, written_hash))) == Some((path, hash)),
        path.contains('\t'),
    ensures
        written_path.contains('\t'),
        !path.contains(':'),
        written_path.len() < path.len() || written_path.contains(':'),
{
    let full = record_line(written_path, written_hash);
    let line = without_cr(full);
    lemma_recorded_by(line, path, hash);
    assert(line == path + seq![':'] + hash);
    let t = lemma_first_exists(path, '\t');
    assert(is_first(line, '\t', t)) by {
        assert forall|k: int| 0 <= k < t implies line[k] != '\t' by {
            assert(line[k] == path[k]);
        }
    }
    lemma_split_at_first(line, '\t', t);
    assert(line.skip(t + 1).len() > 0);
    assert(t == 0);
    assert(written_path[0] == full[0]);
    assert(full[0] == line[0]);
    assert(full[path.len() as int] == line[path.len() as int]);
    assert(full[written_path.len() as int] == '\t');
    if written_path.len() > path.len() {
        assert(written_path[path.len() as int] == ':');
    }
}

/// Where every file stands in some line, no path has a tab in it.
proof fn lemma_no_tab(keys: Seq<Seq<char>>, table: Map<Seq<char>, Seq<char>>, j: int)
    requires
        all_stand_in_lines(keys, table),
        0 <= j < keys.len(),
    ensures
        !keys[j].contains('\t'),
    decreases keys[j].len(),
{
    let path = keys[j];
    if path.contains('\t') {
        let i = choose|i: int| stands_in_line(keys, table, path, i);
        assert(stands_in_line(keys, table, path, i));
        let other = keys[i];
        lemma_tab_in_read_path(other, table[other], path, table[path]);
        if other.len() < path.len() {
            lemma_no_tab(keys, table, i);
        } else {
            let n = choose|n: int| stands_in_line(keys, table, other, n);
            assert(stands_in_line(keys, table, other, n));
            lemma_tab_in_read_path(keys[n], table[keys[n]], other, table[other]);
        }
    }
}

/// What is read in a line does not end in a carriage return, unless it is the hash of
/// another file than the one for which the line was written.
proof fn lemma_read_without_cr(
    written_path: Seq<char>,
    written_hash: Seq<char>,
    path: Seq<char>,
    hash: Seq<char>,
)
    requires
        !written_path.contains('\t'),
        written_path.len() > 0,
        written_hash.len() > 0,
        recorded_by(without_cr(record_line(written_path, written_hash))) == Some((path, hash)),
        path == written_path ==> hash == written_hash,
    ensures
        hash.last() != '\r',
{
    let kept = without_cr(written_hash);
    let line = without_cr(record_line(written_path, written_hash));
    assert(line == written_path + seq!['\t'] + kept) by {
        assert(record_line(written_path, written_hash).last() == written_hash.last());
        assert(line =~= written_path + seq!['\t'] + kept);
    }
    lemma_split_joined(written_path, '\t', kept);
    if kept.len() == 0 {
        assert(line.last() == '\t');
        lemma_recorded_by(line, path, hash);
        assert(line.last() == hash.last());
    }
}

/// Where every file stands in some line, no hash ends in a carriage return.
proof fn lemma_no_final_cr(keys: Seq<Seq<char>>, table: Map<Seq<char>, Seq<char>>, j: int)
    requires
        all_stand_in_lines(keys, table),
        0 <= j < keys.len(),
    ensures
        table[keys[j]].last() != '\r',
{
    let i = choose|i: int| stands_in_line(keys, table, keys[j], i);
    assert(stands_in_line(keys, table, keys[j], i));
    lemma_no_tab(keys, table, i);
    lemma_read_without_cr(keys[i], table[keys[i]], keys[j], table[keys[j]]);
}

/// What is written to the record file is loaded again as the same table exactly if the
/// record can hold each of the files.
pub proof fn law_record_round_trip(
    keys: Seq<Seq<char>>,
    table: Map<Seq<char>, Seq<char>>,
)
    requires
        lists_keys(keys, table),
    ensures
        valid_utf8(encode_utf8(record_text(keys, table))),
        recorded_table(encode_utf8(record_text(keys, table))) == table <==> all_recordable(table),
{
    broadcast use {vstd::utf8::encode_utf8_valid_utf8, vstd::utf8::encode_utf8_decode_utf8};

    let text = record_text(keys, table);
    let loaded = recorded_table(encode_utf8(text));
    if all_recordable(table) {
        assert forall|i: int| 0 <= i < keys.len() implies recordable(
            #[trigger] keys[i],
            table[keys[i]],
        ) by {
            assert(table.contains_key(keys[i]));
        }
        lemma_enter_record(Map::empty(), keys, table);
        assert(loaded =~= table);
    }
    if loaded == table {
        let lines = lines_of(text);
        lemma_lines_have_no_line_feed(text);
        assert forall|j: int| 0 <= j < keys.len() implies (#[trigger] keys[j]).len() > 0
            && table[keys[j]].len() > 0 && !keys[j].contains('\n') && !table[keys[j]].contains('\n')
            by {
            let path = keys[j];
            let hash = table[path];
            assert(loaded.contains_key(path));
            lemma_entered_from_lines(Map::empty(), lines, path);
            let i = choose|i: int|
                0 <= i < lines.len() && recorded_by(#[trigger] lines[i]) == Some((path, hash));
            lemma_recorded_by(lines[i], path, hash);
            if path.contains('\n') {
                let k = choose|k: int| 0 <= k < path.len() && path[k] == '\n';
                assert(lines[i][k] == '\n');
            }
            if hash.contains('\n') {
                let k = choose|k: int| 0 <= k < hash.len() && hash[k] == '\n';
                assert(lines[i][path.len() + 1 + k] == '\n');
            }
        }
        lemma_lines_of_record(keys, table);
        assert(all_stand_in_lines(keys, table)) by {
            assert forall|j: int| 0 <= j < keys.len() implies exists|i: int|
                stands_in_line(keys, table, #[trigger] keys[j], i) by {
                let path = keys[j];
                assert(loaded.contains_key(path));
                lemma_entered_from_lines(Map::empty(), lines, path);
                let i = choose|i: int|
                    0 <= i < lines.len() && recorded_by(#[trigger] lines[i]) == Some(
                        (path, table[path]),
                    );
                assert(stands_in_line(keys, table, path, i));
            }
        }
        assert forall|k: Seq<char>| #[trigger] table.contains_key(k) implies recordable(
            k,
            table[k],
        ) by {
            let j = choose|j: int| 0 <= j < keys.len() && keys[j] == k;
            lemma_no_tab(keys, table, j);
            lemma_no_final_cr(keys, table, j);
        }
    }
}

} // verus!
