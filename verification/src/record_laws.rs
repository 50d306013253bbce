//! What reading and writing the record file come to, told over plain texts.
use crate::record::{
    both_filled, enter_lines, law_record_round_trip, recordable, record_text, recorded_by,
    recorded_table,
};
use crate::table::lists_keys;
use crate::text::{
    digits_value, is_first, lemma_first_exists, lemma_split_at_first, lemma_split_joined, lines_of,
    split_once_at, unsigned_value, without_plus,
};
use vstd::prelude::*;
use vstd::utf8::{decode_utf8, encode_utf8, valid_utf8};

verus! {

/// A text is split at the first place of a character: what stands before it holds the
/// character no more, and both parts joined by it are the text again. A text that does not
/// hold the character is not split.
pub proof fn law_split_at_first_place(s: Seq<char>, c: char, before: Seq<char>, after: Seq<char>)
    ensures
        split_once_at(s, c) == Some((before, after)) <==> s == before + seq![c] + after
            && !before.contains(c),
        split_once_at(s, c) is None <==> !s.contains(c),
{
    if s == before + seq![c] + after && !before.contains(c) {
        lemma_split_joined(before, c, after);
    }
    if s.contains(c) {
        let i = lemma_first_exists(s, c);
        lemma_split_at_first(s, c, i);
        assert(s =~= s.take(i) + seq![c] + s.skip(i + 1));
        assert(!s.take(i).contains(c)) by {
            if s.take(i).contains(c) {
                let j = choose|j: int| 0 <= j < s.take(i).len() && s.take(i)[j] == c;
                assert(s[j] == c);
            }
        }
    } else if s == before + seq![c] + after {
        assert(s[before.len() as int] == c);
    }
}

/// Each line feed ends a line, and takes a carriage return right before it along. What
/// follows the last line feed is a line too, just as it is, unless it is empty.
pub proof fn law_lines_end_at_line_feeds(line: Seq<char>, rest: Seq<char>)
    requires
        !line.contains('\n'),
    ensures
        lines_of(line) == (if line.len() == 0 {
            Seq::<Seq<char>>::empty()
        } else {
            seq![line]
        }),
        lines_of(line + seq!['\n'] + rest) == seq![
            if line.len() > 0 && line.last() == '\r' {
                line.drop_last()
            } else {
                line
            },
        ] + lines_of(rest),
{
    law_split_at_first_place(line, '\n', line, line);
    lemma_split_joined(line, '\n', rest);
}

/// Decimal digits are read from left to right, each one making ten times as much of what
/// stands before it. A plus sign may stand in front, and nothing else may stand anywhere.
pub proof fn law_numbers_are_read_digit_by_digit(s: Seq<char>, c: char)
    ensures
        unsigned_value(Seq::<char>::empty()) is None,
        unsigned_value(seq!['+']) is None,
        '0' <= c <= '9' ==> unsigned_value(seq![c]) == Some((c as int - '0' as int) as nat),
        '0' <= c <= '9' ==> unsigned_value(seq!['+', c]) == Some((c as int - '0' as int) as nat),
        '0' <= c <= '9' ==> (unsigned_value(s) matches Some(v) ==> unsigned_value(s.push(c))
            == Some((10 * v + (c as int - '0' as int)) as nat)),
        '0' <= c <= '9' && unsigned_value(s) is None && s.len() > 0 && s != seq!['+']
            ==> unsigned_value(s.push(c)) is None,
        !('0' <= c <= '9') ==> unsigned_value(s.push(c)) is None,
{
    assert(seq!['+'].skip(1) =~= seq![]);
    assert(seq!['+', c].skip(1) =~= seq![c]);
    assert(seq![c].drop_last() =~= seq![]);
    assert(digits_value(seq![]) == 0);
    assert(digits_value(seq![c]) == digits_value(seq![c].drop_last()) * 10 + (seq![c].last() as nat
        - '0' as nat) as nat);
    let more = s.push(c);
    if s.len() > 0 {
        let front = without_plus(s);
        let all = without_plus(more);
        assert(all =~= front.push(c));
        assert(all.drop_last() =~= front);
        assert forall|i: int| 0 <= i < front.len() implies #[trigger] front[i] == all[i] by {}
        assert(all[front.len() as int] == c);
        if front.len() == 0 {
            assert(s =~= seq!['+']);
        }
    } else {
        assert(more =~= seq![c]);
        if c == '+' {
        } else {
            assert(without_plus(more)[0] == c);
        }
    }
}

/// A line records a path and a hash, neither of them empty: those that stand before and
/// after its first tab; in a line that no tab parts like that, those that stand before and
/// after its first colon.
pub proof fn law_line_records_path_and_hash(line: Seq<char>, path: Seq<char>, hash: Seq<char>)
    ensures
        recorded_by(line) == Some((path, hash)) <==> path.len() > 0 && hash.len() > 0 && ({
            ||| line == path + seq!['\t'] + hash && !path.contains('\t')
            ||| line == path + seq![':'] + hash && !path.contains(':') && (forall|
                p: Seq<char>,
                h: Seq<char>,
            |
                p.len() > 0 && h.len() > 0 && !p.contains('\t') ==> line != #[trigger] (p + seq![
                    '\t',
                ] + h))
        }),
{
    law_split_at_first_place(line, '\t', path, hash);
    law_split_at_first_place(line, ':', path, hash);
    assert forall|p: Seq<char>, h: Seq<char>|
        p.len() > 0 && h.len() > 0 && !p.contains('\t') && both_filled(
            split_once_at(line, '\t'),
        ) is None implies line != #[trigger] (p + seq!['\t'] + h) by {
        law_split_at_first_place(line, '\t', p, h);
    }
    if both_filled(split_once_at(line, '\t')) is Some {
        let pair = split_once_at(line, '\t')->0;
        law_split_at_first_place(line, '\t', pair.0, pair.1);
        assert(line == pair.0 + seq!['\t'] + pair.1);
    }
}

/// Only what a line records is entered.
proof fn lemma_entered_by_a_line(
    start: Map<Seq<char>, Seq<char>>,
    lines: Seq<Seq<char>>,
    path: Seq<char>,
)
    ensures
        enter_lines(start, lines).contains_key(path) <==> start.contains_key(path) || exists|i: int|
            0 <= i < lines.len() && (recorded_by(#[trigger] lines[i]) matches Some(pair) && pair.0
                == path),
    decreases lines.len(),
{
    if lines.len() > 0 {
        let next = match recorded_by(lines[0]) {
            Some((p, h)) => start.insert(p, h),
            None => start,
        };
        let rest = lines.skip(1);
        lemma_entered_by_a_line(next, rest, path);
        assert(enter_lines(start, lines) == enter_lines(next, rest));
        if enter_lines(next, rest).contains_key(path) && !start.contains_key(path) {
            if next.contains_key(path) {
                assert(recorded_by(lines[0]) matches Some(pair) && pair.0 == path);
            } else {
                let i = choose|i: int|
                    0 <= i < rest.len() && (recorded_by(#[trigger] rest[i]) matches Some(pair)
                        && pair.0 == path);
                assert(lines[i + 1] == rest[i]);
            }
        }
        if exists|i: int|
            0 <= i < lines.len() && (recorded_by(#[trigger] lines[i]) matches Some(pair) && pair.0
                == path) {
            let i = choose|i: int|
                0 <= i < lines.len() && (recorded_by(#[trigger] lines[i]) matches Some(pair)
                    && pair.0 == path);
            if i > 0 {
                assert(rest[i - 1] == lines[i]);
            }
        }
    }
}

/// What is in a table stays there as long as no line records the same file.
proof fn lemma_entered_stays(
    start: Map<Seq<char>, Seq<char>>,
    lines: Seq<Seq<char>>,
    path: Seq<char>,
)
    requires
        start.contains_key(path),
        forall|j: int|
            0 <= j < lines.len() ==> !(recorded_by(#[trigger] lines[j]) matches Some(pair)
                && pair.0 == path),
    ensures
        enter_lines(start, lines).contains_key(path),
        enter_lines(start, lines)[path] == start[path],
    decreases lines.len(),
{
    if lines.len() > 0 {
        let next = match recorded_by(lines[0]) {
            Some((p, h)) => start.insert(p, h),
            None => start,
        };
        let rest = lines.skip(1);
        assert forall|j: int| 0 <= j < rest.len() implies !(recorded_by(
            #[trigger] rest[j],
        ) matches Some(pair) && pair.0 == path) by {
            assert(rest[j] == lines[j + 1]);
        }
        lemma_entered_stays(next, rest, path);
    }
}

/// What is entered last for a file counts.
proof fn lemma_entered_last(
    start: Map<Seq<char>, Seq<char>>,
    lines: Seq<Seq<char>>,
    path: Seq<char>,
    i: int,
    hash: Seq<char>,
)
    requires
        0 <= i < lines.len(),
        recorded_by(lines[i]) == Some((path, hash)),
        forall|j: int|
            i < j < lines.len() ==> !(recorded_by(#[trigger] lines[j]) matches Some(pair)
                && pair.0 == path),
    ensures
        enter_lines(start, lines).contains_key(path),
        enter_lines(start, lines)[path] == hash,
    decreases lines.len(),
{
    let next = match recorded_by(lines[0]) {
        Some((p, h)) => start.insert(p, h),
        None => start,
    };
    let rest = lines.skip(1);
    assert forall|j: int| i - 1 < j < rest.len() implies !(recorded_by(
        #[trigger] rest[j],
    ) matches Some(pair) && pair.0 == path) by {
        assert(rest[j] == lines[j + 1]);
    }
    if i > 0 {
        assert(rest[i - 1] == lines[i]);
        lemma_entered_last(next, rest, path, i - 1, hash);
    } else {
        lemma_entered_stays(next, rest, path);
    }
}

/// The record file stands for what its lines record: a file is in the table exactly if one
/// of the lines records it, with the hash that the last of those lines gives.
pub proof fn law_last_line_for_a_file_counts(bytes: Seq<u8>, path: Seq<char>, i: int, hash: Seq<
    char,
>)
    ensures
        recorded_table(bytes).contains_key(path) <==> exists|k: int|
            0 <= k < lines_of(decode_utf8(bytes)).len() && (recorded_by(
                #[trigger] lines_of(decode_utf8(bytes))[k],
            ) matches Some(pair) && pair.0 == path),
        0 <= i < lines_of(decode_utf8(bytes)).len() && recorded_by(lines_of(decode_utf8(bytes))[i])
            == Some((path, hash)) && (forall|j: int|
            i < j < lines_of(decode_utf8(bytes)).len() ==> !(recorded_by(
                #[trigger] lines_of(decode_utf8(bytes))[j],
            ) matches Some(pair) && pair.0 == path)) ==> recorded_table(bytes).contains_key(path)
            && recorded_table(bytes)[path] == hash,
{
    let lines = lines_of(decode_utf8(bytes));
    lemma_entered_by_a_line(Map::empty(), lines, path);
    if 0 <= i < lines.len() && recorded_by(lines[i]) == Some((path, hash)) && (forall|j: int|
        i < j < lines.len() ==> !(recorded_by(#[trigger] lines[j]) matches Some(pair) && pair.0
            == path)) {
        lemma_entered_last(Map::empty(), lines, path, i, hash);
    }
}

/// The record of a row of files is that of all but the last, followed by a line for the
/// last: its path, a tab, its hash and a line feed.
pub proof fn law_record_has_a_line_for_each_file(
    keys: Seq<Seq<char>>,
    key: Seq<char>,
    table: Map<Seq<char>, Seq<char>>,
)
    ensures
        record_text(Seq::<Seq<char>>::empty(), table) == Seq::<char>::empty(),
        record_text(keys.push(key), table) == record_text(keys, table) + (key + seq!['\t']
            + table[key] + seq!['\n']),
    decreases keys.len(),
{
    let all = keys.push(key);
    if keys.len() == 0 {
        assert(all.skip(1) =~= Seq::<Seq<char>>::empty());
        assert(all[0] == key);
        assert(record_text(all.skip(1), table) =~= Seq::<char>::empty());
        assert(record_text(keys, table) =~= Seq::<char>::empty());
        assert(record_text(all, table) =~= record_text(keys, table) + (key + seq!['\t']
            + table[key] + seq!['\n']));
    } else {
        let rest = keys.skip(1);
        assert(all.skip(1) =~= rest.push(key));
        law_record_has_a_line_for_each_file(rest, key, table);
        assert(record_text(all, table) =~= record_text(keys, table) + (key + seq!['\t']
            + table[key] + seq!['\n']));
    }
}

/// What is written to the record file is loaded again as the same table, if no path and no
/// hash is empty, no path has a tab in it, neither has a line feed in it, and no hash ends
/// in a carriage return.
pub proof fn law_written_record_is_loaded_again(
    keys: Seq<Seq<char>>,
    table: Map<Seq<char>, Seq<char>>,
)
    requires
        keys.no_duplicates(),
        forall|k: Seq<char>| #[trigger] table.contains_key(k) <==> keys.contains(k),
        forall|k: Seq<char>| #[trigger]
            table.contains_key(k) ==> k.len() > 0 && !k.contains('\t') && !k.contains('\n')
                && table[k].len() > 0 && !table[k].contains('\n') && table[k].last() != '\r',
    ensures
        valid_utf8(encode_utf8(record_text(keys, table))),
        recorded_table(encode_utf8(record_text(keys, table))) == table,
{
    assert(lists_keys(keys, table)) by {
        assert forall|i: int| 0 <= i < keys.len() implies table.contains_key(
            #[trigger] keys[i],
        ) by {
            assert(keys.contains(keys[i]));
        }
    }
    assert forall|k: Seq<char>| #[trigger] table.contains_key(k) implies recordable(
        k,
        table[k],
    ) by {}
    law_record_round_trip(keys, table);
}

/// A row lists the files of a table if it names each of them, each one once, and no other.
pub proof fn law_listing_names_each_file_once(
    keys: Seq<Seq<char>>,
    table: Map<Seq<char>, Seq<char>>,
)
    ensures
        lists_keys(keys, table) <==> keys.no_duplicates() && (forall|k: Seq<char>| #[trigger]
            table.contains_key(k) <==> keys.contains(k)),
{
    if keys.no_duplicates() && (forall|k: Seq<char>| #[trigger]
        table.contains_key(k) <==> keys.contains(k)) {
        assert forall|i: int| 0 <= i < keys.len() implies table.contains_key(
            #[trigger] keys[i],
        ) by {
            assert(keys.contains(keys[i]));
        }
    }
    if lists_keys(keys, table) {
        assert forall|k: Seq<char>| #[trigger] table.contains_key(k) <==> keys.contains(k) by {
            if keys.contains(k) {
                let i = choose|i: int| 0 <= i < keys.len() && keys[i] == k;
                assert(table.contains_key(keys[i]));
            }
        }
    }
}

} // verus!
