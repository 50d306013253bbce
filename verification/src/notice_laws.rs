//! What hashes, notifications, mails and settings are, told over plain values.
use crate::config::{first_fault, port_in, ConfigError, Setting, SmtpVars};
use crate::digest::{all_hashes, hash_of, hex_digit, hex_text, is_hash, sha256};
use crate::mail::{mail_between, party_in, MailError, MailView, PartyView};
use crate::notice::{added_text, changed_text, is_timestamp, removed_text, TIMESTAMP_FORMAT};
use crate::path::opt_text;
use crate::plan::change_text;
use crate::text::unsigned_value;
use vstd::prelude::*;

verus! {

/// The sixteen hexadecimal digits in their order.
proof fn lemma_hex_digits(n: int)
    requires
        0 <= n < 16,
    ensures
        hex_digit(n) == seq![
            '0',
            '1',
            '2',
            '3',
            '4',
            '5',
            '6',
            '7',
            '8',
            '9',
            'a',
            'b',
            'c',
            'd',
            'e',
            'f',
        ][n],
{
    let digits = seq![
        '0',
        '1',
        '2',
        '3',
        '4',
        '5',
        '6',
        '7',
        '8',
        '9',
        'a',
        'b',
        'c',
        'd',
        'e',
        'f',
    ];
    assert(n == 0 || n == 1 || n == 2 || n == 3 || n == 4 || n == 5 || n == 6 || n == 7 || n == 8
        || n == 9 || n == 10 || n == 11 || n == 12 || n == 13 || n == 14 || n == 15);
    assert(digits[0] == '0' && digits[1] == '1' && digits[2] == '2' && digits[3] == '3'
        && digits[4] == '4' && digits[5] == '5' && digits[6] == '6' && digits[7] == '7'
        && digits[8] == '8' && digits[9] == '9' && digits[10] == 'a' && digits[11] == 'b'
        && digits[12] == 'c' && digits[13] == 'd' && digits[14] == 'e' && digits[15] == 'f');
}

/// The hash of a file is the SHA-256 digest of all that it holds: two characters for each
/// byte of the digest, the hexadecimal digits of its high and of its low half.
pub proof fn law_hash_is_the_digest_of_all_contents(contents: Seq<u8>, i: int)
    ensures
        hash_of(contents).len() == 2 * sha256(contents).len(),
        0 <= i < sha256(contents).len() ==> ({
            let digits = seq![
                '0',
                '1',
                '2',
                '3',
                '4',
                '5',
                '6',
                '7',
                '8',
                '9',
                'a',
                'b',
                'c',
                'd',
                'e',
                'f',
            ];
            &&& hash_of(contents)[2 * i] == digits[sha256(contents)[i] as int / 16]
            &&& hash_of(contents)[2 * i + 1] == digits[sha256(contents)[i] as int % 16]
        }),
{
    if 0 <= i < sha256(contents).len() {
        let byte = sha256(contents)[i] as int;
        lemma_hex_digits(byte / 16);
        lemma_hex_digits(byte % 16);
        assert((2 * i) / 2 == i && (2 * i) % 2 == 0);
        assert((2 * i + 1) / 2 == i && (2 * i + 1) % 2 == 1);
    }
}

/// Files of any length have the same hash exactly if the digests of all that they hold are
/// the same: a change anywhere in a file shows.
pub proof fn law_hashes_tell_contents_apart(a: Seq<u8>, b: Seq<u8>)
    ensures
        hash_of(a) == hash_of(b) <==> sha256(a) == sha256(b),
{
    if hash_of(a) == hash_of(b) {
        law_hash_is_the_digest_of_all_contents(a, 0);
        law_hash_is_the_digest_of_all_contents(b, 0);
        assert forall|i: int| 0 <= i < sha256(a).len() implies sha256(a)[i] == sha256(b)[i] by {
            let x = sha256(a)[i] as int;
            let y = sha256(b)[i] as int;
            assert(hash_of(a)[2 * i] == hex_text(sha256(a))[2 * i]);
            assert((2 * i) / 2 == i && (2 * i) % 2 == 0);
            assert((2 * i + 1) / 2 == i && (2 * i + 1) % 2 == 1);
            assert(hash_of(a)[2 * i] == hex_digit(x / 16));
            assert(hash_of(b)[2 * i] == hex_digit(y / 16));
            assert(hash_of(a)[2 * i + 1] == hex_digit(x % 16));
            assert(hash_of(b)[2 * i + 1] == hex_digit(y % 16));
            lemma_hex_digit_tells_apart(x / 16, y / 16);
            lemma_hex_digit_tells_apart(x % 16, y % 16);
        }
        assert(sha256(a) =~= sha256(b));
    }
}

/// Different numbers have different digits.
proof fn lemma_hex_digit_tells_apart(m: int, n: int)
    requires
        0 <= m < 16,
        0 <= n < 16,
        hex_digit(m) == hex_digit(n),
    ensures
        m == n,
{
}

/// A hash has sixty-four characters, each a decimal digit or one of the letters up to f.
pub proof fn law_hash_has_sixty_four_digits(s: Seq<char>)
    ensures
        is_hash(s) <==> s.len() == 64 && (forall|i: int|
            0 <= i < 64 ==> '0' <= #[trigger] s[i] <= '9' || 'a' <= s[i] <= 'f'),
{
}

/// A table of hashes has a hash for each of its files.
pub proof fn law_table_of_hashes_has_a_hash_for_each_file(table: Map<Seq<char>, Seq<char>>)
    ensures
        all_hashes(table) <==> (forall|k: Seq<char>| #[trigger]
            table.contains_key(k) ==> table[k].len() == 64 && (forall|i: int|
                0 <= i < 64 ==> '0' <= #[trigger] table[k][i] <= '9' || 'a' <= table[k][i] <= 'f')),
{
    assert forall|k: Seq<char>| is_hash(#[trigger] table[k]) <==> table[k].len() == 64 && (forall|
        i: int,
    |
        0 <= i < 64 ==> '0' <= #[trigger] table[k][i] <= '9' || 'a' <= table[k][i] <= 'f') by {
        law_hash_has_sixty_four_digits(table[k]);
    }
}

/// Of a file that is recorded, the notification gives four lines: the time of the change,
/// the path, the recorded hash and the new one, each behind its label. Of a file that is not
/// recorded it gives three: the time, the path and the hash.
pub proof fn law_change_is_told_line_by_line(
    table: Map<Seq<char>, Seq<char>>,
    key: Seq<char>,
    hash: Seq<char>,
    time: Seq<char>,
)
    ensures
        table.contains_key(key) ==> change_text(table, key, hash, time) == "檔案變動時間: "@ + time
            + ("\n路徑: "@ + key) + ("\n原始雜湊值: "@ + table[key]) + ("\n新的雜湊值: "@ + hash),
        !table.contains_key(key) ==> change_text(table, key, hash, time) == "檔案變動時間: "@ + time
            + ("\n路徑: "@ + key) + ("\n新的雜湊值: "@ + hash),
{
    if table.contains_key(key) {
        law_notices_are_told_line_by_line(time, key, table[key], hash);
    } else {
        law_notices_are_told_line_by_line(time, key, hash, hash);
    }
}

/// Each kind of notification gives its parts in their order, each behind its label: the
/// time, the path and the hashes, the former one before the new one.
pub proof fn law_notices_are_told_line_by_line(
    time: Seq<char>,
    path: Seq<char>,
    old_hash: Seq<char>,
    new_hash: Seq<char>,
)
    ensures
        changed_text(time, path, old_hash, new_hash) == "檔案變動時間: "@ + time + ("\n路徑: "@ + path)
            + ("\n原始雜湊值: "@ + old_hash) + ("\n新的雜湊值: "@ + new_hash),
        added_text(time, path, new_hash) == "檔案變動時間: "@ + time + ("\n路徑: "@ + path) + (
        "\n新的雜湊值: "@ + new_hash),
        removed_text(time, path, old_hash) == "檔案刪除時間: "@ + time + ("\n路徑: "@ + path) + (
        "\n刪除前雜湊值: "@ + old_hash),
{
    assert(changed_text(time, path, old_hash, new_hash) =~= "檔案變動時間: "@ + time + ("\n路徑: "@
        + path) + ("\n原始雜湊值: "@ + old_hash) + ("\n新的雜湊值: "@ + new_hash));
    assert(added_text(time, path, new_hash) =~= "檔案變動時間: "@ + time + ("\n路徑: "@ + path) + (
    "\n新的雜湊值: "@ + new_hash));
    assert(removed_text(time, path, old_hash) =~= "檔案刪除時間: "@ + time + ("\n路徑: "@ + path) + (
    "\n刪除前雜湊值: "@ + old_hash));
}

/// A last line that starts with a label and is all in one line can be told from what
/// stands before it.
proof fn lemma_last_line_reads_back(
    a: Seq<char>,
    b: Seq<char>,
    label: Seq<char>,
    x: Seq<char>,
    y: Seq<char>,
)
    requires
        label.len() > 0,
        label[0] == '\n',
        forall|i: int| 0 < i < label.len() ==> label[i] != '\n',
        !x.contains('\n'),
        !y.contains('\n'),
        a + (label + x) == b + (label + y),
    ensures
        a == b,
        x == y,
{
    let s = a + (label + x);
    let t = b + (label + y);
    assert(s.len() == a.len() + label.len() + x.len());
    assert(t.len() == b.len() + label.len() + y.len());
    assert(s[a.len() as int] == '\n');
    assert(t[b.len() as int] == '\n');
    if a.len() < b.len() {
        let k = b.len() - a.len();
        assert(s[b.len() as int] == (label + x)[k]);
        if k >= label.len() {
            assert(x[k - label.len()] == '\n');
        }
    }
    if b.len() < a.len() {
        let k = a.len() - b.len();
        assert(t[a.len() as int] == (label + y)[k]);
        if k >= label.len() {
            assert(y[k - label.len()] == '\n');
        }
    }
    assert(s.take(a.len() as int) =~= a);
    assert(t.take(b.len() as int) =~= b);
    assert(s.skip((a.len() + label.len()) as int) =~= x);
    assert(t.skip((b.len() + label.len()) as int) =~= y);
}

/// From the notification of a change the former and the new hash can be read, whatever the
/// path is: two notifications with the same text name the same former and the same new
/// hash.
pub proof fn law_hashes_read_back_from_notice(
    time: Seq<char>,
    path: Seq<char>,
    old_hash: Seq<char>,
    new_hash: Seq<char>,
    other_time: Seq<char>,
    other_path: Seq<char>,
    other_old: Seq<char>,
    other_new: Seq<char>,
)
    requires
        !old_hash.contains('\n'),
        !new_hash.contains('\n'),
        !other_old.contains('\n'),
        !other_new.contains('\n'),
        changed_text(time, path, old_hash, new_hash) == changed_text(
            other_time,
            other_path,
            other_old,
            other_new,
        ),
    ensures
        old_hash == other_old,
        new_hash == other_new,
{
    reveal_strlit("\n原始雜湊值: ");
    reveal_strlit("\n新的雜湊值: ");
    law_notices_are_told_line_by_line(time, path, old_hash, new_hash);
    law_notices_are_told_line_by_line(other_time, other_path, other_old, other_new);
    let a = "檔案變動時間: "@ + time + ("\n路徑: "@ + path);
    let b = "檔案變動時間: "@ + other_time + ("\n路徑: "@ + other_path);
    lemma_last_line_reads_back(
        a + ("\n原始雜湊值: "@ + old_hash),
        b + ("\n原始雜湊值: "@ + other_old),
        "\n新的雜湊值: "@,
        new_hash,
        other_new,
    );
    lemma_last_line_reads_back(a, b, "\n原始雜湊值: "@, old_hash, other_old);
}

/// A time has a year of at least four characters and then, always at the same places
/// counted from its end, month, day, hour, minute and second, each of two digits: the parts
/// that the format of a time asks for, in that order.
pub proof fn law_time_has_its_parts_in_place(s: Seq<char>)
    requires
        is_timestamp(s),
    ensures
        s.len() >= 19,
        ({
            let n = s.len() as int;
            let number = |i: int|
                (s[i] as int - '0' as int) * 10 + (s[i + 1] as int - '0' as int);
            &&& s[n - 15] == '-' && s[n - 12] == '-' && s[n - 9] == ' ' && s[n - 6] == ':'
                && s[n - 3] == ':'
            &&& 1 <= number(n - 14) <= 12
            &&& 1 <= number(n - 11) <= 31
            &&& 0 <= number(n - 8) <= 23
            &&& 0 <= number(n - 5) <= 59
            &&& 0 <= number(n - 2) <= 60
        }),
        forall|i: int|
            0 <= i < s.len() && i != 0 && i != s.len() - 15 && i != s.len() - 12 && i != s.len() - 9
                && i != s.len() - 6 && i != s.len() - 3 ==> '0' <= #[trigger] s[i] <= '9',
        '0' <= s[0] <= '9' || s[0] == '+' || s[0] == '-',
        '0' <= s[0] <= '9' ==> s.len() == 19,
        TIMESTAMP_FORMAT@ == "%Y-%m-%d %H:%M:%S"@,
{
    let y = s.len() - 15;
    let year = s.take(y);
    assert forall|i: int| 0 <= i < y implies #[trigger] s[i] == year[i] by {}
    assert forall|i: int| 0 < i < y implies #[trigger] s[i] == year.skip(1)[i - 1] by {}
}

/// A mail has the sender, the recipient and the text that it is made of, and always the
/// same subject. Without a sender there is none, nor without a recipient.
pub proof fn law_mail_carries_the_notification(
    from: Option<PartyView>,
    to: Option<PartyView>,
    body: Seq<char>,
)
    ensures
        from matches Some(sender) ==> (to matches Some(recipient) ==> mail_between(from, to, body)
            == Ok::<MailView, MailError>(
            MailView { from: sender, to: recipient, subject: "檔案變動通知"@, body },
        )),
        from is None ==> mail_between(from, to, body) == Err::<MailView, MailError>(
            MailError::InvalidSender,
        ),
        from is Some && to is None ==> mail_between(from, to, body) == Err::<MailView, MailError>(
            MailError::InvalidRecipient,
        ),
{
}

/// A party is named by the three parts that were read in its mailbox.
pub proof fn law_party_has_the_parts_of_its_mailbox(
    name: Option<Seq<char>>,
    user: Seq<char>,
    domain: Seq<char>,
)
    ensures
        party_in(Some((name, user, domain))) == Some(PartyView { name, user, domain }),
        party_in(None) is None,
{
}

/// The port of the mail server is the number that is set, up to the largest number of a
/// port, and the usual one if nothing is set.
pub proof fn law_port_is_the_number_that_is_set(text: Seq<char>, n: nat)
    ensures
        port_in(None) == Some(587nat),
        port_in(Some(text)) == Some(n) <==> unsigned_value(text) == Some(n) && n <= 65535,
{
}

/// The settings of the mail server are refused for the first thing that is wrong with them,
/// gone through in the order host, port, user name, password, sender, and only then.
pub proof fn law_first_wrong_setting_is_named(vars: SmtpVars)
    ensures
        vars.host is None ==> first_fault(vars) == Some(ConfigError::Missing(Setting::SmtpHost)),
        vars.host is Some && port_in(opt_text(vars.port)) is None ==> first_fault(vars) == Some(
            ConfigError::InvalidPort,
        ),
        vars.host is Some && port_in(opt_text(vars.port)) is Some ==> ({
            &&& vars.username is None ==> first_fault(vars) == Some(
                ConfigError::Missing(Setting::SmtpUsername),
            )
            &&& vars.username is Some && vars.password is None ==> first_fault(vars) == Some(
                ConfigError::Missing(Setting::SmtpPassword),
            )
            &&& vars.username is Some && vars.password is Some && vars.from is None ==> first_fault(
                vars,
            ) == Some(ConfigError::Missing(Setting::SmtpFrom))
            &&& vars.username is Some && vars.password is Some && vars.from is Some ==> first_fault(
                vars,
            ) is None
        }),
{
}

} // verus!
