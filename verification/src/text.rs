//! Splitting and reading plain text.
use vstd::prelude::*;

verus! {

/// `String::push`: appends one character to the text.
pub assume_specification[ String::push ](s: &mut String, c: char)
    ensures
        final(s)@ == old(s)@.push(c),
;

/// `i` is where `c` stands in `s` for the first time.
pub open spec fn is_first(s: Seq<char>, c: char, i: int) -> bool {
    &&& 0 <= i < s.len()
    &&& s[i] == c
    &&& forall|j: int| 0 <= j < i ==> s[j] != c
}

/// What stands before and after the first `c` in `s`, if there is one.
pub open spec fn split_once_at(s: Seq<char>, c: char) -> Option<(Seq<char>, Seq<char>)> {
    if s.contains(c) {
        let i = choose|i: int| is_first(s, c, i);
        Some((s.take(i), s.skip(i + 1)))
    } else {
        None
    }
}

/// A text that holds `c` holds it somewhere for the first time.
pub proof fn lemma_first_exists(s: Seq<char>, c: char) -> (i: int)
    requires
        s.contains(c),
    ensures
        is_first(s, c, i),
    decreases s.len(),
{
    if s[0] == c {
        0
    } else {
        let rest = s.skip(1);
        let k = choose|k: int| 0 <= k < s.len() && s[k] == c;
        assert(rest[k - 1] == c);
        let i = lemma_first_exists(rest, c);
        assert forall|j: int| 0 <= j < i + 1 implies s[j] != c by {
            if j > 0 {
                assert(rest[j - 1] == s[j]);
            }
        }
        assert(rest[i] == s[i + 1]);
        i + 1
    }
}

/// The first place of a character decides how the text is split at it.
pub proof fn lemma_split_at_first(s: Seq<char>, c: char, i: int)
    requires
        is_first(s, c, i),
    ensures
        split_once_at(s, c) == Some((s.take(i), s.skip(i + 1))),
{
    assert(s.contains(c));
    let k = choose|k: int| is_first(s, c, k);
    assert(is_first(s, c, k));
    assert(i == k) by {
        if i < k {
            assert(s[i] != c);
        }
        if k < i {
            assert(s[k] != c);
        }
    }
}

/// Two texts joined by `c`, the first of them without `c`, are split apart again.
pub proof fn lemma_split_joined(a: Seq<char>, c: char, b: Seq<char>)
    requires
        !a.contains(c),
    ensures
        split_once_at(a + seq![c] + b, c) == Some((a, b)),
{
    let s = a + seq![c] + b;
    assert forall|j: int| 0 <= j < a.len() implies s[j] != c by {
        assert(s[j] == a[j]);
        assert(a.contains(a[j]));
    }
    assert(s[a.len() as int] == c);
    assert(is_first(s, c, a.len() as int));
    lemma_split_at_first(s, c, a.len() as int);
    assert(s.take(a.len() as int) =~= a);
    assert(s.skip(a.len() as int + 1) =~= b);
}

/// Splits `s` at the first `c`.
pub fn split_once(s: &str, c: char) -> (r: Option<(String, String)>)
    ensures
        match r {
            Some((before, after)) => split_once_at(s@, c) == Some((before@, after@)),
            None => split_once_at(s@, c) is None,
        },
{
    let mut before = String::new();
    let mut after = String::new();
    let mut found = false;
    for ch in it: s.chars()
        invariant
            it.seq() == s@,
            !found ==> before@ == s@.take(it.index() as int) && !before@.contains(c)
                && after@.len() == 0,
            found ==> is_first(s@, c, before@.len() as int) && before@.len() < it.index()
                && before@ == s@.take(before@.len() as int)
                && after@ == s@.subrange(before@.len() as int + 1, it.index() as int),
    {
        let ghost i = it.index() as int;
        let ghost b0 = before@;
        assert(ch == s@[i]);
        if found {
            after.push(ch);
            assert(after@ =~= s@.subrange(before@.len() as int + 1, i + 1));
        } else if ch == c {
            found = true;
            assert forall|j: int| 0 <= j < i implies s@[j] != c by {
                assert(b0.contains(b0[j]));
            }
            assert(after@ =~= s@.subrange(before@.len() as int + 1, i + 1));
        } else {
            before.push(ch);
            assert(before@ =~= s@.take(i + 1));
            assert(!before@.contains(c)) by {
                if before@.contains(c) {
                    let k = choose|k: int| 0 <= k < before@.len() && before@[k] == c;
                    assert(b0[k] == c);
                }
            }
        }
    }
    if found {
        proof {
            lemma_split_at_first(s@, c, before@.len() as int);
            assert(after@ =~= s@.skip(before@.len() as int + 1));
        }
        Some((before, after))
    } else {
        proof {
            assert(before@ =~= s@);
        }
        None
    }
}

/// A line without the carriage return that ends it, if one does.
pub open spec fn without_cr(line: Seq<char>) -> Seq<char> {
    if line.len() > 0 && line.last() == '\r' {
        line.drop_last()
    } else {
        line
    }
}

/// The lines of a text. Each line feed ends one, and takes a carriage return right
/// before it along; what follows the last line feed is a line if it is not empty.
pub open spec fn lines_of(s: Seq<char>) -> Seq<Seq<char>>
    decreases s.len(),
{
    match split_once_at(s, '\n') {
        Some((line, rest)) => if rest.len() < s.len() {
            seq![without_cr(line)] + lines_of(rest)
        } else {
            seq![]
        },
        None => if s.len() == 0 {
            seq![]
        } else {
            seq![s]
        },
    }
}

/// A line and its line feed in front of a text are its first line.
pub proof fn lemma_lines_of_line(line: Seq<char>, rest: Seq<char>)
    requires
        !line.contains('\n'),
    ensures
        lines_of(line + seq!['\n'] + rest) == seq![without_cr(line)] + lines_of(rest),
{
    lemma_split_joined(line, '\n', rest);
}

/// The texts that a vector of strings holds.
pub open spec fn texts(v: Seq<String>) -> Seq<Seq<char>> {
    v.map_values(|s: String| s@)
}

/// Drops the carriage return that ends `line`, if one does.
fn strip_cr(line: &String) -> (r: String)
    ensures
        r@ == without_cr(line@),
{
    let n: usize = line.as_str().unicode_len();
    if n > 0 && line.as_str().get_char(n - 1) == '\r' {
        line.as_str().substring_char(0, n - 1).to_owned()
    } else {
        line.clone()
    }
}

/// Splits a text into its lines.
pub fn split_lines(s: &str) -> (r: Vec<String>)
    ensures
        texts(r@) == lines_of(s@),
{
    let mut lines: Vec<String> = Vec::new();
    let mut current = String::new();
    proof {
        assert(current@ + s@.skip(0) =~= s@);
        assert(texts(lines@) + lines_of(s@) =~= lines_of(s@));
    }
    for ch in it: s.chars()
        invariant
            it.seq() == s@,
            !current@.contains('\n'),
            lines_of(s@) == texts(lines@) + lines_of(current@ + s@.skip(it.index() as int)),
    {
        let ghost i = it.index() as int;
        let ghost c0 = current@;
        let ghost l0 = lines@;
        let ghost rest = s@.skip(i + 1);
        proof {
            assert(s@.skip(i) =~= seq![ch] + rest);
        }
        if ch == '\n' {
            let line = strip_cr(&current);
            lines.push(line);
            current = String::new();
            proof {
                assert(c0 + s@.skip(i) =~= c0 + seq!['\n'] + rest);
                lemma_lines_of_line(c0, rest);
                assert(texts(lines@) =~= texts(l0).push(without_cr(c0)));
                assert(current@ + rest =~= rest);
                assert(texts(l0) + (seq![without_cr(c0)] + lines_of(rest)) =~= texts(lines@)
                    + lines_of(rest));
            }
        } else {
            current.push(ch);
            proof {
                assert(c0 + s@.skip(i) =~= current@ + rest);
                assert(!current@.contains('\n')) by {
                    if current@.contains('\n') {
                        let k = choose|k: int| 0 <= k < current@.len() && current@[k] == '\n';
                        assert(c0[k] == '\n');
                    }
                }
            }
        }
    }
    proof {
        assert(current@ + s@.skip(s@.len() as int) =~= current@);
    }
    let ghost l0 = lines@;
    let ghost c0 = current@;
    if !current.as_str().is_empty() {
        lines.push(current);
        proof {
            assert(texts(lines@) =~= texts(l0) + seq![c0]);
        }
    } else {
        proof {
            assert(lines_of(c0) =~= seq![]);
        }
    }
    lines
}

/// The character is one of the ten decimal digits.
pub open spec fn is_digit(c: char) -> bool {
    '0' <= c <= '9'
}

/// The number that a row of decimal digits stands for.
pub open spec fn digits_value(s: Seq<char>) -> nat
    decreases s.len(),
{
    if s.len() == 0 {
        0
    } else {
        digits_value(s.drop_last()) * 10 + (s.last() as nat - '0' as nat) as nat
    }
}

/// The number that a text stands for: decimal digits, at least one, with a plus sign
/// in front or without.
pub open spec fn unsigned_value(s: Seq<char>) -> Option<nat> {
    let digits = without_plus(s);
    if digits.len() > 0 && all_digits(digits) {
        Some(digits_value(digits))
    } else {
        None
    }
}

/// A text without the plus sign that it starts with, if it does.
pub open spec fn without_plus(s: Seq<char>) -> Seq<char> {
    if s.len() > 0 && s[0] == '+' {
        s.skip(1)
    } else {
        s
    }
}

/// The text holds nothing but decimal digits.
pub open spec fn all_digits(s: Seq<char>) -> bool {
    forall|i: int| 0 <= i < s.len() ==> is_digit(#[trigger] s[i])
}

/// More digits never make a number smaller.
proof fn lemma_digits_value_grows(s: Seq<char>, i: int)
    requires
        0 <= i <= s.len(),
    ensures
        digits_value(s.take(i)) <= digits_value(s),
    decreases s.len() - i,
{
    if i == s.len() {
        assert(s.take(i) =~= s);
    } else {
        assert(s.take(i + 1).drop_last() =~= s.take(i));
        assert(digits_value(s.take(i + 1)) >= digits_value(s.take(i)) * 10);
        lemma_digits_value_grows(s, i + 1);
    }
}

/// One digit more makes a number ten times as large, and adds the digit.
proof fn lemma_digits_value_push(s: Seq<char>, c: char)
    requires
        is_digit(c),
    ensures
        digits_value(s.push(c)) == digits_value(s) * 10 + (c as int - '0' as int),
{
    assert(s.push(c).drop_last() =~= s);
}

/// Reads an unsigned number of at most `max`.
pub fn parse_unsigned(s: &str, max: u64) -> (r: Option<u64>)
    ensures
        match r {
            Some(v) => unsigned_value(s@) == Some(v as nat) && v <= max,
            None => unsigned_value(s@) matches Some(n) ==> n > max,
        },
{
    let ghost digits = without_plus(s@);
    let ghost start: int = s@.len() - digits.len();
    let mut value: u64 = 0;
    let mut any = false;
    let mut first = true;
    for ch in it: s.chars()
        invariant
            it.seq() == s@,
            digits == without_plus(s@),
            start == s@.len() - digits.len(),
            first == (it.index() == 0),
            any == (it.index() > start),
            first ==> value == 0,
            !first ==> value == digits_value(digits.take(it.index() - start)),
            value <= max,
            forall|j: int| 0 <= j < it.index() - start ==> is_digit(#[trigger] digits[j]),
    {
        let ghost i = it.index() as int;
        assert(ch == s@[i]);
        if first && ch == '+' {
            first = false;
            proof {
                assert(digits.take(0) =~= seq![]);
            }
        } else {
            let ghost k = i - start;
            assert(digits[k] == ch);
            if ch < '0' || ch > '9' {
                assert(!is_digit(digits[k]));
                return None;
            }
            let d: u64 = (ch as u32 - '0' as u32) as u64;
            proof {
                assert(digits.take(0) =~= seq![]);
                assert(value == digits_value(digits.take(k)));
                assert(digits.take(k + 1) =~= digits.take(k).push(ch));
                lemma_digits_value_push(digits.take(k), ch);
                lemma_digits_value_grows(digits, k + 1);
            }
            if value > max / 10 || (value == max / 10 && d > max % 10) {
                return None;
            }
            value = value * 10 + d;
            any = true;
            first = false;
        }
    }
    if any {
        proof {
            assert(digits.take(digits.len() as int) =~= digits);
        }
        Some(value)
    } else {
        None
    }
}

} // verus!
