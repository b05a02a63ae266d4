//! Per-line classification: quote headers, quoted lines, header fields,
//! forwarded-message banners, signature lines and signature boundaries.
//! These are pure predicates over a single line of text.

use vstd::prelude::*;
use crate::chars::{is_ws, is_ws_char, trim_start, lemma_trim_start_is_skip};

verus! {

/// `p` occurs in `s` starting at index `i`.
pub open spec fn occurs_at(s: Seq<char>, i: int, p: Seq<char>) -> bool {
    0 <= i && i + p.len() <= s.len() && s.subrange(i, i + p.len()) == p
}

/// `s` ends with `p`.
pub open spec fn ends_with(s: Seq<char>, p: Seq<char>) -> bool {
    p.len() <= s.len() && occurs_at(s, s.len() - p.len(), p)
}

pub fn occurs_at_exec(s: &Vec<char>, i: usize, p: &str) -> (b: bool)
    ensures
        b == occurs_at(s@, i as int, p@),
{
    let m = p.unicode_len();
    let n = s.len();
    if i > n || m > n - i {
        return false;
    }
    let mut j: usize = 0;
    while j < m
        invariant
            i + m <= n,
            n == s@.len(),
            m == p@.len(),
            0 <= j <= m,
            forall|t: int| 0 <= t < j ==> s@[i + t] == p@[t],
        decreases m - j,
    {
        if s[i + j] != p.get_char(j) {
            proof {
                assert(s@.subrange(i as int, i + m as int)[j as int] == s@[i + j]);
            }
            return false;
        }
        j = j + 1;
    }
    proof {
        assert(s@.subrange(i as int, i + m as int) =~= p@);
    }
    true
}

pub fn ends_with_exec(s: &Vec<char>, p: &str) -> (b: bool)
    ensures
        b == ends_with(s@, p@),
{
    let m = p.unicode_len();
    let n = s.len();
    if m > n {
        return false;
    }
    occurs_at_exec(s, n - m, p)
}

/// A reply-quote header: the line ends with "wrote:" and the word "On"
/// begins early enough to leave at least one character before that suffix.
pub open spec fn is_quote_header(line: Seq<char>) -> bool {
    ends_with(line, "wrote:"@) && exists|i: int|
        0 <= i <= line.len() - 8 && occurs_at(line, i, "On"@)
}

pub fn is_quote_header_chars(line: &Vec<char>) -> (b: bool)
    ensures
        b == is_quote_header(line@),
{
    let n = line.len();
    if n < 8 {
        return false;
    }
    if !ends_with_exec(line, "wrote:") {
        return false;
    }
    let mut i: usize = 0;
    while i <= n - 8
        invariant
            n == line@.len(),
            n >= 8,
            0 <= i <= n - 7,
            ends_with(line@, "wrote:"@),
            forall|t: int| 0 <= t < i ==> !occurs_at(line@, t, "On"@),
        decreases n - i,
    {
        if occurs_at_exec(line, i, "On") {
            return true;
        }
        i = i + 1;
    }
    false
}

/// A quoted line: contains at least one '>'.
pub open spec fn is_quoted(line: Seq<char>) -> bool {
    exists|i: int| 0 <= i < line.len() && line[i] == '>'
}

pub fn is_quoted_chars(line: &Vec<char>) -> (b: bool)
    ensures
        b == is_quoted(line@),
{
    let n = line.len();
    let mut i: usize = 0;
    while i < n
        invariant
            0 <= i <= n,
            n == line@.len(),
            forall|t: int| 0 <= t < i ==> line@[t] != '>',
        decreases n - i,
    {
        if line[i] == '>' {
            return true;
        }
        i = i + 1;
    }
    false
}

/// After the field name and its colon: an optional closing asterisk, a
/// space, and at least one further character.
pub open spec fn field_rest_ok(line: Seq<char>, m: int) -> bool {
    (m + 1 < line.len() && line[m] == ' ') || (m + 2 < line.len() && line[m] == '*' && line[m + 1]
        == ' ')
}

pub open spec fn field_at(line: Seq<char>, k: int, name: Seq<char>) -> bool {
    occurs_at(line, k, name) && k + name.len() < line.len() && line[k + name.len()] == ':'
        && field_rest_ok(line, k + name.len() + 1)
}

/// Where the field name starts: after a single leading asterisk, if any.
pub open spec fn header_start(line: Seq<char>) -> int {
    if line.len() > 0 && line[0] == '*' {
        1
    } else {
        0
    }
}

/// A header field line: optionally wrapped in asterisks, one of the names
/// "From", "Sent", "To", "Subject", a colon, a space, and a non-empty rest.
pub open spec fn is_header_field(line: Seq<char>) -> bool {
    field_at(line, header_start(line), "From"@) || field_at(line, header_start(line), "Sent"@)
        || field_at(line, header_start(line), "To"@) || field_at(
        line,
        header_start(line),
        "Subject"@,
    )
}

fn field_at_exec(line: &Vec<char>, k: usize, name: &str) -> (b: bool)
    ensures
        b == field_at(line@, k as int, name@),
{
    if !occurs_at_exec(line, k, name) {
        return false;
    }
    let n = line.len();
    let m = k + name.unicode_len();
    if !(m < n && line[m] == ':') {
        return false;
    }
    let m1 = m + 1;
    if line[m1 - 1] == ':' && m1 < n && line[m1] == ' ' && n - m1 >= 2 {
        return true;
    }
    if n - m1 >= 3 && line[m1] == '*' && line[m1 + 1] == ' ' {
        return true;
    }
    false
}

pub fn is_header_field_chars(line: &Vec<char>) -> (b: bool)
    ensures
        b == is_header_field(line@),
{
    let k: usize = if line.len() > 0 && line[0] == '*' {
        1
    } else {
        0
    };
    field_at_exec(line, k, "From") || field_at_exec(line, k, "Sent") || field_at_exec(
        line,
        k,
        "To",
    ) || field_at_exec(line, k, "Subject")
}

/// The forwarded-message banner: one or more dashes, " Forwarded message ",
/// one or more dashes, and nothing else.
pub open spec fn is_forwarded(line: Seq<char>) -> bool {
    exists|a: int|
        1 <= a && a + 20 <= line.len() && (forall|i: int| 0 <= i < a ==> line[i] == '-')
            && occurs_at(line, a, " Forwarded message "@) && (forall|i: int|
            a + 19 <= i < line.len() ==> line[i] == '-')
}

/// Any banner witness must start exactly where the maximal run of leading
/// dashes ends.
proof fn lemma_banner_start(line: Seq<char>, a: int, b: int)
    requires
        0 <= a <= line.len(),
        forall|i: int| 0 <= i < a ==> line[i] == '-',
        a < line.len() ==> line[a] != '-',
        1 <= b,
        b + 20 <= line.len(),
        forall|i: int| 0 <= i < b ==> line[i] == '-',
        occurs_at(line, b, " Forwarded message "@),
    ensures
        b == a,
{
    reveal_strlit(" Forwarded message ");
    assert(line.subrange(b, b + 19)[0] == line[b]);
    assert(line[b] == ' ');
    if b < a {
        assert(line[b] == '-');
    }
    if a < b {
        assert(line[a] == '-');
    }
}

pub fn is_forwarded_chars(line: &Vec<char>) -> (b: bool)
    ensures
        b == is_forwarded(line@),
{
    let n = line.len();
    let mut a: usize = 0;
    while a < n && line[a] == '-'
        invariant
            0 <= a <= n,
            n == line@.len(),
            forall|i: int| 0 <= i < a ==> line@[i] == '-',
        decreases n - a,
    {
        a = a + 1;
    }
    if a == 0 || n - a < 20 {
        proof {
            assert forall|b: int|
                !(1 <= b && b + 20 <= line@.len() && (forall|i: int|
                    0 <= i < b ==> line@[i] == '-') && occurs_at(line@, b, " Forwarded message "@)
                    && (forall|i: int| b + 19 <= i < line@.len() ==> line@[i] == '-')) by {
                if 1 <= b && b + 20 <= line@.len() && (forall|i: int|
                    0 <= i < b ==> line@[i] == '-') && occurs_at(line@, b, " Forwarded message "@) {
                    lemma_banner_start(line@, a as int, b);
                }
            }
        }
        return false;
    }
    if !occurs_at_exec(line, a, " Forwarded message ") {
        proof {
            assert forall|b: int|
                !(1 <= b && b + 20 <= line@.len() && (forall|i: int|
                    0 <= i < b ==> line@[i] == '-') && occurs_at(line@, b, " Forwarded message "@)
                    && (forall|i: int| b + 19 <= i < line@.len() ==> line@[i] == '-')) by {
                if 1 <= b && b + 20 <= line@.len() && (forall|i: int|
                    0 <= i < b ==> line@[i] == '-') && occurs_at(line@, b, " Forwarded message "@) {
                    lemma_banner_start(line@, a as int, b);
                }
            }
        }
        return false;
    }
    proof {
        reveal_strlit(" Forwarded message ");
        assert(line@.subrange(a as int, a as int + 19)[0] == line@[a as int]);
    }
    let mut i: usize = a + 19;
    while i < n
        invariant
            1 <= a,
            a + 20 <= n,
            a + 19 <= i <= n,
            n == line@.len(),
            line@[a as int] != '-',
            forall|j: int| 0 <= j < a ==> line@[j] == '-',
            occurs_at(line@, a as int, " Forwarded message "@),
            forall|t: int| a + 19 <= t < i ==> line@[t] == '-',
        decreases n - i,
    {
        if line[i] != '-' {
            proof {
                assert forall|b: int|
                    !(1 <= b && b + 20 <= line@.len() && (forall|j: int|
                        0 <= j < b ==> line@[j] == '-') && occurs_at(
                        line@,
                        b,
                        " Forwarded message "@,
                    ) && (forall|j: int| b + 19 <= j < line@.len() ==> line@[j] == '-')) by {
                    if 1 <= b && b + 20 <= line@.len() && (forall|j: int|
                        0 <= j < b ==> line@[j] == '-') && occurs_at(
                        line@,
                        b,
                        " Forwarded message "@,
                    ) && (forall|j: int| b + 19 <= j < line@.len() ==> line@[j] == '-') {
                        lemma_banner_start(line@, a as int, b);
                        assert(line@[i as int] == '-');
                    }
                }
            }
            return false;
        }
        i = i + 1;
    }
    proof {
        let b = a as int;
        assert(1 <= b && b + 20 <= line@.len() && (forall|j: int| 0 <= j < b ==> line@[j] == '-')
            && occurs_at(line@, b, " Forwarded message "@) && (forall|j: int|
            b + 19 <= j < line@.len() ==> line@[j] == '-'));
    }
    true
}

/// A header line: a quote header, a header field, or a forwarded banner.
pub open spec fn is_header(line: Seq<char>) -> bool {
    is_quote_header(line) || is_header_field(line) || is_forwarded(line)
}

pub fn is_header_chars(line: &Vec<char>) -> (b: bool)
    ensures
        b == is_header(line@),
{
    is_quote_header_chars(line) || is_header_field_chars(line) || is_forwarded_chars(line)
}

/// A word character: an ASCII letter, digit or underscore.
pub open spec fn is_word_char(c: char) -> bool {
    (('a' as u32) <= c as u32 && c as u32 <= ('z' as u32)) || (('A' as u32) <= c as u32 && c as u32
        <= ('Z' as u32)) || (('0' as u32) <= c as u32 && c as u32 <= ('9' as u32)) || c == '_'
}

pub fn is_word_char_exec(c: char) -> (b: bool)
    ensures
        b == is_word_char(c),
{
    let x = c as u32;
    (('a' as u32) <= x && x <= ('z' as u32)) || (('A' as u32) <= x && x <= ('Z' as u32)) || (('0'
        as u32) <= x && x <= ('9' as u32)) || c == '_'
}

/// A signature line (tested on the trimmed line): a dash followed by a dash
/// or a word character, a double underscore, or the prefix "Sent from my "
/// followed by a word character.
pub open spec fn is_sig_line(t: Seq<char>) -> bool {
    (exists|i: int|
        0 <= i && i + 1 < t.len() && #[trigger] t[i] == '-' && (t[i + 1] == '-' || is_word_char(
            t[i + 1],
        ))) || (exists|i: int| 0 <= i && i + 1 < t.len() && #[trigger] t[i] == '_' && t[i + 1] == '_')
        || (occurs_at(t, 0, "Sent from my "@) && t.len() >= 14 && is_word_char(t[13]))
}

pub fn is_sig_line_chars(t: &Vec<char>) -> (b: bool)
    ensures
        b == is_sig_line(t@),
{
    let n = t.len();
    if n >= 1 {
        let mut i: usize = 0;
        while i + 1 < n
            invariant
                0 <= i,
                i + 1 <= n,
                n == t@.len(),
                forall|j: int|
                    0 <= j && j + 1 < i + 1 ==> !(#[trigger] t@[j] == '-' && (t@[j + 1] == '-'
                        || is_word_char(t@[j + 1]))) && !(t@[j] == '_' && t@[j + 1] == '_'),
            decreases n - i,
        {
            if t[i] == '-' && (t[i + 1] == '-' || is_word_char_exec(t[i + 1])) {
                return true;
            }
            if t[i] == '_' && t[i + 1] == '_' {
                return true;
            }
            i = i + 1;
        }
    }
    if occurs_at_exec(t, 0, "Sent from my ") {
        if n >= 14 && is_word_char_exec(t[13]) {
            return true;
        }
    }
    proof {
        reveal_strlit("Sent from my ");
    }
    false
}

/// A signature-boundary line: after leading whitespace, its first seven
/// characters are all dashes or underscores.
pub open spec fn is_boundary(line: Seq<char>) -> bool {
    trim_start(line).len() >= 7 && forall|i: int|
        0 <= i < 7 ==> (trim_start(line)[i] == '-' || trim_start(line)[i] == '_')
}

pub fn is_boundary_chars(line: &Vec<char>) -> (b: bool)
    ensures
        b == is_boundary(line@),
{
    let n = line.len();
    let mut k: usize = 0;
    while k < n && is_ws_char(line[k])
        invariant
            0 <= k <= n,
            n == line@.len(),
            forall|i: int| 0 <= i < k ==> is_ws(line@[i]),
        decreases n - k,
    {
        k = k + 1;
    }
    proof {
        lemma_trim_start_is_skip(line@, k as int);
    }
    if n - k < 7 {
        return false;
    }
    let mut i: usize = 0;
    while i < 7
        invariant
            0 <= i <= 7,
            k + 7 <= n,
            n == line@.len(),
            trim_start(line@) == line@.skip(k as int),
            forall|j: int| 0 <= j < i ==> (#[trigger] line@[k + j] == '-' || line@[k + j] == '_'),
        decreases 7 - i,
    {
        if !(line[k + i] == '-' || line[k + i] == '_') {
            proof {
                assert(trim_start(line@)[i as int] == line@[k + i]);
            }
            return false;
        }
        i = i + 1;
    }
    proof {
        assert forall|j: int| 0 <= j < 7 implies (trim_start(line@)[j] == '-' || trim_start(
            line@,
        )[j] == '_') by {
            assert(trim_start(line@)[j] == line@[k + j]);
        }
    }
    true
}

} // verus!
