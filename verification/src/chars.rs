//! Character-sequence utilities: whitespace trimming, line splitting and
//! joining, and conversions between `String` and `Vec<char>`.

use vstd::prelude::*;
use vstd::std_specs::iter::IteratorSpec;

verus! {

/// The whitespace characters this library recognizes when trimming
/// (the ASCII whitespace set).
pub open spec fn is_ws(c: char) -> bool {
    c == ' ' || c == '\t' || c == '\n' || c == '\r' || c == '\u{b}' || c == '\u{c}'
}

/// A line is blank when every character is whitespace.
pub open spec fn is_blank(s: Seq<char>) -> bool {
    forall|i: int| 0 <= i < s.len() ==> is_ws(s[i])
}

/// Leading whitespace removed.
pub open spec fn trim_start(s: Seq<char>) -> Seq<char>
    decreases s.len(),
{
    if s.len() > 0 && is_ws(s[0]) {
        trim_start(s.drop_first())
    } else {
        s
    }
}

/// Trailing whitespace removed.
pub open spec fn trim_end(s: Seq<char>) -> Seq<char>
    decreases s.len(),
{
    if s.len() > 0 && is_ws(s.last()) {
        trim_end(s.drop_last())
    } else {
        s
    }
}

/// Leading and trailing whitespace removed.
pub open spec fn trim(s: Seq<char>) -> Seq<char> {
    trim_end(trim_start(s))
}

/// The views of a sequence of character vectors.
pub open spec fn views_of(v: Seq<Vec<char>>) -> Seq<Seq<char>> {
    Seq::new(v.len(), |i: int| v[i]@)
}

pub proof fn lemma_trim_start_is_skip(s: Seq<char>, k: int)
    requires
        0 <= k <= s.len(),
        forall|i: int| 0 <= i < k ==> is_ws(s[i]),
        k < s.len() ==> !is_ws(s[k]),
    ensures
        trim_start(s) == s.skip(k),
    decreases k,
{
    if k == 0 {
        assert(s.skip(0) =~= s);
    } else {
        assert(is_ws(s[0]));
        let t = s.drop_first();
        assert(forall|i: int| 0 <= i < k - 1 ==> is_ws(#[trigger] t[i]));
        lemma_trim_start_is_skip(t, k - 1);
        assert(t.skip(k - 1) =~= s.skip(k));
    }
}

pub proof fn lemma_trim_end_is_take(s: Seq<char>, k: int)
    requires
        0 <= k <= s.len(),
        forall|i: int| k <= i < s.len() ==> is_ws(s[i]),
        k > 0 ==> !is_ws(s[k - 1]),
    ensures
        trim_end(s) == s.take(k),
    decreases s.len() - k,
{
    if k == s.len() {
        assert(s.take(k) =~= s);
    } else {
        assert(is_ws(s.last()));
        let t = s.drop_last();
        assert(forall|i: int| k <= i < t.len() ==> is_ws(#[trigger] t[i]));
        lemma_trim_end_is_take(t, k);
        assert(t.take(k) =~= s.take(k));
    }
}

pub fn is_ws_char(c: char) -> (b: bool)
    ensures
        b == is_ws(c),
{
    c == ' ' || c == '\t' || c == '\n' || c == '\r' || c == '\u{b}' || c == '\u{c}'
}

pub fn is_blank_chars(s: &Vec<char>) -> (b: bool)
    ensures
        b == is_blank(s@),
{
    let n = s.len();
    let mut i: usize = 0;
    while i < n
        invariant
            0 <= i <= n,
            n == s@.len(),
            forall|j: int| 0 <= j < i ==> is_ws(s@[j]),
        decreases n - i,
    {
        if !is_ws_char(s[i]) {
            return false;
        }
        i = i + 1;
    }
    true
}

pub fn trim_chars(s: &Vec<char>) -> (r: Vec<char>)
    ensures
        r@ == trim(s@),
{
    let n = s.len();
    let mut lo: usize = 0;
    while lo < n && is_ws_char(s[lo])
        invariant
            0 <= lo <= n,
            n == s@.len(),
            forall|i: int| 0 <= i < lo ==> is_ws(s@[i]),
        decreases n - lo,
    {
        lo = lo + 1;
    }
    proof {
        lemma_trim_start_is_skip(s@, lo as int);
    }
    let mut hi: usize = n;
    while hi > lo && is_ws_char(s[hi - 1])
        invariant
            lo <= hi <= n,
            n == s@.len(),
            forall|i: int| hi <= i < n ==> is_ws(s@[i]),
        decreases hi,
    {
        hi = hi - 1;
    }
    proof {
        let t = s@.skip(lo as int);
        assert(forall|i: int| hi - lo <= i < t.len() ==> is_ws(#[trigger] t[i]));
        lemma_trim_end_is_take(t, hi - lo);
        assert(t.take(hi - lo) =~= s@.subrange(lo as int, hi as int));
    }
    let mut r: Vec<char> = Vec::new();
    let mut i: usize = lo;
    while i < hi
        invariant
            lo <= i <= hi <= n,
            n == s@.len(),
            r@ == s@.subrange(lo as int, i as int),
        decreases hi - i,
    {
        r.push(s[i]);
        proof {
            assert(s@.subrange(lo as int, i + 1 as int) =~= s@.subrange(lo as int, i as int).push(
                s@[i as int],
            ));
        }
        i = i + 1;
    }
    r
}

pub fn trim_end_chars(s: &Vec<char>) -> (r: Vec<char>)
    ensures
        r@ == trim_end(s@),
{
    let n = s.len();
    let mut hi: usize = n;
    while hi > 0 && is_ws_char(s[hi - 1])
        invariant
            0 <= hi <= n,
            n == s@.len(),
            forall|i: int| hi <= i < n ==> is_ws(s@[i]),
        decreases hi,
    {
        hi = hi - 1;
    }
    proof {
        lemma_trim_end_is_take(s@, hi as int);
    }
    copy_range(s, 0, hi)
}

/// The characters of `s` from `from` to `to`, as a fresh vector.
pub fn copy_range(s: &Vec<char>, from: usize, to: usize) -> (r: Vec<char>)
    requires
        from <= to <= s@.len(),
    ensures
        r@ == s@.subrange(from as int, to as int),
{
    let mut r: Vec<char> = Vec::new();
    let mut i: usize = from;
    while i < to
        invariant
            from <= i <= to <= s@.len(),
            r@ == s@.subrange(from as int, i as int),
        decreases to - i,
    {
        r.push(s[i]);
        proof {
            assert(s@.subrange(from as int, i + 1 as int) =~= s@.subrange(
                from as int,
                i as int,
            ).push(s@[i as int]));
        }
        i = i + 1;
    }
    r
}

/// Every character of the string, in order.
pub fn str_to_chars(s: &str) -> (v: Vec<char>)
    ensures
        v@ == s@,
{
    broadcast use vstd::string::next_postcondition, vstd::string::axiom_spec_iter;

    let mut it = s.chars();
    let mut v: Vec<char> = Vec::new();
    loop
        invariant
            it.obeys_prophetic_iter_laws(),
            it.decrease() is Some,
            v@ + it.remaining() == s@,
        ensures
            v@ == s@,
        decreases it.decrease()->0,
    {
        let c_opt = it.next();
        match c_opt {
            Option::Some(c) => {
                v.push(c);
                proof {
                    assert(v@ + it.remaining() =~= s@);
                }
            },
            Option::None => {
                proof {
                    assert(v@ =~= s@);
                }
                break ;
            },
        }
    }
    v
}

/// Lines joined by a single `'\n'` between consecutive lines.
pub open spec fn join_lines(lines: Seq<Seq<char>>) -> Seq<char>
    decreases lines.len(),
{
    if lines.len() == 0 {
        Seq::empty()
    } else if lines.len() == 1 {
        lines[0]
    } else {
        lines[0] + seq!['\n'] + join_lines(lines.drop_first())
    }
}

pub proof fn lemma_join_lines_push(lines: Seq<Seq<char>>, l: Seq<char>)
    ensures
        join_lines(lines.push(l)) == if lines.len() == 0 {
            l
        } else {
            join_lines(lines) + seq!['\n'] + l
        },
    decreases lines.len(),
{
    if lines.len() == 0 {
        assert(lines.push(l)[0] == l);
    } else if lines.len() == 1 {
        assert(lines.push(l).drop_first() =~= seq![l]);
        assert(join_lines(seq![l]) == l);
    } else {
        assert(lines.push(l).drop_first() =~= lines.drop_first().push(l));
        lemma_join_lines_push(lines.drop_first(), l);
    }
}

/// The least index holding `'\n'`, or the length.
pub open spec fn first_nl(s: Seq<char>) -> int
    decreases s.len(),
{
    if s.len() == 0 {
        0
    } else if s[0] == '\n' {
        0
    } else {
        1 + first_nl(s.drop_first())
    }
}

pub proof fn lemma_first_nl(s: Seq<char>)
    ensures
        0 <= first_nl(s) <= s.len(),
        first_nl(s) < s.len() ==> s[first_nl(s)] == '\n',
        forall|i: int| 0 <= i < first_nl(s) ==> s[i] != '\n',
    decreases s.len(),
{
    if s.len() > 0 && s[0] != '\n' {
        let t = s.drop_first();
        lemma_first_nl(t);
        assert forall|i: int| 0 <= i < first_nl(s) implies s[i] != '\n' by {
            if i > 0 {
                assert(t[i - 1] != '\n');
            }
        }
    }
}

/// One trailing carriage return removed, as line splitting does.
pub open spec fn strip_cr(s: Seq<char>) -> Seq<char> {
    if s.len() > 0 && s.last() == '\r' {
        s.drop_last()
    } else {
        s
    }
}

/// The text divided at `'\n'` characters, one trailing `'\r'` removed from
/// each piece; a final line terminator yields no extra empty line, and the
/// empty text has no lines.
pub open spec fn split_lines(s: Seq<char>) -> Seq<Seq<char>>
    decreases s.len(),
    via split_lines_decreases
{
    if s.len() == 0 {
        Seq::empty()
    } else {
        let k = first_nl(s);
        if k == s.len() {
            seq![strip_cr(s)]
        } else {
            seq![strip_cr(s.take(k))] + split_lines(s.skip(k + 1))
        }
    }
}

#[via_fn]
proof fn split_lines_decreases(s: Seq<char>) {
    if s.len() > 0 {
        lemma_first_nl(s);
    }
}

pub fn split_lines_chars(s: &Vec<char>) -> (r: Vec<Vec<char>>)
    ensures
        views_of(r@) == split_lines(s@),
{
    let n = s.len();
    let mut r: Vec<Vec<char>> = Vec::new();
    let mut pos: usize = 0;
    proof {
        assert(s@.skip(0) =~= s@);
        assert(views_of(r@) =~~= Seq::<Seq<char>>::empty());
    }
    while pos < n
        invariant
            0 <= pos <= n,
            n == s@.len(),
            split_lines(s@) == views_of(r@) + split_lines(s@.skip(pos as int)),
        decreases n - pos,
    {
        let mut k: usize = pos;
        while k < n && s[k] != '\n'
            invariant
                pos <= k <= n,
                n == s@.len(),
                forall|i: int| pos <= i < k ==> s@[i] != '\n',
            decreases n - k,
        {
            k = k + 1;
        }
        let end = if k > pos && s[k - 1] == '\r' {
            k - 1
        } else {
            k
        };
        let mut line: Vec<char> = Vec::new();
        let mut i: usize = pos;
        while i < end
            invariant
                pos <= i <= end,
                end <= n,
                n == s@.len(),
                line@ == s@.subrange(pos as int, i as int),
            decreases end - i,
        {
            line.push(s[i]);
            proof {
                assert(s@.subrange(pos as int, i + 1 as int) =~= s@.subrange(
                    pos as int,
                    i as int,
                ).push(s@[i as int]));
            }
            i = i + 1;
        }
        proof {
            let u = s@.skip(pos as int);
            lemma_first_nl(u);
            assert forall|j: int| 0 <= j < k - pos implies u[j] != '\n' by {
                assert(s@[pos + j] != '\n');
            }
            if (k as int) < n {
                assert(u[k - pos] == '\n');
            }
            assert(first_nl(u) == k - pos);
            assert(u.take(k - pos) =~= s@.subrange(pos as int, k as int));
            if k > pos && s@[k - 1] == '\r' {
                assert(u.take(k - pos).drop_last() =~= s@.subrange(pos as int, end as int));
            }
            assert(strip_cr(u.take(k - pos)) =~= line@);
            if k == n {
                assert(u.take(k - pos) =~= u);
                assert(split_lines(u) =~~= seq![line@]);
                assert(split_lines(s@.skip(n as int)) =~~= Seq::<Seq<char>>::empty());
            } else {
                assert(u.skip(k - pos + 1) =~= s@.skip(k + 1 as int));
                assert(split_lines(u) =~~= seq![line@] + split_lines(s@.skip(k + 1 as int)));
            }
            assert(views_of(r@.push(line)) =~~= views_of(r@) + seq![line@]);
        }
        r.push(line);
        if k < n {
            pos = k + 1;
        } else {
            pos = n;
        }
        proof {
            assert(split_lines(s@) =~~= views_of(r@) + split_lines(s@.skip(pos as int)));
        }
    }
    proof {
        assert(s@.skip(n as int) =~= Seq::<char>::empty());
        assert(split_lines(s@) =~~= views_of(r@));
    }
    r
}

pub fn join_lines_chars(lines: &Vec<Vec<char>>) -> (r: Vec<char>)
    ensures
        r@ == join_lines(views_of(lines@)),
{
    let n = lines.len();
    let ghost lv = views_of(lines@);
    let mut r: Vec<char> = Vec::new();
    let mut i: usize = 0;
    while i < n
        invariant
            0 <= i <= n,
            n == lines@.len(),
            lv == views_of(lines@),
            r@ == join_lines(lv.take(i as int)),
        decreases n - i,
    {
        let ghost base = r@;
        if i > 0 {
            r.push('\n');
        }
        let line = &lines[i];
        let m = line.len();
        let mut j: usize = 0;
        while j < m
            invariant
                0 <= j <= m,
                m == line@.len(),
                r@ == if i > 0 {
                    base + seq!['\n'] + line@.take(j as int)
                } else {
                    base + line@.take(j as int)
                },
        decreases m - j,
        {
            r.push(line[j]);
            proof {
                assert(line@.take(j + 1 as int) =~= line@.take(j as int).push(line@[j as int]));
            }
            j = j + 1;
        }
        proof {
            assert(line@.take(m as int) =~= line@);
            lemma_join_lines_push(lv.take(i as int), lv[i as int]);
            assert(lv.take(i + 1 as int) =~= lv.take(i as int).push(lv[i as int]));
            assert(lv[i as int] == line@);
        }
        i = i + 1;
    }
    proof {
        assert(lv.take(n as int) =~= lv);
    }
    r
}

/// Relies on std's `FromIterator<char>` for `String` (reached through
/// `Iterator::collect`): the collected string consists of exactly the
/// iterated characters, in order.
#[verifier::external_body]
pub fn chars_to_string(v: &Vec<char>) -> (s: String)
    ensures
        s@ == v@,
{
    v.iter().collect()
}

} // verus!
