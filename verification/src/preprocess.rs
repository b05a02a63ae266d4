//! Text rewrites applied before line scanning: line-ending normalization,
//! collapsing a multi-line quote header onto one line, and inserting a
//! blank line before an unseparated signature-boundary line.

use vstd::prelude::*;
use crate::chars::{is_ws, views_of, copy_range};
use crate::classify::{occurs_at, occurs_at_exec, is_boundary, is_boundary_chars};

verus! {

/// "\r\n" replaced by "\n" throughout, scanning left to right.
pub open spec fn normalize(s: Seq<char>) -> Seq<char>
    decreases s.len(),
{
    if s.len() == 0 {
        s
    } else if s.len() >= 2 && s[0] == '\r' && s[1] == '\n' {
        seq!['\n'] + normalize(s.skip(2))
    } else {
        seq![s[0]] + normalize(s.skip(1))
    }
}

pub fn normalize_chars(s: &Vec<char>) -> (r: Vec<char>)
    ensures
        r@ == normalize(s@),
{
    let n = s.len();
    let mut r: Vec<char> = Vec::new();
    let mut i: usize = 0;
    proof {
        assert(s@.skip(0) =~= s@);
    }
    while i < n
        invariant
            0 <= i <= n,
            n == s@.len(),
            normalize(s@) == r@ + normalize(s@.skip(i as int)),
        decreases n - i,
    {
        let ghost u = s@.skip(i as int);
        let ghost r0 = r@;
        if i + 1 < n && s[i] == '\r' && s[i + 1] == '\n' {
            r.push('\n');
            proof {
                assert(u.len() >= 2 && u[0] == '\r' && u[1] == '\n');
                assert(u.skip(2) =~= s@.skip(i + 2));
                assert(r@ + normalize(s@.skip(i + 2)) =~= r0 + normalize(u));
            }
            i = i + 2;
        } else {
            r.push(s[i]);
            proof {
                assert(u[0] == s@[i as int]);
                assert(u.skip(1) =~= s@.skip(i + 1));
                if u.len() >= 2 {
                    assert(u[1] == s@[i + 1]);
                }
                assert(r@ + normalize(s@.skip(i + 1)) =~= r0 + normalize(u));
            }
            i = i + 1;
        }
    }
    proof {
        assert(s@.skip(n as int) =~= Seq::<char>::empty());
        assert(r@ + normalize(s@.skip(n as int)) =~= r@);
    }
    r
}

/// "On" followed by a whitespace character begins at `i`.
pub open spec fn on_at(s: Seq<char>, i: int) -> bool {
    0 <= i && i + 3 <= s.len() && s[i] == 'O' && s[i + 1] == 'n' && is_ws(s[i + 2])
}

/// "wrote:" begins at `i`.
pub open spec fn wrote_at(s: Seq<char>, i: int) -> bool {
    occurs_at(s, i, "wrote:"@)
}

/// Some "On " begins at least one character before the "wrote:" at `w`.
pub open spec fn has_on_before(s: Seq<char>, w: int) -> bool {
    exists|q: int| 0 <= q <= w - 4 && on_at(s, q)
}

/// The first "wrote:" that closes a quote-header span at or after `i`, or
/// the length when there is none.
pub open spec fn first_span_wrote(s: Seq<char>, i: int) -> int
    decreases s.len() - i,
{
    if i >= s.len() {
        s.len() as int
    } else if wrote_at(s, i) && has_on_before(s, i) {
        i
    } else {
        first_span_wrote(s, i + 1)
    }
}

pub proof fn lemma_first_span_wrote(s: Seq<char>, i: int)
    requires
        0 <= i <= s.len(),
    ensures
        i <= first_span_wrote(s, i) <= s.len(),
        first_span_wrote(s, i) < s.len() ==> wrote_at(s, first_span_wrote(s, i)) && has_on_before(
            s,
            first_span_wrote(s, i),
        ),
        forall|j: int|
            i <= j < first_span_wrote(s, i) ==> !(wrote_at(s, j) && has_on_before(s, j)),
    decreases s.len() - i,
{
    if i < s.len() && !(wrote_at(s, i) && has_on_before(s, i)) {
        lemma_first_span_wrote(s, i + 1);
    }
}

/// The nearest "On " at or before `q`, or -1 when there is none.
pub open spec fn last_on_from(s: Seq<char>, q: int) -> int
    decreases q + 1,
{
    if q < 0 {
        -1
    } else if on_at(s, q) {
        q
    } else {
        last_on_from(s, q - 1)
    }
}

pub proof fn lemma_last_on_from(s: Seq<char>, q: int)
    ensures
        last_on_from(s, q) == -1 || (0 <= last_on_from(s, q) <= q),
        last_on_from(s, q) >= 0 ==> on_at(s, last_on_from(s, q)),
        forall|j: int| last_on_from(s, q) < j <= q ==> !on_at(s, j),
        (exists|j: int| 0 <= j <= q && on_at(s, j)) ==> last_on_from(s, q) >= 0,
    decreases q + 1,
{
    if q >= 0 && !on_at(s, q) {
        lemma_last_on_from(s, q - 1);
    }
}

/// All newlines removed.
pub open spec fn remove_nl(s: Seq<char>) -> Seq<char>
    decreases s.len(),
{
    if s.len() == 0 {
        s
    } else if s[0] == '\n' {
        remove_nl(s.drop_first())
    } else {
        seq![s[0]] + remove_nl(s.drop_first())
    }
}

/// The first multi-line quote-header span collapsed onto one line: find
/// the first "wrote:" preceded (with at least one character between) by an
/// "On ", take the nearest such "On " before it, and remove every newline
/// between the start of that "On " and the end of the "wrote:".
pub open spec fn collapse_quote_header(s: Seq<char>) -> Seq<char> {
    let w = first_span_wrote(s, 0);
    if w == s.len() {
        s
    } else {
        let p = last_on_from(s, w - 4);
        s.take(p) + remove_nl(s.subrange(p, w + 6)) + s.skip(w + 6)
    }
}

fn on_at_exec(s: &Vec<char>, i: usize) -> (b: bool)
    ensures
        b == on_at(s@, i as int),
{
    let n = s.len();
    i < n && n - i >= 3 && s[i] == 'O' && s[i + 1] == 'n' && crate::chars::is_ws_char(s[i + 2])
}

pub fn collapse_quote_header_chars(s: &Vec<char>) -> (r: Vec<char>)
    ensures
        r@ == collapse_quote_header(s@),
{
    let n = s.len();
    let mut w: usize = 0;
    let mut last_on: Option<usize> = None;
    let mut found = false;
    while w < n && !found
        invariant
            0 <= w <= n,
            n == s@.len(),
            match last_on {
                Some(q) => q == last_on_from(s@, w as int - 4),
                None => -1 == last_on_from(s@, w as int - 4),
            },
            !found ==> forall|j: int|
                0 <= j < w ==> !(wrote_at(s@, j) && has_on_before(s@, j)),
            found ==> wrote_at(s@, w as int) && has_on_before(s@, w as int) && forall|j: int|
                0 <= j < w ==> !(wrote_at(s@, j) && has_on_before(s@, j)),
        decreases n - w, (if found { 0int } else { 1int }),
    {
        let is_wrote = occurs_at_exec(s, w, "wrote:");
        if is_wrote && last_on.is_some() {
            proof {
                lemma_last_on_from(s@, w as int - 4);
            }
            found = true;
        } else {
            proof {
                lemma_last_on_from(s@, w as int - 4);
                if wrote_at(s@, w as int) && has_on_before(s@, w as int) {
                    let q = choose|q: int| 0 <= q <= w - 4 && on_at(s@, q);
                    assert(false);
                }
            }
            if w + 1 >= 4 && on_at_exec(s, w - 3) {
                last_on = Some(w - 3);
            }
            w = w + 1;
        }
    }
    proof {
        lemma_first_span_wrote(s@, 0);
    }
    if !found {
        proof {
            assert(first_span_wrote(s@, 0) == n as int);
        }
        return copy_range(s, 0, n);
    }
    let p = match last_on {
        Some(q) => q,
        None => 0,
    };
    proof {
        reveal_strlit("wrote:");
        assert(first_span_wrote(s@, 0) == w as int);
        lemma_last_on_from(s@, w as int - 4);
        assert(p as int == last_on_from(s@, w as int - 4));
        assert(on_at(s@, p as int));
        assert(w + 6 <= n);
    }
    let mut r = copy_range(s, 0, p);
    let mut i: usize = p;
    let stop = w + 6;
    proof {
        assert(s@.subrange(p as int, p as int) =~= Seq::<char>::empty());
    }
    while i < stop
        invariant
            p <= i <= stop <= n,
            n == s@.len(),
            r@ + remove_nl(s@.subrange(i as int, stop as int)) == s@.subrange(0, p as int)
                + remove_nl(s@.subrange(p as int, stop as int)),
        decreases stop - i,
    {
        let ghost u = s@.subrange(i as int, stop as int);
        let ghost r0 = r@;
        if s[i] != '\n' {
            r.push(s[i]);
        }
        proof {
            assert(u[0] == s@[i as int]);
            assert(u.drop_first() =~= s@.subrange(i + 1 as int, stop as int));
            if s@[i as int] != '\n' {
                assert(r@ + remove_nl(s@.subrange(i + 1 as int, stop as int)) =~= r0 + remove_nl(
                    u,
                ));
            }
        }
        i = i + 1;
    }
    proof {
        assert(remove_nl(s@.subrange(stop as int, stop as int)) =~= Seq::<char>::empty());
        assert(r@ =~= s@.subrange(0, p as int) + remove_nl(s@.subrange(p as int, stop as int)));
    }
    let mut j: usize = stop;
    while j < n
        invariant
            stop <= j <= n,
            n == s@.len(),
            r@ == s@.subrange(0, p as int) + remove_nl(s@.subrange(p as int, stop as int))
                + s@.subrange(stop as int, j as int),
        decreases n - j,
    {
        r.push(s[j]);
        proof {
            assert(s@.subrange(stop as int, j + 1 as int) =~= s@.subrange(
                stop as int,
                j as int,
            ).push(s@[j as int]));
            assert(r@ =~= s@.subrange(0, p as int) + remove_nl(
                s@.subrange(p as int, stop as int),
            ) + s@.subrange(stop as int, j + 1 as int));
        }
        j = j + 1;
    }
    proof {
        assert(r@ =~= s@.take(p as int) + remove_nl(s@.subrange(p as int, w as int + 6)) + s@.skip(
            w as int + 6,
        ));
    }
    r
}

/// A blank line inserted after every non-empty line that directly precedes
/// a signature-boundary line, so a boundary always opens its own fragment.
pub open spec fn outlook_fix(lines: Seq<Seq<char>>) -> Seq<Seq<char>>
    decreases lines.len(),
{
    if lines.len() == 0 {
        lines
    } else {
        let ins: Seq<Seq<char>> = if lines[0].len() > 0 && lines.len() > 1 && is_boundary(
            lines[1],
        ) {
            seq![lines[0], Seq::<char>::empty()]
        } else {
            seq![lines[0]]
        };
        ins + outlook_fix(lines.drop_first())
    }
}

pub fn outlook_fix_chars(lines: Vec<Vec<char>>) -> (r: Vec<Vec<char>>)
    ensures
        views_of(r@) == outlook_fix(views_of(lines@)),
{
    let ghost lv = views_of(lines@);
    let mut rest = lines;
    let n = rest.len();
    let mut r: Vec<Vec<char>> = Vec::new();
    let mut i: usize = 0;
    proof {
        assert(lv.skip(0) =~~= lv);
        assert(views_of(r@) =~~= Seq::<Seq<char>>::empty());
    }
    while rest.len() > 0
        invariant
            0 <= i <= n,
            n == lv.len(),
            rest@.len() == n - i,
            views_of(rest@) == lv.skip(i as int),
            outlook_fix(lv) == views_of(r@) + outlook_fix(lv.skip(i as int)),
        decreases rest@.len(),
    {
        let ghost u = lv.skip(i as int);
        let ghost r0 = views_of(r@);
        let ghost rest0 = rest@;
        let line = rest.remove(0);
        proof {
            assert(views_of(rest0)[0] == u[0]);
            assert(line@ == u[0]);
            assert(rest@ =~= rest0.drop_first());
            assert forall|j: int| 0 <= j < rest@.len() implies views_of(rest@)[j] == lv.skip(
                i + 1,
            )[j] by {
                assert(views_of(rest0)[j + 1] == u[j + 1]);
            }
            assert(views_of(rest@) =~~= lv.skip(i + 1));
        }
        let ins = line.len() > 0 && rest.len() > 0 && is_boundary_chars(&rest[0]);
        proof {
            if rest@.len() > 0 {
                assert(rest@[0]@ == u[1]);
            }
            assert(ins == (u[0].len() > 0 && u.len() > 1 && is_boundary(u[1])));
        }
        r.push(line);
        if ins {
            let empty_line: Vec<char> = Vec::new();
            r.push(empty_line);
            proof {
                assert(views_of(r@) =~~= r0 + seq![u[0], Seq::<char>::empty()]);
            }
        } else {
            proof {
                assert(views_of(r@) =~~= r0 + seq![u[0]]);
            }
        }
        proof {
            assert(u.drop_first() =~~= lv.skip(i + 1));
            assert(views_of(r@) + outlook_fix(lv.skip(i + 1)) =~~= r0 + outlook_fix(u));
        }
        i = i + 1;
    }
    proof {
        assert(lv.skip(n as int) =~~= Seq::<Seq<char>>::empty());
        assert(outlook_fix(lv) =~~= views_of(r@));
    }
    r
}

} // verus!
