//! The mathematical model of the parse: a bottom-up scan over the
//! preprocessed lines, grouping them into fragments and settling each
//! fragment's visibility, together with the laws the scan obeys.

use vstd::prelude::*;
use crate::chars::{is_blank, trim, trim_end, join_lines, split_lines};
use crate::classify::{is_quote_header, is_quoted, is_header, is_sig_line, ends_with};
use crate::preprocess::{normalize, collapse_quote_header, outlook_fix};

verus! {

/// A fragment still being accumulated: its lines are held in the reverse
/// of original order, most recently visited line last.
pub ghost struct OpenFrag {
    pub quoted: bool,
    pub headers: bool,
    pub signature: bool,
    pub lines_rev: Seq<Seq<char>>,
}

/// A finished fragment: its lines in original order, with the flags
/// settled at the time it was closed.
pub ghost struct DoneFrag {
    pub quoted: bool,
    pub headers: bool,
    pub signature: bool,
    pub hidden: bool,
    pub lines: Seq<Seq<char>>,
}

/// The scanner state: fragments finished so far (in finish order, the
/// bottom of the message first), the open fragment, and whether a visible
/// fragment has been found.
pub ghost struct ScanState {
    pub frags: Seq<DoneFrag>,
    pub open: Option<OpenFrag>,
    pub found_visible: bool,
}

/// The finished content of a fragment: its lines joined by newlines and
/// trimmed; one trailing "wrote:" is removed together with any whitespace
/// left before it.
pub open spec fn content_of(lines: Seq<Seq<char>>) -> Seq<char> {
    let t = trim(join_lines(lines));
    if ends_with(t, "wrote:"@) {
        trim_end(t.take(t.len() - 6))
    } else {
        t
    }
}

pub open spec fn mark_all_hidden(frags: Seq<DoneFrag>) -> Seq<DoneFrag> {
    frags.map_values(|f: DoneFrag| DoneFrag { hidden: true, ..f })
}

pub open spec fn initial_state() -> ScanState {
    ScanState { frags: Seq::empty(), open: Option::None, found_visible: false }
}

/// Closing the open fragment: restore original line order, compute the
/// content, let a header fragment retroactively hide everything already
/// finished, and settle the hidden flag.
pub open spec fn finish_state(st: ScanState) -> ScanState {
    match st.open {
        Option::None => st,
        Option::Some(o) => {
            let lines = o.lines_rev.reverse();
            let content = content_of(lines);
            let fv0 = if o.headers {
                false
            } else {
                st.found_visible
            };
            let base = if o.headers {
                mark_all_hidden(st.frags)
            } else {
                st.frags
            };
            let hid = !fv0 && (o.quoted || o.headers || o.signature || content.len() == 0);
            ScanState {
                frags: base.push(
                    DoneFrag {
                        quoted: o.quoted,
                        headers: o.headers,
                        signature: o.signature,
                        hidden: hid,
                        lines,
                    },
                ),
                open: Option::None,
                found_visible: fv0 || !hid,
            }
        },
    }
}

/// The open fragment closes as a signature block when the line under scan
/// is blank and the most recently added line, trimmed, is a signature line.
pub open spec fn closes_signature(st: ScanState, line: Seq<char>) -> bool {
    match st.open {
        Option::Some(o) => is_blank(line) && o.lines_rev.len() > 0 && is_sig_line(
            trim(o.lines_rev.last()),
        ),
        Option::None => false,
    }
}

pub open spec fn set_signature(st: ScanState) -> ScanState {
    match st.open {
        Option::Some(o) => ScanState {
            open: Option::Some(OpenFrag { signature: true, ..o }),
            ..st
        },
        Option::None => st,
    }
}

pub open spec fn new_open(quoted: bool, line: Seq<char>, headers: bool) -> OpenFrag {
    OpenFrag { quoted, headers, signature: false, lines_rev: seq![line] }
}

/// One step of the bottom-up scan: possibly close a signature block, then
/// merge the line into the open fragment or open a new one. A quoted
/// fragment also absorbs blank lines and quote-header lines.
pub open spec fn scan_line_state(st: ScanState, line: Seq<char>) -> ScanState {
    let st1 = if closes_signature(st, line) {
        finish_state(set_signature(st))
    } else {
        st
    };
    let qh = is_quote_header(line);
    let q = is_quoted(line);
    let h = is_header(line);
    match st1.open {
        Option::Some(o) => {
            if (o.headers == h && o.quoted == q) || (o.quoted && (qh || is_blank(line))) {
                ScanState {
                    open: Option::Some(OpenFrag { lines_rev: o.lines_rev.push(line), ..o }),
                    ..st1
                }
            } else {
                let st2 = finish_state(st1);
                ScanState { open: Option::Some(new_open(q, line, h)), ..st2 }
            }
        },
        Option::None => ScanState { open: Option::Some(new_open(q, line, h)), ..st1 },
    }
}

/// The scan over a block of lines, visiting the last line first.
pub open spec fn scan_lines_state(st: ScanState, lines: Seq<Seq<char>>) -> ScanState
    decreases lines.len(),
{
    if lines.len() == 0 {
        st
    } else {
        scan_lines_state(scan_line_state(st, lines.last()), lines.drop_last())
    }
}

/// Scanning one more line above an already scanned block.
pub proof fn lemma_scan_lines_cons(st: ScanState, l: Seq<char>, lines: Seq<Seq<char>>)
    ensures
        scan_lines_state(st, seq![l] + lines) == scan_line_state(scan_lines_state(st, lines), l),
    decreases lines.len(),
{
    let c = seq![l] + lines;
    assert(c.len() == 1 + lines.len());
    assert(scan_lines_state(st, c) == scan_lines_state(scan_line_state(st, c.last()), c.drop_last()));
    if lines.len() == 0 {
        assert(c.last() == l);
        assert(c.drop_last() =~~= Seq::<Seq<char>>::empty());
        assert(scan_lines_state(scan_line_state(st, l), c.drop_last()) == scan_line_state(st, l));
        assert(scan_lines_state(st, lines) == st);
    } else {
        assert(c.last() == lines.last());
        assert(c.drop_last() =~~= seq![l] + lines.drop_last());
        lemma_scan_lines_cons(scan_line_state(st, lines.last()), l, lines.drop_last());
        assert(scan_lines_state(st, c) == scan_lines_state(
            scan_line_state(st, lines.last()),
            seq![l] + lines.drop_last(),
        ));
        assert(scan_lines_state(st, lines) == scan_lines_state(
            scan_line_state(st, lines.last()),
            lines.drop_last(),
        ));
    }
}

/// The finished parse of a normalized text.
pub ghost struct MessageModel {
    pub text: Seq<char>,
    pub frags: Seq<DoneFrag>,
    pub found_visible: bool,
}

/// The whole pipeline on an already-normalized text: collapse the first
/// multi-line quote header, split into lines, insert blank lines before
/// unseparated boundary lines, scan bottom-up, close the last fragment,
/// and restore original fragment order.
pub open spec fn read_model(t: Seq<char>) -> MessageModel {
    let ls = outlook_fix(split_lines(collapse_quote_header(t)));
    let st = finish_state(scan_lines_state(initial_state(), ls));
    MessageModel {
        text: join_lines(ls),
        frags: st.frags.reverse(),
        found_visible: st.found_visible,
    }
}

/// A fragment contributes to the reply when neither hidden nor quoted.
pub open spec fn frag_visible(f: DoneFrag) -> bool {
    !f.hidden && !f.quoted
}

/// The contents of the reply fragments, in order.
pub open spec fn reply_contents(frags: Seq<DoneFrag>) -> Seq<Seq<char>>
    decreases frags.len(),
{
    if frags.len() == 0 {
        Seq::empty()
    } else {
        let rest = reply_contents(frags.drop_first());
        if frag_visible(frags[0]) {
            seq![content_of(frags[0].lines)] + rest
        } else {
            rest
        }
    }
}

/// What parsing a raw text yields as the reply.
pub open spec fn reply_model(raw: Seq<char>) -> Seq<char> {
    join_lines(reply_contents(read_model(normalize(raw)).frags))
}

/// The original-order lines of the finished fragments, bottom block last:
/// fragments were finished bottom-up, so the concatenation walks them in
/// reverse.
pub open spec fn closed_lines(frags: Seq<DoneFrag>) -> Seq<Seq<char>>
    decreases frags.len(),
{
    if frags.len() == 0 {
        Seq::empty()
    } else {
        frags.last().lines + closed_lines(frags.drop_last())
    }
}

pub open spec fn open_lines(open: Option<OpenFrag>) -> Seq<Seq<char>> {
    match open {
        Option::Some(o) => o.lines_rev.reverse(),
        Option::None => Seq::empty(),
    }
}

/// Every line the scanner has visited, in original order.
pub open spec fn state_lines(st: ScanState) -> Seq<Seq<char>> {
    open_lines(st.open) + closed_lines(st.frags)
}

/// The fragments' lines in final top-to-bottom order.
pub open spec fn frags_lines(frags: Seq<DoneFrag>) -> Seq<Seq<char>>
    decreases frags.len(),
{
    if frags.len() == 0 {
        Seq::empty()
    } else {
        frags[0].lines + frags_lines(frags.drop_first())
    }
}

proof fn lemma_closed_lines_reverse(frags: Seq<DoneFrag>)
    ensures
        closed_lines(frags) == frags_lines(frags.reverse()),
    decreases frags.len(),
{
    if frags.len() > 0 {
        lemma_closed_lines_reverse(frags.drop_last());
        assert(frags.reverse()[0] == frags.last());
        assert(frags.reverse().drop_first() =~= frags.drop_last().reverse());
    }
}

proof fn lemma_mark_all_hidden_closed_lines(frags: Seq<DoneFrag>)
    ensures
        closed_lines(mark_all_hidden(frags)) == closed_lines(frags),
    decreases frags.len(),
{
    if frags.len() > 0 {
        lemma_mark_all_hidden_closed_lines(frags.drop_last());
        assert(mark_all_hidden(frags).drop_last() =~= mark_all_hidden(frags.drop_last()));
        assert(mark_all_hidden(frags).last().lines == frags.last().lines);
    }
}

proof fn lemma_finish_state_lines(st: ScanState)
    ensures
        state_lines(finish_state(st)) == state_lines(st),
        finish_state(st).open is None,
{
    match st.open {
        Option::None => {},
        Option::Some(o) => {
            let base = if o.headers {
                mark_all_hidden(st.frags)
            } else {
                st.frags
            };
            if o.headers {
                lemma_mark_all_hidden_closed_lines(st.frags);
            }
            let done_lines = o.lines_rev.reverse();
            let pushed = finish_state(st).frags;
            assert(pushed.last().lines == done_lines);
            assert(pushed.drop_last() =~= base);
            assert(state_lines(finish_state(st)) =~= state_lines(st));
        },
    }
}

proof fn lemma_scan_line_lines(st: ScanState, line: Seq<char>)
    ensures
        state_lines(scan_line_state(st, line)) == seq![line] + state_lines(st),
{
    let st1 = if closes_signature(st, line) {
        finish_state(set_signature(st))
    } else {
        st
    };
    if closes_signature(st, line) {
        lemma_finish_state_lines(set_signature(st));
        assert(state_lines(set_signature(st)) =~= state_lines(st));
    }
    assert(state_lines(st1) == state_lines(st));
    let res = scan_line_state(st, line);
    match st1.open {
        Option::Some(o) => {
            let q = is_quoted(line);
            let h = is_header(line);
            if (o.headers == h && o.quoted == q) || (o.quoted && (is_quote_header(line)
                || is_blank(line))) {
                assert(o.lines_rev.push(line).reverse() =~= seq![line] + o.lines_rev.reverse());
                assert(state_lines(res) =~= seq![line] + state_lines(st1));
            } else {
                let st2 = finish_state(st1);
                lemma_finish_state_lines(st1);
                assert(new_open(q, line, h).lines_rev.reverse() =~= seq![line]);
                assert(state_lines(res) =~= seq![line] + state_lines(st2));
            }
        },
        Option::None => {
            assert(new_open(is_quoted(line), line, is_header(line)).lines_rev.reverse()
                =~= seq![line]);
            assert(state_lines(res) =~= seq![line] + state_lines(st1));
        },
    }
}

proof fn lemma_scan_lines_lines(st: ScanState, lines: Seq<Seq<char>>)
    ensures
        state_lines(scan_lines_state(st, lines)) == lines + state_lines(st),
    decreases lines.len(),
{
    if lines.len() == 0 {
        assert(lines + state_lines(st) =~= state_lines(st));
    } else {
        lemma_scan_line_lines(st, lines.last());
        lemma_scan_lines_lines(scan_line_state(st, lines.last()), lines.drop_last());
        assert(lines.drop_last() + (seq![lines.last()] + state_lines(st)) =~= lines + state_lines(
            st,
        ));
    }
}

/// Reconstruction: joining all fragments' original-order lines with
/// newlines reproduces the message's preprocessed text exactly.
pub proof fn lemma_reconstruction(t: Seq<char>)
    ensures
        join_lines(frags_lines(read_model(t).frags)) == read_model(t).text,
{
    let ls = outlook_fix(split_lines(collapse_quote_header(t)));
    let st0 = scan_lines_state(initial_state(), ls);
    let st = finish_state(st0);
    lemma_scan_lines_lines(initial_state(), ls);
    assert(state_lines(initial_state()) =~= Seq::<Seq<char>>::empty());
    lemma_finish_state_lines(st0);
    assert(state_lines(st) == ls + Seq::<Seq<char>>::empty());
    assert(ls + Seq::<Seq<char>>::empty() =~= ls);
    assert(state_lines(st) =~= closed_lines(st.frags));
    lemma_closed_lines_reverse(st.frags);
}

/// The header-cascade invariant over states: every fragment finished
/// before a header fragment is hidden.
spec fn cascade_inv(frags: Seq<DoneFrag>) -> bool {
    forall|p: int, q: int|
        0 <= q < p < frags.len() && frags[p].headers ==> frags[q].hidden
}

proof fn lemma_finish_cascade(st: ScanState)
    requires
        cascade_inv(st.frags),
    ensures
        cascade_inv(finish_state(st).frags),
{
    match st.open {
        Option::None => {},
        Option::Some(o) => {
            let res = finish_state(st).frags;
            assert forall|p: int, q: int|
                0 <= q < p < res.len() && res[p].headers implies res[q].hidden by {
                if o.headers {
                    if q < res.len() - 1 {
                        assert(res[q] == mark_all_hidden(st.frags)[q]);
                    }
                } else {
                    if p < res.len() - 1 {
                        assert(res[p] == st.frags[p] && res[q] == st.frags[q]);
                    } else {
                        assert(!res[p].headers);
                    }
                }
            }
        },
    }
}

proof fn lemma_scan_line_cascade(st: ScanState, line: Seq<char>)
    requires
        cascade_inv(st.frags),
    ensures
        cascade_inv(scan_line_state(st, line).frags),
{
    let st1 = if closes_signature(st, line) {
        finish_state(set_signature(st))
    } else {
        st
    };
    if closes_signature(st, line) {
        lemma_finish_cascade(set_signature(st));
    }
    match st1.open {
        Option::Some(o) => {
            let q = is_quoted(line);
            let h = is_header(line);
            if (o.headers == h && o.quoted == q) || (o.quoted && (is_quote_header(line)
                || is_blank(line))) {
            } else {
                lemma_finish_cascade(st1);
            }
        },
        Option::None => {},
    }
}

proof fn lemma_scan_lines_cascade(st: ScanState, lines: Seq<Seq<char>>)
    requires
        cascade_inv(st.frags),
    ensures
        cascade_inv(scan_lines_state(st, lines).frags),
    decreases lines.len(),
{
    if lines.len() > 0 {
        lemma_scan_line_cascade(st, lines.last());
        lemma_scan_lines_cascade(scan_line_state(st, lines.last()), lines.drop_last());
    }
}

/// Header cascade: in the finished fragment list, every fragment below a
/// header fragment (finished before it, bottom-up) is hidden.
pub proof fn lemma_header_cascade(t: Seq<char>)
    ensures
        forall|i: int, j: int|
            0 <= i < j < read_model(t).frags.len() && read_model(t).frags[i].headers
                ==> read_model(t).frags[j].hidden,
{
    let ls = outlook_fix(split_lines(collapse_quote_header(t)));
    let st0 = scan_lines_state(initial_state(), ls);
    let st = finish_state(st0);
    lemma_scan_lines_cascade(initial_state(), ls);
    lemma_finish_cascade(st0);
    let res = read_model(t).frags;
    assert forall|i: int, j: int|
        0 <= i < j < res.len() && res[i].headers implies res[j].hidden by {
        assert(res[i] == st.frags[st.frags.len() - 1 - i]);
        assert(res[j] == st.frags[st.frags.len() - 1 - j]);
    }
}

/// Signature closing: a blank line arriving while the open fragment's most
/// recently added line, trimmed, is a signature line closes that fragment
/// as a signature; with no visible fragment found yet it is also hidden.
pub proof fn lemma_signature_close(st: ScanState, o: OpenFrag, line: Seq<char>)
    requires
        st.open == Option::Some(o),
        is_blank(line),
        o.lines_rev.len() > 0,
        is_sig_line(trim(o.lines_rev.last())),
        !st.found_visible,
    ensures
        scan_line_state(st, line).frags.len() == st.frags.len() + 1,
        scan_line_state(st, line).frags.last().signature,
        scan_line_state(st, line).frags.last().hidden,
{
    let st1 = finish_state(set_signature(st));
    assert(st1.open is None);
    assert(st1.frags.last().signature);
    assert(st1.frags.last().hidden);
    assert(scan_line_state(st, line).frags == st1.frags);
}

/// Parsing is a function of the text alone: two runs over equal texts
/// produce equal replies, so parsing twice changes nothing.
pub proof fn lemma_reply_deterministic(t1: Seq<char>, t2: Seq<char>)
    requires
        t1 == t2,
    ensures
        reply_model(t1) == reply_model(t2),
{
}

} // verus!
