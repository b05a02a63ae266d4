//! The executable parser: [`EmailMessage`] runs the bottom-up fragment
//! scan over a normalized text, and [`EmailReplyParser`] wraps it into the
//! two entry points `read` and `parse_reply`.

use vstd::prelude::*;
use crate::chars::{
    is_blank_chars, trim_chars, trim_end_chars, join_lines, join_lines_chars,
    split_lines_chars, str_to_chars, chars_to_string, copy_range, views_of,
};
use crate::classify::{
    is_quote_header_chars, is_quoted_chars, is_header_chars, is_sig_line_chars, ends_with_exec,
};
use crate::preprocess::{normalize, normalize_chars, collapse_quote_header,
    collapse_quote_header_chars, outlook_fix, outlook_fix_chars};
use crate::model::{
    OpenFrag, DoneFrag, ScanState, MessageModel, content_of, initial_state, finish_state,
    set_signature, closes_signature, new_open, scan_line_state, scan_lines_state, read_model,
    reply_contents, reply_model, mark_all_hidden,
};

verus! {

/// A contiguous run of lines sharing a classification, with its derived
/// flags and, once finished, its joined and trimmed content.
pub struct Fragment {
    pub signature: bool,
    pub headers: bool,
    pub hidden: bool,
    pub quoted: bool,
    pub content: Option<String>,
    pub lines: Vec<String>,
    /// The fragment's lines as the scanner saw them: in reverse order while
    /// the fragment is open, restored to original order when it finishes.
    pub source_lines: Ghost<Seq<Seq<char>>>,
}

impl Fragment {
    /// The fragment as a finished model fragment.
    pub open spec fn done_model(self) -> DoneFrag {
        DoneFrag {
            quoted: self.quoted,
            headers: self.headers,
            signature: self.signature,
            hidden: self.hidden,
            lines: self.source_lines@,
        }
    }

    /// The fragment as a still-open model fragment.
    pub open spec fn open_model(self) -> OpenFrag {
        OpenFrag {
            quoted: self.quoted,
            headers: self.headers,
            signature: self.signature,
            lines_rev: self.source_lines@,
        }
    }

    /// Well-formed while open: the line buffer is non-empty, matches the
    /// recorded lines, and no content has been computed yet.
    pub open spec fn wf_open(self) -> bool {
        self.content is None && !self.hidden && self.lines@.len() > 0 && self.source_lines@.len()
            == self.lines@.len() && forall|i: int|
            0 <= i < self.lines@.len() ==> #[trigger] self.lines@[i]@ == self.source_lines@[i]
    }

    /// Well-formed once finished: the buffer is cleared and the content is
    /// the joined, trimmed content of the recorded lines.
    pub open spec fn wf_done(self) -> bool {
        self.lines@.len() == 0 && self.content is Some && self.content_view() == content_of(
            self.source_lines@,
        )
    }

    /// The stored content, or the empty sequence when none was computed.
    pub open spec fn content_view(self) -> Seq<char> {
        match self.content {
            Option::Some(c) => c@,
            Option::None => Seq::empty(),
        }
    }

    fn new(quoted: bool, first_line: &Vec<char>, headers: bool) -> (f: Fragment)
        ensures
            f.wf_open(),
            f.open_model() == new_open(quoted, first_line@, headers),
    {
        let s = chars_to_string(first_line);
        let mut lines: Vec<String> = Vec::new();
        lines.push(s);
        let ghost initial_lines: Seq<Seq<char>> = seq![first_line@];
        let f = Fragment {
            signature: false,
            headers,
            hidden: false,
            quoted,
            content: Option::None,
            lines,
            source_lines: Ghost(initial_lines),
        };
        proof {
            assert(f.open_model().lines_rev =~= new_open(quoted, first_line@, headers).lines_rev);
        }
        f
    }

    /// Restore original line order, join and trim the lines, remove one
    /// trailing "wrote:", and clear the buffer.
    fn finish(&mut self)
        requires
            old(self).wf_open(),
        ensures
            final(self).wf_done(),
            final(self).quoted == old(self).quoted,
            final(self).headers == old(self).headers,
            final(self).signature == old(self).signature,
            final(self).hidden == old(self).hidden,
            final(self).source_lines@ == old(self).source_lines@.reverse(),
    {
        let n = self.lines.len();
        let mut chars_lines: Vec<Vec<char>> = Vec::new();
        let mut i: usize = n;
        while i > 0
            invariant
                0 <= i <= n,
                self == old(self),
                n == self.lines@.len(),
                n == self.source_lines@.len(),
                forall|j: int|
                    0 <= j < n ==> #[trigger] self.lines@[j]@ == self.source_lines@[j],
                chars_lines@.len() == n - i,
                forall|j: int|
                    0 <= j < n - i ==> #[trigger] chars_lines@[j]@ == self.source_lines@[n - 1
                        - j],
            decreases i,
        {
            i = i - 1;
            let cl = str_to_chars(self.lines[i].as_str());
            chars_lines.push(cl);
        }
        proof {
            assert(views_of(chars_lines@) =~~= old(self).source_lines@.reverse());
        }
        let joined = join_lines_chars(&chars_lines);
        let trimmed = trim_chars(&joined);
        proof {
            reveal_strlit("wrote:");
        }
        let content_chars: Vec<char> = if ends_with_exec(&trimmed, "wrote:") {
            let kept = copy_range(&trimmed, 0, trimmed.len() - 6);
            proof {
                assert(kept@ =~= trimmed@.take(trimmed@.len() - 6));
            }
            trim_end_chars(&kept)
        } else {
            trimmed
        };
        self.content = Option::Some(chars_to_string(&content_chars));
        self.lines = Vec::new();
        let ghost reversed = old(self).source_lines@.reverse();
        self.source_lines = Ghost(reversed);
    }

    /// The finished content; the empty string when none was computed.
    pub fn content(&self) -> (r: &str)
        ensures
            r@ == self.content_view(),
    {
        match &self.content {
            Option::Some(c) => c.as_str(),
            Option::None => {
                let r = "";
                proof {
                    reveal_strlit("");
                    assert(r@ =~= Seq::<char>::empty());
                }
                r
            },
        }
    }
}

/// One parsed email: the normalized and preprocessed text, the finished
/// fragments in original top-to-bottom order, the transient open fragment
/// used during the scan, and the found-visible flag.
pub struct EmailMessage {
    pub fragments: Vec<Fragment>,
    pub fragment: Option<Fragment>,
    pub text: String,
    pub found_visible: bool,
}

impl EmailMessage {
    /// The scanner state this message embodies.
    pub open spec fn scan_model(self) -> ScanState {
        ScanState {
            frags: Seq::new(self.fragments@.len(), |i: int| self.fragments@[i].done_model()),
            open: match self.fragment {
                Option::Some(f) => Option::Some(f.open_model()),
                Option::None => Option::None,
            },
            found_visible: self.found_visible,
        }
    }

    /// Every finished fragment is well-formed, as is the open one.
    pub open spec fn scan_wf(self) -> bool {
        (forall|i: int|
            0 <= i < self.fragments@.len() ==> #[trigger] self.fragments@[i].wf_done()) && match self.fragment {
            Option::Some(f) => f.wf_open(),
            Option::None => true,
        }
    }

    /// The finished message agrees with the model `mm`.
    pub open spec fn matches_model(self, mm: MessageModel) -> bool {
        self.text@ == mm.text && self.fragment is None && self.found_visible == mm.found_visible
            && self.fragments@.len() == mm.frags.len() && (forall|i: int|
            0 <= i < mm.frags.len() ==> #[trigger] self.fragments@[i].done_model() == mm.frags[i])
            && (forall|i: int| 0 <= i < mm.frags.len() ==> #[trigger] self.fragments@[i].wf_done())
    }

    /// A fresh message over the text with its line endings normalized.
    pub fn new(text: &str) -> (m: Self)
        ensures
            m.text@ == normalize(text@),
            m.fragments@.len() == 0,
            m.fragment is None,
            !m.found_visible,
    {
        let v = str_to_chars(text);
        let nv = normalize_chars(&v);
        EmailMessage {
            fragments: Vec::new(),
            fragment: Option::None,
            text: chars_to_string(&nv),
            found_visible: false,
        }
    }

    /// Close the open fragment, if any: compute its content, cascade a
    /// header fragment over everything already finished, settle its hidden
    /// flag, and append it to the finished fragments.
    fn finish_fragment(&mut self)
        requires
            old(self).scan_wf(),
        ensures
            final(self).scan_wf(),
            final(self).scan_model() == finish_state(old(self).scan_model()),
            final(self).text == old(self).text,
            final(self).fragment is None,
    {
        let ghost st0 = old(self).scan_model();
        let fopt = self.fragment.take();
        match fopt {
            Option::None => {
                proof {
                    assert(self.scan_model().frags =~= st0.frags);
                }
            },
            Option::Some(mut f) => {
                let ghost o = f.open_model();
                f.finish();
                if f.headers {
                    self.found_visible = false;
                    let ghost frags0 = self.fragments@;
                    let n = self.fragments.len();
                    let mut i: usize = 0;
                    while i < n
                        invariant
                            0 <= i <= n,
                            n == frags0.len(),
                            self.fragments@.len() == n,
                            self.fragment is None,
                            !self.found_visible,
                            self.text == old(self).text,
                            forall|j: int|
                                0 <= j < n ==> #[trigger] self.fragments@[j] == if j < i {
                                    (Fragment { hidden: true, ..frags0[j] })
                                } else {
                                    frags0[j]
                                },
                        decreases n - i,
                    {
                        self.fragments[i].hidden = true;
                        i = i + 1;
                    }
                }
                let content_empty = match &f.content {
                    Option::Some(c) => c.as_str().is_empty(),
                    Option::None => true,
                };
                if !self.found_visible {
                    if f.quoted || f.headers || f.signature || content_empty {
                        f.hidden = true;
                    } else {
                        self.found_visible = true;
                    }
                }
                let ghost fin = f;
                self.fragments.push(f);
                proof {
                    let target = finish_state(st0);
                    assert(st0.open == Option::Some(o));
                    assert(o.lines_rev.reverse() == fin.source_lines@);
                    assert(fin.done_model().lines == o.lines_rev.reverse());
                    assert(fin.content_view() == content_of(o.lines_rev.reverse()));
                    let newfrags = self.scan_model().frags;
                    assert(newfrags.len() == target.frags.len());
                    assert forall|j: int| 0 <= j < newfrags.len() implies newfrags[j]
                        == target.frags[j] by {
                        assert(newfrags[j] == self.fragments@[j].done_model());
                        if j < newfrags.len() - 1 {
                            assert(st0.frags[j] == old(self).fragments@[j].done_model());
                            if o.headers {
                                assert(self.fragments@[j] == (Fragment {
                                    hidden: true,
                                    ..old(self).fragments@[j]
                                }));
                                assert(mark_all_hidden(st0.frags)[j] == (DoneFrag {
                                    hidden: true,
                                    ..st0.frags[j]
                                }));
                            } else {
                                assert(self.fragments@[j] == old(self).fragments@[j]);
                            }
                        } else {
                            assert(self.fragments@[j] == fin);
                        }
                    }
                    assert(newfrags =~= target.frags);
                    assert(self.scan_model() == target);
                    assert forall|j: int|
                        0 <= j < self.fragments@.len() implies #[trigger] self.fragments@[j].wf_done() by {
                        if j < self.fragments@.len() - 1 {
                            assert(old(self).fragments@[j].wf_done());
                            if o.headers {
                                assert(self.fragments@[j] == (Fragment {
                                    hidden: true,
                                    ..old(self).fragments@[j]
                                }));
                            }
                        } else {
                            assert(self.fragments@[j] == fin);
                        }
                    }
                }
            },
        }
    }

    /// Classify one line (visited bottom-up) and either close a signature
    /// block, merge the line into the open fragment, or open a new one.
    fn scan_line(&mut self, line: &Vec<char>)
        requires
            old(self).scan_wf(),
        ensures
            final(self).scan_wf(),
            final(self).scan_model() == scan_line_state(old(self).scan_model(), line@),
            final(self).text == old(self).text,
    {
        let ghost st0 = old(self).scan_model();
        let blank = is_blank_chars(line);
        let mut close_sig = false;
        match &self.fragment {
            Option::Some(f) => {
                if blank {
                    let k = f.lines.len();
                    if k > 0 {
                        let last_chars = str_to_chars(f.lines[k - 1].as_str());
                        let t = trim_chars(&last_chars);
                        close_sig = is_sig_line_chars(&t);
                    }
                }
            },
            Option::None => {},
        }
        proof {
            assert(close_sig == closes_signature(st0, line@));
        }
        if close_sig {
            let mut f = self.fragment.take().unwrap();
            f.signature = true;
            self.fragment = Option::Some(f);
            proof {
                assert(self.scan_model().frags =~= set_signature(st0).frags);
                assert(self.scan_model() == set_signature(st0));
            }
            self.finish_fragment();
        }
        let ghost st1 = if closes_signature(st0, line@) {
            finish_state(set_signature(st0))
        } else {
            st0
        };
        proof {
            assert(self.scan_model() == st1);
        }
        let q = is_quoted_chars(line);
        let h = is_header_chars(line);
        let qh = is_quote_header_chars(line);
        let merge = match &self.fragment {
            Option::Some(f) => (f.headers == h && f.quoted == q) || (f.quoted && (qh || blank)),
            Option::None => false,
        };
        if self.fragment.is_some() && merge {
            let mut f = self.fragment.take().unwrap();
            let ghost o = f.open_model();
            f.lines.push(chars_to_string(line));
            let ghost pushed = f.source_lines@.push(line@);
            f.source_lines = Ghost(pushed);
            self.fragment = Option::Some(f);
            proof {
                assert(self.scan_model().frags =~= st1.frags);
                assert(self.scan_model() == scan_line_state(st0, line@));
            }
        } else {
            if self.fragment.is_some() {
                self.finish_fragment();
            }
            self.fragment = Option::Some(Fragment::new(q, line, h));
            proof {
                assert(self.scan_model().frags =~= scan_line_state(st0, line@).frags);
                assert(self.scan_model() == scan_line_state(st0, line@));
            }
        }
    }

    /// Run the whole pipeline: collapse the first multi-line quote header,
    /// repair unseparated boundary lines, scan the lines bottom-up, close
    /// the last fragment, and restore original fragment order.
    pub fn read(self) -> (m: Self)
        requires
            self.fragments@.len() == 0,
            self.fragment is None,
            !self.found_visible,
        ensures
            m.matches_model(read_model(self.text@)),
    {
        let ghost t = self.text@;
        let mut m = self;
        let v = str_to_chars(m.text.as_str());
        let collapsed = collapse_quote_header_chars(&v);
        let pieces = split_lines_chars(&collapsed);
        let mut lines = outlook_fix_chars(pieces);
        let ghost ls = views_of(lines@);
        let joined = join_lines_chars(&lines);
        m.text = chars_to_string(&joined);
        proof {
            assert(ls == outlook_fix(crate::chars::split_lines(collapse_quote_header(t))));
            assert(ls.skip(ls.len() as int) =~~= Seq::<Seq<char>>::empty());
            assert(ls.take(ls.len() as int) =~~= ls);
            assert(m.scan_model().frags =~= initial_state().frags);
            assert(m.scan_model() == initial_state());
        }
        while lines.len() > 0
            invariant
                lines@.len() <= ls.len(),
                views_of(lines@) == ls.take(lines@.len() as int),
                m.scan_wf(),
                m.scan_model() == scan_lines_state(initial_state(), ls.skip(lines@.len() as int)),
                m.text@ == join_lines(ls),
            decreases lines@.len(),
        {
            let ghost k = lines@.len() as int;
            let line = lines.pop().unwrap();
            proof {
                assert(views_of(lines@) =~~= ls.take(k - 1));
                assert(line@ == ls.take(k)[k - 1]);
                assert(line@ == ls[k - 1]);
            }
            m.scan_line(&line);
            proof {
                assert(seq![ls[k - 1]] + ls.skip(k) =~~= ls.skip(k - 1));
                crate::model::lemma_scan_lines_cons(initial_state(), ls[k - 1], ls.skip(k));
            }
        }
        proof {
            assert(ls.skip(0) =~~= ls);
        }
        m.finish_fragment();
        let ghost st = finish_state(scan_lines_state(initial_state(), ls));
        proof {
            assert(m.scan_model() == st);
        }
        let ghost done = m.fragments@;
        let ghost fv = m.found_visible;
        let total = m.fragments.len();
        proof {
            assert(done.take(total as int) =~= done);
            assert forall|j: int| 0 <= j < total implies #[trigger] done[j].done_model()
                == st.frags[j] && done[j].wf_done() by {
                assert(st.frags[j] == m.fragments@[j].done_model());
            }
        }
        let mut rev: Vec<Fragment> = Vec::new();
        while m.fragments.len() > 0
            invariant
                rev@.len() + m.fragments@.len() == total,
                m.fragments@ == done.take(m.fragments@.len() as int),
                total == done.len(),
                m.fragment is None,
                m.found_visible == fv,
                m.text@ == join_lines(ls),
                forall|j: int| 0 <= j < rev@.len() ==> #[trigger] rev@[j] == done[total - 1 - j],
            decreases m.fragments@.len(),
        {
            let f = m.fragments.pop().unwrap();
            proof {
                let k = m.fragments@.len() as int;
                assert(f == done.take(k + 1)[k]);
                assert(m.fragments@ =~= done.take(k));
            }
            rev.push(f);
        }
        m.fragments = rev;
        proof {
            let mm = read_model(t);
            assert(st.frags == mm.frags.reverse());
            assert(mm.frags.len() == total);
            assert(fv == st.found_visible);
            assert forall|i: int|
                0 <= i < mm.frags.len() implies #[trigger] m.fragments@[i].done_model()
                == mm.frags[i] && m.fragments@[i].wf_done() by {
                assert(m.fragments@[i] == done[total - 1 - i]);
                assert(done[total - 1 - i].done_model() == st.frags[total - 1 - i]);
                assert(mm.frags[i] == st.frags.reverse()[i]);
            }
        }
        m
    }

    /// The joined contents of the fragments that are neither hidden nor
    /// quoted, separated by newlines.
    pub fn reply(&self) -> (r: String)
        ensures
            r@ == join_lines(visible_contents(self.fragments@)),
    {
        let n = self.fragments.len();
        let ghost fr = self.fragments@;
        let mut contents: Vec<Vec<char>> = Vec::new();
        let mut i: usize = 0;
        proof {
            assert(fr.skip(0) =~= fr);
            assert(views_of(contents@) =~~= Seq::<Seq<char>>::empty());
        }
        while i < n
            invariant
                0 <= i <= n,
                n == fr.len(),
                fr == self.fragments@,
                visible_contents(fr) == views_of(contents@) + visible_contents(
                    fr.skip(i as int),
                ),
            decreases n - i,
        {
            let ghost c0 = views_of(contents@);
            let ghost u = fr.skip(i as int);
            let f = &self.fragments[i];
            proof {
                assert(u[0] == fr[i as int]);
                assert(u.drop_first() =~= fr.skip(i + 1));
            }
            if !(f.hidden || f.quoted) {
                let c = match &f.content {
                    Option::Some(s) => str_to_chars(s.as_str()),
                    Option::None => Vec::new(),
                };
                proof {
                    assert(c@ == f.content_view());
                }
                contents.push(c);
                proof {
                    assert(views_of(contents@) =~~= c0 + seq![fr[i as int].content_view()]);
                    assert(views_of(contents@) + visible_contents(fr.skip(i + 1)) =~~= c0
                        + visible_contents(u));
                }
            } else {
                proof {
                    assert(views_of(contents@) + visible_contents(fr.skip(i + 1)) =~~= c0
                        + visible_contents(u));
                }
            }
            i = i + 1;
        }
        proof {
            assert(fr.skip(n as int) =~= Seq::<Fragment>::empty());
            assert(visible_contents(fr) =~~= views_of(contents@));
        }
        let joined = join_lines_chars(&contents);
        chars_to_string(&joined)
    }
}

/// The stored contents of the fragments that are neither hidden nor
/// quoted, in order.
pub open spec fn visible_contents(frags: Seq<Fragment>) -> Seq<Seq<char>>
    decreases frags.len(),
{
    if frags.len() == 0 {
        Seq::empty()
    } else {
        let rest = visible_contents(frags.drop_first());
        if !frags[0].hidden && !frags[0].quoted {
            seq![frags[0].content_view()] + rest
        } else {
            rest
        }
    }
}

/// For fragments agreeing with model fragments, the stored contents of the
/// visible ones are the model's reply contents.
pub proof fn lemma_visible_contents_model(frags: Seq<Fragment>, dfs: Seq<DoneFrag>)
    requires
        frags.len() == dfs.len(),
        forall|i: int|
            0 <= i < frags.len() ==> #[trigger] frags[i].wf_done() && frags[i].done_model()
                == dfs[i],
    ensures
        visible_contents(frags) == reply_contents(dfs),
    decreases frags.len(),
{
    if frags.len() > 0 {
        assert(frags[0].wf_done() && frags[0].done_model() == dfs[0]);
        assert forall|i: int|
            0 <= i < frags.drop_first().len() implies #[trigger] frags.drop_first()[i].wf_done()
            && frags.drop_first()[i].done_model() == dfs.drop_first()[i] by {
            assert(frags[i + 1].wf_done() && frags[i + 1].done_model() == dfs[i + 1]);
        }
        lemma_visible_contents_model(frags.drop_first(), dfs.drop_first());
    }
}

/// The two entry points of the library.
pub struct EmailReplyParser;

impl EmailReplyParser {
    /// Parse a raw text into a message whose fragments and flags are those
    /// of the model pipeline.
    pub fn read(text: &str) -> (m: EmailMessage)
        ensures
            m.matches_model(read_model(normalize(text@))),
    {
        EmailMessage::new(text).read()
    }

    /// The visible reply of a raw text: the contents of the fragments that
    /// are neither hidden nor quoted, joined by newlines.
    pub fn parse_reply(text: &str) -> (r: String)
        ensures
            r@ == reply_model(text@),
    {
        let m = EmailReplyParser::read(text);
        let r = m.reply();
        proof {
            let mm = read_model(normalize(text@));
            lemma_visible_contents_model(m.fragments@, mm.frags);
        }
        r
    }
}

} // verus!
