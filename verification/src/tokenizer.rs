//! The lazy tokenizer itself: a remaining window into the input, consumed
//! token by token from the front with `next`, from the back with
//! `next_back`, or from both ends alternately.

use vstd::prelude::*;

use crate::laws::lemma_agree_after_front;
use crate::laws::lemma_back_step;
use crate::laws::lemma_find_fwd_props;
use crate::laws::lemma_toks_len;
use crate::scan::Quote;
use crate::scan::ScanState;
use crate::scan::all_tokens;
use crate::scan::bwd_state_at;
use crate::scan::bwd_step;
use crate::scan::delims_agree;
use crate::scan::esc_left;
use crate::scan::find_delim;
use crate::scan::find_delim_back;
use crate::scan::fwd_state_at;
use crate::scan::fwd_step;
use crate::scan::is_fwd_delim;
use crate::scan::toks;
use crate::scan::toks_back;
use vstd::string::StrSliceExecFns;

verus! {

/// One forward transition of the scanner, as executable code.
fn step_fwd(st: ScanState, c: char) -> (r: ScanState)
    ensures
        r == fwd_step(st, c),
{
    match st {
        ScanState::Plain => if c == '"' {
            ScanState::Quoted(Quote::Double)
        } else if c == '\'' {
            ScanState::Quoted(Quote::Single)
        } else {
            ScanState::Plain
        },
        ScanState::Quoted(q) => if (q == Quote::Double && c == '"') || (q == Quote::Single && c
            == '\'') {
            ScanState::Plain
        } else if c == '\\' {
            ScanState::QuotedEscape(q)
        } else {
            ScanState::Quoted(q)
        },
        ScanState::QuotedEscape(q) => ScanState::Quoted(q),
    }
}

/// One backward transition of the scanner, as executable code; `esc` says
/// whether a backslash stands immediately left of `c`.
fn step_bwd(st: ScanState, c: char, esc: bool) -> (r: ScanState)
    ensures
        r == bwd_step(st, c, esc),
{
    match st {
        ScanState::Plain => if c == '"' {
            ScanState::Quoted(Quote::Double)
        } else if c == '\'' {
            ScanState::Quoted(Quote::Single)
        } else {
            ScanState::Plain
        },
        ScanState::Quoted(q) => if (q == Quote::Double && c == '"') || (q == Quote::Single && c
            == '\'') {
            if esc {
                ScanState::Quoted(q)
            } else {
                ScanState::Plain
            }
        } else {
            ScanState::Quoted(q)
        },
        ScanState::QuotedEscape(q) => ScanState::Quoted(q),
    }
}

/// A lazy, bidirectional tokenizer over a borrowed line of text. Tokens are
/// slices of the original input, split at commas that lie outside quoted
/// spans; they are yielded verbatim.
pub struct CommaSeparatedIterator<'a> {
    remaining: &'a str,
    done: bool,
}

impl<'a> CommaSeparatedIterator<'a> {
    /// The unconsumed window of the input.
    pub closed spec fn window(self) -> Seq<char> {
        self.remaining@
    }

    /// True once every token has been yielded.
    pub closed spec fn exhausted(self) -> bool {
        self.done
    }

    /// An exhausted tokenizer's window is empty.
    pub open spec fn wf(self) -> bool {
        self.exhausted() ==> self.window().len() == 0
    }

    /// The tokens still to be yielded, in left-to-right order.
    pub open spec fn remaining_tokens(self) -> Seq<Seq<char>> {
        if self.exhausted() {
            Seq::empty()
        } else {
            toks(self.window())
        }
    }

    /// The tokens still to be yielded, in the order repeated `next_back`
    /// calls produce them.
    pub open spec fn remaining_tokens_back(self) -> Seq<Seq<char>> {
        if self.exhausted() {
            Seq::empty()
        } else {
            toks_back(self.window())
        }
    }

    /// Create a tokenizer whose window is the whole input. An empty input
    /// has no tokens at all.
    pub fn new(text: &'a str) -> (r: Self)
        ensures
            r.wf(),
            r.window() == text@,
            r.exhausted() <==> text@.len() == 0,
            r.remaining_tokens() == all_tokens(text@),
            r.remaining_tokens().len() == 0 <==> r.exhausted(),
    {
        let n: usize = text.unicode_len();
        proof {
            if n != 0 {
                lemma_toks_len(text@);
            }
        }
        CommaSeparatedIterator { remaining: text, done: n == 0 }
    }

    /// Yield the next token from the front of the window, or `None` once
    /// exhausted: the slice up to the first comma found outside a quoted
    /// span, or the whole window if no such comma remains.
    pub fn next(&mut self) -> (r: Option<&'a str>)
        requires
            old(self).wf(),
        ensures
            final(self).wf(),
            r is None <==> old(self).exhausted(),
            old(self).exhausted() ==> *final(self) == *old(self),
            !old(self).exhausted() ==> {
                let w = old(self).window();
                &&& r is Some
                &&& r->0@ == toks(w)[0]
                &&& final(self).remaining_tokens() == toks(w).drop_first()
                &&& final(self).remaining_tokens().len() == toks(w).len() - 1
                &&& match find_delim(w, ScanState::Plain, 0) {
                    Option::Some(i) => r->0@ == w.subrange(0, i) && final(self).window()
                        == w.subrange(i + 1, w.len() as int) && !final(self).exhausted(),
                    Option::None => r->0@ == w && final(self).window().len() == 0 && final(self).exhausted(),
                }
            },
            final(self).remaining_tokens().len() == 0 <==> final(self).exhausted(),
            delims_agree(old(self).window()) ==> delims_agree(final(self).window()),
    {
        if self.done {
            return None;
        }
        let ghost w = self.remaining@;
        let n: usize = self.remaining.unicode_len();
        let mut st = ScanState::Plain;
        let mut i: usize = 0;
        while i < n
            invariant
                n == w.len(),
                i <= n,
                w == old(self).window(),
                !old(self).exhausted(),
                self.remaining@ == w,
                !self.done,
                st == fwd_state_at(w, i as int),
                find_delim(w, ScanState::Plain, 0) == find_delim(w, st, i as int),
            decreases n - i,
        {
            let c = self.remaining.get_char(i);
            if matches!(st, ScanState::Plain) && c == ',' {
                proof {
                    assert(find_delim(w, st, i as int) == Option::Some(i as int));
                    assert(toks(w) == seq![w.subrange(0, i as int)] + toks(
                        w.subrange(i as int + 1, w.len() as int),
                    ));
                    assert(toks(w).drop_first() =~= toks(w.subrange(i as int + 1, w.len() as int)));
                    lemma_toks_len(w.subrange(i as int + 1, w.len() as int));
                    if delims_agree(w) {
                        assert(fwd_state_at(w, 0) == ScanState::Plain);
                        lemma_find_fwd_props(w, 0);
                        assert(is_fwd_delim(w, i as int));
                        lemma_agree_after_front(w, i as int);
                    }
                }
                let rem: &'a str = self.remaining;
                let tok = rem.substring_char(0, i);
                self.remaining = rem.substring_char(i + 1, n);
                return Some(tok);
            }
            proof {
                assert(fwd_step(st, c) == fwd_state_at(w, i as int + 1));
                assert(find_delim(w, st, i as int) == find_delim(w, fwd_step(st, c), i as int + 1));
            }
            st = step_fwd(st, c);
            i = i + 1;
        }
        proof {
            assert(find_delim(w, ScanState::Plain, 0) is None);
            assert(toks(w) == seq![w]);
            assert(toks(w).drop_first() =~= Seq::<Seq<char>>::empty());
        }
        let tok: &'a str = self.remaining;
        let rem: &'a str = self.remaining;
        self.remaining = rem.substring_char(n, n);
        self.done = true;
        Some(tok)
    }

    /// Yield the next token from the back of the window, or `None` once
    /// exhausted: the slice after the last comma found outside a quoted
    /// span (scanning from the right, with escapes detected by peeking at
    /// the left neighbor), or the whole window if no such comma remains.
    /// Wherever the two scan directions agree on the token boundaries —
    /// in particular on every quote-free input — this yields exactly the
    /// last of the tokens `next` would still produce.
    pub fn next_back(&mut self) -> (r: Option<&'a str>)
        requires
            old(self).wf(),
        ensures
            final(self).wf(),
            r is None <==> old(self).exhausted(),
            old(self).exhausted() ==> *final(self) == *old(self),
            !old(self).exhausted() ==> {
                let w = old(self).window();
                &&& r is Some
                &&& r->0@ == toks_back(w)[0]
                &&& final(self).remaining_tokens_back() == toks_back(w).drop_first()
                &&& final(self).remaining_tokens_back().len() == toks_back(w).len() - 1
                &&& match find_delim_back(w, ScanState::Plain, w.len() - 1) {
                    Option::Some(i) => r->0@ == w.subrange(i + 1, w.len() as int) && final(self).window() == w.subrange(0, i) && !final(self).exhausted(),
                    Option::None => r->0@ == w && final(self).window().len() == 0 && final(self).exhausted(),
                }
            },
            final(self).remaining_tokens().len() == 0 <==> final(self).exhausted(),
            !old(self).exhausted() && delims_agree(old(self).window()) ==> {
                let w = old(self).window();
                &&& r->0@ == toks(w).last()
                &&& final(self).remaining_tokens() == toks(w).drop_last()
                &&& final(self).remaining_tokens().len() == toks(w).len() - 1
                &&& delims_agree(final(self).window())
            },
            old(self).exhausted() && delims_agree(old(self).window()) ==> delims_agree(
                final(self).window(),
            ),
    {
        if self.done {
            return None;
        }
        let ghost w = self.remaining@;
        let n: usize = self.remaining.unicode_len();
        let mut st = ScanState::Plain;
        let mut i: usize = n;
        while i > 0
            invariant
                n == w.len(),
                i <= n,
                w == old(self).window(),
                !old(self).exhausted(),
                self.remaining@ == w,
                !self.done,
                st == bwd_state_at(w, i as int - 1),
                find_delim_back(w, ScanState::Plain, n as int - 1) == find_delim_back(
                    w,
                    st,
                    i as int - 1,
                ),
            decreases i,
        {
            let j: usize = i - 1;
            let c = self.remaining.get_char(j);
            if matches!(st, ScanState::Plain) && c == ',' {
                proof {
                    assert(find_delim_back(w, st, j as int) == Option::Some(j as int));
                    assert(toks_back(w) == seq![w.subrange(j as int + 1, w.len() as int)]
                        + toks_back(w.subrange(0, j as int)));
                    assert(toks_back(w).drop_first() =~= toks_back(w.subrange(0, j as int)));
                    lemma_toks_len(w.subrange(0, j as int));
                    if delims_agree(w) {
                        lemma_back_step(w);
                        assert(toks(w) == toks(w.subrange(0, j as int)) + seq![
                            w.subrange(j as int + 1, w.len() as int),
                        ]);
                        assert(toks(w).last() == w.subrange(j as int + 1, w.len() as int));
                        assert(toks(w).drop_last() =~= toks(w.subrange(0, j as int)));
                    }
                }
                let rem: &'a str = self.remaining;
                let tok = rem.substring_char(j + 1, n);
                self.remaining = rem.substring_char(0, j);
                return Some(tok);
            }
            let esc = if j > 0 {
                self.remaining.get_char(j - 1) == '\\'
            } else {
                false
            };
            proof {
                assert(esc == esc_left(w, j as int));
                assert(bwd_step(st, c, esc) == bwd_state_at(w, j as int - 1));
                assert(find_delim_back(w, st, j as int) == find_delim_back(
                    w,
                    bwd_step(st, c, esc),
                    j as int - 1,
                ));
            }
            st = step_bwd(st, c, esc);
            i = j;
        }
        proof {
            assert(find_delim_back(w, ScanState::Plain, n as int - 1) is None);
            assert(toks_back(w) == seq![w]);
            assert(toks_back(w).drop_first() =~= Seq::<Seq<char>>::empty());
            if delims_agree(w) {
                lemma_back_step(w);
                assert(toks(w) == seq![w]);
                assert(toks(w).last() == w);
                assert(toks(w).drop_last() =~= Seq::<Seq<char>>::empty());
            }
        }
        let tok: &'a str = self.remaining;
        let rem: &'a str = self.remaining;
        self.remaining = rem.substring_char(0, 0);
        self.done = true;
        Some(tok)
    }
}

} // verus!
