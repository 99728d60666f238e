//! The quote-aware scanning state machine and the tokenization it induces.
//!
//! A token boundary is a comma seen while the scanner is outside any quoted
//! span. Scanning forward, a quote character opens a span of its kind, the
//! matching unescaped quote character closes it, and a backslash inside a
//! span escapes the character that follows it. Scanning backward, escapes
//! must be detected by peeking at the neighbor to the left of a quote
//! character, since escapes are defined left-to-right.

use vstd::prelude::*;

verus! {

/// The kind of quote span the scanner is inside.
#[derive(Clone, Copy, PartialEq, Eq, Structural)]
pub enum Quote {
    Single,
    Double,
}

/// The scanner's state, reset at the start of every scan.
#[derive(Clone, Copy, PartialEq, Eq, Structural)]
pub enum ScanState {
    /// Outside any quoted span.
    Plain,
    /// Inside a quoted span of the given kind.
    Quoted(Quote),
    /// Inside a quoted span, immediately after a backslash.
    QuotedEscape(Quote),
}

/// True when `c` closes a quoted span of kind `q`.
pub open spec fn closes(q: Quote, c: char) -> bool {
    (q == Quote::Double && c == '"') || (q == Quote::Single && c == '\'')
}

/// One forward transition of the scanner on character `c`.
///
/// A comma in the `Plain` state is a token boundary; as a pure state
/// transition it leaves the state `Plain`, which also matches the scanner
/// restarting in `Plain` just after a boundary.
pub open spec fn fwd_step(st: ScanState, c: char) -> ScanState {
    match st {
        ScanState::Plain => if c == '"' {
            ScanState::Quoted(Quote::Double)
        } else if c == '\'' {
            ScanState::Quoted(Quote::Single)
        } else {
            ScanState::Plain
        },
        ScanState::Quoted(q) => if closes(q, c) {
            ScanState::Plain
        } else if c == '\\' {
            ScanState::QuotedEscape(q)
        } else {
            ScanState::Quoted(q)
        },
        ScanState::QuotedEscape(q) => ScanState::Quoted(q),
    }
}

/// True when the character at position `i` of `w` has a backslash
/// immediately to its left.
pub open spec fn esc_left(w: Seq<char>, i: int) -> bool {
    i > 0 && w[i - 1] == '\\'
}

/// One backward transition of the scanner on character `c`, where `esc`
/// says whether a backslash stands immediately to the left of `c`. A
/// matching quote character preceded by a backslash is taken as escaped
/// content, not as a span boundary. The backward scanner never enters
/// `QuotedEscape`.
pub open spec fn bwd_step(st: ScanState, c: char, esc: bool) -> ScanState {
    match st {
        ScanState::Plain => if c == '"' {
            ScanState::Quoted(Quote::Double)
        } else if c == '\'' {
            ScanState::Quoted(Quote::Single)
        } else {
            ScanState::Plain
        },
        ScanState::Quoted(q) => if closes(q, c) {
            if esc {
                ScanState::Quoted(q)
            } else {
                ScanState::Plain
            }
        } else {
            ScanState::Quoted(q)
        },
        ScanState::QuotedEscape(q) => ScanState::Quoted(q),
    }
}

/// The forward scanner's state just before it processes `w[i]`, scanning
/// from the start of `w` in state `Plain`.
pub open spec fn fwd_state_at(w: Seq<char>, i: int) -> ScanState
    decreases i,
{
    if i <= 0 {
        ScanState::Plain
    } else {
        fwd_step(fwd_state_at(w, i - 1), w[i - 1])
    }
}

/// The backward scanner's state just before it processes `w[i]`, scanning
/// from the end of `w` in state `Plain`.
pub open spec fn bwd_state_at(w: Seq<char>, i: int) -> ScanState
    decreases w.len() - i,
{
    if i >= w.len() - 1 {
        ScanState::Plain
    } else {
        bwd_step(bwd_state_at(w, i + 1), w[i + 1], esc_left(w, i + 1))
    }
}

/// The position of the first token boundary at or after `i`, scanning
/// forward from state `st`.
pub open spec fn find_delim(w: Seq<char>, st: ScanState, i: int) -> Option<int>
    decreases w.len() - i,
{
    if i < 0 || i >= w.len() {
        Option::None
    } else if st is Plain && w[i] == ',' {
        Option::Some(i)
    } else {
        find_delim(w, fwd_step(st, w[i]), i + 1)
    }
}

/// The position of the first token boundary at or before `i`, scanning
/// backward from state `st`.
pub open spec fn find_delim_back(w: Seq<char>, st: ScanState, i: int) -> Option<int>
    decreases i + 1,
{
    if i < 0 || i >= w.len() {
        Option::None
    } else if st is Plain && w[i] == ',' {
        Option::Some(i)
    } else {
        find_delim_back(w, bwd_step(st, w[i], esc_left(w, i)), i - 1)
    }
}

/// True when position `i` of `w` is a token boundary for the forward scan.
pub open spec fn is_fwd_delim(w: Seq<char>, i: int) -> bool {
    0 <= i < w.len() && w[i] == ',' && fwd_state_at(w, i) is Plain
}

/// True when position `i` of `w` is a token boundary for the backward scan.
pub open spec fn is_bwd_delim(w: Seq<char>, i: int) -> bool {
    0 <= i < w.len() && w[i] == ',' && bwd_state_at(w, i) is Plain
}

/// True when the forward and the backward scan find exactly the same token
/// boundaries in `w`: the premise under which consuming from the back agrees
/// with the forward tokenization. It holds of every quote-free input;
/// malformed quoting (an unterminated span, a backslash ambiguity) can break
/// it, and where it fails the two directions genuinely tokenize differently.
pub open spec fn delims_agree(w: Seq<char>) -> bool {
    forall|i: int| 0 <= i < w.len() ==> (is_fwd_delim(w, i) <==> is_bwd_delim(w, i))
}

/// The tokens of a window, in left-to-right order: the slice up to the first
/// forward boundary, then the tokens of what follows that boundary. A window
/// with no boundary is one token, so the empty window is one empty token;
/// an empty *input* has no tokens at all, which `all_tokens` accounts for.
pub open spec fn toks(w: Seq<char>) -> Seq<Seq<char>>
    decreases w.len(),
{
    match find_delim(w, ScanState::Plain, 0) {
        Option::Some(i) => if 0 <= i < w.len() {
            seq![w.subrange(0, i)] + toks(w.subrange(i + 1, w.len() as int))
        } else {
            seq![w]
        },
        Option::None => seq![w],
    }
}

/// The tokens of a window in the order repeated backward consumption yields
/// them: the slice after the last backward boundary first.
pub open spec fn toks_back(w: Seq<char>) -> Seq<Seq<char>>
    decreases w.len(),
{
    match find_delim_back(w, ScanState::Plain, w.len() - 1) {
        Option::Some(i) => if 0 <= i < w.len() {
            seq![w.subrange(i + 1, w.len() as int)] + toks_back(w.subrange(0, i))
        } else {
            seq![w]
        },
        Option::None => seq![w],
    }
}

/// The full token sequence of an input: empty input yields no tokens.
pub open spec fn all_tokens(w: Seq<char>) -> Seq<Seq<char>> {
    if w.len() == 0 {
        Seq::empty()
    } else {
        toks(w)
    }
}

/// True when no quote character of either kind occurs in `w`.
pub open spec fn quote_free(w: Seq<char>) -> bool {
    forall|k: int| 0 <= k < w.len() ==> (#[trigger] w[k]) != '"' && w[k] != '\''
}

/// The position of the first comma at or after `i`, with no regard to quotes.
pub open spec fn find_comma(w: Seq<char>, i: int) -> Option<int>
    decreases w.len() - i,
{
    if i < 0 || i >= w.len() {
        Option::None
    } else if w[i] == ',' {
        Option::Some(i)
    } else {
        find_comma(w, i + 1)
    }
}

/// Naive splitting on every comma, with no regard to quotes.
pub open spec fn split_on_comma(w: Seq<char>) -> Seq<Seq<char>>
    decreases w.len(),
{
    match find_comma(w, 0) {
        Option::Some(i) => if 0 <= i < w.len() {
            seq![w.subrange(0, i)] + split_on_comma(w.subrange(i + 1, w.len() as int))
        } else {
            seq![w]
        },
        Option::None => seq![w],
    }
}

/// The token sequence joined back together with literal commas.
pub open spec fn join_commas(ts: Seq<Seq<char>>) -> Seq<char>
    decreases ts.len(),
{
    if ts.len() == 0 {
        Seq::empty()
    } else if ts.len() == 1 {
        ts[0]
    } else {
        ts[0] + seq![','] + join_commas(ts.drop_first())
    }
}

} // verus!
