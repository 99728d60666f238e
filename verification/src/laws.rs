//! Proofs about the scanner and the tokenization it induces: how token
//! boundaries behave under shrinking windows, that joining the tokens with
//! commas reproduces the input, that quote-free inputs split naively, and
//! that backward consumption yields the reverse of the forward sequence
//! wherever the two scan directions agree on the boundaries.

use vstd::prelude::*;

use crate::scan::ScanState;
use crate::scan::bwd_state_at;
use crate::scan::bwd_step;
use crate::scan::delims_agree;
use crate::scan::esc_left;
use crate::scan::find_comma;
use crate::scan::find_delim;
use crate::scan::find_delim_back;
use crate::scan::fwd_state_at;
use crate::scan::fwd_step;
use crate::scan::is_bwd_delim;
use crate::scan::is_fwd_delim;
use crate::scan::join_commas;
use crate::scan::quote_free;
use crate::scan::split_on_comma;
use crate::scan::all_tokens;
use crate::scan::toks;
use crate::scan::toks_back;

verus! {

/// The forward scanner's state at a position of a prefix window is its
/// state at the same position of the full window.
pub proof fn lemma_fwd_state_prefix(w: Seq<char>, m: int, i: int)
    requires
        0 <= i <= m <= w.len(),
    ensures
        fwd_state_at(w.subrange(0, m), i) == fwd_state_at(w, i),
    decreases i,
{
    if i > 0 {
        lemma_fwd_state_prefix(w, m, i - 1);
        assert(w.subrange(0, m)[i - 1] == w[i - 1]);
    }
}

/// Cutting a window just where the forward scanner stands in `Plain` does
/// not change the scanner's state at the positions that remain.
pub proof fn lemma_fwd_state_skip(w: Seq<char>, d: int, i: int)
    requires
        0 <= d <= w.len(),
        fwd_state_at(w, d) is Plain,
        0 <= i <= w.len() - d,
    ensures
        fwd_state_at(w.subrange(d, w.len() as int), i) == fwd_state_at(w, d + i),
    decreases i,
{
    if i > 0 {
        lemma_fwd_state_skip(w, d, i - 1);
        assert(w.subrange(d, w.len() as int)[i - 1] == w[d + i - 1]);
    }
}

/// The backward scanner's state does not depend on characters left of the
/// position it stands at, so dropping a prefix leaves it unchanged.
pub proof fn lemma_bwd_state_skip(w: Seq<char>, d: int, i: int)
    requires
        0 <= d <= w.len(),
        0 <= i <= w.len() - d,
    ensures
        bwd_state_at(w.subrange(d, w.len() as int), i) == bwd_state_at(w, d + i),
    decreases w.len() - d - i,
{
    let sub = w.subrange(d, w.len() as int);
    if i < sub.len() - 1 {
        lemma_bwd_state_skip(w, d, i + 1);
        assert(sub[i + 1] == w[d + i + 1]);
        assert(sub[i] == w[d + i]);
        assert(esc_left(sub, i + 1) == esc_left(w, d + i + 1));
    }
}

/// Cutting a window just where the backward scanner stands in `Plain` does
/// not change the scanner's state at the positions that remain.
pub proof fn lemma_bwd_state_prefix(w: Seq<char>, m: int, i: int)
    requires
        0 <= m <= w.len(),
        bwd_state_at(w, m - 1) is Plain,
        0 <= i <= m - 1,
    ensures
        bwd_state_at(w.subrange(0, m), i) == bwd_state_at(w, i),
    decreases m - i,
{
    let sub = w.subrange(0, m);
    if i < m - 1 {
        lemma_bwd_state_prefix(w, m, i + 1);
        assert(sub[i + 1] == w[i + 1]);
        if i > 0 {
            assert(sub[i] == w[i]);
        }
        assert(esc_left(sub, i + 1) == esc_left(w, i + 1));
    }
}

/// What the forward search returns: the first boundary at or after `i`, or
/// the word that there is none.
pub proof fn lemma_find_fwd_props(w: Seq<char>, i: int)
    requires
        0 <= i,
    ensures
        match find_delim(w, fwd_state_at(w, i), i) {
            Option::Some(j) => i <= j < w.len() && is_fwd_delim(w, j) && (forall|k: int|
                i <= k < j ==> !is_fwd_delim(w, k)),
            Option::None => forall|k: int| i <= k < w.len() ==> !is_fwd_delim(w, k),
        },
    decreases w.len() - i,
{
    let st = fwd_state_at(w, i);
    if i >= w.len() {
    } else if st is Plain && w[i] == ',' {
        assert(is_fwd_delim(w, i));
    } else {
        assert(fwd_step(st, w[i]) == fwd_state_at(w, i + 1));
        lemma_find_fwd_props(w, i + 1);
        assert(!is_fwd_delim(w, i));
        match find_delim(w, fwd_state_at(w, i + 1), i + 1) {
            Option::Some(j) => {
                assert forall|k: int| i <= k < j implies !is_fwd_delim(w, k) by {
                    if k > i {
                        assert(!is_fwd_delim(w, k));
                    }
                }
            },
            Option::None => {},
        }
    }
}

/// What the backward search returns: the first boundary at or before `i`,
/// or the word that there is none.
pub proof fn lemma_find_bwd_props(w: Seq<char>, i: int)
    requires
        i <= w.len() - 1,
    ensures
        match find_delim_back(w, bwd_state_at(w, i), i) {
            Option::Some(j) => 0 <= j <= i && is_bwd_delim(w, j) && (forall|k: int|
                j < k <= i ==> !is_bwd_delim(w, k)),
            Option::None => forall|k: int| 0 <= k <= i ==> !is_bwd_delim(w, k),
        },
    decreases i + 1,
{
    let st = bwd_state_at(w, i);
    if i < 0 {
    } else if st is Plain && w[i] == ',' {
        assert(is_bwd_delim(w, i));
    } else {
        assert(bwd_step(st, w[i], esc_left(w, i)) == bwd_state_at(w, i - 1));
        lemma_find_bwd_props(w, i - 1);
        assert(!is_bwd_delim(w, i));
        match find_delim_back(w, bwd_state_at(w, i - 1), i - 1) {
            Option::Some(j) => {
                assert forall|k: int| j < k <= i implies !is_bwd_delim(w, k) by {
                    if k < i {
                        assert(!is_bwd_delim(w, k));
                    }
                }
            },
            Option::None => {},
        }
    }
}

/// Forward boundaries of a suffix window are the forward boundaries of the
/// full window, shifted, provided the cut lies where the scanner is `Plain`.
pub proof fn lemma_fwd_delims_skip(w: Seq<char>, d: int)
    requires
        0 <= d <= w.len(),
        fwd_state_at(w, d) is Plain,
    ensures
        forall|k: int|
            0 <= k < w.len() - d ==> ((#[trigger] is_fwd_delim(
                w.subrange(d, w.len() as int),
                k,
            )) <==> is_fwd_delim(w, d + k)),
{
    let sub = w.subrange(d, w.len() as int);
    assert forall|k: int| 0 <= k < w.len() - d implies (is_fwd_delim(sub, k) <==> is_fwd_delim(
        w,
        d + k,
    )) by {
        lemma_fwd_state_skip(w, d, k);
        assert(sub[k] == w[d + k]);
    }
}

/// Forward boundaries of a prefix window are the forward boundaries of the
/// full window that lie inside it.
pub proof fn lemma_fwd_delims_prefix(w: Seq<char>, m: int)
    requires
        0 <= m <= w.len(),
    ensures
        forall|k: int|
            0 <= k < m ==> ((#[trigger] is_fwd_delim(w.subrange(0, m), k)) <==> is_fwd_delim(
                w,
                k,
            )),
{
    let sub = w.subrange(0, m);
    assert forall|k: int| 0 <= k < m implies (is_fwd_delim(sub, k) <==> is_fwd_delim(w, k)) by {
        lemma_fwd_state_prefix(w, m, k);
        assert(sub[k] == w[k]);
    }
}

/// Backward boundaries of a suffix window are the backward boundaries of
/// the full window, shifted.
pub proof fn lemma_bwd_delims_skip(w: Seq<char>, d: int)
    requires
        0 <= d <= w.len(),
    ensures
        forall|k: int|
            0 <= k < w.len() - d ==> ((#[trigger] is_bwd_delim(
                w.subrange(d, w.len() as int),
                k,
            )) <==> is_bwd_delim(w, d + k)),
{
    let sub = w.subrange(d, w.len() as int);
    assert forall|k: int| 0 <= k < w.len() - d implies (is_bwd_delim(sub, k) <==> is_bwd_delim(
        w,
        d + k,
    )) by {
        lemma_bwd_state_skip(w, d, k);
        assert(sub[k] == w[d + k]);
    }
}

/// Backward boundaries of a prefix window are the backward boundaries of
/// the full window that lie inside it, provided the cut lies where the
/// backward scanner is `Plain`.
pub proof fn lemma_bwd_delims_prefix(w: Seq<char>, m: int)
    requires
        0 <= m <= w.len(),
        bwd_state_at(w, m - 1) is Plain,
    ensures
        forall|k: int|
            0 <= k < m ==> ((#[trigger] is_bwd_delim(w.subrange(0, m), k)) <==> is_bwd_delim(
                w,
                k,
            )),
{
    let sub = w.subrange(0, m);
    assert forall|k: int| 0 <= k < m implies (is_bwd_delim(sub, k) <==> is_bwd_delim(w, k)) by {
        lemma_bwd_state_prefix(w, m, k);
        assert(sub[k] == w[k]);
    }
}

/// Consuming a token from the front at a forward boundary keeps the two
/// scan directions in agreement on what remains.
pub proof fn lemma_agree_after_front(w: Seq<char>, i: int)
    requires
        delims_agree(w),
        is_fwd_delim(w, i),
    ensures
        delims_agree(w.subrange(i + 1, w.len() as int)),
{
    let sub = w.subrange(i + 1, w.len() as int);
    assert(fwd_state_at(w, i + 1) == fwd_step(fwd_state_at(w, i), w[i]));
    lemma_fwd_delims_skip(w, i + 1);
    lemma_bwd_delims_skip(w, i + 1);
    assert forall|k: int| 0 <= k < sub.len() implies (is_fwd_delim(sub, k) <==> is_bwd_delim(
        sub,
        k,
    )) by {
        assert(is_fwd_delim(sub, k) <==> is_fwd_delim(w, i + 1 + k));
        assert(is_fwd_delim(w, i + 1 + k) <==> is_bwd_delim(w, i + 1 + k));
        assert(is_bwd_delim(sub, k) <==> is_bwd_delim(w, i + 1 + k));
    }
}

/// Consuming a token from the back at a backward boundary keeps the two
/// scan directions in agreement on what remains.
pub proof fn lemma_agree_after_back(w: Seq<char>, i: int)
    requires
        delims_agree(w),
        is_bwd_delim(w, i),
    ensures
        delims_agree(w.subrange(0, i)),
{
    let sub = w.subrange(0, i);
    if i - 1 < w.len() - 1 {
        assert(bwd_state_at(w, i - 1) == bwd_step(bwd_state_at(w, i), w[i], esc_left(w, i)));
    }
    lemma_fwd_delims_prefix(w, i);
    lemma_bwd_delims_prefix(w, i);
    assert forall|k: int| 0 <= k < sub.len() implies (is_fwd_delim(sub, k) <==> is_bwd_delim(
        sub,
        k,
    )) by {
        assert(is_fwd_delim(sub, k) <==> is_fwd_delim(w, k));
        assert(is_fwd_delim(w, k) <==> is_bwd_delim(w, k));
        assert(is_bwd_delim(sub, k) <==> is_bwd_delim(w, k));
    }
}

/// A window never tokenizes to nothing: even the empty window is one
/// (empty) token.
pub proof fn lemma_toks_len(w: Seq<char>)
    ensures
        toks(w).len() >= 1,
        toks_back(w).len() >= 1,
{
    match find_delim(w, ScanState::Plain, 0) {
        Option::Some(i) => {},
        Option::None => {},
    }
    match find_delim_back(w, ScanState::Plain, w.len() - 1) {
        Option::Some(i) => {},
        Option::None => {},
    }
}

/// A window without forward boundaries is a single token.
pub proof fn lemma_toks_whole(w: Seq<char>)
    requires
        forall|k: int| 0 <= k < w.len() ==> !(#[trigger] is_fwd_delim(w, k)),
    ensures
        toks(w) == seq![w],
{
    assert(fwd_state_at(w, 0) == ScanState::Plain);
    lemma_find_fwd_props(w, 0);
    match find_delim(w, ScanState::Plain, 0) {
        Option::Some(j) => {
            assert(is_fwd_delim(w, j));
            assert(false);
        },
        Option::None => {},
    }
}

/// Tokenization splits at every forward boundary: the tokens of a window
/// are the tokens left of the boundary followed by the tokens right of it.
pub proof fn lemma_toks_split(w: Seq<char>, j: int)
    requires
        is_fwd_delim(w, j),
    ensures
        toks(w) == toks(w.subrange(0, j)) + toks(w.subrange(j + 1, w.len() as int)),
    decreases w.len(),
{
    let n: int = w.len() as int;
    assert(fwd_state_at(w, 0) == ScanState::Plain);
    lemma_find_fwd_props(w, 0);
    match find_delim(w, ScanState::Plain, 0) {
        Option::None => {
            assert(false);
        },
        Option::Some(f) => {
            assert(0 <= f < n && is_fwd_delim(w, f));
            if f > j {
                assert(!is_fwd_delim(w, j));
                assert(false);
            }
            let tail = w.subrange(f + 1, n);
            assert(toks(w) == seq![w.subrange(0, f)] + toks(tail));
            let p = w.subrange(0, j);
            lemma_fwd_delims_prefix(w, j);
            if f == j {
                assert forall|k: int| 0 <= k < p.len() implies !is_fwd_delim(p, k) by {
                    assert(is_fwd_delim(p, k) <==> is_fwd_delim(w, k));
                }
                lemma_toks_whole(p);
                assert(toks(w) =~= toks(p) + toks(w.subrange(j + 1, n)));
            } else {
                assert(fwd_state_at(w, f + 1) == fwd_step(fwd_state_at(w, f), w[f]));
                lemma_fwd_delims_skip(w, f + 1);
                let j1: int = j - f - 1;
                assert(is_fwd_delim(tail, j1));
                lemma_toks_split(tail, j1);
                assert(tail.subrange(0, j1) =~= w.subrange(f + 1, j));
                assert(tail.subrange(j1 + 1, tail.len() as int) =~= w.subrange(j + 1, n));
                // The prefix up to `j` tokenizes with its first boundary at `f`.
                assert(is_fwd_delim(p, f));
                assert(fwd_state_at(p, 0) == ScanState::Plain);
                lemma_find_fwd_props(p, 0);
                match find_delim(p, ScanState::Plain, 0) {
                    Option::None => {
                        assert(false);
                    },
                    Option::Some(g) => {
                        if g > f {
                            assert(!is_fwd_delim(p, f));
                            assert(false);
                        }
                        if g < f {
                            assert(is_fwd_delim(p, g));
                            assert(is_fwd_delim(w, g));
                            assert(false);
                        }
                        assert(toks(p) == seq![p.subrange(0, f)] + toks(p.subrange(f + 1, j)));
                        assert(p.subrange(0, f) =~= w.subrange(0, f));
                        assert(p.subrange(f + 1, j) =~= w.subrange(f + 1, j));
                    },
                }
                assert(toks(w) =~= toks(p) + toks(w.subrange(j + 1, n)));
            }
        },
    }
}

/// One step of backward consumption, described in terms of the forward
/// tokenization: where the two scan directions agree, the token cut off at
/// the last backward boundary is exactly the last forward token, and what
/// remains carries the tokens before it, still in agreement.
pub proof fn lemma_back_step(w: Seq<char>)
    requires
        delims_agree(w),
    ensures
        match find_delim_back(w, ScanState::Plain, w.len() - 1) {
            Option::Some(i) => 0 <= i < w.len() && is_bwd_delim(w, i) && is_fwd_delim(w, i)
                && toks(w) == toks(w.subrange(0, i)) + seq![
                w.subrange(i + 1, w.len() as int),
            ] && toks_back(w) == seq![w.subrange(i + 1, w.len() as int)] + toks_back(
                w.subrange(0, i),
            ) && delims_agree(w.subrange(0, i)),
            Option::None => toks(w) == seq![w] && toks_back(w) == seq![w],
        },
{
    let n: int = w.len() as int;
    assert(bwd_state_at(w, n - 1) == ScanState::Plain);
    lemma_find_bwd_props(w, n - 1);
    match find_delim_back(w, ScanState::Plain, n - 1) {
        Option::None => {
            assert forall|k: int| 0 <= k < n implies !is_fwd_delim(w, k) by {
                assert(!is_bwd_delim(w, k));
            }
            lemma_toks_whole(w);
        },
        Option::Some(i) => {
            assert(is_bwd_delim(w, i));
            assert(is_fwd_delim(w, i));
            lemma_toks_split(w, i);
            let tail = w.subrange(i + 1, n);
            assert(fwd_state_at(w, i + 1) == fwd_step(fwd_state_at(w, i), w[i]));
            lemma_fwd_delims_skip(w, i + 1);
            lemma_bwd_delims_skip(w, i + 1);
            assert forall|k: int| 0 <= k < tail.len() implies !is_fwd_delim(tail, k) by {
                assert(is_fwd_delim(tail, k) <==> is_fwd_delim(w, i + 1 + k));
                assert(is_fwd_delim(w, i + 1 + k) <==> is_bwd_delim(w, i + 1 + k));
                assert(!is_bwd_delim(w, i + 1 + k));
            }
            lemma_toks_whole(tail);
            lemma_agree_after_back(w, i);
        },
    }
}

/// Reverse-equivalence: where the two scan directions agree on the token
/// boundaries, consuming from the back until exhaustion yields exactly the
/// reverse of the forward token sequence. On inputs where they disagree
/// the two directions genuinely tokenize differently, so the agreement
/// premise is also necessary.
pub proof fn lemma_reverse_equivalence(w: Seq<char>)
    requires
        delims_agree(w),
    ensures
        toks_back(w) == toks(w).reverse(),
    decreases w.len(),
{
    lemma_back_step(w);
    match find_delim_back(w, ScanState::Plain, w.len() - 1) {
        Option::None => {
            assert(seq![w].reverse() =~= seq![w]);
        },
        Option::Some(i) => {
            let p = w.subrange(0, i);
            let x = w.subrange(i + 1, w.len() as int);
            lemma_reverse_equivalence(p);
            assert((toks(p) + seq![x]).reverse() =~= seq![x] + toks(p).reverse());
            assert(toks_back(w) =~= toks(w).reverse());
        },
    }
}

/// Where the two scan directions agree on the token boundaries, they see
/// the same number of tokens, so any interleaving of front and back
/// consumption exhausts the window after exactly that many tokens.
pub proof fn lemma_token_count_agree(w: Seq<char>)
    requires
        delims_agree(w),
    ensures
        toks_back(w).len() == toks(w).len(),
{
    lemma_reverse_equivalence(w);
}

/// Round-trip on a window: joining its tokens with literal commas
/// reproduces the window exactly.
pub proof fn lemma_round_trip_toks(w: Seq<char>)
    ensures
        join_commas(toks(w)) == w,
    decreases w.len(),
{
    assert(fwd_state_at(w, 0) == ScanState::Plain);
    lemma_find_fwd_props(w, 0);
    match find_delim(w, ScanState::Plain, 0) {
        Option::None => {
            assert(toks(w) == seq![w]);
            assert(join_commas(seq![w]) == w);
        },
        Option::Some(i) => {
            assert(is_fwd_delim(w, i));
            let tail = w.subrange(i + 1, w.len() as int);
            lemma_round_trip_toks(tail);
            lemma_toks_len(tail);
            let ts = toks(w);
            assert(ts == seq![w.subrange(0, i)] + toks(tail));
            assert(ts.len() >= 2);
            assert(ts.drop_first() =~= toks(tail));
            assert(join_commas(ts) == ts[0] + seq![','] + join_commas(toks(tail)));
            assert(w.subrange(0, i) + seq![','] + tail =~= w);
        },
    }
}

/// Round-trip: joining all forward tokens of an input with `,` reproduces
/// the input exactly, for every input.
pub proof fn lemma_round_trip(w: Seq<char>)
    ensures
        join_commas(all_tokens(w)) == w,
{
    if w.len() == 0 {
        assert(w =~= Seq::<char>::empty());
    } else {
        lemma_round_trip_toks(w);
    }
}

/// On a quote-free window the forward search finds the plain first comma.
pub proof fn lemma_find_no_quotes(w: Seq<char>, i: int)
    requires
        quote_free(w),
        0 <= i,
    ensures
        find_delim(w, ScanState::Plain, i) == find_comma(w, i),
    decreases w.len() - i,
{
    if i >= w.len() {
    } else if w[i] == ',' {
    } else {
        assert(fwd_step(ScanState::Plain, w[i]) == ScanState::Plain);
        lemma_find_no_quotes(w, i + 1);
    }
}

/// What the plain comma search returns.
pub proof fn lemma_find_comma_props(w: Seq<char>, i: int)
    requires
        0 <= i,
    ensures
        match find_comma(w, i) {
            Option::Some(j) => i <= j < w.len() && w[j] == ',',
            Option::None => true,
        },
    decreases w.len() - i,
{
    if 0 <= i < w.len() && w[i] != ',' {
        lemma_find_comma_props(w, i + 1);
    }
}

/// Naive splitting: with no quote character anywhere in the input, the
/// quote-aware tokenization is exactly split-on-comma, with no trimming.
pub proof fn lemma_split_no_quotes(w: Seq<char>)
    requires
        quote_free(w),
    ensures
        toks(w) == split_on_comma(w),
    decreases w.len(),
{
    lemma_find_no_quotes(w, 0);
    lemma_find_comma_props(w, 0);
    match find_comma(w, 0) {
        Option::None => {},
        Option::Some(i) => {
            let tail = w.subrange(i + 1, w.len() as int);
            assert forall|k: int| 0 <= k < tail.len() implies (#[trigger] tail[k]) != '"'
                && tail[k] != '\'' by {
                assert(w[i + 1 + k] != '"' && w[i + 1 + k] != '\'');
            }
            lemma_split_no_quotes(tail);
        },
    }
}

/// On a quote-free window the forward scanner never leaves `Plain`.
pub proof fn lemma_fwd_state_plain_no_quotes(w: Seq<char>, i: int)
    requires
        quote_free(w),
        0 <= i <= w.len(),
    ensures
        fwd_state_at(w, i) is Plain,
    decreases i,
{
    if i > 0 {
        lemma_fwd_state_plain_no_quotes(w, i - 1);
        assert(w[i - 1] != '"' && w[i - 1] != '\'');
    }
}

/// On a quote-free window the backward scanner never leaves `Plain`.
pub proof fn lemma_bwd_state_plain_no_quotes(w: Seq<char>, i: int)
    requires
        quote_free(w),
        0 <= i,
    ensures
        bwd_state_at(w, i) is Plain,
    decreases w.len() - i,
{
    if i < w.len() - 1 {
        lemma_bwd_state_plain_no_quotes(w, i + 1);
        assert(w[i + 1] != '"' && w[i + 1] != '\'');
    }
}

/// With no quote character in the input, the two scan directions agree on
/// every token boundary.
pub proof fn lemma_no_quotes_agree(w: Seq<char>)
    requires
        quote_free(w),
    ensures
        delims_agree(w),
{
    assert forall|k: int| 0 <= k < w.len() implies (is_fwd_delim(w, k) <==> is_bwd_delim(
        w,
        k,
    )) by {
        lemma_fwd_state_plain_no_quotes(w, k);
        lemma_bwd_state_plain_no_quotes(w, k);
    }
}

/// Every token is verbatim a contiguous slice of the window it was cut
/// from: nothing is trimmed, stripped or unescaped, so surrounding quote
/// characters and escaping backslashes survive in the token.
#[verifier::rlimit(50)]
pub proof fn lemma_tokens_verbatim(w: Seq<char>, k: int)
    requires
        0 <= k < toks(w).len(),
    ensures
        exists|lo: int, hi: int|
            0 <= lo <= hi <= w.len() && toks(w)[k] == w.subrange(lo, hi),
    decreases w.len(),
{
    assert(fwd_state_at(w, 0) == ScanState::Plain);
    lemma_find_fwd_props(w, 0);
    match find_delim(w, ScanState::Plain, 0) {
        Option::None => {
            assert(w.subrange(0, w.len() as int) =~= w);
            assert(0 <= 0 <= w.len() <= w.len() && toks(w)[0] == w.subrange(0, w.len() as int));
        },
        Option::Some(i) => {
            if k == 0 {
                assert(0 <= 0 <= i <= w.len() && toks(w)[0] == w.subrange(0, i));
            } else {
                let tail = w.subrange(i + 1, w.len() as int);
                assert(toks(w)[k] == toks(tail)[k - 1]);
                lemma_tokens_verbatim(tail, k - 1);
                let (lo, hi): (int, int) = choose|lo: int, hi: int|
                    0 <= lo <= hi <= tail.len() && toks(tail)[k - 1] == tail.subrange(lo, hi);
                assert(tail.subrange(lo, hi) =~= w.subrange(i + 1 + lo, i + 1 + hi));
                assert(0 <= i + 1 + lo <= i + 1 + hi <= w.len() && toks(w)[k] == w.subrange(
                    i + 1 + lo,
                    i + 1 + hi,
                ));
            }
        },
    }
}

/// A backslash inside a quoted span escapes the next character: that
/// character cannot close the span and cannot be a token boundary, whatever
/// it is — in particular an escaped quote character does not terminate the
/// span, and an escaped comma does not split.
pub proof fn lemma_escape_preserved(w: Seq<char>, i: int, q: crate::scan::Quote)
    requires
        0 <= i,
        i + 1 < w.len(),
        fwd_state_at(w, i) == ScanState::Quoted(q),
        w[i] == '\\',
    ensures
        fwd_state_at(w, i + 1) == ScanState::QuotedEscape(q),
        fwd_state_at(w, i + 2) == ScanState::Quoted(q),
        !is_fwd_delim(w, i + 1),
{
    assert(fwd_state_at(w, i + 1) == fwd_step(fwd_state_at(w, i), w[i]));
    assert(fwd_state_at(w, i + 2) == fwd_step(fwd_state_at(w, i + 1), w[i + 1]));
}

} // verus!
