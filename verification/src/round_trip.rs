use crate::token::TokenView;
use crate::token::spec_render;
use crate::token::spec_render_slot_from;
use crate::tokenizer::digit_run_end;
use crate::tokenizer::is_alpha_char;
use crate::tokenizer::is_digit_char;
use crate::tokenizer::is_single_char;
use crate::tokenizer::is_ws_char;
use crate::tokenizer::lemma_scan_basic;
use crate::tokenizer::single_char_token;
use crate::tokenizer::spec_scan;
use crate::tokenizer::spec_stream;
use crate::tokenizer::spec_tokenize;
use crate::tokenizer::word_chars;
use crate::tokenizer::word_run_end;
use vstd::prelude::*;

verus! {

/// A token whose diagnostic rendering scans back to itself at top level: a
/// well-formed number or identifier, or a single-character token that the
/// top-level scan emits. Multiplication and division render as the dedicated
/// signs, which no token rule classifies; commas and bare `>` are skipped at
/// top level; a `Function` renders lossily and the `EOF` sentinel renders as
/// a word: none of those scan back.
pub open spec fn round_trip_token(t: TokenView) -> bool {
    match t {
        TokenView::Number(d) => d.len() > 0 && (forall|i: int|
            0 <= i < d.len() ==> is_digit_char(d[i])),
        TokenView::Variable(v) => v.len() > 0 && (forall|i: int|
            0 <= i < v.len() ==> is_alpha_char(v[i])),
        TokenView::Add => true,
        TokenView::Sub => true,
        TokenView::Caret => true,
        TokenView::LeftSmallParen => true,
        TokenView::RightSmallParen => true,
        TokenView::LeftMidParen => true,
        TokenView::RightMidParen => true,
        TokenView::LeftBigParen => true,
        TokenView::RightBigParen => true,
        TokenView::LeftFuncParen => true,
        _ => false,
    }
}

/// A token sequence whose space-joined rendering scans back to the same
/// sequence: every token scans back on its own, no identifier is followed by
/// another identifier (the two runs would merge across the whitespace), and
/// no identifier is followed by `<` (the pair would scan as a function
/// call).
pub open spec fn round_trip_seq(ts: Seq<TokenView>) -> bool {
    &&& (forall|i: int| 0 <= i < ts.len() ==> round_trip_token(#[trigger] ts[i]))
    &&& (forall|i: int|
        0 <= i < ts.len() - 1 ==> !(#[trigger] ts[i] is Variable && (ts[i + 1] is Variable || ts[i
            + 1] is LeftFuncParen)))
}

/// A maximal digit run is delimited by its content: digits up to `m` and
/// none at `m`.
proof fn lemma_digit_run_exact(s: Seq<char>, i: int, m: int)
    requires
        0 <= i <= m <= s.len(),
        forall|k: int| i <= k < m ==> is_digit_char(s[k]),
        m == s.len() || !is_digit_char(s[m]),
    ensures
        digit_run_end(s, i) == m,
    decreases m - i,
{
    if i < m {
        lemma_digit_run_exact(s, i + 1, m);
    }
}

/// A maximal letters-and-whitespace run is delimited by its content.
proof fn lemma_word_run_exact(s: Seq<char>, i: int, m: int)
    requires
        0 <= i <= m <= s.len(),
        forall|k: int| i <= k < m ==> is_alpha_char(s[k]) || is_ws_char(s[k]),
        m == s.len() || !(is_alpha_char(s[m]) || is_ws_char(s[m])),
    ensures
        word_run_end(s, i) == m,
    decreases m - i,
{
    if i < m {
        lemma_word_run_exact(s, i + 1, m);
    }
}

/// The letters of a run that holds letters up to `mid` and whitespace from
/// `mid` on are exactly the letters.
proof fn lemma_word_chars_exact(s: Seq<char>, i: int, mid: int, m: int)
    requires
        0 <= i <= mid <= m <= s.len(),
        forall|k: int| i <= k < mid ==> is_alpha_char(s[k]),
        forall|k: int| mid <= k < m ==> is_ws_char(s[k]),
    ensures
        word_chars(s, i, m) == s.subrange(i, mid),
    decreases m - i,
{
    if i < mid {
        lemma_word_chars_exact(s, i + 1, mid, m);
        assert(is_alpha_char(s[i]));
        assert(word_chars(s, i, m) == seq![s[i]] + word_chars(s, i + 1, m));
        assert(seq![s[i]] + s.subrange(i + 1, mid) =~= s.subrange(i, mid));
    } else if i < m {
        assert(is_ws_char(s[i]));
        assert(!is_alpha_char(s[i]));
        lemma_word_chars_exact(s, i + 1, mid + 1, m);
        assert(s.subrange(i + 1, i + 1) =~= s.subrange(i, i));
    } else {
        assert(s.subrange(i, i) =~= Seq::<char>::empty());
    }
}

/// Scanning a rendered stream of round-trippable tokens from the start of
/// the rendering of token `j` (`sep` says whether one separating space
/// stands before it) yields the remaining tokens and the sentinel.
#[verifier::rlimit(100)]
proof fn lemma_round_trip_scan(
    s: Seq<char>,
    pos: int,
    ts: Seq<TokenView>,
    j: int,
    sep: bool,
    unexpected: Option<char>,
)
    requires
        0 <= pos <= s.len(),
        0 <= j <= ts.len(),
        round_trip_seq(ts),
        s.subrange(pos, s.len() as int) == (if sep && j < ts.len() {
            seq![' '] + spec_render_slot_from(ts, j)
        } else {
            spec_render_slot_from(ts, j)
        }),
    ensures
        spec_stream(s, pos, false, unexpected).tokens == ts.subrange(j, ts.len() as int).push(
            TokenView::EOF,
        ),
    decreases ts.len() - j, (if sep { 1int } else { 0int }),
{
    let suffix = s.subrange(pos, s.len() as int);
    if j >= ts.len() {
        // nothing left to scan: the stream is the sentinel alone
        assert(suffix.len() == 0);
        assert(pos == s.len());
        let r = spec_scan(s, pos, false, unexpected, false, false);
        assert(r.token == Some(TokenView::EOF));
        let rest = spec_stream(s, pos, true, unexpected);
        assert(rest.tokens =~= Seq::<TokenView>::empty());
        assert(spec_stream(s, pos, false, unexpected).tokens =~= seq![TokenView::EOF]);
        assert(ts.subrange(j, ts.len() as int).push(TokenView::EOF) =~= seq![TokenView::EOF]);
    } else if sep {
        // one separating space: the scanner skips it and the scan goes on
        // at the next position with the same outcome
        assert(suffix.len() == s.len() - pos);
        assert(suffix.len() >= 1);
        assert(suffix[0] == ' ');
        assert(suffix[0] == s[pos]);
        assert(s[pos] == ' ');
        assert(is_ws_char(s[pos]));
        assert(forall|k: int| pos <= k < s.len() ==> #[trigger] s[k] == suffix[k - pos]);
        assert(s.subrange(pos + 1, s.len() as int) =~= spec_render_slot_from(ts, j));
        lemma_round_trip_scan(s, pos + 1, ts, j, false, unexpected);
        assert(spec_scan(s, pos, false, unexpected, false, false) == spec_scan(
            s,
            pos + 1,
            false,
            unexpected,
            false,
            false,
        ));
        lemma_scan_basic(s, pos + 1, false, unexpected, false, false);
        let r = spec_scan(s, pos + 1, false, unexpected, false, false);
        // both unfoldings of the stream take the same branch on the same
        // scan outcome
        assert(spec_stream(s, pos, false, unexpected).tokens == spec_stream(
            s,
            pos + 1,
            false,
            unexpected,
        ).tokens);
    } else {
        let t0 = ts[j];
        assert(round_trip_token(t0));
        let rendered = spec_render(t0);
        let more = j + 1 < ts.len();
        // the rendering of the remaining tokens opens with this token's text
        assert(suffix == if more {
            rendered + " "@ + spec_render_slot_from(ts, j + 1)
        } else {
            rendered
        });
        reveal_strlit(" ");
        assert(suffix.len() == s.len() - pos);
        assert(forall|k: int| pos <= k < s.len() ==> #[trigger] s[k] == suffix[k - pos]);
        assert(forall|i: int| 0 <= i < rendered.len() ==> #[trigger] suffix[i] == rendered[i]);
        assert(forall|i: int| 0 <= i < rendered.len() ==> #[trigger] s[pos + i] == rendered[i]);
        assert(pos + rendered.len() <= s.len());
        let q = pos + rendered.len();
        if more {
            assert(" "@.len() == 1);
            assert(suffix[rendered.len() as int] == ' ');
            assert(s[q] == ' ');
        }
        let r = spec_scan(s, pos, false, unexpected, false, false);
        lemma_scan_basic(s, pos, false, unexpected, false, false);
        if more {
            assert(s.subrange(q, s.len() as int) =~= seq![' '] + spec_render_slot_from(ts, j + 1));
        } else {
            assert(s.subrange(q, s.len() as int) =~= spec_render_slot_from(ts, j + 1));
        }
        match t0 {
            TokenView::Number(d) => {
                assert(rendered == d);
                assert(forall|k: int| pos <= k < q ==> is_digit_char(s[k]));
                assert(q == s.len() || !is_digit_char(s[q]));
                lemma_digit_run_exact(s, pos, q);
                assert(s.subrange(pos, q) =~= d);
                assert(r.token == Some(t0));
                assert(r.pos == q);
                lemma_round_trip_scan(s, q, ts, j + 1, more, unexpected);
            },
            TokenView::Variable(v) => {
                assert(rendered == v);
                assert(forall|k: int| pos <= k < q ==> is_alpha_char(s[k]));
                // the run swallows the one separating space; the next
                // token's text stops it
                if more {
                    lemma_next_head_blocks(ts, j);
                    let c1 = spec_render(ts[j + 1])[0];
                    assert(s[q + 1] == c1) by {
                        assert(s.subrange(q + 1, s.len() as int) =~= spec_render_slot_from(
                            ts,
                            j + 1,
                        ));
                        assert(spec_render_slot_from(ts, j + 1)[0] == c1);
                    }
                    assert(!(is_alpha_char(c1) || is_ws_char(c1)) && c1 != '<');
                    lemma_word_run_exact(s, pos, q + 1);
                    lemma_word_chars_exact(s, pos, q, q + 1);
                    assert(s.subrange(pos, q) =~= v);
                    assert(word_run_end(s, pos) == q + 1);
                    assert(r.token == Some(t0));
                    assert(r.pos == q + 1);
                    assert(s.subrange(q + 1, s.len() as int) =~= spec_render_slot_from(
                        ts,
                        j + 1,
                    ));
                    lemma_round_trip_scan(s, q + 1, ts, j + 1, false, unexpected);
                } else {
                    lemma_word_run_exact(s, pos, q);
                    lemma_word_chars_exact(s, pos, q, q);
                    assert(s.subrange(pos, q) =~= v);
                    assert(word_run_end(s, pos) == q);
                    assert(r.token == Some(t0));
                    assert(r.pos == q);
                    lemma_round_trip_scan(s, q, ts, j + 1, more, unexpected);
                }
            },
            _ => {
                // a single-character token scans straight back
                lemma_single_render(t0);
                let c = rendered[0];
                assert(rendered.len() == 1);
                assert(s[pos] == c);
                assert(!is_ws_char(c) && !is_digit_char(c) && !is_alpha_char(c));
                assert(r.token == Some(t0));
                assert(r.pos == pos + 1);
                lemma_round_trip_scan(s, pos + 1, ts, j + 1, more, unexpected);
            },
        }
        // one token scanned; the rest follows by the step above
        let rest = spec_stream(s, r.pos, r.end, r.unexpected);
        assert(r.end == false && r.unexpected == unexpected);
        assert(spec_stream(s, pos, false, unexpected).tokens == seq![t0] + rest.tokens);
        assert(seq![t0] + ts.subrange(j + 1, ts.len() as int).push(TokenView::EOF) =~= ts.subrange(
            j,
            ts.len() as int,
        ).push(TokenView::EOF));
    }
}

/// A round-trippable token that is neither a number nor an identifier
/// renders as one character, which scans straight back to the token.
proof fn lemma_single_render(t: TokenView)
    requires
        round_trip_token(t),
        !(t is Number),
        !(t is Variable),
    ensures
        spec_render(t).len() == 1,
        !is_ws_char(spec_render(t)[0]),
        !is_digit_char(spec_render(t)[0]),
        !is_alpha_char(spec_render(t)[0]),
        t is LeftFuncParen ==> spec_render(t)[0] == '<',
        !(t is LeftFuncParen) ==> is_single_char(spec_render(t)[0]) && single_char_token(
            spec_render(t)[0],
        ) == t,
{
    reveal_strlit("+");
    reveal_strlit("-");
    reveal_strlit("^");
    reveal_strlit("(");
    reveal_strlit(")");
    reveal_strlit("[");
    reveal_strlit("]");
    reveal_strlit("{");
    reveal_strlit("}");
    reveal_strlit("<");
}

/// After an identifier, the next token's first rendered character neither
/// extends the letter run nor opens a function call.
proof fn lemma_next_head_blocks(ts: Seq<TokenView>, j: int)
    requires
        0 <= j < ts.len() - 1,
        round_trip_seq(ts),
        ts[j] is Variable,
    ensures
        spec_render(ts[j + 1]).len() > 0,
        !(is_alpha_char(spec_render(ts[j + 1])[0]) || is_ws_char(spec_render(ts[j + 1])[0])),
        spec_render(ts[j + 1])[0] != '<',
{
    let t = ts[j + 1];
    assert(round_trip_token(t));
    assert(!(t is Variable) && !(t is LeftFuncParen));
    match t {
        TokenView::Number(d) => {
            assert(is_digit_char(d[0]));
            assert(!is_alpha_char(d[0]) && !is_ws_char(d[0]) && d[0] != '<');
        },
        _ => {
            lemma_single_render(t);
            assert(is_single_char(spec_render(t)[0]));
            assert(spec_render(t)[0] != '<');
        },
    }
}

/// Law: rendering a stream of round-trippable tokens and scanning the text
/// back reproduces the very same tokens, closed by the `EOF` sentinel.
pub proof fn theorem_render_round_trip(ts: Seq<TokenView>)
    requires
        round_trip_seq(ts),
    ensures
        spec_tokenize(spec_render_slot_from(ts, 0)) == ts.push(TokenView::EOF),
{
    let s = spec_render_slot_from(ts, 0);
    assert(s.subrange(0, s.len() as int) =~= s);
    lemma_round_trip_scan(s, 0, ts, 0, false, None);
    assert(ts.subrange(0, ts.len() as int) =~= ts);
}

/// Law: tokenize, render, re-tokenize. When an input's token stream closes
/// with the sentinel and holds only round-trippable tokens before it,
/// scanning the space-joined rendering of those tokens reproduces the
/// stream exactly: whitespace differences collapse to single separators.
pub proof fn theorem_tokenize_render_retokenize(x: Seq<char>)
    requires
        spec_tokenize(x).len() > 0,
        spec_tokenize(x).last() == TokenView::EOF,
        round_trip_seq(spec_tokenize(x).drop_last()),
    ensures
        spec_tokenize(spec_render_slot_from(spec_tokenize(x).drop_last(), 0)) == spec_tokenize(x),
{
    let body = spec_tokenize(x).drop_last();
    theorem_render_round_trip(body);
    assert(body.push(TokenView::EOF) =~= spec_tokenize(x));
}

} // verus!
