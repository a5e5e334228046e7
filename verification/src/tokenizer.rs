use crate::token::Token;
use crate::token::TokenView;
use crate::token::token_view;
use crate::token::tokens_view;
use crate::token::token_vec_view;
use crate::token::args_view;
use crate::token::lemma_tokens_view_props;
use crate::token::lemma_arg_seqs_view_props;
use crate::token::lemma_tokens_view_push;
use crate::token::lemma_arg_seqs_view_push;
use vstd::prelude::*;

verus! {

/// Construction failure: no token at all could be produced, and the carried
/// character is the first one that no token rule classifies.
#[derive(Debug, Clone, Copy, PartialEq, Eq)]
pub enum CalcError {
    UnexpectedChar(char),
}

/// Whitespace, as the scanner skips it: the characters with the Unicode
/// `White_Space` property.
pub open spec fn is_ws_char(c: char) -> bool {
    ('\u{0009}' <= c && c <= '\u{000d}') || c == ' ' || c == '\u{0085}' || c == '\u{00a0}' || c
        == '\u{1680}' || ('\u{2000}' <= c && c <= '\u{200a}') || c == '\u{2028}' || c
        == '\u{2029}' || c == '\u{202f}' || c == '\u{205f}' || c == '\u{3000}'
}

/// A decimal digit.
pub open spec fn is_digit_char(c: char) -> bool {
    '0' <= c && c <= '9'
}

/// An ASCII letter.
pub open spec fn is_alpha_char(c: char) -> bool {
    ('a' <= c && c <= 'z') || ('A' <= c && c <= 'Z')
}

/// A character that maps to a single-character operator or bracket token.
pub open spec fn is_single_char(c: char) -> bool {
    c == '+' || c == '-' || c == '*' || c == '/' || c == '^' || c == '(' || c == ')' || c == '['
        || c == ']' || c == '{' || c == '}'
}

/// The token of a single operator or bracket character.
pub open spec fn single_char_token(c: char) -> TokenView {
    if c == '+' {
        TokenView::Add
    } else if c == '-' {
        TokenView::Sub
    } else if c == '*' {
        TokenView::Mul
    } else if c == '/' {
        TokenView::Div
    } else if c == '^' {
        TokenView::Caret
    } else if c == '(' {
        TokenView::LeftSmallParen
    } else if c == ')' {
        TokenView::RightSmallParen
    } else if c == '[' {
        TokenView::LeftMidParen
    } else if c == ']' {
        TokenView::RightMidParen
    } else if c == '{' {
        TokenView::LeftBigParen
    } else {
        TokenView::RightBigParen
    }
}

/// A character that some token rule classifies.
pub open spec fn is_classifiable_char(c: char) -> bool {
    is_ws_char(c) || is_digit_char(c) || is_alpha_char(c) || is_single_char(c) || c == ',' || c
        == '<' || c == '>'
}

/// The end of the maximal run of decimal digits that starts at `i`.
pub open spec fn digit_run_end(s: Seq<char>, i: int) -> int
    decreases s.len() - i,
        when 0 <= i <= s.len()
{
    if i < s.len() && is_digit_char(s[i]) {
        digit_run_end(s, i + 1)
    } else {
        i
    }
}

/// The end of the maximal run of letters and interior whitespace that starts
/// at `i`.
pub open spec fn word_run_end(s: Seq<char>, i: int) -> int
    decreases s.len() - i,
        when 0 <= i <= s.len()
{
    if i < s.len() && (is_alpha_char(s[i]) || is_ws_char(s[i])) {
        word_run_end(s, i + 1)
    } else {
        i
    }
}

/// The letters within `s[i..j]`, whitespace dropped.
pub open spec fn word_chars(s: Seq<char>, i: int, j: int) -> Seq<char>
    decreases j - i,
{
    if i < 0 || i >= j || j > s.len() {
        Seq::empty()
    } else if is_alpha_char(s[i]) {
        seq![s[i]] + word_chars(s, i + 1, j)
    } else {
        word_chars(s, i + 1, j)
    }
}

pub proof fn lemma_digit_run_end(s: Seq<char>, i: int)
    requires
        0 <= i <= s.len(),
    ensures
        i <= digit_run_end(s, i) <= s.len(),
        forall|k: int| i <= k < digit_run_end(s, i) ==> is_digit_char(s[k]),
        digit_run_end(s, i) < s.len() ==> !is_digit_char(s[digit_run_end(s, i)]),
    decreases s.len() - i,
{
    if i < s.len() && is_digit_char(s[i]) {
        lemma_digit_run_end(s, i + 1);
    }
}

pub proof fn lemma_word_run_end(s: Seq<char>, i: int)
    requires
        0 <= i <= s.len(),
    ensures
        i <= word_run_end(s, i) <= s.len(),
        forall|k: int|
            i <= k < word_run_end(s, i) ==> (is_alpha_char(s[k]) || is_ws_char(s[k])),
        word_run_end(s, i) < s.len() ==> !(is_alpha_char(s[word_run_end(s, i)]) || is_ws_char(
            s[word_run_end(s, i)],
        )),
    decreases s.len() - i,
{
    if i < s.len() && (is_alpha_char(s[i]) || is_ws_char(s[i])) {
        lemma_word_run_end(s, i + 1);
    }
}

/// The outcome of pulling one raw token: the token, if one was produced, and
/// the scanner state after the pull.
pub ghost struct ScanStep {
    pub token: Option<TokenView>,
    pub pos: int,
    pub end: bool,
    pub unexpected: Option<char>,
}

/// The outcome of grouping one function call's arguments: the completed
/// slots and the scanner state after the call's own close.
pub ghost struct GroupStep {
    pub args: Seq<Seq<TokenView>>,
    pub pos: int,
    pub end: bool,
    pub unexpected: Option<char>,
}

/// Closes the current buffer as a completed slot; an empty buffer is
/// dropped, never kept as an empty argument slot.
pub open spec fn close_slot(args: Seq<Seq<TokenView>>, cur: Seq<TokenView>) -> Seq<
    Seq<TokenView>,
> {
    if cur.len() == 0 {
        args
    } else {
        args.push(cur)
    }
}

/// One pull of the scanner from position `pos`.
///
/// Classification order on the next raw character: end of input emits `EOF`
/// once and marks the scanner exhausted; whitespace is skipped; a digit
/// starts a maximal digit run, kept verbatim as a `Number`; a letter starts
/// an identifier (letters with interior whitespace dropped), which becomes a
/// `Function` token when the run is followed by `<`, else a `Variable`; the
/// single operator and bracket characters map to their tokens; `,` and `>`
/// are emitted only when the caller asks for them and are skipped otherwise;
/// `<` is always emitted; any other character produces no token and the
/// scan position moves past it; the first such character is recorded as the
/// unexpected one, and a later one never displaces it.
pub open spec fn spec_scan(
    s: Seq<char>,
    pos: int,
    end: bool,
    unexpected: Option<char>,
    inc_comma: bool,
    inc_rfp: bool,
) -> ScanStep
    decreases s.len() - pos, 0int,
        when 0 <= pos <= s.len()
{
    if end {
        ScanStep { token: None, pos, end, unexpected }
    } else if pos >= s.len() {
        ScanStep { token: Some(TokenView::EOF), pos, end: true, unexpected }
    } else {
        let c = s[pos];
        if is_ws_char(c) {
            spec_scan(s, pos + 1, end, unexpected, inc_comma, inc_rfp)
        } else if is_digit_char(c) {
            proof {
                lemma_digit_run_end(s, pos);
            }
            ScanStep {
                token: Some(TokenView::Number(s.subrange(pos, digit_run_end(s, pos)))),
                pos: digit_run_end(s, pos),
                end,
                unexpected,
            }
        } else if is_alpha_char(c) {
            proof {
                lemma_word_run_end(s, pos);
            }
            let j = word_run_end(s, pos);
            let name = word_chars(s, pos, j);
            if j < s.len() && s[j] == '<' {
                let g = spec_group_args(
                    s,
                    j,
                    end,
                    unexpected,
                    0,
                    0,
                    0,
                    0,
                    Seq::empty(),
                    Seq::empty(),
                );
                ScanStep {
                    token: Some(TokenView::Function { name, args: g.args }),
                    pos: g.pos,
                    end: g.end,
                    unexpected: g.unexpected,
                }
            } else {
                ScanStep { token: Some(TokenView::Variable(name)), pos: j, end, unexpected }
            }
        } else if is_single_char(c) {
            ScanStep { token: Some(single_char_token(c)), pos: pos + 1, end, unexpected }
        } else if c == ',' {
            if inc_comma {
                ScanStep { token: Some(TokenView::Comma), pos: pos + 1, end, unexpected }
            } else {
                spec_scan(s, pos + 1, end, unexpected, inc_comma, inc_rfp)
            }
        } else if c == '>' {
            if inc_rfp {
                ScanStep { token: Some(TokenView::RightFuncParen), pos: pos + 1, end, unexpected }
            } else {
                spec_scan(s, pos + 1, end, unexpected, inc_comma, inc_rfp)
            }
        } else if c == '<' {
            ScanStep { token: Some(TokenView::LeftFuncParen), pos: pos + 1, end, unexpected }
        } else {
            ScanStep {
                token: None,
                pos: pos + 1,
                end,
                unexpected: if unexpected is Some {
                    unexpected
                } else {
                    Some(c)
                },
            }
        }
    }
}

/// The function-argument grouping loop, entered with the scanner positioned
/// at the call's own `<`.
///
/// Each pull asks for comma- and `>`-visibility. A comma at bracket depth
/// zero and angle depth at most one separates slots, any other comma is
/// appended literally. `<` deepens the angle count and is appended once
/// nested. `>` shallows it; when it reaches zero with all bracket counters
/// zero the call closes, otherwise it is appended literally. Each bracket
/// character counts its own nesting and is appended; a closer whose counter
/// is already zero is dropped, its counter clamped. Exhaustion, and a
/// character no rule classifies, append an `EOF` marker to the current
/// buffer and close the call. Everything else is appended literally.
pub open spec fn spec_group_args(
    s: Seq<char>,
    pos: int,
    end: bool,
    unexpected: Option<char>,
    angle: int,
    paren: int,
    bracket: int,
    brace: int,
    args: Seq<Seq<TokenView>>,
    cur: Seq<TokenView>,
) -> GroupStep
    decreases s.len() - pos, 1int,
        when 0 <= pos <= s.len()
{
    let r = spec_scan(s, pos, end, unexpected, true, true);
    if !(pos < r.pos && r.pos <= s.len()) || r.token is None || r.token == Some(TokenView::EOF) {
        GroupStep {
            args: args.push(cur.push(TokenView::EOF)),
            pos: r.pos,
            end: r.end,
            unexpected: r.unexpected,
        }
    } else {
        let t = r.token->0;
        match t {
            TokenView::Comma => {
                if paren > 0 || bracket > 0 || brace > 0 {
                    spec_group_args(
                        s,
                        r.pos,
                        r.end,
                        r.unexpected,
                        angle,
                        paren,
                        bracket,
                        brace,
                        args,
                        cur.push(TokenView::Comma),
                    )
                } else if angle == 0 || angle == 1 {
                    spec_group_args(
                        s,
                        r.pos,
                        r.end,
                        r.unexpected,
                        angle,
                        paren,
                        bracket,
                        brace,
                        close_slot(args, cur),
                        Seq::empty(),
                    )
                } else {
                    spec_group_args(
                        s,
                        r.pos,
                        r.end,
                        r.unexpected,
                        angle,
                        paren,
                        bracket,
                        brace,
                        args,
                        cur.push(TokenView::Comma),
                    )
                }
            },
            TokenView::LeftFuncParen => spec_group_args(
                s,
                r.pos,
                r.end,
                r.unexpected,
                angle + 1,
                paren,
                bracket,
                brace,
                args,
                if angle + 1 > 1 {
                    cur.push(TokenView::LeftFuncParen)
                } else {
                    cur
                },
            ),
            TokenView::RightFuncParen => {
                if angle - 1 == 0 && paren == 0 && bracket == 0 && brace == 0 {
                    GroupStep {
                        args: close_slot(args, cur),
                        pos: r.pos,
                        end: r.end,
                        unexpected: r.unexpected,
                    }
                } else {
                    spec_group_args(
                        s,
                        r.pos,
                        r.end,
                        r.unexpected,
                        angle - 1,
                        paren,
                        bracket,
                        brace,
                        args,
                        cur.push(TokenView::RightFuncParen),
                    )
                }
            },
            TokenView::LeftSmallParen => spec_group_args(
                s,
                r.pos,
                r.end,
                r.unexpected,
                angle,
                paren + 1,
                bracket,
                brace,
                args,
                cur.push(TokenView::LeftSmallParen),
            ),
            TokenView::RightSmallParen => {
                if paren > 0 {
                    spec_group_args(
                        s,
                        r.pos,
                        r.end,
                        r.unexpected,
                        angle,
                        paren - 1,
                        bracket,
                        brace,
                        args,
                        cur.push(TokenView::RightSmallParen),
                    )
                } else {
                    spec_group_args(
                        s,
                        r.pos,
                        r.end,
                        r.unexpected,
                        angle,
                        paren,
                        bracket,
                        brace,
                        args,
                        cur,
                    )
                }
            },
            TokenView::LeftMidParen => spec_group_args(
                s,
                r.pos,
                r.end,
                r.unexpected,
                angle,
                paren,
                bracket + 1,
                brace,
                args,
                cur.push(TokenView::LeftMidParen),
            ),
            TokenView::RightMidParen => {
                if bracket > 0 {
                    spec_group_args(
                        s,
                        r.pos,
                        r.end,
                        r.unexpected,
                        angle,
                        paren,
                        bracket - 1,
                        brace,
                        args,
                        cur.push(TokenView::RightMidParen),
                    )
                } else {
                    spec_group_args(
                        s,
                        r.pos,
                        r.end,
                        r.unexpected,
                        angle,
                        paren,
                        bracket,
                        brace,
                        args,
                        cur,
                    )
                }
            },
            TokenView::LeftBigParen => spec_group_args(
                s,
                r.pos,
                r.end,
                r.unexpected,
                angle,
                paren,
                bracket,
                brace + 1,
                args,
                cur.push(TokenView::LeftBigParen),
            ),
            TokenView::RightBigParen => {
                if brace > 0 {
                    spec_group_args(
                        s,
                        r.pos,
                        r.end,
                        r.unexpected,
                        angle,
                        paren,
                        bracket,
                        brace - 1,
                        args,
                        cur.push(TokenView::RightBigParen),
                    )
                } else {
                    spec_group_args(
                        s,
                        r.pos,
                        r.end,
                        r.unexpected,
                        angle,
                        paren,
                        bracket,
                        brace,
                        args,
                        cur,
                    )
                }
            },
            _ => spec_group_args(
                s,
                r.pos,
                r.end,
                r.unexpected,
                angle,
                paren,
                bracket,
                brace,
                args,
                cur.push(t),
            ),
        }
    }
}

/// The whole stream a state still yields: every token up to and including
/// the one on which the scanner stops handing tokens out, with the state the
/// stream stops in.
pub ghost struct StreamStep {
    pub tokens: Seq<TokenView>,
    pub pos: int,
    pub end: bool,
    pub unexpected: Option<char>,
}

/// Repeated top-level pulls (no comma- or `>`-visibility) until no token
/// comes back.
pub open spec fn spec_stream(s: Seq<char>, pos: int, end: bool, unexpected: Option<char>) -> StreamStep
    decreases s.len() - pos, (if end { 0int } else { 1int }),
        when 0 <= pos <= s.len()
{
    let r = spec_scan(s, pos, end, unexpected, false, false);
    match r.token {
        None => StreamStep { tokens: Seq::empty(), pos: r.pos, end: r.end, unexpected: r.unexpected },
        Some(t) => {
            if pos < r.pos && r.pos <= s.len() {
                let rest = spec_stream(s, r.pos, r.end, r.unexpected);
                StreamStep {
                    tokens: seq![t] + rest.tokens,
                    pos: rest.pos,
                    end: rest.end,
                    unexpected: rest.unexpected,
                }
            } else if !end && r.end && pos == r.pos {
                let rest = spec_stream(s, r.pos, true, r.unexpected);
                StreamStep {
                    tokens: seq![t] + rest.tokens,
                    pos: rest.pos,
                    end: rest.end,
                    unexpected: rest.unexpected,
                }
            } else {
                StreamStep { tokens: seq![t], pos: r.pos, end: r.end, unexpected: r.unexpected }
            }
        },
    }
}

/// The full token stream of an input, pulled from the starting state.
pub open spec fn spec_tokenize(s: Seq<char>) -> Seq<TokenView> {
    spec_stream(s, 0, false, None).tokens
}

/// Basic facts about one pull: the position moves forward and stays in
/// bounds, an exhausted scanner stays put, a recorded unexpected character
/// is never cleared nor displaced, `EOF` comes only at exhaustion, and a
/// pull that produces no token from a live scanner has recorded a
/// character.
pub proof fn lemma_scan_basic(
    s: Seq<char>,
    pos: int,
    end: bool,
    unexpected: Option<char>,
    inc_comma: bool,
    inc_rfp: bool,
)
    requires
        0 <= pos <= s.len(),
    ensures
        ({
            let r = spec_scan(s, pos, end, unexpected, inc_comma, inc_rfp);
            &&& pos <= r.pos <= s.len()
            &&& (end ==> r == ScanStep { token: None, pos, end, unexpected })
            &&& (end ==> r.end)
            &&& (unexpected is Some ==> r.unexpected == unexpected)
            &&& (!end && r.token is None ==> r.pos > pos && r.unexpected is Some && r.end
                == end)
            &&& (r.token == Some(TokenView::EOF) ==> r.end && r.pos == s.len())
            &&& (!end && r.token is Some && r.token != Some(TokenView::EOF) ==> r.pos > pos)
        }),
    decreases s.len() - pos, 0int,
{
    let r = spec_scan(s, pos, end, unexpected, inc_comma, inc_rfp);
    if end {
    } else if pos >= s.len() {
    } else {
        let c = s[pos];
        if is_ws_char(c) {
            lemma_scan_basic(s, pos + 1, end, unexpected, inc_comma, inc_rfp);
        } else if is_digit_char(c) {
            lemma_digit_run_end(s, pos);
        } else if is_alpha_char(c) {
            lemma_word_run_end(s, pos);
            let j = word_run_end(s, pos);
            if j < s.len() && s[j] == '<' {
                lemma_group_basic(
                    s,
                    j,
                    end,
                    unexpected,
                    0,
                    0,
                    0,
                    0,
                    Seq::empty(),
                    Seq::empty(),
                );
            }
        } else if is_single_char(c) {
        } else if c == ',' {
            if !inc_comma {
                lemma_scan_basic(s, pos + 1, end, unexpected, inc_comma, inc_rfp);
            }
        } else if c == '>' {
            if !inc_rfp {
                lemma_scan_basic(s, pos + 1, end, unexpected, inc_comma, inc_rfp);
            }
        }
    }
}

/// Basic facts about grouping: the position moves within bounds, an
/// exhausted scanner stays put, and a recorded unexpected character is
/// never cleared nor displaced.
pub proof fn lemma_group_basic(
    s: Seq<char>,
    pos: int,
    end: bool,
    unexpected: Option<char>,
    angle: int,
    paren: int,
    bracket: int,
    brace: int,
    args: Seq<Seq<TokenView>>,
    cur: Seq<TokenView>,
)
    requires
        0 <= pos <= s.len(),
    ensures
        ({
            let g = spec_group_args(
                s,
                pos,
                end,
                unexpected,
                angle,
                paren,
                bracket,
                brace,
                args,
                cur,
            );
            &&& pos <= g.pos <= s.len()
            &&& (end ==> g.pos == pos && g.end == end && g.unexpected == unexpected)
            &&& (unexpected is Some ==> g.unexpected == unexpected)
        }),
    decreases s.len() - pos, 1int,
{
    let r = spec_scan(s, pos, end, unexpected, true, true);
    lemma_scan_basic(s, pos, end, unexpected, true, true);
    if !(pos < r.pos && r.pos <= s.len()) || r.token is None || r.token == Some(TokenView::EOF) {
    } else {
        let t = r.token->0;
        match t {
            TokenView::Comma => {
                if paren > 0 || bracket > 0 || brace > 0 {
                    lemma_group_basic(
                        s,
                        r.pos,
                        r.end,
                        r.unexpected,
                        angle,
                        paren,
                        bracket,
                        brace,
                        args,
                        cur.push(TokenView::Comma),
                    );
                } else if angle == 0 || angle == 1 {
                    lemma_group_basic(
                        s,
                        r.pos,
                        r.end,
                        r.unexpected,
                        angle,
                        paren,
                        bracket,
                        brace,
                        close_slot(args, cur),
                        Seq::empty(),
                    );
                } else {
                    lemma_group_basic(
                        s,
                        r.pos,
                        r.end,
                        r.unexpected,
                        angle,
                        paren,
                        bracket,
                        brace,
                        args,
                        cur.push(TokenView::Comma),
                    );
                }
            },
            TokenView::LeftFuncParen => {
                lemma_group_basic(
                    s,
                    r.pos,
                    r.end,
                    r.unexpected,
                    angle + 1,
                    paren,
                    bracket,
                    brace,
                    args,
                    if angle + 1 > 1 {
                        cur.push(TokenView::LeftFuncParen)
                    } else {
                        cur
                    },
                );
            },
            TokenView::RightFuncParen => {
                if !(angle - 1 == 0 && paren == 0 && bracket == 0 && brace == 0) {
                    lemma_group_basic(
                        s,
                        r.pos,
                        r.end,
                        r.unexpected,
                        angle - 1,
                        paren,
                        bracket,
                        brace,
                        args,
                        cur.push(TokenView::RightFuncParen),
                    );
                }
            },
            TokenView::LeftSmallParen => {
                lemma_group_basic(
                    s,
                    r.pos,
                    r.end,
                    r.unexpected,
                    angle,
                    paren + 1,
                    bracket,
                    brace,
                    args,
                    cur.push(TokenView::LeftSmallParen),
                );
            },
            TokenView::RightSmallParen => {
                if paren > 0 {
                    lemma_group_basic(
                        s,
                        r.pos,
                        r.end,
                        r.unexpected,
                        angle,
                        paren - 1,
                        bracket,
                        brace,
                        args,
                        cur.push(TokenView::RightSmallParen),
                    );
                } else {
                    lemma_group_basic(
                        s,
                        r.pos,
                        r.end,
                        r.unexpected,
                        angle,
                        paren,
                        bracket,
                        brace,
                        args,
                        cur,
                    );
                }
            },
            TokenView::LeftMidParen => {
                lemma_group_basic(
                    s,
                    r.pos,
                    r.end,
                    r.unexpected,
                    angle,
                    paren,
                    bracket + 1,
                    brace,
                    args,
                    cur.push(TokenView::LeftMidParen),
                );
            },
            TokenView::RightMidParen => {
                if bracket > 0 {
                    lemma_group_basic(
                        s,
                        r.pos,
                        r.end,
                        r.unexpected,
                        angle,
                        paren,
                        bracket - 1,
                        brace,
                        args,
                        cur.push(TokenView::RightMidParen),
                    );
                } else {
                    lemma_group_basic(
                        s,
                        r.pos,
                        r.end,
                        r.unexpected,
                        angle,
                        paren,
                        bracket,
                        brace,
                        args,
                        cur,
                    );
                }
            },
            TokenView::LeftBigParen => {
                lemma_group_basic(
                    s,
                    r.pos,
                    r.end,
                    r.unexpected,
                    angle,
                    paren,
                    bracket,
                    brace + 1,
                    args,
                    cur.push(TokenView::LeftBigParen),
                );
            },
            TokenView::RightBigParen => {
                if brace > 0 {
                    lemma_group_basic(
                        s,
                        r.pos,
                        r.end,
                        r.unexpected,
                        angle,
                        paren,
                        bracket,
                        brace - 1,
                        args,
                        cur.push(TokenView::RightBigParen),
                    );
                } else {
                    lemma_group_basic(
                        s,
                        r.pos,
                        r.end,
                        r.unexpected,
                        angle,
                        paren,
                        bracket,
                        brace,
                        args,
                        cur,
                    );
                }
            },
            _ => {
                lemma_group_basic(
                    s,
                    r.pos,
                    r.end,
                    r.unexpected,
                    angle,
                    paren,
                    bracket,
                    brace,
                    args,
                    cur.push(t),
                );
            },
        }
    }
}

/// The value of an optional token.
pub open spec fn opt_token_view(t: Option<Token>) -> Option<TokenView> {
    match t {
        None => None,
        Some(x) => Some(token_view(x)),
    }
}

/// Relies on String::push: appends one character at the end of the string.
#[verifier::external_body]
fn push_char(s: &mut String, c: char)
    ensures
        final(s)@ == old(s)@.push(c),
{
    s.push(c);
}

/// Whitespace test, as `is_ws_char` has it.
fn ws_char(c: char) -> (b: bool)
    ensures
        b == is_ws_char(c),
{
    let u = c as u32;
    (9 <= u && u <= 13) || u == 32 || u == 133 || u == 160 || u == 8232 || u == 8233 || u == 8239
        || u == 12288 || u == 5760 || (8192 <= u && u <= 8202) || u == 8287
}

/// Decimal-digit test, as `is_digit_char` has it.
fn digit_char(c: char) -> (b: bool)
    ensures
        b == is_digit_char(c),
{
    let u = c as u32;
    48 <= u && u <= 57
}

/// ASCII-letter test, as `is_alpha_char` has it.
fn alpha_char(c: char) -> (b: bool)
    ensures
        b == is_alpha_char(c),
{
    let u = c as u32;
    (97 <= u && u <= 122) || (65 <= u && u <= 90)
}

/// Single-character operator or bracket test, as `is_single_char` has it.
fn single_char(c: char) -> (b: bool)
    ensures
        b == is_single_char(c),
{
    c == '+' || c == '-' || c == '*' || c == '/' || c == '^' || c == '(' || c == ')' || c == '['
        || c == ']' || c == '{' || c == '}'
}

/// The token of a single operator or bracket character.
fn single_token(c: char) -> (t: Token)
    requires
        is_single_char(c),
    ensures
        token_view(t) == single_char_token(c),
{
    if c == '+' {
        Token::Add
    } else if c == '-' {
        Token::Sub
    } else if c == '*' {
        Token::Mul
    } else if c == '/' {
        Token::Div
    } else if c == '^' {
        Token::Caret
    } else if c == '(' {
        Token::LeftSmallParen
    } else if c == ')' {
        Token::RightSmallParen
    } else if c == '[' {
        Token::LeftMidParen
    } else if c == ']' {
        Token::RightMidParen
    } else if c == '{' {
        Token::LeftBigParen
    } else {
        Token::RightBigParen
    }
}

/// The end of the maximal digit run from `start`.
fn find_digit_run_end(chars: &Vec<char>, start: usize) -> (e: usize)
    requires
        start <= chars@.len(),
    ensures
        e == digit_run_end(chars@, start as int),
        start <= e <= chars@.len(),
    decreases chars@.len() - start,
{
    proof {
        lemma_digit_run_end(chars@, start as int);
    }
    if start < chars.len() {
        let c = chars[start];
        if digit_char(c) {
            return find_digit_run_end(chars, start + 1);
        }
    }
    start
}

/// A tokenizer that parses an expression string into a sequence of tokens.
///
/// Repeated calls to `next` hand out one token per call until exactly one
/// `EOF` has been returned; pulls after that return nothing. The scan
/// position, the exhaustion flag and the first character no token rule
/// could classify make up the whole state.
#[derive(Debug, Clone)]
pub struct Tokenizer {
    pub chars: Vec<char>,
    pub pos: usize,
    pub end: bool,
    pub unexpected_char: Option<char>,
}

/// The state of a tokenizer: the input characters, the cursor, the
/// exhaustion flag, and the first unexpected character.
pub ghost struct TokenizerView {
    pub input: Seq<char>,
    pub pos: int,
    pub end: bool,
    pub unexpected: Option<char>,
}

impl View for Tokenizer {
    type V = TokenizerView;

    open spec fn view(&self) -> TokenizerView {
        TokenizerView {
            input: self.chars@,
            pos: self.pos as int,
            end: self.end,
            unexpected: self.unexpected_char,
        }
    }
}

impl Tokenizer {
    /// The cursor stands inside the input.
    pub open spec fn wf(&self) -> bool {
        self.pos <= self.chars@.len()
    }

    /// Creates a tokenizer over the given expression.
    ///
    /// Construction succeeds exactly when the first pull would produce a
    /// token, and the engine is then positioned at that first token. It
    /// fails exactly when no token at all can be produced, and then carries
    /// the first character that no token rule classifies.
    pub fn new(expression: &str) -> (r: Result<Tokenizer, CalcError>)
        ensures
            ({
                let first = spec_scan(expression@, 0, false, None, false, false);
                match r {
                    Ok(tk) => {
                        &&& tk.wf()
                        &&& tk@.input == expression@
                        &&& tk@.pos == 0
                        &&& tk@.end == false
                        &&& tk@.unexpected is None
                        &&& first.token is Some
                    },
                    Err(e) => {
                        &&& first.token is None
                        &&& first.unexpected is Some
                        &&& e == CalcError::UnexpectedChar(first.unexpected->0)
                    },
                }
            }),
    {
        let n = expression.unicode_len();
        let mut chars: Vec<char> = Vec::new();
        let mut i: usize = 0;
        while i < n
            invariant
                i <= n,
                n == expression@.len(),
                chars@ == expression@.subrange(0, i as int),
            decreases n - i,
        {
            let c = expression.get_char(i);
            chars.push(c);
            proof {
                assert(chars@ =~= expression@.subrange(0, i + 1 as int));
            }
            i = i + 1;
        }
        proof {
            assert(chars@ =~= expression@);
        }
        let mut tk = Tokenizer { chars, pos: 0, end: false, unexpected_char: None };
        let first = tk.next_token_internal(false, false);
        match first {
            Some(_) => {
                tk.pos = 0;
                tk.end = false;
                tk.unexpected_char = None;
                Ok(tk)
            },
            None => {
                proof {
                    lemma_scan_basic(expression@, 0, false, None, false, false);
                }
                match tk.unexpected_char {
                    Some(c) => Err(CalcError::UnexpectedChar(c)),
                    None => vstd::pervasive::unreached(),
                }
            },
        }
    }

    /// The first character that no token rule could classify, if the scan
    /// has met one.
    pub fn get_unexpected_char(&self) -> (r: Option<char>)
        ensures
            r == self@.unexpected,
    {
        self.unexpected_char
    }

    /// Whether the tokenizer has handed out its `EOF` token.
    pub fn is_end(&self) -> (r: bool)
        ensures
            r == self@.end,
    {
        self.end
    }

    /// Whether the character under the cursor opens a function call.
    pub fn judge_function_part(&mut self) -> (b: bool)
        ensures
            *final(self) == *old(self),
            b == (old(self)@.pos < old(self)@.input.len() && old(self)@.input[old(self)@.pos]
                == '<'),
    {
        self.pos < self.chars.len() && self.chars[self.pos] == '<'
    }

    /// Consumes one character, if any is left.
    pub fn stepping_expression(&mut self)
        ensures
            final(self)@.input == old(self)@.input,
            final(self)@.end == old(self)@.end,
            final(self)@.unexpected == old(self)@.unexpected,
            final(self)@.pos == if old(self)@.pos < old(self)@.input.len() {
                old(self)@.pos + 1
            } else {
                old(self)@.pos
            },
    {
        if self.pos < self.chars.len() {
            self.pos = self.pos + 1;
        }
    }

    /// Collects the letters of an identifier whose first letter
    /// `initial_char` was already consumed: the cursor moves over every
    /// following letter or whitespace character, and the letters are kept.
    pub fn collect_alphabetic_chars(&mut self, initial_char: char) -> (words: String)
        requires
            old(self).wf(),
        ensures
            final(self).wf(),
            final(self)@.input == old(self)@.input,
            final(self)@.end == old(self)@.end,
            final(self)@.unexpected == old(self)@.unexpected,
            final(self)@.pos == word_run_end(old(self)@.input, old(self)@.pos),
            words@ == seq![initial_char] + word_chars(
                old(self)@.input,
                old(self)@.pos,
                word_run_end(old(self)@.input, old(self)@.pos),
            ),
    {
        let mut words = String::new();
        push_char(&mut words, initial_char);
        let rest = self.collect_word();
        words.append(rest.as_str());
        proof {
            assert(words@ =~= seq![initial_char] + word_chars(
                old(self)@.input,
                old(self)@.pos,
                word_run_end(old(self)@.input, old(self)@.pos),
            ));
        }
        words
    }

    /// Collects the letters from the cursor to the end of the current
    /// letters-and-whitespace run.
    fn collect_word(&mut self) -> (r: String)
        requires
            old(self).wf(),
        ensures
            final(self).wf(),
            final(self)@.input == old(self)@.input,
            final(self)@.end == old(self)@.end,
            final(self)@.unexpected == old(self)@.unexpected,
            final(self)@.pos == word_run_end(old(self)@.input, old(self)@.pos),
            r@ == word_chars(
                old(self)@.input,
                old(self)@.pos,
                word_run_end(old(self)@.input, old(self)@.pos),
            ),
        decreases old(self)@.input.len() - old(self)@.pos,
    {
        proof {
            lemma_word_run_end(self.chars@, self.pos as int);
        }
        if self.pos < self.chars.len() {
            let c = self.chars[self.pos];
            if alpha_char(c) {
                self.pos = self.pos + 1;
                let rest = self.collect_word();
                let mut out = String::new();
                push_char(&mut out, c);
                out.append(rest.as_str());
                proof {
                    assert(out@ =~= word_chars(
                        old(self)@.input,
                        old(self)@.pos,
                        word_run_end(old(self)@.input, old(self)@.pos),
                    ));
                }
                return out;
            }
            if ws_char(c) {
                self.pos = self.pos + 1;
                return self.collect_word();
            }
        }
        String::new()
    }

    /// Returns the next token at top level: commas and bare `>` are
    /// meaningless outside function grouping and are skipped, not emitted.
    pub fn next(&mut self) -> (t: Option<Token>)
        requires
            old(self).wf(),
        ensures
            final(self).wf(),
            final(self)@.input == old(self)@.input,
            ({
                let r = spec_scan(
                    old(self)@.input,
                    old(self)@.pos,
                    old(self)@.end,
                    old(self)@.unexpected,
                    false,
                    false,
                );
                &&& opt_token_view(t) == r.token
                &&& final(self)@.pos == r.pos
                &&& final(self)@.end == r.end
                &&& final(self)@.unexpected == r.unexpected
            }),
    {
        self.next_token_internal(false, false)
    }

    /// Returns the next token for function grouping, with comma- and
    /// `>`-visibility switched on.
    fn next_token_for_parse(&mut self) -> (t: Option<Token>)
        requires
            old(self).wf(),
        ensures
            final(self).wf(),
            final(self)@.input == old(self)@.input,
            ({
                let r = spec_scan(
                    old(self)@.input,
                    old(self)@.pos,
                    old(self)@.end,
                    old(self)@.unexpected,
                    true,
                    true,
                );
                &&& opt_token_view(t) == r.token
                &&& final(self)@.pos == r.pos
                &&& final(self)@.end == r.end
                &&& final(self)@.unexpected == r.unexpected
            }),
        decreases old(self)@.input.len() - old(self)@.pos, 1int,
    {
        self.next_token_internal(true, true)
    }

    /// Returns the next token, with configurable visibility of `,` and `>`:
    /// each is emitted when asked for and skipped otherwise.
    fn next_token_internal(&mut self, inc_comma: bool, inc_rfp: bool) -> (t: Option<Token>)
        requires
            old(self).wf(),
        ensures
            final(self).wf(),
            final(self)@.input == old(self)@.input,
            ({
                let r = spec_scan(
                    old(self)@.input,
                    old(self)@.pos,
                    old(self)@.end,
                    old(self)@.unexpected,
                    inc_comma,
                    inc_rfp,
                );
                &&& opt_token_view(t) == r.token
                &&& final(self)@.pos == r.pos
                &&& final(self)@.end == r.end
                &&& final(self)@.unexpected == r.unexpected
            }),
        decreases old(self)@.input.len() - old(self)@.pos, 0int,
    {
        if self.end {
            return None;
        }
        if self.pos >= self.chars.len() {
            self.end = true;
            return Some(Token::EOF);
        }
        let c = self.chars[self.pos];
        if ws_char(c) {
            self.pos = self.pos + 1;
            return self.next_token_internal(inc_comma, inc_rfp);
        }
        if digit_char(c) {
            let e = find_digit_run_end(&self.chars, self.pos);
            let ghost start = self.pos as int;
            let mut number = String::new();
            while self.pos < e
                invariant
                    0 <= start <= self.pos as int <= e,
                    self@.input == old(self)@.input,
                    self@.end == old(self)@.end,
                    self@.unexpected == old(self)@.unexpected,
                    e == digit_run_end(self.chars@, start),
                    e <= self.chars@.len(),
                    number@ == self.chars@.subrange(start, self.pos as int),
                decreases e - self.pos,
            {
                let d = self.chars[self.pos];
                push_char(&mut number, d);
                self.pos = self.pos + 1;
                proof {
                    assert(number@ =~= self.chars@.subrange(start, self.pos as int));
                }
            }
            return Some(Token::Number(number));
        }
        if alpha_char(c) {
            self.pos = self.pos + 1;
            let words = self.collect_alphabetic_chars(c);
            proof {
                lemma_word_run_end(self.chars@, old(self)@.pos);
            }
            if self.judge_function_part() {
                return Some(self.parse_function(words));
            } else {
                return Some(Token::Variable(words));
            }
        }
        if single_char(c) {
            self.pos = self.pos + 1;
            return Some(single_token(c));
        }
        if c == ',' {
            self.pos = self.pos + 1;
            if inc_comma {
                return Some(Token::Comma);
            } else {
                return self.next_token_internal(inc_comma, inc_rfp);
            }
        }
        if c == '>' {
            self.pos = self.pos + 1;
            if inc_rfp {
                return Some(Token::RightFuncParen);
            } else {
                return self.next_token_internal(inc_comma, inc_rfp);
            }
        }
        if c == '<' {
            self.pos = self.pos + 1;
            return Some(Token::LeftFuncParen);
        }
        self.pos = self.pos + 1;
        if self.unexpected_char.is_none() {
            self.unexpected_char = Some(c);
        }
        None
    }

    /// Parses a function call's arguments, entered with the function name
    /// consumed and the cursor at the call's own `<`. The slots are grouped
    /// by the counter discipline of `spec_group_args`, and the whole call
    /// becomes one opaque `Function` token.
    fn parse_function(&mut self, func_name: String) -> (t: Token)
        requires
            old(self).wf(),
            !old(self)@.end,
        ensures
            final(self).wf(),
            final(self)@.input == old(self)@.input,
            ({
                let g = spec_group_args(
                    old(self)@.input,
                    old(self)@.pos,
                    old(self)@.end,
                    old(self)@.unexpected,
                    0,
                    0,
                    0,
                    0,
                    Seq::empty(),
                    Seq::empty(),
                );
                &&& token_view(t) == (TokenView::Function { name: func_name@, args: g.args })
                &&& final(self)@.pos == g.pos
                &&& final(self)@.end == g.end
                &&& final(self)@.unexpected == g.unexpected
            }),
        decreases old(self)@.input.len() - old(self)@.pos, 3int,
    {
        let args = self.group_args(0, 0, 0, 0, Vec::new(), Vec::new());
        Token::Function { function_prefix: func_name, args }
    }

    /// The grouping loop behind `parse_function`, one recursive call per
    /// pulled token.
    fn group_args(
        &mut self,
        angle: i128,
        paren: i128,
        bracket: i128,
        brace: i128,
        args: Vec<Vec<Token>>,
        cur: Vec<Token>,
    ) -> (out: Vec<Vec<Token>>)
        requires
            old(self).wf(),
            -(old(self)@.pos + 1) <= angle as int <= old(self)@.pos + 1,
            0 <= paren as int <= old(self)@.pos + 1,
            0 <= bracket as int <= old(self)@.pos + 1,
            0 <= brace as int <= old(self)@.pos + 1,
        ensures
            final(self).wf(),
            final(self)@.input == old(self)@.input,
            ({
                let g = spec_group_args(
                    old(self)@.input,
                    old(self)@.pos,
                    old(self)@.end,
                    old(self)@.unexpected,
                    angle as int,
                    paren as int,
                    bracket as int,
                    brace as int,
                    args_view(args),
                    token_vec_view(cur),
                );
                &&& args_view(out) == g.args
                &&& final(self)@.pos == g.pos
                &&& final(self)@.end == g.end
                &&& final(self)@.unexpected == g.unexpected
            }),
        decreases old(self)@.input.len() - old(self)@.pos, 2int,
    {
        let ghost pre = old(self)@;
        let mut args = args;
        let mut cur = cur;
        let tok = self.next_token_for_parse();
        proof {
            lemma_scan_basic(pre.input, pre.pos, pre.end, pre.unexpected, true, true);
            lemma_tokens_view_props(cur@);
            lemma_arg_seqs_view_props(args@);
        }
        let hit_eof = match &tok {
            Some(Token::EOF) => true,
            None => true,
            _ => false,
        };
        if hit_eof {
            proof {
                lemma_tokens_view_push(cur@, Token::EOF);
            }
            cur.push(Token::EOF);
            proof {
                lemma_arg_seqs_view_push(args@, cur);
            }
            args.push(cur);
            return args;
        }
        let t = match tok {
            Some(t) => t,
            None => vstd::pervasive::unreached(),
        };
        match t {
            Token::Comma => {
                if paren > 0 || bracket > 0 || brace > 0 {
                    proof {
                        lemma_tokens_view_push(cur@, Token::Comma);
                    }
                    cur.push(Token::Comma);
                    self.group_args(angle, paren, bracket, brace, args, cur)
                } else if angle == 0 || angle == 1 {
                    let closed = push_slot(args, cur);
                    self.group_args(angle, paren, bracket, brace, closed, Vec::new())
                } else {
                    proof {
                        lemma_tokens_view_push(cur@, Token::Comma);
                    }
                    cur.push(Token::Comma);
                    self.group_args(angle, paren, bracket, brace, args, cur)
                }
            },
            Token::LeftFuncParen => {
                if angle + 1 > 1 {
                    proof {
                        lemma_tokens_view_push(cur@, Token::LeftFuncParen);
                    }
                    cur.push(Token::LeftFuncParen);
                }
                self.group_args(angle + 1, paren, bracket, brace, args, cur)
            },
            Token::RightFuncParen => {
                if angle - 1 == 0 && paren == 0 && bracket == 0 && brace == 0 {
                    push_slot(args, cur)
                } else {
                    proof {
                        lemma_tokens_view_push(cur@, Token::RightFuncParen);
                    }
                    cur.push(Token::RightFuncParen);
                    self.group_args(angle - 1, paren, bracket, brace, args, cur)
                }
            },
            Token::LeftSmallParen => {
                proof {
                    lemma_tokens_view_push(cur@, Token::LeftSmallParen);
                }
                cur.push(Token::LeftSmallParen);
                self.group_args(angle, paren + 1, bracket, brace, args, cur)
            },
            Token::RightSmallParen => {
                if paren > 0 {
                    proof {
                        lemma_tokens_view_push(cur@, Token::RightSmallParen);
                    }
                    cur.push(Token::RightSmallParen);
                    self.group_args(angle, paren - 1, bracket, brace, args, cur)
                } else {
                    self.group_args(angle, paren, bracket, brace, args, cur)
                }
            },
            Token::LeftMidParen => {
                proof {
                    lemma_tokens_view_push(cur@, Token::LeftMidParen);
                }
                cur.push(Token::LeftMidParen);
                self.group_args(angle, paren, bracket + 1, brace, args, cur)
            },
            Token::RightMidParen => {
                if bracket > 0 {
                    proof {
                        lemma_tokens_view_push(cur@, Token::RightMidParen);
                    }
                    cur.push(Token::RightMidParen);
                    self.group_args(angle, paren, bracket - 1, brace, args, cur)
                } else {
                    self.group_args(angle, paren, bracket, brace, args, cur)
                }
            },
            Token::LeftBigParen => {
                proof {
                    lemma_tokens_view_push(cur@, Token::LeftBigParen);
                }
                cur.push(Token::LeftBigParen);
                self.group_args(angle, paren, bracket, brace + 1, args, cur)
            },
            Token::RightBigParen => {
                if brace > 0 {
                    proof {
                        lemma_tokens_view_push(cur@, Token::RightBigParen);
                    }
                    cur.push(Token::RightBigParen);
                    self.group_args(angle, paren, bracket, brace - 1, args, cur)
                } else {
                    self.group_args(angle, paren, bracket, brace, args, cur)
                }
            },
            other => {
                proof {
                    lemma_tokens_view_push(cur@, other);
                }
                cur.push(other);
                self.group_args(angle, paren, bracket, brace, args, cur)
            },
        }
    }

    /// Pulls every remaining token, in order, until the stream stops.
    pub fn collect_tokens(&mut self) -> (v: Vec<Token>)
        requires
            old(self).wf(),
        ensures
            final(self).wf(),
            final(self)@.input == old(self)@.input,
            ({
                let st = spec_stream(
                    old(self)@.input,
                    old(self)@.pos,
                    old(self)@.end,
                    old(self)@.unexpected,
                );
                &&& tokens_view(v@) == st.tokens
                &&& final(self)@.pos == st.pos
                &&& final(self)@.end == st.end
                &&& final(self)@.unexpected == st.unexpected
            }),
    {
        let ghost whole = spec_stream(
            old(self)@.input,
            old(self)@.pos,
            old(self)@.end,
            old(self)@.unexpected,
        );
        let mut v: Vec<Token> = Vec::new();
        loop
            invariant_except_break
                ({
                    let rest = spec_stream(self@.input, self@.pos, self@.end, self@.unexpected);
                    &&& whole.tokens == tokens_view(v@) + rest.tokens
                    &&& whole.pos == rest.pos
                    &&& whole.end == rest.end
                    &&& whole.unexpected == rest.unexpected
                }),
            invariant
                self.wf(),
                self@.input == old(self)@.input,
            ensures
                self.wf(),
                self@.input == old(self)@.input,
                tokens_view(v@) == whole.tokens,
                self@.pos == whole.pos,
                self@.end == whole.end,
                self@.unexpected == whole.unexpected,
            decreases
                    self@.input.len() - self@.pos,
                    (if self@.end {
                        0int
                    } else {
                        1int
                    }),
        {
            let ghost at = self@;
            let t = self.next();
            proof {
                lemma_scan_basic(at.input, at.pos, at.end, at.unexpected, false, false);
            }
            match t {
                None => {
                    proof {
                        assert(tokens_view(v@) + Seq::<TokenView>::empty() =~= tokens_view(v@));
                    }
                    break ;
                },
                Some(t) => {
                    proof {
                        lemma_tokens_view_push(v@, t);
                        let r = spec_scan(at.input, at.pos, at.end, at.unexpected, false, false);
                        let rest = spec_stream(at.input, r.pos, r.end, r.unexpected);
                        assert(tokens_view(v@) + (seq![token_view(t)] + rest.tokens) =~= tokens_view(
                            v@.push(t),
                        ) + rest.tokens);
                    }
                    v.push(t);
                },
            }
        }
        v
    }
}

/// How many `EOF` markers a token holds, nested argument slots included.
pub open spec fn eof_count(t: TokenView) -> nat
    decreases t,
{
    match t {
        TokenView::EOF => 1nat,
        TokenView::Function { name, args } => eof_count_args(args),
        _ => 0nat,
    }
}

/// How many `EOF` markers a sequence of slots holds in all.
pub open spec fn eof_count_args(a: Seq<Seq<TokenView>>) -> nat
    decreases a,
{
    if a.len() == 0 {
        0nat
    } else {
        eof_count_tokens(a[0]) + eof_count_args(a.subrange(1, a.len() as int))
    }
}

/// How many `EOF` markers a token sequence holds in all, nested argument
/// slots included.
pub open spec fn eof_count_tokens(ts: Seq<TokenView>) -> nat
    decreases ts,
{
    if ts.len() == 0 {
        0nat
    } else {
        eof_count(ts[0]) + eof_count_tokens(ts.subrange(1, ts.len() as int))
    }
}

pub proof fn lemma_eof_count_tokens_push(ts: Seq<TokenView>, t: TokenView)
    ensures
        eof_count_tokens(ts.push(t)) == eof_count_tokens(ts) + eof_count(t),
    decreases ts.len(),
{
    reveal_with_fuel(eof_count_tokens, 3);
    if ts.len() == 0 {
        assert(ts.push(t)[0] == t);
        assert(ts.push(t).subrange(1, ts.push(t).len() as int) =~= Seq::<TokenView>::empty());
    } else {
        assert(ts.push(t)[0] == ts[0]);
        assert(ts.push(t).subrange(1, ts.push(t).len() as int) =~= ts.subrange(
            1,
            ts.len() as int,
        ).push(t));
        lemma_eof_count_tokens_push(ts.subrange(1, ts.len() as int), t);
    }
}

pub proof fn lemma_eof_count_args_push(a: Seq<Seq<TokenView>>, ts: Seq<TokenView>)
    ensures
        eof_count_args(a.push(ts)) == eof_count_args(a) + eof_count_tokens(ts),
    decreases a.len(),
{
    reveal_with_fuel(eof_count_args, 3);
    if a.len() == 0 {
        assert(a.push(ts)[0] == ts);
        assert(a.push(ts).subrange(1, a.push(ts).len() as int) =~= Seq::<Seq<TokenView>>::empty());
    } else {
        assert(a.push(ts)[0] == a[0]);
        assert(a.push(ts).subrange(1, a.push(ts).len() as int) =~= a.subrange(
            1,
            a.len() as int,
        ).push(ts));
        lemma_eof_count_args_push(a.subrange(1, a.len() as int), ts);
    }
}

/// While the scanner stays live and meets no unclassifiable character, the
/// tokens it hands out are free of `EOF` markers.
pub proof fn lemma_scan_eof_free(
    s: Seq<char>,
    pos: int,
    end: bool,
    unexpected: Option<char>,
    inc_comma: bool,
    inc_rfp: bool,
)
    requires
        0 <= pos <= s.len(),
    ensures
        ({
            let r = spec_scan(s, pos, end, unexpected, inc_comma, inc_rfp);
            (r.unexpected is None && !r.end) ==> match r.token {
                Some(t) => eof_count(t) == 0,
                None => true,
            }
        }),
    decreases s.len() - pos, 0int,
{
    let r = spec_scan(s, pos, end, unexpected, inc_comma, inc_rfp);
    if end {
    } else if pos >= s.len() {
    } else {
        let c = s[pos];
        if is_ws_char(c) {
            lemma_scan_eof_free(s, pos + 1, end, unexpected, inc_comma, inc_rfp);
        } else if is_digit_char(c) {
        } else if is_alpha_char(c) {
            lemma_word_run_end(s, pos);
            let j = word_run_end(s, pos);
            if j < s.len() && s[j] == '<' {
                lemma_group_eof_free(
                    s,
                    j,
                    end,
                    unexpected,
                    0,
                    0,
                    0,
                    0,
                    Seq::empty(),
                    Seq::empty(),
                );
                assert(eof_count_tokens(Seq::<TokenView>::empty()) == 0);
            }
        } else if is_single_char(c) {
        } else if c == ',' {
            if !inc_comma {
                lemma_scan_eof_free(s, pos + 1, end, unexpected, inc_comma, inc_rfp);
            }
        } else if c == '>' {
            if !inc_rfp {
                lemma_scan_eof_free(s, pos + 1, end, unexpected, inc_comma, inc_rfp);
            }
        }
    }
}

/// While grouping stays live and meets no unclassifiable character, the
/// slots it assembles hold exactly the `EOF` markers its buffers brought in.
pub proof fn lemma_group_eof_free(
    s: Seq<char>,
    pos: int,
    end: bool,
    unexpected: Option<char>,
    angle: int,
    paren: int,
    bracket: int,
    brace: int,
    args: Seq<Seq<TokenView>>,
    cur: Seq<TokenView>,
)
    requires
        0 <= pos <= s.len(),
    ensures
        ({
            let g = spec_group_args(
                s,
                pos,
                end,
                unexpected,
                angle,
                paren,
                bracket,
                brace,
                args,
                cur,
            );
            &&& ((g.unexpected is None && !g.end) ==> eof_count_args(g.args) == eof_count_args(
                args,
            ) + eof_count_tokens(cur))
            &&& (end ==> g.end)
            &&& (unexpected is Some ==> g.unexpected is Some)
        }),
    decreases s.len() - pos, 1int,
{
    let g = spec_group_args(s, pos, end, unexpected, angle, paren, bracket, brace, args, cur);
    let r = spec_scan(s, pos, end, unexpected, true, true);
    lemma_scan_basic(s, pos, end, unexpected, true, true);
    lemma_scan_eof_free(s, pos, end, unexpected, true, true);
    if !(pos < r.pos && r.pos <= s.len()) || r.token is None || r.token == Some(TokenView::EOF) {
        // the terminal branches set g.end, or record an unexpected
        // character, except when the scanner was exhausted at entry
        if g.unexpected is None && !g.end {
            assert(false);
        }
    } else {
        let t = r.token->0;
        match t {
            TokenView::Comma => {
                if paren > 0 || bracket > 0 || brace > 0 {
                    lemma_group_eof_free(
                        s,
                        r.pos,
                        r.end,
                        r.unexpected,
                        angle,
                        paren,
                        bracket,
                        brace,
                        args,
                        cur.push(TokenView::Comma),
                    );
                    lemma_eof_count_tokens_push(cur, TokenView::Comma);
                } else if angle == 0 || angle == 1 {
                    lemma_group_eof_free(
                        s,
                        r.pos,
                        r.end,
                        r.unexpected,
                        angle,
                        paren,
                        bracket,
                        brace,
                        close_slot(args, cur),
                        Seq::empty(),
                    );
                    if cur.len() > 0 {
                        lemma_eof_count_args_push(args, cur);
                    }
                } else {
                    lemma_group_eof_free(
                        s,
                        r.pos,
                        r.end,
                        r.unexpected,
                        angle,
                        paren,
                        bracket,
                        brace,
                        args,
                        cur.push(TokenView::Comma),
                    );
                    lemma_eof_count_tokens_push(cur, TokenView::Comma);
                }
            },
            TokenView::LeftFuncParen => {
                lemma_group_eof_free(
                    s,
                    r.pos,
                    r.end,
                    r.unexpected,
                    angle + 1,
                    paren,
                    bracket,
                    brace,
                    args,
                    if angle + 1 > 1 {
                        cur.push(TokenView::LeftFuncParen)
                    } else {
                        cur
                    },
                );
                lemma_eof_count_tokens_push(cur, TokenView::LeftFuncParen);
            },
            TokenView::RightFuncParen => {
                if angle - 1 == 0 && paren == 0 && bracket == 0 && brace == 0 {
                    if cur.len() > 0 {
                        lemma_eof_count_args_push(args, cur);
                    }
                } else {
                    lemma_group_eof_free(
                        s,
                        r.pos,
                        r.end,
                        r.unexpected,
                        angle - 1,
                        paren,
                        bracket,
                        brace,
                        args,
                        cur.push(TokenView::RightFuncParen),
                    );
                    lemma_eof_count_tokens_push(cur, TokenView::RightFuncParen);
                }
            },
            TokenView::LeftSmallParen => {
                lemma_group_eof_free(
                    s,
                    r.pos,
                    r.end,
                    r.unexpected,
                    angle,
                    paren + 1,
                    bracket,
                    brace,
                    args,
                    cur.push(TokenView::LeftSmallParen),
                );
                lemma_eof_count_tokens_push(cur, TokenView::LeftSmallParen);
            },
            TokenView::RightSmallParen => {
                if paren > 0 {
                    lemma_group_eof_free(
                        s,
                        r.pos,
                        r.end,
                        r.unexpected,
                        angle,
                        paren - 1,
                        bracket,
                        brace,
                        args,
                        cur.push(TokenView::RightSmallParen),
                    );
                    lemma_eof_count_tokens_push(cur, TokenView::RightSmallParen);
                } else {
                    lemma_group_eof_free(
                        s,
                        r.pos,
                        r.end,
                        r.unexpected,
                        angle,
                        paren,
                        bracket,
                        brace,
                        args,
                        cur,
                    );
                }
            },
            TokenView::LeftMidParen => {
                lemma_group_eof_free(
                    s,
                    r.pos,
                    r.end,
                    r.unexpected,
                    angle,
                    paren,
                    bracket + 1,
                    brace,
                    args,
                    cur.push(TokenView::LeftMidParen),
                );
                lemma_eof_count_tokens_push(cur, TokenView::LeftMidParen);
            },
            TokenView::RightMidParen => {
                if bracket > 0 {
                    lemma_group_eof_free(
                        s,
                        r.pos,
                        r.end,
                        r.unexpected,
                        angle,
                        paren,
                        bracket - 1,
                        brace,
                        args,
                        cur.push(TokenView::RightMidParen),
                    );
                    lemma_eof_count_tokens_push(cur, TokenView::RightMidParen);
                } else {
                    lemma_group_eof_free(
                        s,
                        r.pos,
                        r.end,
                        r.unexpected,
                        angle,
                        paren,
                        bracket,
                        brace,
                        args,
                        cur,
                    );
                }
            },
            TokenView::LeftBigParen => {
                lemma_group_eof_free(
                    s,
                    r.pos,
                    r.end,
                    r.unexpected,
                    angle,
                    paren,
                    bracket,
                    brace + 1,
                    args,
                    cur.push(TokenView::LeftBigParen),
                );
                lemma_eof_count_tokens_push(cur, TokenView::LeftBigParen);
            },
            TokenView::RightBigParen => {
                if brace > 0 {
                    lemma_group_eof_free(
                        s,
                        r.pos,
                        r.end,
                        r.unexpected,
                        angle,
                        paren,
                        bracket,
                        brace - 1,
                        args,
                        cur.push(TokenView::RightBigParen),
                    );
                    lemma_eof_count_tokens_push(cur, TokenView::RightBigParen);
                } else {
                    lemma_group_eof_free(
                        s,
                        r.pos,
                        r.end,
                        r.unexpected,
                        angle,
                        paren,
                        bracket,
                        brace,
                        args,
                        cur,
                    );
                }
            },
            _ => {
                lemma_group_eof_free(
                    s,
                    r.pos,
                    r.end,
                    r.unexpected,
                    angle,
                    paren,
                    bracket,
                    brace,
                    args,
                    cur.push(t),
                );
                lemma_eof_count_tokens_push(cur, t);
            },
        }
    }
}

/// Over an input made of classifiable characters alone, the scanner never
/// records an unexpected character.
pub proof fn lemma_scan_classifiable(
    s: Seq<char>,
    pos: int,
    end: bool,
    unexpected: Option<char>,
    inc_comma: bool,
    inc_rfp: bool,
)
    requires
        0 <= pos <= s.len(),
        forall|k: int| 0 <= k < s.len() ==> is_classifiable_char(#[trigger] s[k]),
    ensures
        spec_scan(s, pos, end, unexpected, inc_comma, inc_rfp).unexpected == unexpected,
    decreases s.len() - pos, 0int,
{
    if end {
    } else if pos >= s.len() {
    } else {
        let c = s[pos];
        if is_ws_char(c) {
            lemma_scan_classifiable(s, pos + 1, end, unexpected, inc_comma, inc_rfp);
        } else if is_digit_char(c) {
        } else if is_alpha_char(c) {
            lemma_word_run_end(s, pos);
            let j = word_run_end(s, pos);
            if j < s.len() && s[j] == '<' {
                lemma_group_classifiable(
                    s,
                    j,
                    end,
                    unexpected,
                    0,
                    0,
                    0,
                    0,
                    Seq::empty(),
                    Seq::empty(),
                );
            }
        } else if is_single_char(c) {
        } else if c == ',' {
            if !inc_comma {
                lemma_scan_classifiable(s, pos + 1, end, unexpected, inc_comma, inc_rfp);
            }
        } else if c == '>' {
            if !inc_rfp {
                lemma_scan_classifiable(s, pos + 1, end, unexpected, inc_comma, inc_rfp);
            }
        } else if c == '<' {
        } else {
            assert(is_classifiable_char(s[pos]));
            assert(false);
        }
    }
}

/// Over an input made of classifiable characters alone, grouping never
/// records an unexpected character.
pub proof fn lemma_group_classifiable(
    s: Seq<char>,
    pos: int,
    end: bool,
    unexpected: Option<char>,
    angle: int,
    paren: int,
    bracket: int,
    brace: int,
    args: Seq<Seq<TokenView>>,
    cur: Seq<TokenView>,
)
    requires
        0 <= pos <= s.len(),
        forall|k: int| 0 <= k < s.len() ==> is_classifiable_char(#[trigger] s[k]),
    ensures
        ({
            let g = spec_group_args(
                s,
                pos,
                end,
                unexpected,
                angle,
                paren,
                bracket,
                brace,
                args,
                cur,
            );
            g.unexpected == unexpected
        }),
    decreases s.len() - pos, 1int,
{
    let g = spec_group_args(s, pos, end, unexpected, angle, paren, bracket, brace, args, cur);
    let r = spec_scan(s, pos, end, unexpected, true, true);
    lemma_scan_basic(s, pos, end, unexpected, true, true);
    lemma_scan_classifiable(s, pos, end, unexpected, true, true);
    if !(pos < r.pos && r.pos <= s.len()) || r.token is None || r.token == Some(TokenView::EOF) {
    } else {
        let t = r.token->0;
        match t {
            TokenView::Comma => {
                if paren > 0 || bracket > 0 || brace > 0 {
                    lemma_group_classifiable(
                        s,
                        r.pos,
                        r.end,
                        r.unexpected,
                        angle,
                        paren,
                        bracket,
                        brace,
                        args,
                        cur.push(TokenView::Comma),
                    );
                } else if angle == 0 || angle == 1 {
                    lemma_group_classifiable(
                        s,
                        r.pos,
                        r.end,
                        r.unexpected,
                        angle,
                        paren,
                        bracket,
                        brace,
                        close_slot(args, cur),
                        Seq::empty(),
                    );
                } else {
                    lemma_group_classifiable(
                        s,
                        r.pos,
                        r.end,
                        r.unexpected,
                        angle,
                        paren,
                        bracket,
                        brace,
                        args,
                        cur.push(TokenView::Comma),
                    );
                }
            },
            TokenView::LeftFuncParen => {
                lemma_group_classifiable(
                    s,
                    r.pos,
                    r.end,
                    r.unexpected,
                    angle + 1,
                    paren,
                    bracket,
                    brace,
                    args,
                    if angle + 1 > 1 {
                        cur.push(TokenView::LeftFuncParen)
                    } else {
                        cur
                    },
                );
            },
            TokenView::RightFuncParen => {
                if angle - 1 == 0 && paren == 0 && bracket == 0 && brace == 0 {
                } else {
                    lemma_group_classifiable(
                        s,
                        r.pos,
                        r.end,
                        r.unexpected,
                        angle - 1,
                        paren,
                        bracket,
                        brace,
                        args,
                        cur.push(TokenView::RightFuncParen),
                    );
                }
            },
            TokenView::LeftSmallParen => {
                lemma_group_classifiable(
                    s,
                    r.pos,
                    r.end,
                    r.unexpected,
                    angle,
                    paren + 1,
                    bracket,
                    brace,
                    args,
                    cur.push(TokenView::LeftSmallParen),
                );
            },
            TokenView::RightSmallParen => {
                if paren > 0 {
                    lemma_group_classifiable(
                        s,
                        r.pos,
                        r.end,
                        r.unexpected,
                        angle,
                        paren - 1,
                        bracket,
                        brace,
                        args,
                        cur.push(TokenView::RightSmallParen),
                    );
                } else {
                    lemma_group_classifiable(
                        s,
                        r.pos,
                        r.end,
                        r.unexpected,
                        angle,
                        paren,
                        bracket,
                        brace,
                        args,
                        cur,
                    );
                }
            },
            TokenView::LeftMidParen => {
                lemma_group_classifiable(
                    s,
                    r.pos,
                    r.end,
                    r.unexpected,
                    angle,
                    paren,
                    bracket + 1,
                    brace,
                    args,
                    cur.push(TokenView::LeftMidParen),
                );
            },
            TokenView::RightMidParen => {
                if bracket > 0 {
                    lemma_group_classifiable(
                        s,
                        r.pos,
                        r.end,
                        r.unexpected,
                        angle,
                        paren,
                        bracket - 1,
                        brace,
                        args,
                        cur.push(TokenView::RightMidParen),
                    );
                } else {
                    lemma_group_classifiable(
                        s,
                        r.pos,
                        r.end,
                        r.unexpected,
                        angle,
                        paren,
                        bracket,
                        brace,
                        args,
                        cur,
                    );
                }
            },
            TokenView::LeftBigParen => {
                lemma_group_classifiable(
                    s,
                    r.pos,
                    r.end,
                    r.unexpected,
                    angle,
                    paren,
                    bracket,
                    brace + 1,
                    args,
                    cur.push(TokenView::LeftBigParen),
                );
            },
            TokenView::RightBigParen => {
                if brace > 0 {
                    lemma_group_classifiable(
                        s,
                        r.pos,
                        r.end,
                        r.unexpected,
                        angle,
                        paren,
                        bracket,
                        brace - 1,
                        args,
                        cur.push(TokenView::RightBigParen),
                    );
                } else {
                    lemma_group_classifiable(
                        s,
                        r.pos,
                        r.end,
                        r.unexpected,
                        angle,
                        paren,
                        bracket,
                        brace,
                        args,
                        cur,
                    );
                }
            },
            _ => {
                lemma_group_classifiable(
                    s,
                    r.pos,
                    r.end,
                    r.unexpected,
                    angle,
                    paren,
                    bracket,
                    brace,
                    args,
                    cur.push(t),
                );
            },
        }
    }
}

/// Law: grouping never reopens a completed slot, and never takes a token
/// out of the buffer: the slots already assembled stand unchanged, in
/// place, at the front of the result, and the buffered tokens stay, in
/// order, at the front of the slot they end up in. A nested call's tokens
/// therefore never leak into an earlier slot and never displace what a
/// parent buffer already holds.
#[verifier::rlimit(100)]
pub proof fn lemma_group_slots_final(
    s: Seq<char>,
    pos: int,
    end: bool,
    unexpected: Option<char>,
    angle: int,
    paren: int,
    bracket: int,
    brace: int,
    args: Seq<Seq<TokenView>>,
    cur: Seq<TokenView>,
)
    requires
        0 <= pos <= s.len(),
    ensures
        ({
            let g = spec_group_args(
                s,
                pos,
                end,
                unexpected,
                angle,
                paren,
                bracket,
                brace,
                args,
                cur,
            );
            &&& args.len() <= g.args.len()
            &&& (forall|i: int| 0 <= i < args.len() ==> g.args[i] == #[trigger] args[i])
            &&& (args.len() < g.args.len() ==> cur.len() <= g.args[args.len() as int].len()
                && g.args[args.len() as int].subrange(0, cur.len() as int) == cur)
        }),
    decreases s.len() - pos, 1int,
{
    let g = spec_group_args(s, pos, end, unexpected, angle, paren, bracket, brace, args, cur);
    let r = spec_scan(s, pos, end, unexpected, true, true);
    lemma_scan_basic(s, pos, end, unexpected, true, true);
    if !(pos < r.pos && r.pos <= s.len()) || r.token is None || r.token == Some(TokenView::EOF) {
        let slot = cur.push(TokenView::EOF);
        assert(g.args == args.push(slot));
        assert(args.push(slot)[args.len() as int] == slot);
        assert(g.args[args.len() as int] == slot);
        assert(g.args[args.len() as int].subrange(0, cur.len() as int) =~= cur);
        assert(forall|i: int| 0 <= i < args.len() ==> g.args[i] == #[trigger] args[i]);
    } else {
        let t = r.token->0;
        match t {
            TokenView::Comma => {
                if paren > 0 || bracket > 0 || brace > 0 {
                    lemma_group_slots_final(
                        s,
                        r.pos,
                        r.end,
                        r.unexpected,
                        angle,
                        paren,
                        bracket,
                        brace,
                        args,
                        cur.push(TokenView::Comma),
                    );
                    lemma_prefix_drop(
                        spec_group_args(s, pos, end, unexpected, angle, paren, bracket, brace, args, cur),
                        args,
                        cur,
                        TokenView::Comma,
                    );
                } else if angle == 0 || angle == 1 {
                    lemma_group_slots_final(
                        s,
                        r.pos,
                        r.end,
                        r.unexpected,
                        angle,
                        paren,
                        bracket,
                        brace,
                        close_slot(args, cur),
                        Seq::empty(),
                    );
                    if cur.len() > 0 {
                        assert(close_slot(args, cur) == args.push(cur));
                        assert(args.push(cur)[args.len() as int] == cur);
                        assert(args.len() < args.push(cur).len() <= g.args.len());
                        assert(g.args[args.len() as int] == cur);
                        assert(g.args[args.len() as int].subrange(0, cur.len() as int) =~= cur);
                        assert(forall|i: int|
                            0 <= i < args.len() ==> args.push(cur)[i] == #[trigger] args[i]);
                    } else if args.len() < g.args.len() {
                        assert(g.args[args.len() as int].subrange(0, cur.len() as int) =~= cur);
                    }
                } else {
                    lemma_group_slots_final(
                        s,
                        r.pos,
                        r.end,
                        r.unexpected,
                        angle,
                        paren,
                        bracket,
                        brace,
                        args,
                        cur.push(TokenView::Comma),
                    );
                    lemma_prefix_drop(
                        spec_group_args(s, pos, end, unexpected, angle, paren, bracket, brace, args, cur),
                        args,
                        cur,
                        TokenView::Comma,
                    );
                }
            },
            TokenView::LeftFuncParen => {
                lemma_group_slots_final(
                    s,
                    r.pos,
                    r.end,
                    r.unexpected,
                    angle + 1,
                    paren,
                    bracket,
                    brace,
                    args,
                    if angle + 1 > 1 {
                        cur.push(TokenView::LeftFuncParen)
                    } else {
                        cur
                    },
                );
                if angle + 1 > 1 {
                    lemma_prefix_drop(
                        spec_group_args(s, pos, end, unexpected, angle, paren, bracket, brace, args, cur),
                        args,
                        cur,
                        TokenView::LeftFuncParen,
                    );
                }
            },
            TokenView::RightFuncParen => {
                if angle - 1 == 0 && paren == 0 && bracket == 0 && brace == 0 {
                    if cur.len() > 0 {
                        assert(g.args == args.push(cur));
                        assert(args.push(cur)[args.len() as int] == cur);
                        assert(g.args[args.len() as int] == cur);
                        assert(g.args[args.len() as int].subrange(0, cur.len() as int) =~= cur);
                        assert(forall|i: int|
                            0 <= i < args.len() ==> g.args[i] == #[trigger] args[i]);
                    }
                } else {
                    lemma_group_slots_final(
                        s,
                        r.pos,
                        r.end,
                        r.unexpected,
                        angle - 1,
                        paren,
                        bracket,
                        brace,
                        args,
                        cur.push(TokenView::RightFuncParen),
                    );
                    lemma_prefix_drop(
                        spec_group_args(s, pos, end, unexpected, angle, paren, bracket, brace, args, cur),
                        args,
                        cur,
                        TokenView::RightFuncParen,
                    );
                }
            },
            TokenView::LeftSmallParen => {
                lemma_group_slots_final(
                    s,
                    r.pos,
                    r.end,
                    r.unexpected,
                    angle,
                    paren + 1,
                    bracket,
                    brace,
                    args,
                    cur.push(TokenView::LeftSmallParen),
                );
                lemma_prefix_drop(
                    spec_group_args(s, pos, end, unexpected, angle, paren, bracket, brace, args, cur),
                    args,
                    cur,
                    TokenView::LeftSmallParen,
                );
            },
            TokenView::RightSmallParen => {
                if paren > 0 {
                    lemma_group_slots_final(
                        s,
                        r.pos,
                        r.end,
                        r.unexpected,
                        angle,
                        paren - 1,
                        bracket,
                        brace,
                        args,
                        cur.push(TokenView::RightSmallParen),
                    );
                    lemma_prefix_drop(
                        spec_group_args(s, pos, end, unexpected, angle, paren, bracket, brace, args, cur),
                        args,
                        cur,
                        TokenView::RightSmallParen,
                    );
                } else {
                    lemma_group_slots_final(
                        s,
                        r.pos,
                        r.end,
                        r.unexpected,
                        angle,
                        paren,
                        bracket,
                        brace,
                        args,
                        cur,
                    );
                }
            },
            TokenView::LeftMidParen => {
                lemma_group_slots_final(
                    s,
                    r.pos,
                    r.end,
                    r.unexpected,
                    angle,
                    paren,
                    bracket + 1,
                    brace,
                    args,
                    cur.push(TokenView::LeftMidParen),
                );
                lemma_prefix_drop(
                    spec_group_args(s, pos, end, unexpected, angle, paren, bracket, brace, args, cur),
                    args,
                    cur,
                    TokenView::LeftMidParen,
                );
            },
            TokenView::RightMidParen => {
                if bracket > 0 {
                    lemma_group_slots_final(
                        s,
                        r.pos,
                        r.end,
                        r.unexpected,
                        angle,
                        paren,
                        bracket - 1,
                        brace,
                        args,
                        cur.push(TokenView::RightMidParen),
                    );
                    lemma_prefix_drop(
                        spec_group_args(s, pos, end, unexpected, angle, paren, bracket, brace, args, cur),
                        args,
                        cur,
                        TokenView::RightMidParen,
                    );
                } else {
                    lemma_group_slots_final(
                        s,
                        r.pos,
                        r.end,
                        r.unexpected,
                        angle,
                        paren,
                        bracket,
                        brace,
                        args,
                        cur,
                    );
                }
            },
            TokenView::LeftBigParen => {
                lemma_group_slots_final(
                    s,
                    r.pos,
                    r.end,
                    r.unexpected,
                    angle,
                    paren,
                    bracket,
                    brace + 1,
                    args,
                    cur.push(TokenView::LeftBigParen),
                );
                lemma_prefix_drop(
                    spec_group_args(s, pos, end, unexpected, angle, paren, bracket, brace, args, cur),
                    args,
                    cur,
                    TokenView::LeftBigParen,
                );
            },
            TokenView::RightBigParen => {
                if brace > 0 {
                    lemma_group_slots_final(
                        s,
                        r.pos,
                        r.end,
                        r.unexpected,
                        angle,
                        paren,
                        bracket,
                        brace - 1,
                        args,
                        cur.push(TokenView::RightBigParen),
                    );
                    lemma_prefix_drop(
                        spec_group_args(s, pos, end, unexpected, angle, paren, bracket, brace, args, cur),
                        args,
                        cur,
                        TokenView::RightBigParen,
                    );
                } else {
                    lemma_group_slots_final(
                        s,
                        r.pos,
                        r.end,
                        r.unexpected,
                        angle,
                        paren,
                        bracket,
                        brace,
                        args,
                        cur,
                    );
                }
            },
            _ => {
                lemma_group_slots_final(
                    s,
                    r.pos,
                    r.end,
                    r.unexpected,
                    angle,
                    paren,
                    bracket,
                    brace,
                    args,
                    cur.push(t),
                );
                lemma_prefix_drop(
                    spec_group_args(s, pos, end, unexpected, angle, paren, bracket, brace, args, cur),
                    args,
                    cur,
                    t,
                );
            },
        }
    }
}

/// A buffer that stays, extended by one token, at the front of a slot
/// also stays there unextended.
proof fn lemma_prefix_drop(
    g: GroupStep,
    args: Seq<Seq<TokenView>>,
    cur: Seq<TokenView>,
    t: TokenView,
)
    requires
        args.len() < g.args.len() ==> cur.push(t).len() <= g.args[args.len() as int].len()
            && g.args[args.len() as int].subrange(0, cur.push(t).len() as int) == cur.push(t),
    ensures
        args.len() < g.args.len() ==> cur.len() <= g.args[args.len() as int].len() && g.args[
            args.len() as int
        ].subrange(0, cur.len() as int) == cur,
{
    if args.len() < g.args.len() {
        let slot = g.args[args.len() as int];
        assert(slot.subrange(0, cur.len() as int) =~= cur) by {
            assert(forall|k: int|
                0 <= k < cur.push(t).len() ==> slot.subrange(0, cur.push(t).len() as int)[k]
                    == cur.push(t)[k]);
            assert(forall|k: int|
                0 <= k < cur.len() ==> slot.subrange(0, cur.len() as int)[k] == #[trigger] slot[
                    k
                ]);
            assert(forall|k: int| 0 <= k < cur.len() ==> cur.push(t)[k] == #[trigger] cur[k]);
        }
    }
}

/// Law: a full scan of an input made of classifiable characters alone
/// never records an unexpected character.
pub proof fn lemma_stream_classifiable(s: Seq<char>, pos: int, end: bool, unexpected: Option<char>)
    requires
        0 <= pos <= s.len(),
        forall|k: int| 0 <= k < s.len() ==> is_classifiable_char(#[trigger] s[k]),
    ensures
        spec_stream(s, pos, end, unexpected).unexpected == unexpected,
    decreases s.len() - pos, (if end { 0int } else { 1int }),
{
    let r = spec_scan(s, pos, end, unexpected, false, false);
    lemma_scan_basic(s, pos, end, unexpected, false, false);
    lemma_scan_classifiable(s, pos, end, unexpected, false, false);
    match r.token {
        None => {},
        Some(t) => {
            if pos < r.pos && r.pos <= s.len() {
                lemma_stream_classifiable(s, r.pos, r.end, r.unexpected);
            } else if !end && r.end && pos == r.pos {
                lemma_stream_classifiable(s, r.pos, true, r.unexpected);
            }
        },
    }
}

/// Law: a full scan of an input made of classifiable characters alone that
/// closes with the `EOF` sentinel contains exactly one `EOF`, nested
/// argument slots included.
pub proof fn theorem_exactly_one_eof_classifiable(s: Seq<char>)
    requires
        forall|k: int| 0 <= k < s.len() ==> is_classifiable_char(#[trigger] s[k]),
        spec_tokenize(s).len() > 0,
        spec_tokenize(s).last() == TokenView::EOF,
    ensures
        eof_count_tokens(spec_tokenize(s)) == 1,
{
    lemma_stream_classifiable(s, 0, false, None);
    theorem_exactly_one_eof(s);
}

/// Once the stream has recorded an unexpected character, that very record
/// survives to the stream's final state.
pub proof fn lemma_stream_monotone(s: Seq<char>, pos: int, end: bool, unexpected: Option<char>)
    requires
        0 <= pos <= s.len(),
    ensures
        ({
            let st = spec_stream(s, pos, end, unexpected);
            unexpected is Some ==> st.unexpected == unexpected
        }),
    decreases s.len() - pos, (if end { 0int } else { 1int }),
{
    let r = spec_scan(s, pos, end, unexpected, false, false);
    lemma_scan_basic(s, pos, end, unexpected, false, false);
    match r.token {
        None => {},
        Some(t) => {
            if pos < r.pos && r.pos <= s.len() {
                lemma_stream_monotone(s, r.pos, r.end, r.unexpected);
            } else if !end && r.end && pos == r.pos {
                lemma_stream_monotone(s, r.pos, true, r.unexpected);
            }
        },
    }
}

/// Law: in every produced stream, any `EOF` stands last; no token follows
/// it, and a stream that closed with the sentinel has exhausted its
/// scanner.
pub proof fn lemma_stream_eof_last(s: Seq<char>, pos: int, end: bool, unexpected: Option<char>)
    requires
        0 <= pos <= s.len(),
    ensures
        ({
            let st = spec_stream(s, pos, end, unexpected);
            &&& forall|i: int|
                0 <= i < st.tokens.len() && st.tokens[i] == TokenView::EOF ==> i == st.tokens.len()
                    - 1
            &&& (st.tokens.len() > 0 && st.tokens.last() == TokenView::EOF ==> st.end)
        }),
    decreases s.len() - pos, (if end { 0int } else { 1int }),
{
    let st = spec_stream(s, pos, end, unexpected);
    let r = spec_scan(s, pos, end, unexpected, false, false);
    lemma_scan_basic(s, pos, end, unexpected, false, false);
    match r.token {
        None => {},
        Some(t) => {
            if t == TokenView::EOF {
                // the scanner is exhausted: the rest of the stream is empty
                if pos < r.pos && r.pos <= s.len() {
                    lemma_stream_eof_last(s, r.pos, r.end, r.unexpected);
                } else {
                    lemma_stream_eof_last(s, r.pos, true, r.unexpected);
                }
            } else {
                if pos < r.pos && r.pos <= s.len() {
                    lemma_stream_eof_last(s, r.pos, r.end, r.unexpected);
                } else if !end && r.end && pos == r.pos {
                    lemma_stream_eof_last(s, r.pos, true, r.unexpected);
                }
            }
        },
    }
}

/// Law: every stream contains its `EOF` sentinel, when it has one, as the
/// last token.
pub proof fn theorem_eof_always_last(s: Seq<char>)
    ensures
        forall|i: int|
            0 <= i < spec_tokenize(s).len() && spec_tokenize(s)[i] == TokenView::EOF ==> i
                == spec_tokenize(s).len() - 1,
{
    lemma_stream_eof_last(s, 0, false, None);
}

/// Law: once a stream has closed with the `EOF` sentinel, its scanner is
/// exhausted and a further pull hands out nothing.
pub proof fn theorem_nothing_after_eof(s: Seq<char>)
    requires
        spec_tokenize(s).len() > 0,
        spec_tokenize(s).last() == TokenView::EOF,
    ensures
        spec_stream(s, 0, false, None).end,
        ({
            let st = spec_stream(s, 0, false, None);
            spec_scan(s, st.pos, st.end, st.unexpected, false, false).token is None
        }),
{
    lemma_stream_eof_last(s, 0, false, None);
    let st = spec_stream(s, 0, false, None);
    lemma_stream_bounds(s, 0, false, None);
}

/// The stream's final position stays within the input.
pub proof fn lemma_stream_bounds(s: Seq<char>, pos: int, end: bool, unexpected: Option<char>)
    requires
        0 <= pos <= s.len(),
    ensures
        pos <= spec_stream(s, pos, end, unexpected).pos <= s.len(),
    decreases s.len() - pos, (if end { 0int } else { 1int }),
{
    let r = spec_scan(s, pos, end, unexpected, false, false);
    lemma_scan_basic(s, pos, end, unexpected, false, false);
    match r.token {
        None => {},
        Some(t) => {
            if pos < r.pos && r.pos <= s.len() {
                lemma_stream_bounds(s, r.pos, r.end, r.unexpected);
            } else if !end && r.end && pos == r.pos {
                lemma_stream_bounds(s, r.pos, true, r.unexpected);
            }
        },
    }
}

/// A token sequence with no `EOF` markers in all has none in any element.
pub proof fn lemma_eof_count_zero_each(ts: Seq<TokenView>)
    requires
        eof_count_tokens(ts) == 0,
    ensures
        forall|i: int| 0 <= i < ts.len() ==> eof_count(#[trigger] ts[i]) == 0,
    decreases ts.len(),
{
    if ts.len() > 0 {
        lemma_eof_count_zero_each(ts.subrange(1, ts.len() as int));
        assert(forall|i: int|
            1 <= i < ts.len() ==> ts.subrange(1, ts.len() as int)[i - 1] == #[trigger] ts[i]);
    }
}

/// Law: in a full scan that met no unclassifiable character and closed with
/// the `EOF` sentinel, no token before the sentinel holds an `EOF` marker,
/// however deep in a `Function`'s argument slots.
pub proof fn theorem_no_nested_eof(s: Seq<char>)
    requires
        spec_stream(s, 0, false, None).unexpected is None,
        spec_tokenize(s).len() > 0,
        spec_tokenize(s).last() == TokenView::EOF,
    ensures
        forall|i: int|
            0 <= i < spec_tokenize(s).len() - 1 ==> eof_count(#[trigger] spec_tokenize(s)[i])
                == 0,
{
    theorem_exactly_one_eof(s);
    let ts = spec_tokenize(s);
    let body = ts.drop_last();
    assert(ts =~= body.push(TokenView::EOF));
    lemma_eof_count_tokens_push(body, TokenView::EOF);
    assert(eof_count_tokens(body) == 0);
    lemma_eof_count_zero_each(body);
    assert(forall|i: int| 0 <= i < ts.len() - 1 ==> body[i] == #[trigger] ts[i]);
}

/// A produced stream that met no unclassifiable character and closes with
/// the `EOF` sentinel holds exactly one `EOF` in all, nested argument slots
/// included.
pub proof fn lemma_stream_one_eof(s: Seq<char>, pos: int, end: bool, unexpected: Option<char>)
    requires
        0 <= pos <= s.len(),
    ensures
        ({
            let st = spec_stream(s, pos, end, unexpected);
            (st.unexpected is None && st.tokens.len() > 0 && st.tokens.last() == TokenView::EOF)
                ==> eof_count_tokens(st.tokens) == 1
        }),
    decreases s.len() - pos, (if end { 0int } else { 1int }),
{
    let st = spec_stream(s, pos, end, unexpected);
    let r = spec_scan(s, pos, end, unexpected, false, false);
    lemma_scan_basic(s, pos, end, unexpected, false, false);
    lemma_scan_eof_free(s, pos, end, unexpected, false, false);
    match r.token {
        None => {},
        Some(t) => {
            let rest = spec_stream(s, r.pos, if pos < r.pos && r.pos <= s.len() {
                r.end
            } else {
                true
            }, r.unexpected);
            if (pos < r.pos && r.pos <= s.len()) || (!end && r.end && pos == r.pos) {
                assert(st.tokens =~= seq![t] + rest.tokens);
                assert((seq![t] + rest.tokens).subrange(1, (seq![t] + rest.tokens).len() as int)
                    =~= rest.tokens);
                assert(eof_count_tokens(st.tokens) == eof_count(t) + eof_count_tokens(
                    rest.tokens,
                ));
                if st.unexpected is None && st.tokens.len() > 0 && st.tokens.last()
                    == TokenView::EOF {
                    lemma_stream_monotone(s, r.pos, if pos < r.pos && r.pos <= s.len() {
                        r.end
                    } else {
                        true
                    }, r.unexpected);
                    if t == TokenView::EOF {
                        // the rest of the stream is empty
                        assert(rest.tokens.len() == 0);
                        assert(eof_count_tokens(st.tokens) == 1);
                    } else {
                        // the stream went on, so this token left the scanner
                        // live and carries no marker
                        if rest.tokens.len() == 0 {
                            assert(st.tokens.last() == t);
                            assert(false);
                        }
                        assert(st.tokens.last() == rest.tokens.last());
                        if r.end {
                            // an exhausted scanner yields nothing more
                            assert(rest.tokens.len() == 0);
                            assert(false);
                        }
                        assert(eof_count(t) == 0);
                        if pos < r.pos && r.pos <= s.len() {
                            lemma_stream_one_eof(s, r.pos, r.end, r.unexpected);
                        } else {
                            lemma_stream_one_eof(s, r.pos, true, r.unexpected);
                        }
                    }
                }
            }
        },
    }
}

/// Law: a full scan that met no unclassifiable character and closes with
/// the `EOF` sentinel contains exactly one `EOF`, nested argument slots
/// included.
pub proof fn theorem_exactly_one_eof(s: Seq<char>)
    requires
        spec_stream(s, 0, false, None).unexpected is None,
        spec_tokenize(s).len() > 0,
        spec_tokenize(s).last() == TokenView::EOF,
    ensures
        eof_count_tokens(spec_tokenize(s)) == 1,
{
    lemma_stream_one_eof(s, 0, false, None);
}

/// Closes the current buffer as a completed slot, as `close_slot` has it: an
/// empty buffer is dropped.
fn push_slot(args: Vec<Vec<Token>>, cur: Vec<Token>) -> (out: Vec<Vec<Token>>)
    ensures
        args_view(out) == close_slot(args_view(args), token_vec_view(cur)),
{
    let mut args = args;
    proof {
        lemma_tokens_view_props(cur@);
        lemma_arg_seqs_view_push(args@, cur);
    }
    if cur.len() > 0 {
        args.push(cur);
    }
    args
}

} // verus!
