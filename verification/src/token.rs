use vstd::prelude::*;

verus! {

/// One lexical unit of an expression.
///
/// `Number` carries the maximal run of decimal digits it was scanned from,
/// kept verbatim, so the exact decimal magnitude is preserved at any length.
/// `Function` is an opaque leaf: each argument slot is itself a fully
/// resolved token sequence, which may recursively hold further `Function`
/// tokens. The bracket tokens are plain leaves; nesting is implicit in their
/// order in a flat sequence, not encoded in the token itself.
#[derive(Debug, PartialEq, Eq)]
pub enum Token {
    Number(String),
    Variable(String),
    Function { function_prefix: String, args: Vec<Vec<Token>> },
    Add,
    Sub,
    Mul,
    Div,
    Caret,
    LeftSmallParen,
    RightSmallParen,
    LeftMidParen,
    RightMidParen,
    LeftBigParen,
    RightBigParen,
    LeftFuncParen,
    RightFuncParen,
    Comma,
    EOF,
}

/// The mathematical value of a `Token`: strings become character sequences,
/// and the nested argument vectors of a `Function` become sequences of
/// sequences.
pub enum TokenView {
    Number(Seq<char>),
    Variable(Seq<char>),
    Function { name: Seq<char>, args: Seq<Seq<TokenView>> },
    Add,
    Sub,
    Mul,
    Div,
    Caret,
    LeftSmallParen,
    RightSmallParen,
    LeftMidParen,
    RightMidParen,
    LeftBigParen,
    RightBigParen,
    LeftFuncParen,
    RightFuncParen,
    Comma,
    EOF,
}

/// The value of a token.
pub open spec fn token_view(t: Token) -> TokenView
    decreases t,
{
    match t {
        Token::Number(s) => TokenView::Number(s@),
        Token::Variable(s) => TokenView::Variable(s@),
        Token::Function { function_prefix, args } => TokenView::Function {
            name: function_prefix@,
            args: args_view(args),
        },
        Token::Add => TokenView::Add,
        Token::Sub => TokenView::Sub,
        Token::Mul => TokenView::Mul,
        Token::Div => TokenView::Div,
        Token::Caret => TokenView::Caret,
        Token::LeftSmallParen => TokenView::LeftSmallParen,
        Token::RightSmallParen => TokenView::RightSmallParen,
        Token::LeftMidParen => TokenView::LeftMidParen,
        Token::RightMidParen => TokenView::RightMidParen,
        Token::LeftBigParen => TokenView::LeftBigParen,
        Token::RightBigParen => TokenView::RightBigParen,
        Token::LeftFuncParen => TokenView::LeftFuncParen,
        Token::RightFuncParen => TokenView::RightFuncParen,
        Token::Comma => TokenView::Comma,
        Token::EOF => TokenView::EOF,
    }
}

/// The value of a vector of argument slots.
pub open spec fn args_view(args: Vec<Vec<Token>>) -> Seq<Seq<TokenView>>
    decreases args,
{
    arg_seqs_view(args@)
}

/// The value of a sequence of argument slots.
pub open spec fn arg_seqs_view(a: Seq<Vec<Token>>) -> Seq<Seq<TokenView>>
    decreases a,
{
    if a.len() == 0 {
        Seq::empty()
    } else {
        seq![token_vec_view(a[0])] + arg_seqs_view(a.subrange(1, a.len() as int))
    }
}

/// The value of a vector of tokens.
pub open spec fn token_vec_view(v: Vec<Token>) -> Seq<TokenView>
    decreases v,
{
    tokens_view(v@)
}

/// The value of a sequence of tokens, element by element.
pub open spec fn tokens_view(ts: Seq<Token>) -> Seq<TokenView>
    decreases ts,
{
    if ts.len() == 0 {
        Seq::empty()
    } else {
        seq![token_view(ts[0])] + tokens_view(ts.subrange(1, ts.len() as int))
    }
}

impl View for Token {
    type V = TokenView;

    open spec fn view(&self) -> TokenView {
        token_view(*self)
    }
}

/// `tokens_view` maps a sequence element by element.
pub proof fn lemma_tokens_view_props(ts: Seq<Token>)
    ensures
        tokens_view(ts).len() == ts.len(),
        forall|i: int| 0 <= i < ts.len() ==> tokens_view(ts)[i] == token_view(ts[i]),
    decreases ts.len(),
{
    if ts.len() > 0 {
        lemma_tokens_view_props(ts.subrange(1, ts.len() as int));
    }
}

/// `arg_seqs_view` maps a sequence of slots element by element.
pub proof fn lemma_arg_seqs_view_props(a: Seq<Vec<Token>>)
    ensures
        arg_seqs_view(a).len() == a.len(),
        forall|i: int| 0 <= i < a.len() ==> arg_seqs_view(a)[i] == token_vec_view(a[i]),
    decreases a.len(),
{
    if a.len() > 0 {
        lemma_arg_seqs_view_props(a.subrange(1, a.len() as int));
    }
}

/// Appending one token appends its value to the view.
pub proof fn lemma_tokens_view_push(ts: Seq<Token>, t: Token)
    ensures
        tokens_view(ts.push(t)) == tokens_view(ts).push(token_view(t)),
{
    lemma_tokens_view_props(ts);
    lemma_tokens_view_props(ts.push(t));
    assert(tokens_view(ts.push(t)) =~= tokens_view(ts).push(token_view(t)));
}

/// Appending one slot appends its view to the slot-sequence view.
pub proof fn lemma_arg_seqs_view_push(a: Seq<Vec<Token>>, v: Vec<Token>)
    ensures
        arg_seqs_view(a.push(v)) == arg_seqs_view(a).push(token_vec_view(v)),
{
    lemma_arg_seqs_view_props(a);
    lemma_arg_seqs_view_props(a.push(v));
    assert(arg_seqs_view(a.push(v)) =~= arg_seqs_view(a).push(token_vec_view(v)));
}

/// Binding strength for a downstream expression parser: a pure, total order.
/// Variants are listed from loosest to tightest, so the derived comparisons
/// give `Default < AddOrSubtract < MultiplyOrDivide < Power < Negative <
/// Function`.
#[derive(Debug, PartialEq, Eq, PartialOrd, Ord, Copy, Clone)]
pub enum OperatorPrecedence {
    Default,
    AddOrSubtract,
    MultiplyOrDivide,
    Power,
    Negative,
    Function,
}

/// The precedence a token binds with.
pub open spec fn spec_precedence(t: TokenView) -> OperatorPrecedence {
    match t {
        TokenView::Add | TokenView::Sub => OperatorPrecedence::AddOrSubtract,
        TokenView::Mul | TokenView::Div => OperatorPrecedence::MultiplyOrDivide,
        TokenView::Caret => OperatorPrecedence::Power,
        TokenView::Function { .. } => OperatorPrecedence::Function,
        _ => OperatorPrecedence::Default,
    }
}

impl Token {
    /// Returns the operator precedence of the token: operators map to their
    /// binding strength, function tokens bind tightest, and every
    /// non-operator token maps to `Default`.
    pub fn get_precedence(&self) -> (p: OperatorPrecedence)
        ensures
            p == spec_precedence(self@),
    {
        match self {
            Token::Add | Token::Sub => OperatorPrecedence::AddOrSubtract,
            Token::Mul | Token::Div => OperatorPrecedence::MultiplyOrDivide,
            Token::Caret => OperatorPrecedence::Power,
            Token::Function { .. } => OperatorPrecedence::Function,
            _ => OperatorPrecedence::Default,
        }
    }

    /// Renders the token to its diagnostic text.
    pub fn render(&self) -> (r: String)
        ensures
            r@ == spec_render(self@),
    {
        render_token(self)
    }
}

/// The diagnostic rendering of a token: numbers and variables print their
/// characters, operators print fixed symbols (multiplication and division as
/// the dedicated signs), and a function prints as
/// `name<tokens-space-joined,...>` with its slots comma-joined.
pub open spec fn spec_render(t: TokenView) -> Seq<char>
    decreases t, 0int,
{
    match t {
        TokenView::Number(d) => d,
        TokenView::Variable(v) => v,
        TokenView::Function { name, args } => name + "<"@ + spec_render_args_from(args, 0)
            + ">"@,
        TokenView::Add => "+"@,
        TokenView::Sub => "-"@,
        TokenView::Mul => "\u{d7}"@,
        TokenView::Div => "\u{f7}"@,
        TokenView::Caret => "^"@,
        TokenView::LeftSmallParen => "("@,
        TokenView::RightSmallParen => ")"@,
        TokenView::LeftMidParen => "["@,
        TokenView::RightMidParen => "]"@,
        TokenView::LeftBigParen => "{"@,
        TokenView::RightBigParen => "}"@,
        TokenView::LeftFuncParen => "<"@,
        TokenView::RightFuncParen => ">"@,
        TokenView::Comma => ","@,
        TokenView::EOF => "EOF"@,
    }
}

/// The rendering of the argument slots from slot `i` on, comma-separated.
pub open spec fn spec_render_args_from(a: Seq<Seq<TokenView>>, i: int) -> Seq<char>
    decreases a, a.len() - i,
{
    if i < 0 || i >= a.len() {
        Seq::empty()
    } else if i == a.len() - 1 {
        spec_render_slot_from(a[i], 0)
    } else {
        spec_render_slot_from(a[i], 0) + ","@ + spec_render_args_from(a, i + 1)
    }
}

/// The rendering of one slot's tokens from token `j` on, space-separated.
pub open spec fn spec_render_slot_from(ts: Seq<TokenView>, j: int) -> Seq<char>
    decreases ts, ts.len() - j,
{
    if j < 0 || j >= ts.len() {
        Seq::empty()
    } else if j == ts.len() - 1 {
        spec_render(ts[j])
    } else {
        spec_render(ts[j]) + " "@ + spec_render_slot_from(ts, j + 1)
    }
}

/// Renders one token.
fn render_token(t: &Token) -> (r: String)
    ensures
        r@ == spec_render(token_view(*t)),
    decreases t, 0int,
{
    match t {
        Token::Number(d) => d.clone(),
        Token::Variable(v) => v.clone(),
        Token::Function { function_prefix, args } => {
            let mut out = function_prefix.clone();
            out.append("<");
            let mid = render_args_from(args, 0);
            out.append(mid.as_str());
            out.append(">");
            proof {
                assert(out@ =~= spec_render(token_view(*t)));
            }
            out
        },
        Token::Add => lit_string("+"),
        Token::Sub => lit_string("-"),
        Token::Mul => lit_string("\u{d7}"),
        Token::Div => lit_string("\u{f7}"),
        Token::Caret => lit_string("^"),
        Token::LeftSmallParen => lit_string("("),
        Token::RightSmallParen => lit_string(")"),
        Token::LeftMidParen => lit_string("["),
        Token::RightMidParen => lit_string("]"),
        Token::LeftBigParen => lit_string("{"),
        Token::RightBigParen => lit_string("}"),
        Token::LeftFuncParen => lit_string("<"),
        Token::RightFuncParen => lit_string(">"),
        Token::Comma => lit_string(","),
        Token::EOF => lit_string("EOF"),
    }
}

/// Turns a string literal into an owned `String` with the same characters.
fn lit_string(s: &str) -> (r: String)
    ensures
        r@ == s@,
{
    String::from_str(s)
}

/// Renders the slots from index `i` on, comma-separated.
fn render_args_from(a: &Vec<Vec<Token>>, i: usize) -> (r: String)
    requires
        i <= a@.len(),
    ensures
        r@ == spec_render_args_from(args_view(*a), i as int),
    decreases a, a@.len() - i,
{
    proof {
        lemma_arg_seqs_view_props(a@);
    }
    if i >= a.len() {
        String::new()
    } else {
        let mut out = render_slot_from(&a[i], 0);
        if i + 1 < a.len() {
            out.append(",");
            let rest = render_args_from(a, i + 1);
            out.append(rest.as_str());
        }
        proof {
            assert(out@ =~= spec_render_args_from(args_view(*a), i as int));
        }
        out
    }
}

/// Renders one slot's tokens from index `j` on, space-separated.
fn render_slot_from(v: &Vec<Token>, j: usize) -> (r: String)
    requires
        j <= v@.len(),
    ensures
        r@ == spec_render_slot_from(token_vec_view(*v), j as int),
    decreases v, v@.len() - j,
{
    proof {
        lemma_tokens_view_props(v@);
    }
    if j >= v.len() {
        String::new()
    } else {
        let mut out = render_token(&v[j]);
        if j + 1 < v.len() {
            out.append(" ");
            let rest = render_slot_from(v, j + 1);
            out.append(rest.as_str());
        }
        proof {
            assert(out@ =~= spec_render_slot_from(token_vec_view(*v), j as int));
        }
        out
    }
}

} // verus!
