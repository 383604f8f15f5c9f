//! The formula parser: a recursive-descent parser over tokens, with the
//! grammar stated as specification functions.
//!
//! ```text
//! expr       := comparison
//! comparison := additive (("<" | "<=" | ">" | ">=" | "==" | "!=") additive)*
//! additive   := multiplicative (("+" | "-") multiplicative)*
//! multiplicative := power (("*" | "/") power)*
//! power      := unary ["**" power]
//! unary      := ("+" | "-") unary | primary
//! primary    := number | $param | ident ["(" args ")"] | "(" expr ")"
//! args       := ")" | expr ("," expr)* ")"
//! ```
//! The binary levels associate to the left, `**` to the right.

use vstd::prelude::*;
use crate::error::AlgoError;
use crate::formula::ast::{BinaryOp, Expr, ExprView, Tok, Token, TokenView, UnaryOp, tokens_view};
use crate::text::{concat, concat3};

verus! {

/// The token at `i`, or `End` past either end.
pub open spec fn tok(ts: Seq<TokenView>, i: int) -> TokenView {
    if 0 <= i < ts.len() {
        ts[i]
    } else {
        Tok::End
    }
}

/// The comparison operator a token stands for.
pub open spec fn cmp_op(t: TokenView) -> Option<BinaryOp> {
    match t {
        Tok::Lt => Some(BinaryOp::Lt),
        Tok::Le => Some(BinaryOp::Le),
        Tok::Gt => Some(BinaryOp::Gt),
        Tok::Ge => Some(BinaryOp::Ge),
        Tok::EqEq => Some(BinaryOp::Eq),
        Tok::Ne => Some(BinaryOp::Ne),
        _ => None,
    }
}

/// The additive operator a token stands for.
pub open spec fn add_op(t: TokenView) -> Option<BinaryOp> {
    match t {
        Tok::Plus => Some(BinaryOp::Add),
        Tok::Minus => Some(BinaryOp::Sub),
        _ => None,
    }
}

/// The multiplicative operator a token stands for.
pub open spec fn mul_op(t: TokenView) -> Option<BinaryOp> {
    match t {
        Tok::Star => Some(BinaryOp::Mul),
        Tok::Slash => Some(BinaryOp::Div),
        _ => None,
    }
}

/// `l op r`.
pub open spec fn bin(op: BinaryOp, l: ExprView, r: ExprView) -> ExprView {
    ExprView::Binary(op, Box::new(l), Box::new(r))
}

/// An expression starting at `p`: the tree and the position after it.
pub open spec fn p_expr(ts: Seq<TokenView>, p: int) -> Result<(ExprView, int), Seq<char>>
    decreases ts.len() - p, 9int,
{
    p_cmp(ts, p)
}

/// A comparison chain starting at `p`.
pub open spec fn p_cmp(ts: Seq<TokenView>, p: int) -> Result<(ExprView, int), Seq<char>>
    decreases ts.len() - p, 8int,
{
    match p_add(ts, p) {
        Ok((e, q)) => if p < q <= ts.len() {
            p_cmp_tail(ts, e, q)
        } else {
            Err(Seq::empty())
        },
        Err(m) => Err(m),
    }
}

/// The rest of a comparison chain whose left part `lhs` ends at `p`.
pub open spec fn p_cmp_tail(ts: Seq<TokenView>, lhs: ExprView, p: int) -> Result<(ExprView, int), Seq<char>>
    decreases ts.len() - p, 7int,
{
    match cmp_op(tok(ts, p)) {
        None => Ok((lhs, p)),
        Some(op) => match p_add(ts, p + 1) {
            Ok((r, q)) => if p < q <= ts.len() {
                p_cmp_tail(ts, bin(op, lhs, r), q)
            } else {
                Err(Seq::empty())
            },
            Err(m) => Err(m),
        },
    }
}

/// A sum or difference chain starting at `p`.
pub open spec fn p_add(ts: Seq<TokenView>, p: int) -> Result<(ExprView, int), Seq<char>>
    decreases ts.len() - p, 6int,
{
    match p_mul(ts, p) {
        Ok((e, q)) => if p < q <= ts.len() {
            p_add_tail(ts, e, q)
        } else {
            Err(Seq::empty())
        },
        Err(m) => Err(m),
    }
}

/// The rest of an additive chain whose left part `lhs` ends at `p`.
pub open spec fn p_add_tail(ts: Seq<TokenView>, lhs: ExprView, p: int) -> Result<(ExprView, int), Seq<char>>
    decreases ts.len() - p, 5int,
{
    match add_op(tok(ts, p)) {
        None => Ok((lhs, p)),
        Some(op) => match p_mul(ts, p + 1) {
            Ok((r, q)) => if p < q <= ts.len() {
                p_add_tail(ts, bin(op, lhs, r), q)
            } else {
                Err(Seq::empty())
            },
            Err(m) => Err(m),
        },
    }
}

/// A product or quotient chain starting at `p`.
pub open spec fn p_mul(ts: Seq<TokenView>, p: int) -> Result<(ExprView, int), Seq<char>>
    decreases ts.len() - p, 4int,
{
    match p_pow(ts, p) {
        Ok((e, q)) => if p < q <= ts.len() {
            p_mul_tail(ts, e, q)
        } else {
            Err(Seq::empty())
        },
        Err(m) => Err(m),
    }
}

/// The rest of a multiplicative chain whose left part `lhs` ends at `p`.
pub open spec fn p_mul_tail(ts: Seq<TokenView>, lhs: ExprView, p: int) -> Result<(ExprView, int), Seq<char>>
    decreases ts.len() - p, 3int,
{
    match mul_op(tok(ts, p)) {
        None => Ok((lhs, p)),
        Some(op) => match p_pow(ts, p + 1) {
            Ok((r, q)) => if p < q <= ts.len() {
                p_mul_tail(ts, bin(op, lhs, r), q)
            } else {
                Err(Seq::empty())
            },
            Err(m) => Err(m),
        },
    }
}

/// A power (right-associative `**`) starting at `p`.
pub open spec fn p_pow(ts: Seq<TokenView>, p: int) -> Result<(ExprView, int), Seq<char>>
    decreases ts.len() - p, 2int,
{
    match p_unary(ts, p) {
        Ok((e, q)) => if p < q && tok(ts, q) is Pow {
            match p_pow(ts, q + 1) {
                Ok((r, q2)) => Ok((bin(BinaryOp::Pow, e, r), q2)),
                Err(m) => Err(m),
            }
        } else {
            Ok((e, q))
        },
        Err(m) => Err(m),
    }
}

/// A signed operand starting at `p`.
pub open spec fn p_unary(ts: Seq<TokenView>, p: int) -> Result<(ExprView, int), Seq<char>>
    decreases ts.len() - p, 1int,
{
    match tok(ts, p) {
        Tok::Plus => match p_unary(ts, p + 1) {
            Ok((e, q)) => Ok((ExprView::Unary(UnaryOp::Pos, Box::new(e)), q)),
            Err(m) => Err(m),
        },
        Tok::Minus => match p_unary(ts, p + 1) {
            Ok((e, q)) => Ok((ExprView::Unary(UnaryOp::Neg, Box::new(e)), q)),
            Err(m) => Err(m),
        },
        _ => p_primary(ts, p),
    }
}

/// A number, parameter, variable, call or parenthesised expression at `p`.
pub open spec fn p_primary(ts: Seq<TokenView>, p: int) -> Result<(ExprView, int), Seq<char>>
    decreases ts.len() - p, 0int,
{
    match tok(ts, p) {
        Tok::Number(n) => Ok((ExprView::Number(n), p + 1)),
        Tok::Param(n) => Ok((ExprView::Param(n), p + 1)),
        Tok::Ident(n) => if tok(ts, p + 1) is LParen {
            match p_args(ts, p + 2) {
                Ok((args, q)) => Ok((ExprView::Call(n, args), q)),
                Err(m) => Err(m),
            }
        } else {
            Ok((ExprView::Var(n), p + 1))
        },
        Tok::LParen => match p_expr(ts, p + 1) {
            Ok((e, q)) => if tok(ts, q) is RParen {
                Ok((e, q + 1))
            } else {
                Err("expected RParen, got "@ + tok_text(tok(ts, q)))
            },
            Err(m) => Err(m),
        },
        _ => Err("expected formula expression, got "@ + tok_text(tok(ts, p))),
    }
}

/// A call's argument list starting just after its `(`.
pub open spec fn p_args(ts: Seq<TokenView>, p: int) -> Result<(Seq<ExprView>, int), Seq<char>>
    decreases ts.len() - p, 11int,
{
    if tok(ts, p) is RParen {
        Ok((Seq::empty(), p + 1))
    } else {
        p_args_list(ts, Seq::empty(), p)
    }
}

/// The remaining arguments of a non-empty list, `acc` holding those read.
pub open spec fn p_args_list(ts: Seq<TokenView>, acc: Seq<ExprView>, p: int) -> Result<(Seq<ExprView>, int), Seq<char>>
    decreases ts.len() - p, 10int,
{
    match p_expr(ts, p) {
        Ok((e, q)) => if p < q <= ts.len() {
            match tok(ts, q) {
                Tok::Comma => p_args_list(ts, acc.push(e), q + 1),
                Tok::RParen => Ok((acc.push(e), q + 1)),
                _ => Err("expected `,` or `)` in formula call, got "@ + tok_text(tok(ts, q))),
            }
        } else {
            Err(Seq::empty())
        },
        Err(m) => Err(m),
    }
}

/// The tree a single operand token stands for: a number, a parameter or a
/// variable; `None` for any other token.
pub open spec fn operand(t: TokenView) -> Option<ExprView> {
    match t {
        Tok::Number(n) => Some(ExprView::Number(n)),
        Tok::Param(n) => Some(ExprView::Param(n)),
        Tok::Ident(n) => Some(ExprView::Var(n)),
        _ => None,
    }
}

/// An operand token followed by `+`, `-` or the end is a whole product.
proof fn lemma_operand_product(all: Seq<TokenView>, p: int)
    requires
        0 <= p,
        p + 1 < all.len(),
        operand(all[p]) is Some,
        all[p + 1] is Plus || all[p + 1] is Minus || all[p + 1] is End,
    ensures
        p_mul(all, p) == Ok::<(ExprView, int), Seq<char>>((operand(all[p])->0, p + 1)),
{
    let e = operand(all[p])->0;
    assert(tok(all, p) == all[p]);
    assert(tok(all, p + 1) == all[p + 1]);
    assert(p_primary(all, p) == Ok::<(ExprView, int), Seq<char>>((e, p + 1)));
    assert(p_unary(all, p) == Ok::<(ExprView, int), Seq<char>>((e, p + 1)));
    assert(p_pow(all, p) == Ok::<(ExprView, int), Seq<char>>((e, p + 1)));
    assert(p_mul_tail(all, e, p + 1) == Ok::<(ExprView, int), Seq<char>>((e, p + 1)));
}

/// A sum or difference keeps its operands in source order and associates to
/// the left: `a - b` is `a` minus `b` (not `b` minus `a`), and `a - b + c`
/// is `(a - b) + c`, for any operand tokens `a`, `b`, `c`.
pub proof fn law_additive_operands_in_source_order(a: TokenView, b: TokenView, c: TokenView)
    requires
        operand(a) is Some,
        operand(b) is Some,
        operand(c) is Some,
    ensures
        parse_tokens(seq![a, Tok::Plus, b]) == Ok::<ExprView, Seq<char>>(ExprView::Binary(
            BinaryOp::Add, Box::new(operand(a)->0), Box::new(operand(b)->0))),
        parse_tokens(seq![a, Tok::Minus, b]) == Ok::<ExprView, Seq<char>>(ExprView::Binary(
            BinaryOp::Sub, Box::new(operand(a)->0), Box::new(operand(b)->0))),
        parse_tokens(seq![a, Tok::Minus, b, Tok::Plus, c]) == Ok::<ExprView, Seq<char>>(ExprView::Binary(
            BinaryOp::Add,
            Box::new(ExprView::Binary(BinaryOp::Sub, Box::new(operand(a)->0), Box::new(operand(b)->0))),
            Box::new(operand(c)->0))),
{
    let (ea, eb, ec) = (operand(a)->0, operand(b)->0, operand(c)->0);
    // a + b
    let all = seq![a, Tok::Plus, b].push(Tok::End);
    lemma_operand_product(all, 0);
    lemma_operand_product(all, 2);
    let s = bin(BinaryOp::Add, ea, eb);
    assert(tok(all, 1) == Tok::<Seq<char>>::Plus);
    assert(tok(all, 3) == Tok::<Seq<char>>::End);
    assert(p_add_tail(all, s, 3) == Ok::<(ExprView, int), Seq<char>>((s, 3)));
    assert(p_add_tail(all, ea, 1) == Ok::<(ExprView, int), Seq<char>>((s, 3)));
    assert(p_add(all, 0) == Ok::<(ExprView, int), Seq<char>>((s, 3)));
    assert(p_cmp_tail(all, s, 3) == Ok::<(ExprView, int), Seq<char>>((s, 3)));
    assert(p_expr(all, 0) == Ok::<(ExprView, int), Seq<char>>((s, 3)));
    // a - b
    let all = seq![a, Tok::Minus, b].push(Tok::End);
    lemma_operand_product(all, 0);
    lemma_operand_product(all, 2);
    let s = bin(BinaryOp::Sub, ea, eb);
    assert(tok(all, 1) == Tok::<Seq<char>>::Minus);
    assert(tok(all, 3) == Tok::<Seq<char>>::End);
    assert(p_add_tail(all, s, 3) == Ok::<(ExprView, int), Seq<char>>((s, 3)));
    assert(p_add_tail(all, ea, 1) == Ok::<(ExprView, int), Seq<char>>((s, 3)));
    assert(p_add(all, 0) == Ok::<(ExprView, int), Seq<char>>((s, 3)));
    assert(p_cmp_tail(all, s, 3) == Ok::<(ExprView, int), Seq<char>>((s, 3)));
    assert(p_expr(all, 0) == Ok::<(ExprView, int), Seq<char>>((s, 3)));
    // a - b + c
    let all = seq![a, Tok::Minus, b, Tok::Plus, c].push(Tok::End);
    lemma_operand_product(all, 0);
    lemma_operand_product(all, 2);
    lemma_operand_product(all, 4);
    let s1 = bin(BinaryOp::Sub, ea, eb);
    let s2 = bin(BinaryOp::Add, s1, ec);
    assert(tok(all, 1) == Tok::<Seq<char>>::Minus);
    assert(tok(all, 3) == Tok::<Seq<char>>::Plus);
    assert(tok(all, 5) == Tok::<Seq<char>>::End);
    assert(p_add_tail(all, s2, 5) == Ok::<(ExprView, int), Seq<char>>((s2, 5)));
    assert(p_add_tail(all, s1, 3) == Ok::<(ExprView, int), Seq<char>>((s2, 5)));
    assert(p_add_tail(all, ea, 1) == Ok::<(ExprView, int), Seq<char>>((s2, 5)));
    assert(p_add(all, 0) == Ok::<(ExprView, int), Seq<char>>((s2, 5)));
    assert(p_cmp_tail(all, s2, 5) == Ok::<(ExprView, int), Seq<char>>((s2, 5)));
    assert(p_expr(all, 0) == Ok::<(ExprView, int), Seq<char>>((s2, 5)));
}

/// In general, for a difference `l - r` of two products, the left operand
/// of the tree is the product read before the `-` and the right operand the
/// one read after it.
pub proof fn law_difference_left_operand_first(ts: Seq<TokenView>, p: int, l: ExprView, q: int, r: ExprView, q2: int)
    requires
        p_mul(ts, p) == Ok::<(ExprView, int), Seq<char>>((l, q)),
        p < q < q2 <= ts.len(),
        tok(ts, q) is Minus,
        p_mul(ts, q + 1) == Ok::<(ExprView, int), Seq<char>>((r, q2)),
        !(tok(ts, q2) is Plus || tok(ts, q2) is Minus),
    ensures
        p_add(ts, p) == Ok::<(ExprView, int), Seq<char>>((ExprView::Binary(BinaryOp::Sub, Box::new(l), Box::new(r)), q2)),
{
    let d = bin(BinaryOp::Sub, l, r);
    assert(p_add_tail(ts, d, q2) == Ok::<(ExprView, int), Seq<char>>((d, q2)));
    assert(p_add_tail(ts, l, q) == Ok::<(ExprView, int), Seq<char>>((d, q2)));
}

/// A whole token sequence as one expression (the parse must reach the end),
/// or the message of the first error met.
pub open spec fn parse_tokens(ts: Seq<TokenView>) -> Result<ExprView, Seq<char>> {
    let all = ts.push(Tok::End);
    match p_expr(all, 0) {
        Ok((e, q)) => if tok(all, q) is End {
            Ok(e)
        } else {
            Err("unexpected trailing formula token "@ + tok_text(tok(all, q)))
        },
        Err(m) => Err(m),
    }
}

/// A token as error messages show it: the variant's name, with a name or a
/// number's literal text in brackets.
pub open spec fn tok_text(t: TokenView) -> Seq<char> {
    match t {
        Tok::Number(s) => "Number("@ + s + ")"@,
        Tok::Ident(s) => "Ident(\""@ + s + "\")"@,
        Tok::Param(s) => "Param(\""@ + s + "\")"@,
        Tok::Plus => "Plus"@,
        Tok::Minus => "Minus"@,
        Tok::Star => "Star"@,
        Tok::Slash => "Slash"@,
        Tok::Pow => "Pow"@,
        Tok::LParen => "LParen"@,
        Tok::RParen => "RParen"@,
        Tok::Comma => "Comma"@,
        Tok::Lt => "Lt"@,
        Tok::Le => "Le"@,
        Tok::Gt => "Gt"@,
        Tok::Ge => "Ge"@,
        Tok::EqEq => "EqEq"@,
        Tok::Ne => "Ne"@,
        Tok::End => "End"@,
    }
}

/// The text of token `t` (see [`tok_text`]).
pub fn token_text(t: &Token) -> (r: String)
    ensures
        r@ == tok_text(t@),
{
    match t {
        Tok::Number(s) => concat3("Number(", s.as_str(), ")"),
        Tok::Ident(s) => concat3("Ident(\"", s.as_str(), "\")"),
        Tok::Param(s) => concat3("Param(\"", s.as_str(), "\")"),
        Tok::Plus => String::from_str("Plus"),
        Tok::Minus => String::from_str("Minus"),
        Tok::Star => String::from_str("Star"),
        Tok::Slash => String::from_str("Slash"),
        Tok::Pow => String::from_str("Pow"),
        Tok::LParen => String::from_str("LParen"),
        Tok::RParen => String::from_str("RParen"),
        Tok::Comma => String::from_str("Comma"),
        Tok::Lt => String::from_str("Lt"),
        Tok::Le => String::from_str("Le"),
        Tok::Gt => String::from_str("Gt"),
        Tok::Ge => String::from_str("Ge"),
        Tok::EqEq => String::from_str("EqEq"),
        Tok::Ne => String::from_str("Ne"),
        Tok::End => String::from_str("End"),
    }
}

/// The parse error whose message is `head` followed by the text of `t`.
fn token_error(head: &str, t: &Token) -> (r: AlgoError)
    ensures
        r matches AlgoError::Parse(m) && m@ == head@ + tok_text(t@),
{
    let tt = token_text(t);
    AlgoError::Parse(concat(head, tt.as_str()))
}

/// The recursive-descent parser state: the tokens (ending in `End`) and the
/// current position.
pub struct Parser {
    tokens: Vec<Token>,
    pos: usize,
}

impl Parser {
    /// The tokens being parsed, as views.
    pub closed spec fn toks(&self) -> Seq<TokenView> {
        tokens_view(self.tokens@)
    }

    /// The current position.
    pub closed spec fn at(&self) -> int {
        self.pos as int
    }

    /// The tokens end in `End` and the position is within them.
    pub closed spec fn wf(&self) -> bool {
        &&& self.tokens@.len() > 0
        &&& self.tokens@.last()@ is End
        &&& self.pos < self.tokens@.len()
    }

    /// A parser at the start of `tokens` followed by `End`.
    pub fn new(tokens: Vec<Token>) -> (p: Parser)
        ensures
            p.wf(),
            p.at() == 0,
            p.toks() == tokens_view(tokens@).push(Tok::End),
    {
        let mut tokens = tokens;
        let ghost before = tokens@;
        tokens.push(Tok::End);
        let p = Parser { tokens, pos: 0 };
        assert(p.toks() =~= tokens_view(before).push(Tok::End));
        p
    }

    /// The token at the current position.
    fn peek(&self) -> (r: &Token)
        requires
            self.wf(),
        ensures
            r@ == self.toks()[self.at()],
    {
        &self.tokens[self.pos]
    }

    /// Step past the current token, which is not `End`.
    fn advance(&mut self)
        requires
            old(self).wf(),
            !(old(self).toks()[old(self).at()] is End),
        ensures
            final(self).wf(),
            final(self).toks() == old(self).toks(),
            final(self).at() == old(self).at() + 1,
    {
        assert(self.toks()[self.tokens@.len() - 1] == self.tokens@.last()@);
        assert(self.toks()[self.pos as int] == self.tokens@[self.pos as int]@);
        assert(self.pos != self.tokens@.len() - 1);
        let len = self.tokens.len();
        assert(self.pos + 1 < len);
        self.pos = self.pos + 1;
    }

    /// Parse one expression from the current position.
    pub fn parse_expression(&mut self) -> (r: Result<Expr, AlgoError>)
        requires
            old(self).wf(),
        ensures
            final(self).toks() == old(self).toks(),
            match r {
                Ok(e) => p_expr(old(self).toks(), old(self).at()) == Ok::<(ExprView, int), Seq<char>>((e@, final(self).at()))
                    && final(self).wf() && old(self).at() < final(self).at(),
                Err(err) => p_expr(old(self).toks(), old(self).at()) matches Err(m) && err matches AlgoError::Parse(x) && x@ == m,
            },
        decreases old(self).toks().len() - old(self).at(), 9int,
    {
        self.parse_comparison()
    }

    fn parse_comparison(&mut self) -> (r: Result<Expr, AlgoError>)
        requires
            old(self).wf(),
        ensures
            final(self).toks() == old(self).toks(),
            match r {
                Ok(e) => p_cmp(old(self).toks(), old(self).at()) == Ok::<(ExprView, int), Seq<char>>((e@, final(self).at()))
                    && final(self).wf() && old(self).at() < final(self).at(),
                Err(err) => p_cmp(old(self).toks(), old(self).at()) matches Err(m) && err matches AlgoError::Parse(x) && x@ == m,
            },
        decreases old(self).toks().len() - old(self).at(), 8int,
    {
        let ghost ts = self.toks();
        let ghost p0 = self.at();
        let mut expr = match self.parse_additive() {
            Ok(e) => e,
            Err(e) => return Err(e),
        };
        loop
            invariant
                self.wf(),
                self.toks() == ts,
                ts == old(self).toks(),
                p0 == old(self).at(),
                ts.len() == self.tokens@.len(),
                p0 < self.at(),
                p_cmp(ts, p0) == p_cmp_tail(ts, expr@, self.at()),
            decreases self.tokens@.len() - self.pos,
        {
            let op = match cmp_op_of(self.peek()) {
                Some(op) => op,
                None => return Ok(expr),
            };
            self.advance();
            let rhs = match self.parse_additive() {
                Ok(e) => e,
                Err(e) => return Err(e),
            };
            expr = Expr::Binary(op, Box::new(expr), Box::new(rhs));
        }
    }

    fn parse_additive(&mut self) -> (r: Result<Expr, AlgoError>)
        requires
            old(self).wf(),
        ensures
            final(self).toks() == old(self).toks(),
            match r {
                Ok(e) => p_add(old(self).toks(), old(self).at()) == Ok::<(ExprView, int), Seq<char>>((e@, final(self).at()))
                    && final(self).wf() && old(self).at() < final(self).at(),
                Err(err) => p_add(old(self).toks(), old(self).at()) matches Err(m) && err matches AlgoError::Parse(x) && x@ == m,
            },
        decreases old(self).toks().len() - old(self).at(), 6int,
    {
        let ghost ts = self.toks();
        let ghost p0 = self.at();
        let mut expr = match self.parse_multiplicative() {
            Ok(e) => e,
            Err(e) => return Err(e),
        };
        loop
            invariant
                self.wf(),
                self.toks() == ts,
                ts == old(self).toks(),
                p0 == old(self).at(),
                ts.len() == self.tokens@.len(),
                p0 < self.at(),
                p_add(ts, p0) == p_add_tail(ts, expr@, self.at()),
            decreases self.tokens@.len() - self.pos,
        {
            let op = match add_op_of(self.peek()) {
                Some(op) => op,
                None => return Ok(expr),
            };
            self.advance();
            let rhs = match self.parse_multiplicative() {
                Ok(e) => e,
                Err(e) => return Err(e),
            };
            expr = Expr::Binary(op, Box::new(expr), Box::new(rhs));
        }
    }

    fn parse_multiplicative(&mut self) -> (r: Result<Expr, AlgoError>)
        requires
            old(self).wf(),
        ensures
            final(self).toks() == old(self).toks(),
            match r {
                Ok(e) => p_mul(old(self).toks(), old(self).at()) == Ok::<(ExprView, int), Seq<char>>((e@, final(self).at()))
                    && final(self).wf() && old(self).at() < final(self).at(),
                Err(err) => p_mul(old(self).toks(), old(self).at()) matches Err(m) && err matches AlgoError::Parse(x) && x@ == m,
            },
        decreases old(self).toks().len() - old(self).at(), 4int,
    {
        let ghost ts = self.toks();
        let ghost p0 = self.at();
        let mut expr = match self.parse_power() {
            Ok(e) => e,
            Err(e) => return Err(e),
        };
        loop
            invariant
                self.wf(),
                self.toks() == ts,
                ts == old(self).toks(),
                p0 == old(self).at(),
                ts.len() == self.tokens@.len(),
                p0 < self.at(),
                p_mul(ts, p0) == p_mul_tail(ts, expr@, self.at()),
            decreases self.tokens@.len() - self.pos,
        {
            let op = match mul_op_of(self.peek()) {
                Some(op) => op,
                None => return Ok(expr),
            };
            self.advance();
            let rhs = match self.parse_power() {
                Ok(e) => e,
                Err(e) => return Err(e),
            };
            expr = Expr::Binary(op, Box::new(expr), Box::new(rhs));
        }
    }

    fn parse_power(&mut self) -> (r: Result<Expr, AlgoError>)
        requires
            old(self).wf(),
        ensures
            final(self).toks() == old(self).toks(),
            match r {
                Ok(e) => p_pow(old(self).toks(), old(self).at()) == Ok::<(ExprView, int), Seq<char>>((e@, final(self).at()))
                    && final(self).wf() && old(self).at() < final(self).at(),
                Err(err) => p_pow(old(self).toks(), old(self).at()) matches Err(m) && err matches AlgoError::Parse(x) && x@ == m,
            },
        decreases old(self).toks().len() - old(self).at(), 2int,
    {
        let expr = match self.parse_unary() {
            Ok(e) => e,
            Err(e) => return Err(e),
        };
        if matches!(self.peek(), Tok::Pow) {
            self.advance();
            let rhs = match self.parse_power() {
                Ok(e) => e,
                Err(e) => return Err(e),
            };
            return Ok(Expr::Binary(BinaryOp::Pow, Box::new(expr), Box::new(rhs)));
        }
        Ok(expr)
    }

    fn parse_unary(&mut self) -> (r: Result<Expr, AlgoError>)
        requires
            old(self).wf(),
        ensures
            final(self).toks() == old(self).toks(),
            match r {
                Ok(e) => p_unary(old(self).toks(), old(self).at()) == Ok::<(ExprView, int), Seq<char>>((e@, final(self).at()))
                    && final(self).wf() && old(self).at() < final(self).at(),
                Err(err) => p_unary(old(self).toks(), old(self).at()) matches Err(m) && err matches AlgoError::Parse(x) && x@ == m,
            },
        decreases old(self).toks().len() - old(self).at(), 1int,
    {
        if matches!(self.peek(), Tok::Plus) {
            self.advance();
            let e = match self.parse_unary() {
                Ok(e) => e,
                Err(e) => return Err(e),
            };
            Ok(Expr::Unary(UnaryOp::Pos, Box::new(e)))
        } else if matches!(self.peek(), Tok::Minus) {
            self.advance();
            let e = match self.parse_unary() {
                Ok(e) => e,
                Err(e) => return Err(e),
            };
            Ok(Expr::Unary(UnaryOp::Neg, Box::new(e)))
        } else {
            self.parse_primary()
        }
    }

    fn parse_primary(&mut self) -> (r: Result<Expr, AlgoError>)
        requires
            old(self).wf(),
        ensures
            final(self).toks() == old(self).toks(),
            match r {
                Ok(e) => p_primary(old(self).toks(), old(self).at()) == Ok::<(ExprView, int), Seq<char>>((e@, final(self).at()))
                    && final(self).wf() && old(self).at() < final(self).at(),
                Err(err) => p_primary(old(self).toks(), old(self).at()) matches Err(m) && err matches AlgoError::Parse(x) && x@ == m,
            },
        decreases old(self).toks().len() - old(self).at(), 0int,
    {
        let ghost ts = self.toks();
        let ghost p0 = self.at();
        let t = self.peek().duplicate();
        assert(tok(ts, p0) == t@);
        match t {
            Tok::Number(value) => {
                self.advance();
                Ok(Expr::Number(value))
            }
            Tok::Param(name) => {
                self.advance();
                Ok(Expr::Param(name))
            }
            Tok::Ident(name) => {
                self.advance();
                self.parse_call_or_var(name)
            }
            Tok::LParen => {
                self.advance();
                self.parse_group()
            }
            _ => Err(token_error("expected formula expression, got ", self.peek())),
        }
    }

    /// After an identifier: a call if `(` follows, else a variable.
    fn parse_call_or_var(&mut self, name: String) -> (r: Result<Expr, AlgoError>)
        requires
            old(self).wf(),
            old(self).at() > 0,
            tok(old(self).toks(), old(self).at() - 1) == Tok::Ident(name@),
        ensures
            final(self).toks() == old(self).toks(),
            match r {
                Ok(e) => p_primary(old(self).toks(), old(self).at() - 1) == Ok::<(ExprView, int), Seq<char>>((e@, final(self).at()))
                    && final(self).wf() && old(self).at() <= final(self).at(),
                Err(err) => p_primary(old(self).toks(), old(self).at() - 1) matches Err(m) && err matches AlgoError::Parse(x) && x@ == m,
            },
        decreases old(self).toks().len() - old(self).at(), 12int,
    {
        let ghost ts = self.toks();
        let ghost p0 = self.at() - 1;
        if matches!(self.peek(), Tok::LParen) {
            self.advance();
            let args = match self.parse_args() {
                Ok(a) => a,
                Err(e) => return Err(e),
            };
            let ghost av = args@.map_values(|a: Expr| a@);
            let e = Expr::Call(name, args);
            assert(e@ == ExprView::Call(name@, av)) by {
                assert(e@->Call_1 =~= av);
            }
            Ok(e)
        } else {
            Ok(Expr::Var(name))
        }
    }

    /// After `(`: an expression, then `)`.
    fn parse_group(&mut self) -> (r: Result<Expr, AlgoError>)
        requires
            old(self).wf(),
            old(self).at() > 0,
            tok(old(self).toks(), old(self).at() - 1) == Tok::<Seq<char>>::LParen,
        ensures
            final(self).toks() == old(self).toks(),
            match r {
                Ok(e) => p_primary(old(self).toks(), old(self).at() - 1) == Ok::<(ExprView, int), Seq<char>>((e@, final(self).at()))
                    && final(self).wf() && old(self).at() <= final(self).at(),
                Err(err) => p_primary(old(self).toks(), old(self).at() - 1) matches Err(m) && err matches AlgoError::Parse(x) && x@ == m,
            },
        decreases old(self).toks().len() - old(self).at(), 12int,
    {
        let expr = match self.parse_expression() {
            Ok(e) => e,
            Err(e) => return Err(e),
        };
        if !matches!(self.peek(), Tok::RParen) {
            return Err(token_error("expected RParen, got ", self.peek()));
        }
        self.advance();
        Ok(expr)
    }

    fn parse_args(&mut self) -> (r: Result<Vec<Expr>, AlgoError>)
        requires
            old(self).wf(),
        ensures
            final(self).toks() == old(self).toks(),
            match r {
                Ok(args) => p_args(old(self).toks(), old(self).at()) == Ok::<(Seq<ExprView>, int), Seq<char>>((args@.map_values(|a: Expr| a@), final(self).at()))
                    && final(self).wf() && old(self).at() < final(self).at(),
                Err(err) => p_args(old(self).toks(), old(self).at()) matches Err(m) && err matches AlgoError::Parse(x) && x@ == m,
            },
        decreases old(self).toks().len() - old(self).at(), 11int,
    {
        let ghost ts = self.toks();
        let ghost p0 = self.at();
        if matches!(self.peek(), Tok::RParen) {
            self.advance();
            let v: Vec<Expr> = Vec::new();
            assert(v@.map_values(|a: Expr| a@) =~= Seq::<ExprView>::empty());
            return Ok(v);
        }
        let mut args: Vec<Expr> = Vec::new();
        assert(args@.map_values(|a: Expr| a@) =~= Seq::<ExprView>::empty());
        loop
            invariant
                self.wf(),
                self.toks() == ts,
                ts == old(self).toks(),
                p0 == old(self).at(),
                ts.len() == self.tokens@.len(),
                p0 <= self.at(),
                p_args(ts, p0) == p_args_list(ts, args@.map_values(|a: Expr| a@), self.at()),
            decreases self.tokens@.len() - self.pos,
        {
            let ghost acc = args@.map_values(|a: Expr| a@);
            let e = match self.parse_expression() {
                Ok(e) => e,
                Err(e) => return Err(e),
            };
            let ghost ev = e@;
            args.push(e);
            assert(args@.map_values(|a: Expr| a@) =~= acc.push(ev));
            if matches!(self.peek(), Tok::Comma) {
                self.advance();
            } else if matches!(self.peek(), Tok::RParen) {
                self.advance();
                return Ok(args);
            } else {
                return Err(token_error("expected `,` or `)` in formula call, got ", self.peek()));
            }
        }
    }

    /// Succeed only if every token has been consumed.
    pub fn expect_end(&self) -> (r: Result<(), AlgoError>)
        requires
            self.wf(),
        ensures
            match r {
                Ok(()) => tok(self.toks(), self.at()) is End,
                Err(err) => !(tok(self.toks(), self.at()) is End) && (err matches AlgoError::Parse(x)
                    && x@ == "unexpected trailing formula token "@ + tok_text(tok(self.toks(), self.at()))),
            },
    {
        if !matches!(self.peek(), Tok::End) {
            return Err(token_error("unexpected trailing formula token ", self.peek()));
        }
        Ok(())
    }
}

/// The comparison operator of a token.
fn cmp_op_of(t: &Token) -> (r: Option<BinaryOp>)
    ensures
        r == cmp_op(t@),
{
    match t {
        Tok::Lt => Some(BinaryOp::Lt),
        Tok::Le => Some(BinaryOp::Le),
        Tok::Gt => Some(BinaryOp::Gt),
        Tok::Ge => Some(BinaryOp::Ge),
        Tok::EqEq => Some(BinaryOp::Eq),
        Tok::Ne => Some(BinaryOp::Ne),
        _ => None,
    }
}

/// The additive operator of a token.
fn add_op_of(t: &Token) -> (r: Option<BinaryOp>)
    ensures
        r == add_op(t@),
{
    match t {
        Tok::Plus => Some(BinaryOp::Add),
        Tok::Minus => Some(BinaryOp::Sub),
        _ => None,
    }
}

/// The multiplicative operator of a token.
fn mul_op_of(t: &Token) -> (r: Option<BinaryOp>)
    ensures
        r == mul_op(t@),
{
    match t {
        Tok::Star => Some(BinaryOp::Mul),
        Tok::Slash => Some(BinaryOp::Div),
        _ => None,
    }
}

} // verus!
