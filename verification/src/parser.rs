//! Precedence-climbing parser producing an [`Expr`]: assignment, binary
//! operators, unary minus, lambdas, application, calls and matrices.

use vstd::prelude::*;
use crate::ast::{BinaryOp, Expr, Func, Term, row_view, rows_view, lemma_row_view, lemma_rows_view};
use crate::error::{EvalError, EvalResultT, Fault, same_outcome};
use crate::lexer::{Tok, Token, lex, lex_from, lex_spec, tokens_view, lex_error_message};
use crate::numeric::{Decimal, parse_model, opt_model};
use crate::text::{debug_text, str_debug_text, str_equal};

verus! {

/// Outcome of parsing from a position: the term and the next position, or
/// an error message.
pub type PRes = Result<(Term, int), Seq<char>>;

/// The token at `p` (`Eof` past the end).
pub open spec fn tk(ts: Seq<Tok>, p: int) -> Tok {
    if 0 <= p < ts.len() {
        ts[p]
    } else {
        Tok::Eof
    }
}

/// The `Debug` text of a token.
pub open spec fn tok_text(t: Tok) -> Seq<char> {
    match t {
        Tok::Number(s) => "Number("@ + str_debug_text(s) + ")"@,
        Tok::Ident(s) => "Ident("@ + str_debug_text(s) + ")"@,
        Tok::Plus => "Plus"@,
        Tok::Minus => "Minus"@,
        Tok::Star => "Star"@,
        Tok::Slash => "Slash"@,
        Tok::Caret => "Caret"@,
        Tok::LParen => "LParen"@,
        Tok::RParen => "RParen"@,
        Tok::LBracket => "LBracket"@,
        Tok::RBracket => "RBracket"@,
        Tok::Comma => "Comma"@,
        Tok::Semicolon => "Semicolon"@,
        Tok::Equals => "Equals"@,
        Tok::Backslash => "Backslash"@,
        Tok::Dot => "Dot"@,
        Tok::Eof => "Eof"@,
    }
}

pub open spec fn expect_message(want: Tok, found: Tok) -> Seq<char> {
    "expected "@ + tok_text(want) + ", found "@ + tok_text(found)
}

/// Operator, left and right binding power of an infix token. `^` is
/// right-associative (left power above right power).
pub open spec fn binding(t: Tok) -> Option<(BinaryOp, int, int)> {
    match t {
        Tok::Plus => Some((BinaryOp::Add, 10, 11)),
        Tok::Minus => Some((BinaryOp::Sub, 10, 11)),
        Tok::Star => Some((BinaryOp::Mul, 20, 21)),
        Tok::Slash => Some((BinaryOp::Div, 20, 21)),
        Tok::Caret => Some((BinaryOp::Pow, 31, 30)),
        _ => None,
    }
}

/// Names with dedicated call parsing (commands and transcendental functions).
pub open spec fn is_builtin_spec(name: Seq<char>) -> bool {
    name == "simplify"@ || name == "expand"@ || name == "derive"@ || name == "sin"@ || name
        == "cos"@ || name == "tan"@ || name == "exp"@ || name == "ln"@
}

/// `\p1 p2 ... pn. body` as nested single-parameter lambdas.
pub open spec fn nest_lambdas(params: Seq<Seq<char>>, body: Term) -> Term
    decreases params.len(),
{
    if params.len() == 0 {
        body
    } else {
        Term::Lambda(params[0], Box::new(nest_lambdas(params.skip(1), body)))
    }
}

/// The identifiers at `p, p+1, ...` and the position after them.
pub open spec fn lambda_params(ts: Seq<Tok>, p: int) -> (Seq<Seq<char>>, int)
    decreases ts.len() - p,
{
    if 0 <= p < ts.len() && ts[p] is Ident {
        let rest = lambda_params(ts, p + 1);
        (seq![ts[p]->Ident_0] + rest.0, rest.1)
    } else {
        (Seq::empty(), p)
    }
}

/// The parameter scan of a lambda advances by one token per name.
pub proof fn lemma_lambda_params(ts: Seq<Tok>, p: int)
    requires
        0 <= p,
    ensures
        p <= lambda_params(ts, p).1,
        p <= ts.len() ==> lambda_params(ts, p).1 <= ts.len(),
        lambda_params(ts, p).1 == p + lambda_params(ts, p).0.len(),
    decreases ts.len() - p,
{
    if 0 <= p < ts.len() && ts[p] is Ident {
        lemma_lambda_params(ts, p + 1);
    }
}

/// The built-in call of `name` on a parsed argument.
pub open spec fn builtin_term(name: Seq<char>, arg: Term) -> Option<Term> {
    if name == "simplify"@ {
        Some(Term::Simplify(Box::new(arg)))
    } else if name == "expand"@ {
        Some(Term::Expand(Box::new(arg)))
    } else if name == "sin"@ {
        Some(Term::Call(Func::Sin, Box::new(arg)))
    } else if name == "cos"@ {
        Some(Term::Call(Func::Cos, Box::new(arg)))
    } else if name == "tan"@ {
        Some(Term::Call(Func::Tan, Box::new(arg)))
    } else if name == "exp"@ {
        Some(Term::Call(Func::Exp, Box::new(arg)))
    } else if name == "ln"@ {
        Some(Term::Call(Func::Ln, Box::new(arg)))
    } else {
        None
    }
}

/// All rows have the width of the first.
pub open spec fn rectangular(rows: Seq<Seq<Term>>) -> bool {
    forall|i: int| 0 <= i < rows.len() ==> #[trigger] rows[i].len() == rows[0].len()
}

/// expr := prefix (infix-op expr)*, by precedence climbing from `min_bp`.
pub open spec fn p_expr(ts: Seq<Tok>, p: int, min_bp: int) -> PRes
    decreases ts.len() - p, 8int,
    when 0 <= p <= ts.len()
{
    match p_prefix(ts, p) {
        Ok((lhs, q)) => if p < q <= ts.len() {
            p_expr_loop(ts, lhs, q, min_bp)
        } else {
            Err(Seq::empty())
        },
        Err(m) => Err(m),
    }
}

pub open spec fn p_expr_loop(ts: Seq<Tok>, lhs: Term, p: int, min_bp: int) -> PRes
    decreases ts.len() - p, 5int,
    when 0 <= p <= ts.len()
{
    match binding(tk(ts, p)) {
        None => Ok((lhs, p)),
        Some((op, l_bp, r_bp)) => if l_bp < min_bp {
            Ok((lhs, p))
        } else {
            match p_expr(ts, p + 1, r_bp) {
                Ok((rhs, q)) => if p < q <= ts.len() {
                    p_expr_loop(ts, Term::Binary(op, Box::new(lhs), Box::new(rhs)), q, min_bp)
                } else {
                    Err(Seq::empty())
                },
                Err(m) => Err(m),
            }
        },
    }
}

/// prefix := lambda | '-' expr(25) | postfix
pub open spec fn p_prefix(ts: Seq<Tok>, p: int) -> PRes
    decreases ts.len() - p, 7int,
    when 0 <= p <= ts.len()
{
    if tk(ts, p) is Backslash {
        p_lambda(ts, p)
    } else if tk(ts, p) is Minus {
        match p_expr(ts, p + 1, 25) {
            Ok((e, q)) => Ok((Term::Neg(Box::new(e)), q)),
            Err(m) => Err(m),
        }
    } else {
        p_postfix(ts, p)
    }
}

/// lambda := '\' IDENT+ '.' expr
pub open spec fn p_lambda(ts: Seq<Tok>, p: int) -> PRes
    decreases ts.len() - p, 6int,
    when 0 <= p <= ts.len()
{
    if !(tk(ts, p) is Backslash) {
        Err(expect_message(Tok::Backslash, tk(ts, p)))
    } else {
        let (params, q) = lambda_params(ts, p + 1);
        proof {
            lemma_lambda_params(ts, p + 1);
        }
        if params.len() == 0 {
            Err("lambda needs at least one parameter"@)
        } else if !(tk(ts, q) is Dot) {
            Err(expect_message(Tok::Dot, tk(ts, q)))
        } else {
            match p_expr(ts, q + 1, 0) {
                Ok((body, r)) => Ok((nest_lambdas(params, body), r)),
                Err(m) => Err(m),
            }
        }
    }
}

/// postfix := primary ('(' expr (',' expr)* ')')*
pub open spec fn p_postfix(ts: Seq<Tok>, p: int) -> PRes
    decreases ts.len() - p, 6int,
    when 0 <= p <= ts.len()
{
    match p_primary(ts, p) {
        Ok((e, q)) => if p < q <= ts.len() {
            p_postfix_loop(ts, e, q)
        } else {
            Err(Seq::empty())
        },
        Err(m) => Err(m),
    }
}

pub open spec fn p_postfix_loop(ts: Seq<Tok>, e: Term, p: int) -> PRes
    decreases ts.len() - p, 5int,
    when 0 <= p <= ts.len()
{
    if tk(ts, p) is LParen {
        match p_args(ts, e, p + 1) {
            Ok((e2, q)) => if p < q <= ts.len() {
                p_postfix_loop(ts, e2, q)
            } else {
                Err(Seq::empty())
            },
            Err(m) => Err(m),
        }
    } else {
        Ok((e, p))
    }
}

/// Arguments of an application: each one applies the function so far.
pub open spec fn p_args(ts: Seq<Tok>, f: Term, p: int) -> PRes
    decreases ts.len() - p, 9int,
    when 0 <= p <= ts.len()
{
    match p_expr(ts, p, 0) {
        Ok((a, q)) => if p < q <= ts.len() {
            let e2 = Term::Apply(Box::new(f), Box::new(a));
            match tk(ts, q) {
                Tok::Comma => p_args(ts, e2, q + 1),
                Tok::RParen => Ok((e2, q + 1)),
                other => Err("expected ',' or ')' in application, found "@ + tok_text(other)),
            }
        } else {
            Err(Seq::empty())
        },
        Err(m) => Err(m),
    }
}

/// primary := NUMBER | IDENT | builtin call | '(' expr ')' | matrix
pub open spec fn p_primary(ts: Seq<Tok>, p: int) -> PRes
    decreases ts.len() - p, 5int,
    when 0 <= p <= ts.len()
{
    match tk(ts, p) {
        Tok::Number(s) => match parse_model(s) {
            Some(n) => Ok((Term::Number(n), p + 1)),
            None => Err("invalid number '"@ + s + "'"@),
        },
        Tok::Ident(name) => if tk(ts, p + 1) is LParen && is_builtin_spec(name) {
            p_call(ts, name, p + 1)
        } else {
            Ok((Term::Variable(name), p + 1))
        },
        Tok::LParen => match p_expr(ts, p + 1, 0) {
            Ok((e, q)) => if tk(ts, q) is RParen {
                Ok((e, q + 1))
            } else {
                Err(expect_message(Tok::RParen, tk(ts, q)))
            },
            Err(m) => Err(m),
        },
        Tok::LBracket => p_matrix(ts, p + 1),
        other => Err("unexpected token "@ + tok_text(other) + " in expression"@),
    }
}

/// call := '(' (IDENT ',' expr | expr) ')'
pub open spec fn p_call(ts: Seq<Tok>, name: Seq<char>, p: int) -> PRes
    decreases ts.len() - p, 5int,
    when 0 <= p <= ts.len()
{
    if !(tk(ts, p) is LParen) {
        Err(expect_message(Tok::LParen, tk(ts, p)))
    } else if name == "derive"@ {
        match tk(ts, p + 1) {
            Tok::Ident(v) => if !(tk(ts, p + 2) is Comma) {
                Err(expect_message(Tok::Comma, tk(ts, p + 2)))
            } else {
                match p_expr(ts, p + 3, 0) {
                    Ok((body, q)) => if tk(ts, q) is RParen {
                        Ok((Term::Derive(v, Box::new(body)), q + 1))
                    } else {
                        Err(expect_message(Tok::RParen, tk(ts, q)))
                    },
                    Err(m) => Err(m),
                }
            },
            other => Err("derive expects a variable as first argument, found "@ + tok_text(other)),
        }
    } else {
        match p_expr(ts, p + 1, 0) {
            Ok((arg, q)) => if tk(ts, q) is RParen {
                match builtin_term(name, arg) {
                    Some(t) => Ok((t, q + 1)),
                    None => Err("unknown function '"@ + name + "'"@),
                }
            } else {
                Err(expect_message(Tok::RParen, tk(ts, q)))
            },
            Err(m) => Err(m),
        }
    }
}

/// matrix := ']' | expr ((',' | ';') expr)* ']'   (after the '[')
pub open spec fn p_matrix(ts: Seq<Tok>, p: int) -> PRes
    decreases ts.len() - p, 10int,
    when 0 <= p <= ts.len()
{
    if tk(ts, p) is RBracket {
        Ok((Term::Matrix(Seq::empty()), p + 1))
    } else {
        p_matrix_loop(ts, Seq::empty(), Seq::empty(), p)
    }
}

pub open spec fn p_matrix_loop(ts: Seq<Tok>, rows: Seq<Seq<Term>>, row: Seq<Term>, p: int) -> PRes
    decreases ts.len() - p, 9int,
    when 0 <= p <= ts.len()
{
    match p_expr(ts, p, 0) {
        Ok((el, q)) => if p < q <= ts.len() {
            let row2 = row.push(el);
            match tk(ts, q) {
                Tok::Comma => p_matrix_loop(ts, rows, row2, q + 1),
                Tok::Semicolon => p_matrix_loop(ts, rows.push(row2), Seq::empty(), q + 1),
                Tok::RBracket => {
                    let rows2 = rows.push(row2);
                    if rectangular(rows2) {
                        Ok((Term::Matrix(rows2), q + 1))
                    } else {
                        Err("matrix rows have inconsistent lengths"@)
                    }
                },
                other => Err("expected ',' ';' or ']' in matrix, found "@ + tok_text(other)),
            }
        } else {
            Err(Seq::empty())
        },
        Err(m) => Err(m),
    }
}

/// statement := IDENT '=' expr | expr
pub open spec fn p_statement(ts: Seq<Tok>) -> PRes {
    if tk(ts, 0) is Ident && tk(ts, 1) is Equals {
        match p_expr(ts, 2, 0) {
            Ok((e, q)) => Ok((Term::Assign(tk(ts, 0)->Ident_0, Box::new(e)), q)),
            Err(m) => Err(m),
        }
    } else {
        p_expr(ts, 0, 0)
    }
}

/// A whole token stream: one statement followed by `Eof`.
pub open spec fn parse_tokens(ts: Seq<Tok>) -> Result<Term, Seq<char>> {
    match p_statement(ts) {
        Ok((e, q)) => if tk(ts, q) is Eof {
            Ok(e)
        } else {
            Err(expect_message(Tok::Eof, tk(ts, q)))
        },
        Err(m) => Err(m),
    }
}

/// Tokens as the lexer produces them: `Eof` last and nowhere else.
pub open spec fn tokens_wf(ts: Seq<Tok>) -> bool {
    &&& ts.len() >= 1
    &&& ts.last() is Eof
    &&& forall|i: int| 0 <= i < ts.len() - 1 ==> !(#[trigger] ts[i] is Eof)
}

/// The executable outcome matches a specified outcome.
pub open spec fn matches_pres(r: EvalResultT<(Expr, usize)>, s: PRes) -> bool {
    match s {
        Ok((t, q)) => r matches Ok((e, q2)) && e@ == t && q2 == q,
        Err(m) => r matches Err(EvalError::Parse(mm)) && mm@ == m,
    }
}

/// Advances: on success the next position is after `p` and not past `Eof`.
pub open spec fn advances(r: EvalResultT<(Expr, usize)>, p: int, len: int) -> bool {
    r matches Ok((_, q)) ==> p < q < len
}

struct Parser {
    tokens: Vec<Token>,
}

impl Parser {
    spec fn ts(&self) -> Seq<Tok> {
        tokens_view(self.tokens@)
    }

    spec fn wf(&self) -> bool {
        tokens_wf(self.ts())
    }

    fn peek(&self, pos: usize) -> (r: &Token)
        requires
            pos < self.tokens.len(),
        ensures
            r@ == tk(self.ts(), pos as int),
    {
        &self.tokens[pos]
    }

    /// The token at `pos` and the position after it.
    fn next(&self, pos: usize) -> (r: (Token, usize))
        requires
            pos < self.tokens.len(),
        ensures
            r.0@ == tk(self.ts(), pos as int),
            r.1 == pos + 1,
    {
        (copy_token(&self.tokens[pos]), pos + 1)
    }

    /// Consumes `want` at `pos`, or fails naming what was found.
    fn expect(&self, pos: usize, want: Token) -> (r: EvalResultT<usize>)
        requires
            pos < self.tokens.len(),
        ensures
            tk(self.ts(), pos as int) == want@ ==> r == Ok::<usize, EvalError>((pos + 1) as usize),
            tk(self.ts(), pos as int) != want@ ==> (r matches Err(EvalError::Parse(m)) && m@
                == expect_message(want@, tk(self.ts(), pos as int))),
    {
        if same_token(self.peek(pos), &want) {
            Ok(pos + 1)
        } else {
            Err(EvalError::Parse(expect_text(&want, self.peek(pos))))
        }
    }
}

fn copy_token(t: &Token) -> (r: Token)
    ensures
        r@ == t@,
{
    match t {
        Token::Number(s) => Token::Number(s.clone()),
        Token::Ident(s) => Token::Ident(s.clone()),
        Token::Plus => Token::Plus,
        Token::Minus => Token::Minus,
        Token::Star => Token::Star,
        Token::Slash => Token::Slash,
        Token::Caret => Token::Caret,
        Token::LParen => Token::LParen,
        Token::RParen => Token::RParen,
        Token::LBracket => Token::LBracket,
        Token::RBracket => Token::RBracket,
        Token::Comma => Token::Comma,
        Token::Semicolon => Token::Semicolon,
        Token::Equals => Token::Equals,
        Token::Backslash => Token::Backslash,
        Token::Dot => Token::Dot,
        Token::Eof => Token::Eof,
    }
}

fn same_token(a: &Token, b: &Token) -> (r: bool)
    ensures
        r == (a@ == b@),
{
    match (a, b) {
        (Token::Number(x), Token::Number(y)) => *x == *y,
        (Token::Ident(x), Token::Ident(y)) => *x == *y,
        (Token::Plus, Token::Plus) => true,
        (Token::Minus, Token::Minus) => true,
        (Token::Star, Token::Star) => true,
        (Token::Slash, Token::Slash) => true,
        (Token::Caret, Token::Caret) => true,
        (Token::LParen, Token::LParen) => true,
        (Token::RParen, Token::RParen) => true,
        (Token::LBracket, Token::LBracket) => true,
        (Token::RBracket, Token::RBracket) => true,
        (Token::Comma, Token::Comma) => true,
        (Token::Semicolon, Token::Semicolon) => true,
        (Token::Equals, Token::Equals) => true,
        (Token::Backslash, Token::Backslash) => true,
        (Token::Dot, Token::Dot) => true,
        (Token::Eof, Token::Eof) => true,
        _ => false,
    }
}

/// The `Debug` text of a token.
fn token_text(t: &Token) -> (r: String)
    ensures
        r@ == tok_text(t@),
{
    match t {
        Token::Number(s) => {
            let mut m = String::from_str("Number(");
            m.append(debug_text(s.as_str()).as_str());
            m.append(")");
            m
        },
        Token::Ident(s) => {
            let mut m = String::from_str("Ident(");
            m.append(debug_text(s.as_str()).as_str());
            m.append(")");
            m
        },
        Token::Plus => String::from_str("Plus"),
        Token::Minus => String::from_str("Minus"),
        Token::Star => String::from_str("Star"),
        Token::Slash => String::from_str("Slash"),
        Token::Caret => String::from_str("Caret"),
        Token::LParen => String::from_str("LParen"),
        Token::RParen => String::from_str("RParen"),
        Token::LBracket => String::from_str("LBracket"),
        Token::RBracket => String::from_str("RBracket"),
        Token::Comma => String::from_str("Comma"),
        Token::Semicolon => String::from_str("Semicolon"),
        Token::Equals => String::from_str("Equals"),
        Token::Backslash => String::from_str("Backslash"),
        Token::Dot => String::from_str("Dot"),
        Token::Eof => String::from_str("Eof"),
    }
}

fn expect_text(want: &Token, found: &Token) -> (r: String)
    ensures
        r@ == expect_message(want@, found@),
{
    let mut m = String::from_str("expected ");
    m.append(token_text(want).as_str());
    m.append(", found ");
    m.append(token_text(found).as_str());
    m
}

/// Message `prefix + text + suffix`.
fn framed(prefix: &str, text: &str, suffix: &str) -> (r: String)
    ensures
        r@ == prefix@ + text@ + suffix@,
{
    let mut m = String::from_str(prefix);
    m.append(text);
    m.append(suffix);
    m
}

/// Names with dedicated call parsing (commands + transcendental functions).
fn is_builtin(name: &str) -> (r: bool)
    ensures
        r == is_builtin_spec(name@),
{
    str_equal(name, "simplify") || str_equal(name, "expand") || str_equal(name, "derive")
        || str_equal(name, "sin") || str_equal(name, "cos") || str_equal(name, "tan") || str_equal(
        name,
        "exp",
    ) || str_equal(name, "ln")
}

/// Continuing a postfix chain after the arguments of an application that
/// opened at `open`.
pub open spec fn postfix_after_args(ts: Seq<Tok>, open: int, r: PRes) -> PRes {
    match r {
        Ok((e2, q)) => if open < q <= ts.len() {
            p_postfix_loop(ts, e2, q)
        } else {
            Err(Seq::empty())
        },
        Err(m) => Err(m),
    }
}

/// What the lexer produces ends with exactly one end-of-input token.
pub proof fn lemma_lex_tokens_wf(cs: Seq<char>, i: int)
    requires
        0 <= i,
        lex_from(cs, i) is Ok,
    ensures
        tokens_wf(lex_from(cs, i)->Ok_0),
    decreases cs.len() - i,
{
    if i >= cs.len() {
    } else {
        let c = cs[i];
        if crate::text::char_is_whitespace(c) {
            lemma_lex_tokens_wf(cs, i + 1);
        } else if crate::lexer::punct(c) is Some {
            lemma_lex_tokens_wf(cs, i + 1);
        } else if c == '.' && !(i + 1 < cs.len() && crate::lexer::is_digit(cs[i + 1])) {
            lemma_lex_tokens_wf(cs, i + 1);
        } else if crate::lexer::is_digit(c) || c == '.' {
            crate::lexer::lemma_number_end(cs, i);
            lemma_lex_tokens_wf(cs, crate::lexer::number_end(cs, i));
        } else if crate::text::char_is_alphabetic(c) || c == '_' {
            crate::lexer::lemma_ident_end(cs, i + 1);
            lemma_lex_tokens_wf(cs, crate::lexer::ident_end(cs, i + 1));
        }
        let ts = lex_from(cs, i)->Ok_0;
        assert forall|k: int| 0 <= k < ts.len() - 1 implies !(#[trigger] ts[k] is Eof) by {
            if k > 0 {
                let rest = ts.skip(1);
                assert(ts[k] == rest[k - 1]);
            }
        }
    }
}

impl Parser {
    /// expr := prefix (infix-op expr)*, by precedence climbing.
    fn parse_expr(&self, pos: usize, min_bp: u8) -> (r: EvalResultT<(Expr, usize)>)
        requires
            self.wf(),
            pos < self.tokens.len(),
        ensures
            matches_pres(r, p_expr(self.ts(), pos as int, min_bp as int)),
            advances(r, pos as int, self.tokens.len() as int),
        decreases self.tokens.len() - pos, 8int,
    {
        let ghost ts = self.ts();
        let (mut lhs, mut cur) = match self.parse_prefix(pos) {
            Ok(x) => x,
            Err(e) => {
                return Err(e);
            },
        };
        loop
            invariant
                self.wf(),
                ts == self.ts(),
                pos < cur < self.tokens.len(),
                p_expr(ts, pos as int, min_bp as int) == p_expr_loop(ts, lhs@, cur as int, min_bp as int),
            decreases self.tokens.len() - cur,
        {
            let (op, l_bp, r_bp): (BinaryOp, u8, u8) = match self.peek(cur) {
                Token::Plus => (BinaryOp::Add, 10, 11),
                Token::Minus => (BinaryOp::Sub, 10, 11),
                Token::Star => (BinaryOp::Mul, 20, 21),
                Token::Slash => (BinaryOp::Div, 20, 21),
                Token::Caret => (BinaryOp::Pow, 31, 30),
                _ => {
                    return Ok((lhs, cur));
                },
            };
            if l_bp < min_bp {
                return Ok((lhs, cur));
            }
            proof {
                assert(!(ts[cur as int] is Eof));
            }
            match self.parse_expr(cur + 1, r_bp) {
                Ok((rhs, q)) => {
                    lhs = Expr::Binary(op, Box::new(lhs), Box::new(rhs));
                    cur = q;
                },
                Err(e) => {
                    return Err(e);
                },
            }
        }
    }

    /// prefix := lambda | '-' expr | postfix. Unary minus binds tighter than
    /// `+ - * /` but looser than `^`.
    fn parse_prefix(&self, pos: usize) -> (r: EvalResultT<(Expr, usize)>)
        requires
            self.wf(),
            pos < self.tokens.len(),
        ensures
            matches_pres(r, p_prefix(self.ts(), pos as int)),
            advances(r, pos as int, self.tokens.len() as int),
        decreases self.tokens.len() - pos, 7int,
    {
        let ghost ts = self.ts();
        match self.peek(pos) {
            Token::Backslash => self.parse_lambda(pos),
            Token::Minus => {
                proof {
                    assert(!(ts[pos as int] is Eof));
                }
                match self.parse_expr(pos + 1, 25) {
                    Ok((e, q)) => Ok((Expr::Neg(Box::new(e)), q)),
                    Err(e) => Err(e),
                }
            },
            _ => self.parse_postfix(pos),
        }
    }

    /// `\x. e` and the multi-parameter sugar `\x y z. e`, desugared to nested
    /// single-parameter lambdas.
    fn parse_lambda(&self, pos: usize) -> (r: EvalResultT<(Expr, usize)>)
        requires
            self.wf(),
            pos < self.tokens.len(),
        ensures
            matches_pres(r, p_lambda(self.ts(), pos as int)),
            advances(r, pos as int, self.tokens.len() as int),
        decreases self.tokens.len() - pos, 6int,
    {
        let ghost ts = self.ts();
        let mut q = match self.expect(pos, Token::Backslash) {
            Ok(q) => q,
            Err(e) => {
                return Err(e);
            },
        };
        let mut params: Vec<String> = Vec::new();
        proof {
            lemma_lambda_params(ts, pos + 1);
            assert(params@.map_values(|s: String| s@) =~= Seq::<Seq<char>>::empty());
            assert(lambda_params(ts, pos + 1).0 =~= params@.map_values(|s: String| s@) + lambda_params(ts, pos + 1).0);
        }
        loop
            invariant
                self.wf(),
                ts == self.ts(),
                pos < q < self.tokens.len(),
                lambda_params(ts, pos + 1).0 == params@.map_values(|s: String| s@) + lambda_params(ts, q as int).0,
                lambda_params(ts, pos + 1).1 == lambda_params(ts, q as int).1,
            ensures
                pos < q < self.tokens.len(),
                !(tk(ts, q as int) is Ident),
                lambda_params(ts, pos + 1).0 == params@.map_values(|s: String| s@) + lambda_params(ts, q as int).0,
                lambda_params(ts, pos + 1).1 == lambda_params(ts, q as int).1,
            decreases self.tokens.len() - q,
        {
            match self.peek(q) {
                Token::Ident(p) => {
                    let ghost pv = params@.map_values(|s: String| s@);
                    proof {
                        assert(!(ts[q as int] is Eof));
                        let rest = lambda_params(ts, q + 1);
                        assert(lambda_params(ts, q as int).0 == seq![p@] + rest.0);
                        assert(pv + (seq![p@] + rest.0) =~= pv.push(p@) + rest.0);
                    }
                    params.push(p.clone());
                    proof {
                        assert(params@.map_values(|s: String| s@) =~= pv.push(p@));
                    }
                    q = q + 1;
                },
                _ => {
                    break;
                },
            }
        }
        let ghost pv = params@.map_values(|s: String| s@);
        proof {
            assert(lambda_params(ts, q as int).0 =~= Seq::<Seq<char>>::empty());
            assert(pv + Seq::<Seq<char>>::empty() =~= pv);
        }
        if params.len() == 0 {
            return Err(EvalError::Parse(String::from_str("lambda needs at least one parameter")));
        }
        let q2 = match self.expect(q, Token::Dot) {
            Ok(x) => x,
            Err(e) => {
                return Err(e);
            },
        };
        proof {
            assert(!(ts[q as int] is Eof));
        }
        let (body, r) = match self.parse_expr(q2, 0) {
            Ok(x) => x,
            Err(e) => {
                return Err(e);
            },
        };
        let ghost body_t = body@;
        let mut e = body;
        let mut i = params.len();
        proof {
            assert(pv.skip(pv.len() as int) =~= Seq::<Seq<char>>::empty());
        }
        while i > 0
            invariant
                i <= params.len(),
                pv == params@.map_values(|s: String| s@),
                e@ == nest_lambdas(pv.skip(i as int), body_t),
            decreases i,
        {
            proof {
                assert(pv.skip(i - 1).skip(1) =~= pv.skip(i as int));
                assert(pv.skip(i - 1)[0] == params@[i - 1]@);
            }
            e = Expr::Lambda(params[i - 1].clone(), Box::new(e));
            i -= 1;
        }
        proof {
            assert(pv.skip(0) =~= pv);
        }
        Ok((e, r))
    }

    /// Application is a left-associative postfix: `f(a)`, `f(a)(b)`, and the
    /// multi-argument sugar `f(a, b)` == `f(a)(b)`.
    fn parse_postfix(&self, pos: usize) -> (r: EvalResultT<(Expr, usize)>)
        requires
            self.wf(),
            pos < self.tokens.len(),
        ensures
            matches_pres(r, p_postfix(self.ts(), pos as int)),
            advances(r, pos as int, self.tokens.len() as int),
        decreases self.tokens.len() - pos, 6int,
    {
        let ghost ts = self.ts();
        let (mut e, mut cur) = match self.parse_primary(pos) {
            Ok(x) => x,
            Err(err) => {
                return Err(err);
            },
        };
        loop
            invariant
                self.wf(),
                ts == self.ts(),
                pos < cur < self.tokens.len(),
                p_postfix(ts, pos as int) == p_postfix_loop(ts, e@, cur as int),
            decreases self.tokens.len() - cur,
        {
            match self.peek(cur) {
                Token::LParen => {},
                _ => {
                    return Ok((e, cur));
                },
            }
            proof {
                assert(!(ts[cur as int] is Eof));
            }
            let open = cur;
            let mut c = cur + 1;
            let mut f = e;
            loop
                invariant_except_break
                    pos < open < c < self.tokens.len(),
                    p_postfix(ts, pos as int) == postfix_after_args(ts, open as int, p_args(ts, f@, c as int)),
                invariant
                    self.wf(),
                    ts == self.ts(),
                ensures
                    pos < open < cur < self.tokens.len(),
                    p_postfix(ts, pos as int) == p_postfix_loop(ts, e@, cur as int),
                decreases self.tokens.len() - c,
            {
                let (arg, q) = match self.parse_expr(c, 0) {
                    Ok(x) => x,
                    Err(err) => {
                        return Err(err);
                    },
                };
                let ghost f_t = f@;
                f = Expr::Apply(Box::new(f), Box::new(arg));
                let (t, q1) = self.next(q);
                match t {
                    Token::Comma => {
                        proof {
                            assert(!(ts[q as int] is Eof));
                        }
                        c = q1;
                    },
                    Token::RParen => {
                        proof {
                            assert(!(ts[q as int] is Eof));
                        }
                        e = f;
                        cur = q1;
                        break;
                    },
                    other => {
                        let mut m = String::from_str("expected ',' or ')' in application, found ");
                        m.append(token_text(&other).as_str());
                        return Err(EvalError::Parse(m));
                    },
                }
            }
        }
    }

    fn parse_primary(&self, pos: usize) -> (r: EvalResultT<(Expr, usize)>)
        requires
            self.wf(),
            pos < self.tokens.len(),
        ensures
            matches_pres(r, p_primary(self.ts(), pos as int)),
            advances(r, pos as int, self.tokens.len() as int),
        decreases self.tokens.len() - pos, 5int,
    {
        let ghost ts = self.ts();
        let (t, p1) = self.next(pos);
        match t {
            Token::Number(s) => {
                proof {
                    assert(!(ts[pos as int] is Eof));
                }
                match Decimal::parse(s.as_str()) {
                    Some(n) => Ok((Expr::Number(n), p1)),
                    None => Err(EvalError::Parse(framed("invalid number '", s.as_str(), "'"))),
                }
            },
            Token::Ident(name) => {
                proof {
                    assert(!(ts[pos as int] is Eof));
                }
                let open = match self.peek(p1) {
                    Token::LParen => true,
                    _ => false,
                };
                if open && is_builtin(name.as_str()) {
                    self.parse_call(name.as_str(), p1)
                } else {
                    Ok((Expr::Variable(name), p1))
                }
            },
            Token::LParen => {
                proof {
                    assert(!(ts[pos as int] is Eof));
                }
                let (e, q) = match self.parse_expr(p1, 0) {
                    Ok(x) => x,
                    Err(err) => {
                        return Err(err);
                    },
                };
                match self.expect(q, Token::RParen) {
                    Ok(q2) => {
                        proof {
                            assert(!(ts[q as int] is Eof));
                        }
                        Ok((e, q2))
                    },
                    Err(err) => Err(err),
                }
            },
            Token::LBracket => {
                proof {
                    assert(!(ts[pos as int] is Eof));
                }
                self.parse_matrix(p1)
            },
            other => Err(EvalError::Parse(framed("unexpected token ", token_text(&other).as_str(), " in expression"))),
        }
    }

    /// A built-in call site `name(...)`; `derive` takes a variable first.
    #[verifier::rlimit(60)]
    fn parse_call(&self, name: &str, pos: usize) -> (r: EvalResultT<(Expr, usize)>)
        requires
            self.wf(),
            pos < self.tokens.len(),
        ensures
            matches_pres(r, p_call(self.ts(), name@, pos as int)),
            advances(r, pos as int, self.tokens.len() as int),
        decreases self.tokens.len() - pos, 5int,
    {
        let ghost ts = self.ts();
        let p = match self.expect(pos, Token::LParen) {
            Ok(x) => x,
            Err(err) => {
                return Err(err);
            },
        };
        proof {
            assert(!(ts[pos as int] is Eof));
        }
        if str_equal(name, "derive") {
            let (t, p2) = self.next(p);
            match t {
                Token::Ident(v) => {
                    proof {
                        assert(!(ts[p as int] is Eof));
                    }
                    let p3 = match self.expect(p2, Token::Comma) {
                        Ok(x) => x,
                        Err(err) => {
                            return Err(err);
                        },
                    };
                    proof {
                        assert(!(ts[p2 as int] is Eof));
                    }
                    let (body, q) = match self.parse_expr(p3, 0) {
                        Ok(x) => x,
                        Err(err) => {
                            return Err(err);
                        },
                    };
                    match self.expect(q, Token::RParen) {
                        Ok(q2) => {
                            proof {
                                assert(!(ts[q as int] is Eof));
                            }
                            Ok((Expr::Derive(v, Box::new(body)), q2))
                        },
                        Err(err) => Err(err),
                    }
                },
                other => {
                    let mut m = String::from_str("derive expects a variable as first argument, found ");
                    m.append(token_text(&other).as_str());
                    Err(EvalError::Parse(m))
                },
            }
        } else {
            let (arg, q) = match self.parse_expr(p, 0) {
                Ok(x) => x,
                Err(err) => {
                    return Err(err);
                },
            };
            let q2 = match self.expect(q, Token::RParen) {
                Ok(x) => x,
                Err(err) => {
                    return Err(err);
                },
            };
            proof {
                assert(!(ts[q as int] is Eof));
            }
            if str_equal(name, "simplify") {
                Ok((Expr::Simplify(Box::new(arg)), q2))
            } else if str_equal(name, "expand") {
                Ok((Expr::Expand(Box::new(arg)), q2))
            } else if str_equal(name, "sin") {
                Ok((Expr::Call(Func::Sin, Box::new(arg)), q2))
            } else if str_equal(name, "cos") {
                Ok((Expr::Call(Func::Cos, Box::new(arg)), q2))
            } else if str_equal(name, "tan") {
                Ok((Expr::Call(Func::Tan, Box::new(arg)), q2))
            } else if str_equal(name, "exp") {
                Ok((Expr::Call(Func::Exp, Box::new(arg)), q2))
            } else if str_equal(name, "ln") {
                Ok((Expr::Call(Func::Ln, Box::new(arg)), q2))
            } else {
                Err(EvalError::Parse(framed("unknown function '", name, "'")))
            }
        }
    }

    /// Matrix literal `[a, b; c, d]` (after the `[`): rows separated by `;`,
    /// columns by `,`; rows must have equal lengths.
    fn parse_matrix(&self, pos: usize) -> (r: EvalResultT<(Expr, usize)>)
        requires
            self.wf(),
            pos < self.tokens.len(),
        ensures
            matches_pres(r, p_matrix(self.ts(), pos as int)),
            advances(r, pos as int, self.tokens.len() as int),
        decreases self.tokens.len() - pos, 10int,
    {
        let ghost ts = self.ts();
        let mut rows: Vec<Vec<Expr>> = Vec::new();
        let mut row: Vec<Expr> = Vec::new();
        match self.peek(pos) {
            Token::RBracket => {
                proof {
                    assert(!(ts[pos as int] is Eof));
                    assert(rows_view(rows@) =~= Seq::<Seq<Term>>::empty());
                }
                return Ok((Expr::Matrix(rows), pos + 1));
            },
            _ => {},
        }
        let mut cur = pos;
        proof {
            assert(rows_view(rows@) =~= Seq::<Seq<Term>>::empty());
            assert(row_view(row@) =~= Seq::<Term>::empty());
        }
        loop
            invariant
                self.wf(),
                ts == self.ts(),
                pos <= cur < self.tokens.len(),
                p_matrix(ts, pos as int) == p_matrix_loop(ts, rows_view(rows@), row_view(row@), cur as int),
            decreases self.tokens.len() - cur,
        {
            let (el, q) = match self.parse_expr(cur, 0) {
                Ok(x) => x,
                Err(err) => {
                    return Err(err);
                },
            };
            let ghost old_row = row@;
            let ghost el_t = el@;
            row.push(el);
            proof {
                assert(row@.drop_last() =~= old_row);
                assert(row_view(row@) == row_view(old_row).push(el_t));
            }
            let (t, q1) = self.next(q);
            match t {
                Token::Comma => {
                    proof {
                        assert(!(ts[q as int] is Eof));
                    }
                    cur = q1;
                },
                Token::Semicolon => {
                    proof {
                        assert(!(ts[q as int] is Eof));
                    }
                    let ghost old_rows = rows@;
                    let ghost full_t = row_view(row@);
                    let mut full: Vec<Expr> = Vec::new();
                    std::mem::swap(&mut full, &mut row);
                    rows.push(full);
                    proof {
                        assert(rows@.drop_last() =~= old_rows);
                        assert(rows_view(rows@) == rows_view(old_rows).push(full_t));
                        assert(row_view(row@) =~= Seq::<Term>::empty());
                    }
                    cur = q1;
                },
                Token::RBracket => {
                    proof {
                        assert(!(ts[q as int] is Eof));
                    }
                    let ghost old_rows = rows@;
                    let ghost full_t = row_view(row@);
                    rows.push(row);
                    proof {
                        assert(rows@.drop_last() =~= old_rows);
                        assert(rows_view(rows@) == rows_view(old_rows).push(full_t));
                        lemma_rows_view(rows@);
                        assert(p_matrix(ts, pos as int) == (if rectangular(rows_view(rows@)) {
                            Ok((Term::Matrix(rows_view(rows@)), q1 as int))
                        } else {
                            Err("matrix rows have inconsistent lengths"@)
                        }));
                    }
                    let width = rows[0].len();
                    let mut i: usize = 0;
                    while i < rows.len()
                        invariant
                            ts == self.ts(),
                            pos < q1 < self.tokens.len(),
                            p_matrix(ts, pos as int) == (if rectangular(rows_view(rows@)) {
                                Ok((Term::Matrix(rows_view(rows@)), q1 as int))
                            } else {
                                Err("matrix rows have inconsistent lengths"@)
                            }),
                            rows.len() >= 1,
                            width == rows@[0].len(),
                            i <= rows.len(),
                            rows_view(rows@).len() == rows.len(),
                            forall|k: int| 0 <= k < rows.len() ==> #[trigger] rows_view(rows@)[k] == row_view(rows@[k]@),
                            forall|k: int| 0 <= k < i ==> #[trigger] rows_view(rows@)[k].len() == rows_view(rows@)[0].len(),
                        decreases rows.len() - i,
                    {
                        proof {
                            lemma_row_view(rows@[i as int]@);
                            lemma_row_view(rows@[0]@);
                        }
                        if rows[i].len() != width {
                            proof {
                                assert(rows_view(rows@)[i as int].len() != rows_view(rows@)[0].len());
                                assert(!rectangular(rows_view(rows@)));
                            }
                            return Err(EvalError::Parse(String::from_str("matrix rows have inconsistent lengths")));
                        }
                        i += 1;
                    }
                    return Ok((Expr::Matrix(rows), q1));
                },
                other => {
                    let mut m = String::from_str("expected ',' ';' or ']' in matrix, found ");
                    m.append(token_text(&other).as_str());
                    return Err(EvalError::Parse(m));
                },
            }
        }
    }

    /// statement := IDENT '=' expr | expr
    fn parse_statement(&self) -> (r: EvalResultT<(Expr, usize)>)
        requires
            self.wf(),
            self.tokens.len() > 1,
        ensures
            matches_pres(r, p_statement(self.ts())),
            advances(r, 0, self.tokens.len() as int),
    {
        let ghost ts = self.ts();
        match (&self.tokens[0], &self.tokens[1]) {
            (Token::Ident(name), Token::Equals) => {
                proof {
                    assert(!(ts[1] is Eof));
                }
                let name = name.clone();
                match self.parse_expr(2, 0) {
                    Ok((rhs, q)) => Ok((Expr::Assign(name, Box::new(rhs)), q)),
                    Err(e) => Err(e),
                }
            },
            _ => self.parse_expr(0, 0),
        }
    }
}

/// Parses one statement. The outcome is `parse_tokens(lex_spec(src))`: the
/// term on success, and otherwise the lexer's or the parser's message.
/// Source text made only of whitespace is not accepted (use [`try_parse`]).
pub fn parse(src: &str) -> (r: EvalResultT<Expr>)
    requires
        lex_spec(src@) matches Ok(ts) ==> ts.len() > 1,
    ensures
        match lex_spec(src@) {
            Err(c) => r matches Err(EvalError::Lex(m)) && m@ == lex_error_message(c),
            Ok(ts) => match parse_tokens(ts) {
                Ok(t) => r matches Ok(e) && e@ == t,
                Err(m) => r matches Err(EvalError::Parse(mm)) && mm@ == m,
            },
        },
{
    let tokens = match lex(src) {
        Ok(t) => t,
        Err(e) => {
            return Err(e);
        },
    };
    proof {
        lemma_lex_tokens_wf(src@, 0);
    }
    let p = Parser { tokens };
    let (expr, q) = match p.parse_statement() {
        Ok(x) => x,
        Err(e) => {
            return Err(e);
        },
    };
    match p.expect(q, Token::Eof) {
        Ok(_) => Ok(expr),
        Err(e) => Err(e),
    }
}

/// The outcome of parsing source text: the term, or the lexer's or the
/// parser's error.
pub open spec fn parse_spec(src: Seq<char>) -> Result<Term, Fault> {
    match lex_spec(src) {
        Err(c) => Err(Fault::Lex(lex_error_message(c))),
        Ok(ts) => match parse_tokens(ts) {
            Ok(t) => Ok(t),
            Err(m) => Err(Fault::Parse(m)),
        },
    }
}

/// Source text with no token but the end of input.
pub open spec fn is_blank(src: Seq<char>) -> bool {
    lex_spec(src) matches Ok(ts) && ts.len() <= 1
}

/// Parses one statement, or `None` for source text with no token, which
/// [`parse`] does not take.
pub fn try_parse(src: &str) -> (r: Option<EvalResultT<Expr>>)
    ensures
        r is None <==> is_blank(src@),
        r matches Some(x) ==> same_outcome(x, parse_spec(src@)),
{
    match lex(src) {
        Ok(ts) => {
            if ts.len() <= 1 {
                return None;
            }
        },
        Err(_) => {},
    }
    Some(parse(src))
}

/// The term that a lone operand token stands for: a well-formed number or
/// a name.
pub open spec fn atom_term(t: Tok) -> Option<Term> {
    match t {
        Tok::Number(s) => match parse_model(s) {
            Some(n) => Some(Term::Number(n)),
            None => None,
        },
        Tok::Ident(name) => Some(Term::Variable(name)),
        _ => None,
    }
}

/// A token that closes an expression: nothing after it is an operand.
pub open spec fn closes_expr(t: Tok) -> bool {
    t is Eof || t is RParen || t is RBracket || t is Comma || t is Semicolon
}

/// The operator an infix token writes, for the left-associative ones.
pub open spec fn left_assoc_op(t: Tok) -> Option<BinaryOp> {
    match t {
        Tok::Plus => Some(BinaryOp::Add),
        Tok::Minus => Some(BinaryOp::Sub),
        Tok::Star => Some(BinaryOp::Mul),
        Tok::Slash => Some(BinaryOp::Div),
        _ => None,
    }
}

/// `ts` begins with `n` operand tokens at the even positions, joined by the
/// token `o` at the odd positions, and the token after the last operand
/// closes the expression.
pub open spec fn operand_chain(ts: Seq<Tok>, n: int, o: Tok) -> bool {
    &&& n >= 1
    &&& forall|j: int| 0 <= j < 2 * n - 1 && j % 2 == 0 ==> #[trigger] atom_term(tk(ts, j)) is Some
    &&& forall|j: int| 0 <= j < 2 * n - 1 && j % 2 == 1 ==> #[trigger] tk(ts, j) == o
    &&& closes_expr(tk(ts, 2 * n - 1))
}

/// The first `k` operands of a chain, grouped from the left:
/// `((a0 op a1) op a2) ...`.
pub open spec fn grouped_left(ts: Seq<Tok>, k: int, op: BinaryOp) -> Term
    decreases k,
{
    if k <= 1 {
        atom_term(tk(ts, 0))->Some_0
    } else {
        Term::Binary(op, Box::new(grouped_left(ts, k - 1, op)), Box::new(atom_term(tk(ts, 2 * k - 2))->Some_0))
    }
}

/// The operands of a chain from the `k`-th on, grouped from the right:
/// `ak op (ak+1 op (... op an-1))`.
pub open spec fn grouped_right(ts: Seq<Tok>, k: int, n: int, op: BinaryOp) -> Term
    decreases n - k,
{
    if k >= n - 1 {
        atom_term(tk(ts, 2 * k))->Some_0
    } else {
        Term::Binary(op, Box::new(atom_term(tk(ts, 2 * k))->Some_0), Box::new(grouped_right(ts, k + 1, n, op)))
    }
}

/// An operand token followed by no call parses as its own term.
proof fn lemma_prefix_atom(ts: Seq<Tok>, p: int)
    requires
        0 <= p,
        atom_term(tk(ts, p)) is Some,
        !(tk(ts, p + 1) is LParen),
    ensures
        p < ts.len(),
        p_prefix(ts, p) == Ok::<(Term, int), Seq<char>>((atom_term(tk(ts, p))->Some_0, p + 1)),
{
    assert(p < ts.len());
    assert(p_primary(ts, p) == Ok::<(Term, int), Seq<char>>((atom_term(tk(ts, p))->Some_0, p + 1)));
    assert(p_postfix_loop(ts, atom_term(tk(ts, p))->Some_0, p + 1) == Ok::<(Term, int), Seq<char>>((atom_term(tk(ts, p))->Some_0, p + 1)));
}

proof fn lemma_left_chain_loop(ts: Seq<Tok>, n: int, o: Tok, k: int)
    requires
        operand_chain(ts, n, o),
        left_assoc_op(o) is Some,
        1 <= k <= n,
    ensures
        p_expr_loop(ts, grouped_left(ts, k, left_assoc_op(o)->Some_0), 2 * k - 1, 0)
            == Ok::<(Term, int), Seq<char>>((grouped_left(ts, n, left_assoc_op(o)->Some_0), 2 * n - 1)),
    decreases n - k,
{
    let op = left_assoc_op(o)->Some_0;
    assert(atom_term(tk(ts, 2 * n - 2)) is Some);
    assert(2 * n - 2 < ts.len());
    if k < n {
        assert(tk(ts, 2 * k - 1) == o);
        assert(atom_term(tk(ts, 2 * k)) is Some);
        let nxt = tk(ts, 2 * k + 1);
        if k + 1 < n {
            assert(nxt == o);
        }
        assert(!(nxt is LParen));
        lemma_prefix_atom(ts, 2 * k);
        let a = atom_term(tk(ts, 2 * k))->Some_0;
        let r_bp = binding(o)->Some_0.2;
        assert(p_expr_loop(ts, a, 2 * k + 1, r_bp) == Ok::<(Term, int), Seq<char>>((a, 2 * k + 1)));
        assert(p_expr(ts, 2 * k, r_bp) == Ok::<(Term, int), Seq<char>>((a, 2 * k + 1)));
        lemma_left_chain_loop(ts, n, o, k + 1);
        assert(grouped_left(ts, k + 1, op) == Term::Binary(op, Box::new(grouped_left(ts, k, op)), Box::new(a)));
    }
}

/// A chain of operands joined by one of `+ - * /` groups from the left:
/// `a - b - c` is `(a - b) - c`, and `a / b / c` is `(a / b) / c`.
pub proof fn lemma_parse_left_assoc(ts: Seq<Tok>, n: int, o: Tok)
    requires
        operand_chain(ts, n, o),
        left_assoc_op(o) is Some,
    ensures
        p_expr(ts, 0, 0) == Ok::<(Term, int), Seq<char>>((grouped_left(ts, n, left_assoc_op(o)->Some_0), 2 * n - 1)),
        tk(ts, 2 * n - 1) is Eof ==> parse_tokens(ts) == Ok::<Term, Seq<char>>(grouped_left(ts, n, left_assoc_op(o)->Some_0)),
{
    assert(atom_term(tk(ts, 0)) is Some);
    if n > 1 {
        assert(tk(ts, 1) == o);
    }
    lemma_prefix_atom(ts, 0);
    lemma_left_chain_loop(ts, n, o, 1);
}

proof fn lemma_right_chain(ts: Seq<Tok>, n: int, k: int, m: int)
    requires
        operand_chain(ts, n, Tok::Caret),
        0 <= k < n,
        m <= 30,
    ensures
        p_expr(ts, 2 * k, m) == Ok::<(Term, int), Seq<char>>((grouped_right(ts, k, n, BinaryOp::Pow), 2 * n - 1)),
    decreases n - k,
{
    assert(atom_term(tk(ts, 2 * n - 2)) is Some);
    assert(2 * n - 2 < ts.len());
    assert(atom_term(tk(ts, 2 * k)) is Some);
    let nxt = tk(ts, 2 * k + 1);
    if k + 1 < n {
        assert(nxt == Tok::Caret);
    }
    lemma_prefix_atom(ts, 2 * k);
    let a = atom_term(tk(ts, 2 * k))->Some_0;
    if k + 1 < n {
        lemma_right_chain(ts, n, k + 1, 30);
        let g = grouped_right(ts, k + 1, n, BinaryOp::Pow);
        let whole = Term::Binary(BinaryOp::Pow, Box::new(a), Box::new(g));
        assert(p_expr_loop(ts, whole, 2 * n - 1, m) == Ok::<(Term, int), Seq<char>>((whole, 2 * n - 1)));
        assert(p_expr_loop(ts, a, 2 * k + 1, m) == Ok::<(Term, int), Seq<char>>((whole, 2 * n - 1)));
    } else {
        assert(p_expr_loop(ts, a, 2 * k + 1, m) == Ok::<(Term, int), Seq<char>>((a, 2 * k + 1)));
    }
}

/// A chain of operands joined by `^` groups from the right: `a ^ b ^ c` is
/// `a ^ (b ^ c)`.
pub proof fn lemma_parse_power_right_assoc(ts: Seq<Tok>, n: int)
    requires
        operand_chain(ts, n, Tok::Caret),
    ensures
        p_expr(ts, 0, 0) == Ok::<(Term, int), Seq<char>>((grouped_right(ts, 0, n, BinaryOp::Pow), 2 * n - 1)),
        tk(ts, 2 * n - 1) is Eof ==> parse_tokens(ts) == Ok::<Term, Seq<char>>(grouped_right(ts, 0, n, BinaryOp::Pow)),
{
    if n > 1 {
        assert(tk(ts, 1) == Tok::Caret);
    }
    lemma_right_chain(ts, n, 0, 0);
}

/// The operator an infix token writes and its precedence level: `+ -`
/// lowest, then `* /`, then `^`.
pub open spec fn infix_level(t: Tok) -> Option<(BinaryOp, int)> {
    match t {
        Tok::Plus => Some((BinaryOp::Add, 1)),
        Tok::Minus => Some((BinaryOp::Sub, 1)),
        Tok::Star => Some((BinaryOp::Mul, 2)),
        Tok::Slash => Some((BinaryOp::Div, 2)),
        Tok::Caret => Some((BinaryOp::Pow, 3)),
        _ => None,
    }
}

/// An operand whose next token stops the expression parses alone.
proof fn lemma_expr_atom(ts: Seq<Tok>, p: int, m: int)
    requires
        0 <= p,
        atom_term(tk(ts, p)) is Some,
        closes_expr(tk(ts, p + 1)) || (binding(tk(ts, p + 1)) matches Some((_, l, _)) && l < m),
    ensures
        p_expr(ts, p, m) == Ok::<(Term, int), Seq<char>>((atom_term(tk(ts, p))->Some_0, p + 1)),
{
    lemma_prefix_atom(ts, p);
    let a = atom_term(tk(ts, p))->Some_0;
    assert(p_expr_loop(ts, a, p + 1, m) == Ok::<(Term, int), Seq<char>>((a, p + 1)));
}

/// Three operands with two infix operators: the operator of higher level
/// takes its operands first, and of two of the same level the left one
/// does, except `^`, which groups from the right.
pub proof fn lemma_parse_precedence(ts: Seq<Tok>, o1: Tok, o2: Tok)
    requires
        atom_term(tk(ts, 0)) is Some,
        atom_term(tk(ts, 2)) is Some,
        atom_term(tk(ts, 4)) is Some,
        tk(ts, 1) == o1,
        tk(ts, 3) == o2,
        infix_level(o1) is Some,
        infix_level(o2) is Some,
        closes_expr(tk(ts, 5)),
    ensures
        ({
            let (op1, lv1) = infix_level(o1)->Some_0;
            let (op2, lv2) = infix_level(o2)->Some_0;
            let a = atom_term(tk(ts, 0))->Some_0;
            let b = atom_term(tk(ts, 2))->Some_0;
            let c = atom_term(tk(ts, 4))->Some_0;
            p_expr(ts, 0, 0) == Ok::<(Term, int), Seq<char>>((
                if lv1 < lv2 || (lv1 == 3 && lv2 == 3) {
                    Term::Binary(op1, Box::new(a), Box::new(Term::Binary(op2, Box::new(b), Box::new(c))))
                } else {
                    Term::Binary(op2, Box::new(Term::Binary(op1, Box::new(a), Box::new(b))), Box::new(c))
                },
                5,
            ))
        }),
{
    let (op1, lv1) = infix_level(o1)->Some_0;
    let (op2, lv2) = infix_level(o2)->Some_0;
    let a = atom_term(tk(ts, 0))->Some_0;
    let b = atom_term(tk(ts, 2))->Some_0;
    let c = atom_term(tk(ts, 4))->Some_0;
    let (_, _, r1) = binding(o1)->Some_0;
    let (_, l2, r2) = binding(o2)->Some_0;
    assert(4 < ts.len());
    lemma_prefix_atom(ts, 0);
    lemma_expr_atom(ts, 4, r2);
    if lv1 < lv2 || (lv1 == 3 && lv2 == 3) {
        let bc = Term::Binary(op2, Box::new(b), Box::new(c));
        lemma_prefix_atom(ts, 2);
        assert(p_expr_loop(ts, bc, 5, r1) == Ok::<(Term, int), Seq<char>>((bc, 5)));
        assert(p_expr_loop(ts, b, 3, r1) == Ok::<(Term, int), Seq<char>>((bc, 5)));
        assert(p_expr(ts, 2, r1) == Ok::<(Term, int), Seq<char>>((bc, 5)));
        let whole = Term::Binary(op1, Box::new(a), Box::new(bc));
        assert(p_expr_loop(ts, whole, 5, 0) == Ok::<(Term, int), Seq<char>>((whole, 5)));
    } else {
        lemma_expr_atom(ts, 2, r1);
        let ab = Term::Binary(op1, Box::new(a), Box::new(b));
        let whole = Term::Binary(op2, Box::new(ab), Box::new(c));
        assert(p_expr_loop(ts, whole, 5, 0) == Ok::<(Term, int), Seq<char>>((whole, 5)));
        assert(p_expr_loop(ts, ab, 3, 0) == Ok::<(Term, int), Seq<char>>((whole, 5)));
    }
}

} // verus!
