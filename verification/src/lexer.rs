//! Hand-written tokenizer turning source text into a token stream.
//! Numbers stay as text here; the parser builds decimals.

use vstd::prelude::*;
use crate::error::{EvalError, EvalResultT};
use crate::text::{
    char_is_alphabetic, char_is_alphanumeric, char_is_whitespace, chars_of, is_alphabetic,
    is_alphanumeric, is_whitespace, string_of_char, string_of_chars,
};

verus! {

#[derive(Debug, Clone, PartialEq)]
pub enum Token {
    Number(String),
    Ident(String),
    Plus,
    Minus,
    Star,
    Slash,
    Caret,
    LParen,
    RParen,
    LBracket,
    RBracket,
    Comma,
    Semicolon,
    Equals,
    Backslash,
    Dot,
    Eof,
}

/// The model of a [`Token`].
pub enum Tok {
    Number(Seq<char>),
    Ident(Seq<char>),
    Plus,
    Minus,
    Star,
    Slash,
    Caret,
    LParen,
    RParen,
    LBracket,
    RBracket,
    Comma,
    Semicolon,
    Equals,
    Backslash,
    Dot,
    Eof,
}

impl View for Token {
    type V = Tok;

    open spec fn view(&self) -> Tok {
        match self {
            Token::Number(s) => Tok::Number(s@),
            Token::Ident(s) => Tok::Ident(s@),
            Token::Plus => Tok::Plus,
            Token::Minus => Tok::Minus,
            Token::Star => Tok::Star,
            Token::Slash => Tok::Slash,
            Token::Caret => Tok::Caret,
            Token::LParen => Tok::LParen,
            Token::RParen => Tok::RParen,
            Token::LBracket => Tok::LBracket,
            Token::RBracket => Tok::RBracket,
            Token::Comma => Tok::Comma,
            Token::Semicolon => Tok::Semicolon,
            Token::Equals => Tok::Equals,
            Token::Backslash => Tok::Backslash,
            Token::Dot => Tok::Dot,
            Token::Eof => Tok::Eof,
        }
    }
}

pub open spec fn tokens_view(v: Seq<Token>) -> Seq<Tok> {
    v.map_values(|t: Token| t@)
}

pub open spec fn is_digit(c: char) -> bool {
    '0' <= c <= '9'
}

/// The token of a one-character punctuation mark.
pub open spec fn punct(c: char) -> Option<Tok> {
    if c == '+' {
        Some(Tok::Plus)
    } else if c == '-' {
        Some(Tok::Minus)
    } else if c == '*' {
        Some(Tok::Star)
    } else if c == '/' {
        Some(Tok::Slash)
    } else if c == '^' {
        Some(Tok::Caret)
    } else if c == '(' {
        Some(Tok::LParen)
    } else if c == ')' {
        Some(Tok::RParen)
    } else if c == '[' {
        Some(Tok::LBracket)
    } else if c == ']' {
        Some(Tok::RBracket)
    } else if c == ',' {
        Some(Tok::Comma)
    } else if c == ';' {
        Some(Tok::Semicolon)
    } else if c == '=' {
        Some(Tok::Equals)
    } else if c == '\\' {
        Some(Tok::Backslash)
    } else {
        None
    }
}

/// End of the longest run of identifier characters starting at `j`.
pub open spec fn ident_end(cs: Seq<char>, j: int) -> int
    decreases cs.len() - j,
{
    if 0 <= j < cs.len() && (char_is_alphanumeric(cs[j]) || cs[j] == '_') {
        ident_end(cs, j + 1)
    } else {
        j
    }
}

/// End of the longest run of digits with at most one `.` starting at `j`.
pub open spec fn mantissa_end(cs: Seq<char>, j: int, seen_dot: bool) -> int
    decreases cs.len() - j,
{
    if 0 <= j < cs.len() && (is_digit(cs[j]) || (cs[j] == '.' && !seen_dot)) {
        mantissa_end(cs, j + 1, seen_dot || cs[j] == '.')
    } else {
        j
    }
}

/// End of the longest run of digits starting at `j`.
pub open spec fn digit_run_end(cs: Seq<char>, j: int) -> int
    decreases cs.len() - j,
{
    if 0 <= j < cs.len() && is_digit(cs[j]) {
        digit_run_end(cs, j + 1)
    } else {
        j
    }
}

/// End of a number literal starting at `i`: digits with at most one point,
/// then an optional exponent `e`/`E`, optional sign and at least one digit.
pub open spec fn number_end(cs: Seq<char>, i: int) -> int {
    let m = mantissa_end(cs, i, false);
    if 0 <= m < cs.len() && (cs[m] == 'e' || cs[m] == 'E') {
        let j = if m + 1 < cs.len() && (cs[m + 1] == '+' || cs[m + 1] == '-') {
            m + 2
        } else {
            m + 1
        };
        if j < cs.len() && is_digit(cs[j]) {
            digit_run_end(cs, j)
        } else {
            m
        }
    } else {
        m
    }
}

/// An identifier scan ends at or after its start, within the text.
pub proof fn lemma_ident_end(cs: Seq<char>, j: int)
    requires
        0 <= j,
    ensures
        j <= ident_end(cs, j),
        j <= cs.len() ==> ident_end(cs, j) <= cs.len(),
    decreases cs.len() - j,
{
    if 0 <= j < cs.len() && (char_is_alphanumeric(cs[j]) || cs[j] == '_') {
        lemma_ident_end(cs, j + 1);
    }
}

/// A mantissa scan ends at or after its start, within the text.
pub proof fn lemma_mantissa_end(cs: Seq<char>, j: int, seen_dot: bool)
    requires
        0 <= j,
    ensures
        j <= mantissa_end(cs, j, seen_dot),
        j <= cs.len() ==> mantissa_end(cs, j, seen_dot) <= cs.len(),
    decreases cs.len() - j,
{
    if 0 <= j < cs.len() && (is_digit(cs[j]) || (cs[j] == '.' && !seen_dot)) {
        lemma_mantissa_end(cs, j + 1, seen_dot || cs[j] == '.');
    }
}

/// A digit-run scan ends at or after its start, within the text.
pub proof fn lemma_digit_run_end(cs: Seq<char>, j: int)
    requires
        0 <= j,
    ensures
        j <= digit_run_end(cs, j),
        j <= cs.len() ==> digit_run_end(cs, j) <= cs.len(),
    decreases cs.len() - j,
{
    if 0 <= j < cs.len() && is_digit(cs[j]) {
        lemma_digit_run_end(cs, j + 1);
    }
}

/// A number literal takes at least one character, within the text.
pub proof fn lemma_number_end(cs: Seq<char>, i: int)
    requires
        0 <= i < cs.len(),
        is_digit(cs[i]) || cs[i] == '.',
    ensures
        i < number_end(cs, i) <= cs.len(),
{
    lemma_mantissa_end(cs, i + 1, cs[i] == '.');
    let m = mantissa_end(cs, i, false);
    if 0 <= m < cs.len() && (cs[m] == 'e' || cs[m] == 'E') {
        let j = if m + 1 < cs.len() && (cs[m + 1] == '+' || cs[m + 1] == '-') {
            m + 2
        } else {
            m + 1
        };
        if j < cs.len() && is_digit(cs[j]) {
            lemma_digit_run_end(cs, j);
        }
    }
}

/// Prepends tokens to a lexing outcome.
pub open spec fn prepend_tokens(pre: Seq<Tok>, r: Result<Seq<Tok>, char>) -> Result<Seq<Tok>, char> {
    match r {
        Ok(s) => Ok(pre + s),
        Err(c) => Err(c),
    }
}

/// Tokens of `cs[i..]`, ending in `Eof`; `Err(c)` names the first character
/// that starts no token.
pub open spec fn lex_from(cs: Seq<char>, i: int) -> Result<Seq<Tok>, char>
    decreases cs.len() - i,
    when 0 <= i
{
    if i >= cs.len() {
        Ok(seq![Tok::Eof])
    } else {
        let c = cs[i];
        if char_is_whitespace(c) {
            lex_from(cs, i + 1)
        } else if punct(c) is Some {
            prepend_tokens(seq![punct(c)->0], lex_from(cs, i + 1))
        } else if c == '.' && !(i + 1 < cs.len() && is_digit(cs[i + 1])) {
            prepend_tokens(seq![Tok::Dot], lex_from(cs, i + 1))
        } else if is_digit(c) || c == '.' {
            let e = number_end(cs, i);
            proof {
                lemma_number_end(cs, i);
            }
            prepend_tokens(seq![Tok::Number(cs.subrange(i, e))], lex_from(cs, e))
        } else if char_is_alphabetic(c) || c == '_' {
            let e = ident_end(cs, i + 1);
            proof {
                lemma_ident_end(cs, i + 1);
            }
            prepend_tokens(seq![Tok::Ident(cs.subrange(i, e))], lex_from(cs, e))
        } else {
            Err(c)
        }
    }
}

/// The lexing of a whole source text.
pub open spec fn lex_spec(src: Seq<char>) -> Result<Seq<Tok>, char> {
    lex_from(src, 0)
}

pub open spec fn lex_error_message(c: char) -> Seq<char> {
    "unexpected character '"@ + seq![c] + "'"@
}

fn punct_token(c: char) -> (r: Option<Token>)
    ensures
        match r {
            Some(t) => punct(c) == Some(t@),
            None => punct(c) is None,
        },
{
    match c {
        '+' => Some(Token::Plus),
        '-' => Some(Token::Minus),
        '*' => Some(Token::Star),
        '/' => Some(Token::Slash),
        '^' => Some(Token::Caret),
        '(' => Some(Token::LParen),
        ')' => Some(Token::RParen),
        '[' => Some(Token::LBracket),
        ']' => Some(Token::RBracket),
        ',' => Some(Token::Comma),
        ';' => Some(Token::Semicolon),
        '=' => Some(Token::Equals),
        '\\' => Some(Token::Backslash),
        _ => None,
    }
}

fn is_ascii_digit(c: char) -> (r: bool)
    ensures
        r == is_digit(c),
{
    '0' <= c && c <= '9'
}

proof fn lemma_prepend_push(pre: Seq<Tok>, t: Tok, r: Result<Seq<Tok>, char>)
    ensures
        prepend_tokens(pre, prepend_tokens(seq![t], r)) == prepend_tokens(pre.push(t), r),
{
    match r {
        Ok(s) => {
            assert(pre + (seq![t] + s) =~= pre.push(t) + s);
        },
        Err(_) => {},
    }
}

/// Tokenizes source text. On success the tokens are exactly
/// `lex_spec(src)`, ending in `Eof`; otherwise the error names the first
/// character that starts no token.
pub fn lex(src: &str) -> (r: EvalResultT<Vec<Token>>)
    ensures
        match lex_spec(src@) {
            Ok(t) => r matches Ok(v) && tokens_view(v@) == t,
            Err(c) => r matches Err(EvalError::Lex(m)) && m@ == lex_error_message(c),
        },
{
    let chars = chars_of(src);
    let ghost cs = chars@;
    let mut tokens: Vec<Token> = Vec::new();
    let mut i: usize = 0;
    let len = chars.len();
    proof {
        assert(prepend_tokens(Seq::<Tok>::empty(), lex_from(cs, 0)) == lex_from(cs, 0)) by {
            match lex_from(cs, 0) {
                Ok(s) => {
                    assert(Seq::<Tok>::empty() + s =~= s);
                },
                Err(_) => {},
            }
        }
        assert(tokens_view(tokens@) =~= Seq::<Tok>::empty());
    }
    while i < len
        invariant
            cs == chars@,
            cs == src@,
            len == chars.len(),
            i <= len,
            lex_from(cs, 0) == prepend_tokens(tokens_view(tokens@), lex_from(cs, i as int)),
        decreases len - i,
    {
        let c = chars[i];
        let ghost pre = tokens_view(tokens@);
        if is_whitespace(c) {
            i += 1;
            continue;
        }
        match punct_token(c) {
            Some(t) => {
                proof {
                    lemma_prepend_push(pre, t@, lex_from(cs, i + 1));
                }
                tokens.push(t);
                proof {
                    assert(tokens_view(tokens@) =~= pre.push(t@));
                }
                i += 1;
                continue;
            },
            None => {},
        }
        if c == '.' && !(i + 1 < len && is_ascii_digit(chars[i + 1])) {
            proof {
                lemma_prepend_push(pre, Tok::Dot, lex_from(cs, i + 1));
            }
            tokens.push(Token::Dot);
            proof {
                assert(tokens_view(tokens@) =~= pre.push(Tok::Dot));
            }
            i += 1;
        } else if is_ascii_digit(c) || c == '.' {
            let start = i;
            let mut seen_dot = false;
            while i < len && (is_ascii_digit(chars[i]) || (chars[i] == '.' && !seen_dot))
                invariant
                    cs == chars@,
                    len == chars.len(),
                    start <= i <= len,
                    start < len,
                    i == start ==> !seen_dot && (is_digit(cs[start as int]) || cs[start as int] == '.'),
                    mantissa_end(cs, start as int, false) == mantissa_end(cs, i as int, seen_dot),
                decreases len - i,
            {
                if chars[i] == '.' {
                    seen_dot = true;
                }
                i += 1;
            }
            if i < len && (chars[i] == 'e' || chars[i] == 'E') {
                let mut j = i + 1;
                if j < len && (chars[j] == '+' || chars[j] == '-') {
                    j += 1;
                }
                if j < len && is_ascii_digit(chars[j]) {
                    let ghost j0 = j as int;
                    while j < len && is_ascii_digit(chars[j])
                        invariant
                            cs == chars@,
                            len == chars.len(),
                            j0 <= j <= len,
                            digit_run_end(cs, j0) == digit_run_end(cs, j as int),
                        decreases len - j,
                    {
                        j += 1;
                    }
                    i = j;
                }
            }
            proof {
                assert(i > start);
                assert(i == number_end(cs, start as int));
                lemma_prepend_push(pre, Tok::Number(cs.subrange(start as int, i as int)), lex_from(cs, i as int));
            }
            let text = string_of_chars(&chars, start, i);
            tokens.push(Token::Number(text));
            proof {
                assert(tokens_view(tokens@) =~= pre.push(Tok::Number(cs.subrange(start as int, i as int))));
            }
        } else if is_alphabetic(c) || c == '_' {
            let start = i;
            proof {
                lemma_ident_end(cs, start + 1);
            }
            while i < len && (is_alphanumeric(chars[i]) || chars[i] == '_')
                invariant
                    cs == chars@,
                    len == chars.len(),
                    start <= i <= len,
                    i == start ==> (char_is_alphanumeric(cs[start as int]) || cs[start as int] == '_'),
                    i > start ==> ident_end(cs, start + 1) == ident_end(cs, i as int),
                decreases len - i,
            {
                i += 1;
            }
            proof {
                assert(i > start);
                lemma_prepend_push(pre, Tok::Ident(cs.subrange(start as int, i as int)), lex_from(cs, i as int));
            }
            let text = string_of_chars(&chars, start, i);
            tokens.push(Token::Ident(text));
            proof {
                assert(tokens_view(tokens@) =~= pre.push(Tok::Ident(cs.subrange(start as int, i as int))));
            }
        } else {
            let mut m = String::from_str("unexpected character '");
            let cstr = string_of_char(c);
            m.append(cstr.as_str());
            m.append("'");
            proof {
                reveal_strlit("'");
            }
            return Err(EvalError::Lex(m));
        }
    }
    proof {
        lemma_prepend_push(tokens_view(tokens@), Tok::Eof, Ok(Seq::<Tok>::empty()));
    }
    let ghost pre = tokens_view(tokens@);
    tokens.push(Token::Eof);
    proof {
        assert(tokens_view(tokens@) =~= pre.push(Tok::Eof));
        assert(pre + seq![Tok::Eof] =~= pre.push(Tok::Eof));
    }
    Ok(tokens)
}

} // verus!
