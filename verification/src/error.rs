//! Error types for lexing, parsing, and evaluation/rewrite failures.

use vstd::prelude::*;

verus! {

/// Failure modes for the lexer, parser, and reduction engine.
///
/// An unbound variable is deliberately not an error: it promotes the
/// expression to the symbolic (lazy) path instead.
#[derive(Debug, Clone, PartialEq, Eq)]
pub enum EvalError {
    Lex(String),
    Parse(String),
    DivisionByZero,
    /// The AST grew past `MAX_NODES` (or a number past its limits).
    ExpressionTooLarge,
    /// A rewrite or reduction did not finish within its step bound.
    RewriteLimitExceeded,
    /// Operands did not fit the attempted operation (shape/kind mismatch).
    TypeMismatch(String),
}

pub type EvalResultT<T> = Result<T, EvalError>;

/// The model of an [`EvalError`].
pub enum Fault {
    Lex(Seq<char>),
    Parse(Seq<char>),
    DivisionByZero,
    ExpressionTooLarge,
    RewriteLimitExceeded,
    TypeMismatch(Seq<char>),
}

impl View for EvalError {
    type V = Fault;

    open spec fn view(&self) -> Fault {
        match self {
            EvalError::Lex(m) => Fault::Lex(m@),
            EvalError::Parse(m) => Fault::Parse(m@),
            EvalError::DivisionByZero => Fault::DivisionByZero,
            EvalError::ExpressionTooLarge => Fault::ExpressionTooLarge,
            EvalError::RewriteLimitExceeded => Fault::RewriteLimitExceeded,
            EvalError::TypeMismatch(m) => Fault::TypeMismatch(m@),
        }
    }
}

/// The executable outcome has the specified model.
pub open spec fn same_outcome<T: View>(r: EvalResultT<T>, s: Result<T::V, Fault>) -> bool {
    match s {
        Ok(v) => r matches Ok(x) && x@ == v,
        Err(f) => r matches Err(e) && e@ == f,
    }
}

/// The text a message-carrying error shows after its prefix.
pub open spec fn error_message_spec(e: EvalError) -> Seq<char> {
    match e {
        EvalError::Lex(m) => "lex error: "@ + m@,
        EvalError::Parse(m) => "parse error: "@ + m@,
        EvalError::DivisionByZero => "division by zero"@,
        EvalError::ExpressionTooLarge => "expression too large (exceeded MAX_NODES)"@,
        EvalError::RewriteLimitExceeded => "rewrite limit exceeded (MAX_REWRITE_DEPTH)"@,
        EvalError::TypeMismatch(m) => "type mismatch: "@ + m@,
    }
}

impl EvalError {
    /// The human-readable message of the error.
    pub fn message(&self) -> (r: String)
        ensures
            r@ == error_message_spec(*self),
    {
        match self {
            EvalError::Lex(m) => {
                let mut s = String::from_str("lex error: ");
                s.append(m.as_str());
                s
            },
            EvalError::Parse(m) => {
                let mut s = String::from_str("parse error: ");
                s.append(m.as_str());
                s
            },
            EvalError::DivisionByZero => String::from_str("division by zero"),
            EvalError::ExpressionTooLarge => String::from_str("expression too large (exceeded MAX_NODES)"),
            EvalError::RewriteLimitExceeded => String::from_str("rewrite limit exceeded (MAX_REWRITE_DEPTH)"),
            EvalError::TypeMismatch(m) => {
                let mut s = String::from_str("type mismatch: ");
                s.append(m.as_str());
                s
            },
        }
    }
}

/// The message of an error, by its model.
pub open spec fn fault_message(f: Fault) -> Seq<char> {
    match f {
        Fault::Lex(m) => "lex error: "@ + m,
        Fault::Parse(m) => "parse error: "@ + m,
        Fault::DivisionByZero => "division by zero"@,
        Fault::ExpressionTooLarge => "expression too large (exceeded MAX_NODES)"@,
        Fault::RewriteLimitExceeded => "rewrite limit exceeded (MAX_REWRITE_DEPTH)"@,
        Fault::TypeMismatch(m) => "type mismatch: "@ + m,
    }
}

} // verus!
