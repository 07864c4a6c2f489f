//! The reduction mode a result belongs to, as a front end labels it.

use vstd::prelude::*;
use crate::env::{EvalResult, Outcome};

verus! {

/// The kind of a result: a number, a symbolic expression, a matrix, a
/// lambda term, or a boolean.
#[derive(Debug, Clone, Copy, PartialEq, Eq, Structural)]
pub enum Mode {
    Eager,
    Lazy,
    Matrix,
    Lambda,
    Logic,
    Error,
}

impl Mode {
    pub open spec fn label_spec(self) -> Seq<char> {
        match self {
            Mode::Eager => "EAGER"@,
            Mode::Lazy => "LAZY"@,
            Mode::Matrix => "MATRIX"@,
            Mode::Lambda => "LAMBDA"@,
            Mode::Logic => "LOGIC"@,
            Mode::Error => "ERROR"@,
        }
    }

    /// The badge text of the mode.
    pub fn label(self) -> (r: &'static str)
        ensures
            r@ == self.label_spec(),
    {
        match self {
            Mode::Eager => "EAGER",
            Mode::Lazy => "LAZY",
            Mode::Matrix => "MATRIX",
            Mode::Lambda => "LAMBDA",
            Mode::Logic => "LOGIC",
            Mode::Error => "ERROR",
        }
    }
}

pub open spec fn mode_spec(o: Outcome) -> Mode {
    match o {
        Outcome::Numeric(_) => Mode::Eager,
        Outcome::Bool(_) => Mode::Logic,
        Outcome::Matrix(_) => Mode::Matrix,
        Outcome::Symbolic(_) => Mode::Lazy,
        Outcome::Lambda(_) => Mode::Lambda,
    }
}

/// The mode of a result.
pub fn mode_of(r: &EvalResult) -> (m: Mode)
    ensures
        m == mode_spec(r@),
{
    match r {
        EvalResult::Numeric(_) => Mode::Eager,
        EvalResult::Bool(_) => Mode::Logic,
        EvalResult::Matrix(_) => Mode::Matrix,
        EvalResult::Symbolic(_) => Mode::Lazy,
        EvalResult::Lambda(_) => Mode::Lambda,
    }
}

} // verus!
