//! What an interactive prompt does with each line it reads, and what it
//! shows for each evaluation.

use vstd::prelude::*;
use crate::config::{trim, trimmed};
use crate::engine::outcome_text;
use crate::env::EvalResult;
use crate::error::{EvalResultT, error_message_spec};
use crate::text::{chars_of, string_of_chars, str_equal};

verus! {

/// The prompt's answer to a line of input.
#[derive(Debug, PartialEq, Eq)]
pub enum LineAction {
    /// A blank line: read the next one.
    Skip,
    /// `quit` or `exit`: leave the prompt.
    Quit,
    /// Remember the trimmed line in the history and evaluate it.
    Evaluate(String),
}

pub enum LineActionModel {
    Skip,
    Quit,
    Evaluate(Seq<char>),
}

impl View for LineAction {
    type V = LineActionModel;

    open spec fn view(&self) -> LineActionModel {
        match self {
            LineAction::Skip => LineActionModel::Skip,
            LineAction::Quit => LineActionModel::Quit,
            LineAction::Evaluate(s) => LineActionModel::Evaluate(s@),
        }
    }
}

/// The line trimmed: nothing left is skipped, `quit` and `exit` leave, and
/// anything else is evaluated.
pub open spec fn line_action_spec(line: Seq<char>) -> LineActionModel {
    let t = trim(line);
    if t.len() == 0 {
        LineActionModel::Skip
    } else if t == "quit"@ || t == "exit"@ {
        LineActionModel::Quit
    } else {
        LineActionModel::Evaluate(t)
    }
}

/// Decides what to do with a line read at the prompt.
pub fn line_action(line: &str) -> (r: LineAction)
    ensures
        r@ == line_action_spec(line@),
{
    let cs = chars_of(line);
    let t = trimmed(&cs, 0, cs.len());
    proof {
        assert(cs@.subrange(0, cs.len() as int) =~= line@);
    }
    if t.len() == 0 {
        return LineAction::Skip;
    }
    let s = string_of_chars(&t, 0, t.len());
    proof {
        assert(t@.subrange(0, t.len() as int) =~= t@);
    }
    if str_equal(s.as_str(), "quit") || str_equal(s.as_str(), "exit") {
        LineAction::Quit
    } else {
        LineAction::Evaluate(s)
    }
}

/// What the prompt shows for an evaluation: the result on standard output,
/// or the error, after `error: `, on standard error.
#[derive(Debug, PartialEq, Eq)]
pub enum Response {
    Output(String),
    Error(String),
}

pub enum ResponseModel {
    Output(Seq<char>),
    Error(Seq<char>),
}

impl View for Response {
    type V = ResponseModel;

    open spec fn view(&self) -> ResponseModel {
        match self {
            Response::Output(s) => ResponseModel::Output(s@),
            Response::Error(s) => ResponseModel::Error(s@),
        }
    }
}

pub open spec fn response_spec(r: EvalResultT<EvalResult>) -> ResponseModel {
    match r {
        Ok(v) => ResponseModel::Output(outcome_text(v@)),
        Err(e) => ResponseModel::Error("error: "@ + error_message_spec(e)),
    }
}

/// The text the prompt shows for an evaluation.
pub fn response(r: &EvalResultT<EvalResult>) -> (out: Response)
    ensures
        out@ == response_spec(*r),
{
    match r {
        Ok(v) => Response::Output(v.to_text()),
        Err(e) => {
            let mut text = String::from_str("error: ");
            let m = e.message();
            proof {
                reveal_strlit("error: ");
            }
            text.append(m.as_str());
            Response::Error(text)
        },
    }
}

} // verus!
