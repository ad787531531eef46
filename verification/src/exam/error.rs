//! Why a step of the exam could not be read.
use vstd::prelude::*;

use crate::text::{put_str, string_of};

verus! {

#[derive(Debug, Clone, PartialEq, Eq)]
pub enum StepError {
    NoJson,
    Malformed { reason: String },
    WrongQuestion { expected: String, found: String },
}

pub open spec fn step_code(e: StepError) -> Seq<char> {
    match e {
        StepError::NoJson => "exam.no-json"@,
        StepError::Malformed { .. } => "exam.malformed"@,
        StepError::WrongQuestion { .. } => "exam.wrong-question"@,
    }
}

/// What the student is told of the error.
pub open spec fn step_message(e: StepError) -> Seq<char> {
    match e {
        StepError::NoJson => "в ответе нет блока JSON с оценкой"@,
        StepError::Malformed { reason } => "блок оценки не разобран: "@ + reason@,
        StepError::WrongQuestion { expected, found } => "оценка о вопросе `"@ + found@
            + "`, а спрашивали `"@ + expected@ + "`"@,
    }
}

impl StepError {
    pub fn code(&self) -> (r: &'static str)
        ensures
            r@ == step_code(*self),
    {
        match self {
            StepError::NoJson => "exam.no-json",
            StepError::Malformed { .. } => "exam.malformed",
            StepError::WrongQuestion { .. } => "exam.wrong-question",
        }
    }

    pub fn message(&self) -> (r: String)
        ensures
            r@ == step_message(*self),
    {
        let mut out: Vec<char> = Vec::new();
        match self {
            StepError::NoJson => {
                put_str(&mut out, "в ответе нет блока JSON с оценкой");
            },
            StepError::Malformed { reason } => {
                put_str(&mut out, "блок оценки не разобран: ");
                put_str(&mut out, reason.as_str());
            },
            StepError::WrongQuestion { expected, found } => {
                put_str(&mut out, "оценка о вопросе `");
                put_str(&mut out, found.as_str());
                put_str(&mut out, "`, а спрашивали `");
                put_str(&mut out, expected.as_str());
                put_str(&mut out, "`");
            },
        }
        string_of(out.as_slice())
    }
}

} // verus!
