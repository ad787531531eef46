//! What a graded step of the exam is made of, once its block has been read.
use vstd::prelude::*;

use super::error::StepError;
use super::types::{Next, Step};
use crate::progress::Answer;
use crate::text::same;
use crate::topic::Question;

verus! {

/// What comes next where the block names nothing: the exam closes.
pub fn next(found: Option<Next>) -> (r: Next)
    ensures
        r == match found {
            Some(n) => n,
            None => Next::Close,
        },
{
    match found {
        Some(n) => n,
        None => Next::Close,
    }
}

/// What to say to the student: nothing where the block says nothing.
pub fn say(found: Option<String>) -> (r: String)
    ensures
        r@ == match found {
            Some(s) => s@,
            None => Seq::empty(),
        },
{
    match found {
        Some(s) => s,
        None => String::new(),
    }
}

/// A step from the grade the examiner gave: refused where the grade is of
/// another question than the one asked.
pub fn graded(answer: Answer, next: Next, say: String, question: &Question) -> (r: Result<
    Step,
    StepError,
>)
    ensures
        answer.id@ == question.id@ ==> r == Ok::<Step, StepError>(Step { answer, next, say }),
        answer.id@ != question.id@ ==> r == Err::<Step, StepError>(
            StepError::WrongQuestion { expected: question.id, found: answer.id },
        ),
{
    if !same(answer.id.as_str(), question.id.as_str()) {
        return Err(StepError::WrongQuestion { expected: question.id.clone(), found: answer.id });
    }
    Ok(Step { answer, next, say })
}

} // verus!
