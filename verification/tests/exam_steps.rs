use tolearn_core::exam::read::{graded, next, say};
use tolearn_core::exam::{Artifact, Next, Side, StepError};
use tolearn_core::progress::Answer;
use tolearn_core::topic::Question;

fn question(id: &str) -> Question {
    Question {
        id: id.to_string(),
        text: "What is ownership?".to_string(),
        kind: "concept".to_string(),
        expected_signals: Vec::new(),
        red_flags: Vec::new(),
        follow_up: None,
    }
}

fn answer(id: &str) -> Answer {
    Answer {
        id: id.to_string(),
        outcome: "passed".to_string(),
        quote: None,
        missed: Vec::new(),
        signal_extension: false,
    }
}

#[test]
fn a_grade_of_the_asked_question_is_a_step() {
    let step = graded(answer("q1"), Next::FollowUp, "Good.".to_string(), &question("q1")).unwrap();
    assert_eq!(step.answer, answer("q1"));
    assert_eq!(step.next, Next::FollowUp);
    assert_eq!(step.say, "Good.");
}

#[test]
fn a_grade_of_another_question_is_refused() {
    let error = graded(answer("q2"), Next::Close, String::new(), &question("q1")).unwrap_err();
    assert_eq!(
        error,
        StepError::WrongQuestion {
            expected: "q1".to_string(),
            found: "q2".to_string(),
        }
    );
    assert_eq!(error.code(), "exam.wrong-question");
}

#[test]
fn a_step_closes_and_says_nothing_by_default() {
    assert_eq!(next(None), Next::Close);
    assert_eq!(next(Some(Next::FollowUp)), Next::FollowUp);
    assert_eq!(say(None), "");
    assert_eq!(say(Some("Next.".to_string())), "Next.");
}

#[test]
fn labels_read_back() {
    for artifact in [Artifact::Missing, Artifact::Shown, Artifact::Passed, Artifact::Skipped, Artifact::Aside] {
        assert_eq!(Artifact::read(artifact.label()), Some(artifact));
    }
    for side in [Side::Examiner, Side::Student] {
        assert_eq!(Side::read(side.label()), Some(side));
    }
    assert_eq!(Artifact::read("lost"), None);
}
