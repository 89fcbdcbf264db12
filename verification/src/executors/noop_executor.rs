use vstd::prelude::*;
use crate::messages::{Request, Step};
use crate::structs::TaskAttempt;

verus! {

/// The attempt that the local executor reports for every task it is given:
/// a success without output.
pub fn local_attempt(start_time: i64) -> (attempt: TaskAttempt)
    ensures
        attempt.succeeded,
        attempt.output@ == Seq::<char>::empty(),
        attempt.error@ == Seq::<char>::empty(),
        attempt.executor@.len() == 0,
        attempt.exit_code == 0,
        !attempt.killed,
        attempt.start_time == start_time,
{
    let mut attempt = TaskAttempt::new(start_time);
    attempt.succeeded = true;
    attempt
}

/// What the local executor does in answer to a request, in order: it
/// accepts every task, returns details as they came, and runs a task by
/// telling the tracker once that it is running and then reporting once.
pub open spec fn local_plan(request: Request) -> Seq<Step> {
    match request {
        Request::ValidateTask => seq![Step::ReplyValidation],
        Request::ExpandTaskDetails => seq![Step::ReplyExpansion],
        Request::ExecuteTask => seq![Step::TrackRunning, Step::Report],
        Request::StopTask => Seq::<Step>::empty(),
        Request::Stop => seq![Step::Halt],
    }
}

/// The steps of the local executor in answer to `request`.
pub fn local_steps(request: Request) -> (steps: Vec<Step>)
    ensures
        steps@ == local_plan(request),
{
    let mut steps: Vec<Step> = Vec::new();
    match request {
        Request::ValidateTask => {
            steps.push(Step::ReplyValidation);
        },
        Request::ExpandTaskDetails => {
            steps.push(Step::ReplyExpansion);
        },
        Request::ExecuteTask => {
            steps.push(Step::TrackRunning);
            steps.push(Step::Report);
        },
        Request::StopTask => {},
        Request::Stop => {
            steps.push(Step::Halt);
        },
    }
    assert(steps@ =~= local_plan(request));
    steps
}

} // verus!
