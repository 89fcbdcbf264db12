use vstd::prelude::*;

verus! {

/// What an executor can be asked, apart from what the message carries.
#[derive(Clone, Copy, Debug, PartialEq, Eq, Structural)]
pub enum Request {
    /// Check the details of a task.
    ValidateTask,
    /// Expand the details of a task over its parameters.
    ExpandTaskDetails,
    /// Run a task.
    ExecuteTask,
    /// Stop a task.
    StopTask,
    /// End the executor.
    Stop,
}

/// One thing an executor does in answer to a request.
#[derive(Clone, Copy, Debug, PartialEq, Eq, Structural)]
pub enum Step {
    /// Answer whether the details are valid.
    ReplyValidation,
    /// Answer with the expanded details.
    ReplyExpansion,
    /// Tell the tracker that the task is running.
    TrackRunning,
    /// Send the report of an attempt to the runner.
    Report,
    /// Start the watcher of the job.
    Watch,
    /// Keep the way to stop the task.
    Register,
    /// Tell the watcher of the task to stop it.
    Kill,
    /// Confirm that the request to stop was taken.
    Acknowledge,
    /// Leave the loop.
    Halt,
}

} // verus!
