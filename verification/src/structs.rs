use vstd::prelude::*;

verus! {

/// Identifies one run of a task graph.
pub type RunID = u64;

/// Identifies one task inside a run.
pub type TaskID = String;

/// Lifecycle state of a task, and of the vertex that stands for it.
#[derive(Clone, Copy, Debug, PartialEq, Eq, Structural)]
pub enum State {
    /// Eligible to run once every parent has completed.
    Queued,
    /// Currently dispatched.
    Running,
    /// Finished successfully.
    Completed,
    /// Finished with a failure of the task itself.
    Errored,
    /// Cancelled from outside.
    Killed,
}

/// What an executor reports of one attempt to run a task.
pub struct TaskAttempt {
    /// Whether the task ran to a successful end.
    pub succeeded: bool,
    /// What the task wrote to its standard output.
    pub output: String,
    /// What the task wrote to its standard error.
    pub error: String,
    /// Lines from the executor itself, for when no program ran or the
    /// infrastructure failed.
    pub executor: Vec<String>,
    /// The exit code of the task; -1 where it is not known.
    pub exit_code: i32,
    /// Whether the task was cancelled from outside.
    pub killed: bool,
    /// When the attempt began, in milliseconds since the Unix epoch.
    pub start_time: i64,
}

impl TaskAttempt {
    /// Whether the attempt holds nothing but its start time: it has not
    /// succeeded, was not killed, and has no output, no lines and exit code 0.
    pub open spec fn is_blank(&self) -> bool {
        &&& !self.succeeded
        &&& self.output@ == Seq::<char>::empty()
        &&& self.error@ == Seq::<char>::empty()
        &&& self.executor@.len() == 0
        &&& self.exit_code == 0
        &&& !self.killed
    }

    /// A blank attempt that began at `start_time`.
    pub fn new(start_time: i64) -> (attempt: Self)
        ensures
            attempt.is_blank(),
            attempt.start_time == start_time,
    {
        TaskAttempt {
            succeeded: false,
            output: String::new(),
            error: String::new(),
            executor: Vec::new(),
            exit_code: 0,
            killed: false,
            start_time,
        }
    }
}

} // verus!
