use vstd::prelude::*;
use crate::messages::{Request, Step};
use crate::structs::{RunID, TaskAttempt};

verus! {

/// The number of CPUs a task asks for when it names none.
pub fn default_cpus() -> (n: usize)
    ensures
        n == 1,
{
    1usize
}

/// The memory, in megabytes, a task asks for when it names none.
pub fn default_min_memory_mb() -> (n: usize)
    ensures
        n == 200,
{
    200usize
}

/// The temporary disk space, in megabytes, a task asks for when it names none.
pub fn default_min_tmp_disk_mb() -> (n: usize)
    ensures
        n == 0,
{
    0usize
}

/// The time limit, in seconds, of a task that names none.
pub fn default_time_limit_seconds() -> (n: usize)
    ensures
        n == 3600,
{
    3600usize
}

/// The priority of a task that names none.
pub fn default_priority() -> (n: usize)
    ensures
        n == 1,
{
    1usize
}

/// What a task has to say to be run on the cluster.
pub struct SlurmTaskDetail {
    pub user: String,
    pub jwt_token: String,
    pub min_cpus: usize,
    pub min_memory_mb: usize,
    pub min_tmp_disk_mb: usize,
    pub priority: usize,
    pub time_limit_seconds: usize,
    /// The command and all arguments to run.
    pub command: Vec<String>,
    /// Environment variables to set; of two entries for one name the later counts.
    pub environment: Vec<(String, String)>,
    /// The directory that the scheduler writes the task's output into.
    pub logdir: String,
}

impl SlurmTaskDetail {
    /// The details of a task that names only what it must: the other
    /// fields have their defaults, and the environment is empty.
    pub fn new(user: String, jwt_token: String, command: Vec<String>, logdir: String) -> (detail:
        Self)
        ensures
            detail.user == user,
            detail.jwt_token == jwt_token,
            detail.command == command,
            detail.logdir == logdir,
            detail.min_cpus == 1,
            detail.min_memory_mb == 200,
            detail.min_tmp_disk_mb == 0,
            detail.priority == 1,
            detail.time_limit_seconds == 3600,
            detail.environment@.len() == 0,
    {
        SlurmTaskDetail {
            user,
            jwt_token,
            min_cpus: default_cpus(),
            min_memory_mb: default_min_memory_mb(),
            min_tmp_disk_mb: default_min_tmp_disk_mb(),
            priority: default_priority(),
            time_limit_seconds: default_time_limit_seconds(),
            command,
            environment: Vec::new(),
            logdir,
        }
    }
}

/// The job part of a submission.
pub struct SlurmSubmitJobDetails {
    pub name: String,
    pub nodes: usize,
    pub environment: Vec<(String, String)>,
    pub standard_output: String,
    pub standard_error: String,
}

/// The document that is posted to the scheduler to submit a task.
pub struct SlurmSubmitJob {
    pub script: String,
    pub job: SlurmSubmitJobDetails,
}

/// The words of `words`, in order, with `sep` between each two.
pub open spec fn joined(words: Seq<String>, sep: Seq<char>) -> Seq<char>
    decreases words.len(),
{
    if words.len() == 0 {
        Seq::<char>::empty()
    } else if words.len() == 1 {
        words[0]@
    } else {
        joined(words.drop_last(), sep) + sep + words.last()@
    }
}

/// The variables that a list of entries sets: each name with the value of
/// its last entry.
pub open spec fn settings(entries: Seq<(String, String)>) -> Map<Seq<char>, Seq<char>>
    decreases entries.len(),
{
    if entries.len() == 0 {
        Map::empty()
    } else {
        settings(entries.drop_last()).insert(entries.last().0@, entries.last().1@)
    }
}

/// Joins `words` with `sep` between each two.
pub fn join(words: &Vec<String>, sep: &str) -> (text: String)
    ensures
        text@ == joined(words@, sep@),
{
    let mut text = String::new();
    let mut i: usize = 0;
    while i < words.len()
        invariant
            i <= words@.len(),
            text@ == joined(words@.subrange(0, i as int), sep@),
        decreases words@.len() - i,
    {
        proof {
            let next = words@.subrange(0, i + 1);
            assert(next.drop_last() == words@.subrange(0, i as int));
            assert(next.last() == words@[i as int]);
        }
        if i > 0 {
            text.append(sep);
        }
        text.append(words[i].as_str());
        proof {
            if i == 0 {
                assert(text@ == words@[0]@);
            }
        }
        i += 1;
    }
    proof {
        assert(words@.subrange(0, i as int) == words@);
    }
    text
}

/// The path of a log file: `logdir`, a slash, the task's name and `suffix`.
pub fn log_path(logdir: &str, task_name: &str, suffix: &str) -> (path: String)
    ensures
        path@ == logdir@ + "/"@ + task_name@ + suffix@,
{
    let mut path = logdir.to_owned();
    path.append("/");
    path.append(task_name);
    path.append(suffix);
    path
}

impl SlurmSubmitJob {
    /// The submission for the task `task_name` with the details `detail`:
    /// a shell script that runs the command, one node, the task's
    /// environment with `DAGGY_TASK_NAME` set to the task's name, and the
    /// two log files in the task's log directory.
    pub fn new(task_name: String, detail: &SlurmTaskDetail) -> (job: Self)
        ensures
            job.script@ == "#!/bin/bash\n"@ + joined(detail.command@, " "@) + "\n"@,
            job.job.name@ == task_name@,
            job.job.nodes == 1,
            settings(job.job.environment@) == settings(detail.environment@).insert(
                "DAGGY_TASK_NAME"@,
                task_name@,
            ),
            job.job.standard_output@ == detail.logdir@ + "/"@ + task_name@ + ".stdout"@,
            job.job.standard_error@ == detail.logdir@ + "/"@ + task_name@ + ".stderr"@,
    {
        let mut script = "#!/bin/bash\n".to_owned();
        let line = join(&detail.command, " ");
        script.append(line.as_str());
        script.append("\n");

        let mut env: Vec<(String, String)> = Vec::new();
        let mut i: usize = 0;
        while i < detail.environment.len()
            invariant
                i <= detail.environment@.len(),
                env@ == detail.environment@.subrange(0, i as int),
            decreases detail.environment@.len() - i,
        {
            let name = detail.environment[i].0.clone();
            let value = detail.environment[i].1.clone();
            env.push((name, value));
            proof {
                assert(env@ =~= detail.environment@.subrange(0, i + 1));
            }
            i += 1;
        }
        proof {
            assert(env@ == detail.environment@);
        }
        let ghost copied = env@;
        env.push(("DAGGY_TASK_NAME".to_owned(), task_name.clone()));
        proof {
            assert(env@.drop_last() == copied);
        }

        let standard_output = log_path(detail.logdir.as_str(), task_name.as_str(), ".stdout");
        let standard_error = log_path(detail.logdir.as_str(), task_name.as_str(), ".stderr");
        SlurmSubmitJob {
            script,
            job: SlurmSubmitJobDetails {
                nodes: 1,
                environment: env,
                name: task_name,
                standard_output,
                standard_error,
            },
        }
    }
}

/// The numeral of a number below ten.
pub open spec fn digit(d: nat) -> Seq<char> {
    if d == 0 {
        "0"@
    } else if d == 1 {
        "1"@
    } else if d == 2 {
        "2"@
    } else if d == 3 {
        "3"@
    } else if d == 4 {
        "4"@
    } else if d == 5 {
        "5"@
    } else if d == 6 {
        "6"@
    } else if d == 7 {
        "7"@
    } else if d == 8 {
        "8"@
    } else {
        "9"@
    }
}

/// The decimal numeral of `n`, without leading zeros.
pub open spec fn decimal(n: nat) -> Seq<char>
    decreases n,
{
    if n < 10 {
        digit(n)
    } else {
        decimal(n / 10) + digit(n % 10)
    }
}

fn digit_text(d: u64) -> (text: &'static str)
    requires
        d < 10,
    ensures
        text@ == digit(d as nat),
{
    if d == 0 {
        "0"
    } else if d == 1 {
        "1"
    } else if d == 2 {
        "2"
    } else if d == 3 {
        "3"
    } else if d == 4 {
        "4"
    } else if d == 5 {
        "5"
    } else if d == 6 {
        "6"
    } else if d == 7 {
        "7"
    } else if d == 8 {
        "8"
    } else {
        "9"
    }
}

/// Writes `n` in decimal digits.
pub fn decimal_text(n: u64) -> (text: String)
    ensures
        text@ == decimal(n as nat),
    decreases n,
{
    if n < 10 {
        digit_text(n).to_owned()
    } else {
        let mut text = decimal_text(n / 10);
        text.append(digit_text(n % 10));
        text
    }
}

/// The address that a submission is posted to.
pub fn submit_url(base_url: &str) -> (url: String)
    ensures
        url@ == base_url@ + "/job/submit"@,
{
    let mut url = base_url.to_owned();
    url.append("/job/submit");
    url
}

/// The address of the job `slurm_id`, for asking after it and for ending
/// it: the base address, `/job/` and the number in decimal digits.
pub fn job_url(base_url: &str, slurm_id: u64) -> (url: String)
    ensures
        url@ == base_url@ + "/job/"@ + decimal(slurm_id as nat),
{
    let digits = decimal_text(slurm_id);
    let mut url = base_url.to_owned();
    url.append("/job/");
    url.append(digits.as_str());
    url
}

/// What the scheduler answered to a submission: the number of the job on
/// status 200, and else the scheduler's error messages, one per line.
pub fn submission_result(status: u16, job_id: Option<u64>, errors: &Vec<String>) -> (r: Result<
    u64,
    String,
>)
    requires
        status == 200 ==> job_id is Some,
    ensures
        match r {
            Ok(id) => status == 200 && job_id == Some(id),
            Err(message) => status != 200 && message@ == joined(errors@, "\n"@),
        },
{
    if status == 200 {
        match job_id {
            Some(id) => Ok(id),
            None => Ok(0),
        }
    } else {
        Err(join(errors, "\n"))
    }
}

/// The attempt reported for a task that the scheduler did not accept:
/// a failure whose only executor line is the scheduler's `message`.
pub fn rejected_attempt(message: String, start_time: i64) -> (attempt: TaskAttempt)
    ensures
        !attempt.succeeded,
        attempt.output@ == Seq::<char>::empty(),
        attempt.error@ == Seq::<char>::empty(),
        attempt.executor@.len() == 1,
        attempt.executor@[0]@ == message@,
        attempt.exit_code == 0,
        !attempt.killed,
        attempt.start_time == start_time,
{
    let mut attempt = TaskAttempt::new(start_time);
    attempt.executor.push(message);
    attempt
}

/// What a log file contributes to a report: its contents where it could be
/// read, and else its own path.
pub fn slurp_if_exists(filename: String, contents: Option<String>) -> (text: String)
    ensures
        text == (match contents {
            Some(c) => c,
            None => filename,
        }),
{
    match contents {
        Some(c) => c,
        None => filename,
    }
}

/// What wakes the watcher of a job.
#[derive(Clone, Copy, Debug, PartialEq, Eq, Structural)]
pub enum JobEvent {
    /// The task is to be stopped.
    Kill,
    /// It is time to ask after the job again.
    Timeout,
}

/// What the watcher of a job asks of the scheduler.
#[derive(Clone, Copy, Debug, PartialEq, Eq, Structural)]
pub enum JobRequest {
    /// End the job.
    Delete,
    /// Report the state of the job.
    Poll,
}

/// The request that answers an event: a kill ends the job, a timeout asks after it.
pub fn request_for(event: JobEvent) -> (request: JobRequest)
    ensures
        request == (match event {
            JobEvent::Kill => JobRequest::Delete,
            JobEvent::Timeout => JobRequest::Poll,
        }),
{
    match event {
        JobEvent::Kill => JobRequest::Delete,
        JobEvent::Timeout => JobRequest::Poll,
    }
}

/// Whether the job counts as killed after a request to end it, which the
/// scheduler answered with `status`, or which did not reach it (`None`):
/// it does once one such request was accepted.
pub fn killed_after(killed: bool, status: Option<u16>) -> (now: bool)
    ensures
        now == (killed || status == Some(200u16)),
{
    match status {
        Some(code) => killed || code == 200,
        None => killed,
    }
}

/// What a state of a job on the cluster means for the task.
#[derive(Clone, Copy, Debug, PartialEq, Eq, Structural)]
pub enum JobOutcome {
    /// The job has ended well.
    Succeeded,
    /// The job has ended, and the task itself failed.
    Failed,
    /// The job has ended because the cluster failed it: it may be tried again.
    ClusterFault,
    /// The job has not ended.
    Unfinished,
}

/// The meaning of the scheduler's name for a state.
pub open spec fn outcome_of(state: Seq<char>) -> JobOutcome {
    if state == "COMPLETED"@ {
        JobOutcome::Succeeded
    } else if state == "FAILED"@ || state == "CANCELLED"@ || state == "TIMEOUT"@ || state
        == "OOM"@ {
        JobOutcome::Failed
    } else if state == "NODE_FAIL"@ || state == "PREEMPTED"@ || state == "BOOT_FAIL"@ || state
        == "DEADLINE"@ {
        JobOutcome::ClusterFault
    } else {
        JobOutcome::Unfinished
    }
}

/// Whether `text` is `word`.
fn is_word(text: &String, word: &str) -> (b: bool)
    ensures
        b == (text@ == word@),
{
    let other = word.to_owned();
    *text == other
}

/// Tells what the scheduler's name for a state of a job means.
pub fn classify(state: &str) -> (outcome: JobOutcome)
    ensures
        outcome == outcome_of(state@),
{
    let s = state.to_owned();
    if is_word(&s, "COMPLETED") {
        JobOutcome::Succeeded
    } else if is_word(&s, "FAILED") || is_word(&s, "CANCELLED") || is_word(&s, "TIMEOUT")
        || is_word(&s, "OOM") {
        JobOutcome::Failed
    } else if is_word(&s, "NODE_FAIL") || is_word(&s, "PREEMPTED") || is_word(&s, "BOOT_FAIL")
        || is_word(&s, "DEADLINE") {
        JobOutcome::ClusterFault
    } else {
        JobOutcome::Unfinished
    }
}

/// What the watcher does after the scheduler has answered a poll.
#[derive(Clone, Copy, Debug, PartialEq, Eq, Structural)]
pub enum WatchStep {
    /// The job has not ended: wait and poll again.
    KeepWatching,
    /// The job has ended: read its logs and report the outcome.
    Finish(JobOutcome),
    /// The scheduler could not be asked: report that, and stop.
    GiveUp,
}

/// The step that follows a poll. `status` is what the scheduler answered
/// with, or `None` where it could not be reached; `state` is the state of
/// the job that the answer names, or `None` where it names none that can
/// be read. Only an answer with status 200 that names a state is followed.
pub open spec fn step_after(status: Option<u16>, state: Option<Seq<char>>) -> WatchStep {
    if status != Some(200u16) {
        WatchStep::GiveUp
    } else {
        match state {
            None => WatchStep::GiveUp,
            Some(name) => if outcome_of(name) == JobOutcome::Unfinished {
                WatchStep::KeepWatching
            } else {
                WatchStep::Finish(outcome_of(name))
            },
        }
    }
}

/// The view of a state that an answer may name.
pub open spec fn named(state: Option<&str>) -> Option<Seq<char>> {
    match state {
        Some(name) => Some(name@),
        None => None,
    }
}

/// The step that follows a poll: the watcher gives up where the scheduler
/// could not be reached, answered with another status than 200, or named
/// no state; else it goes by what the state means.
pub fn after_poll(status: Option<u16>, state: Option<&str>) -> (step: WatchStep)
    ensures
        step == step_after(status, named(state)),
{
    match status {
        Some(code) => {
            if code != 200 {
                WatchStep::GiveUp
            } else {
                match state {
                    None => WatchStep::GiveUp,
                    Some(name) => match classify(name) {
                        JobOutcome::Unfinished => WatchStep::KeepWatching,
                        outcome => WatchStep::Finish(outcome),
                    },
                }
            }
        },
        None => WatchStep::GiveUp,
    }
}

/// The exit code as a report holds it: `code` where it fits, and else -1.
pub fn exit_code_of(code: i64) -> (r: i32)
    ensures
        r == (if i32::MIN <= code <= i32::MAX {
            code as i32
        } else {
            -1i32
        }),
{
    if code >= -2147483648 && code <= 2147483647 {
        code as i32
    } else {
        -1
    }
}

/// The attempt reported once a job has ended with `outcome` in the state
/// `state`: the texts of the two logs, the exit code, whether the job was
/// killed, and for a fault of the cluster one executor line that names the
/// state.
pub fn terminal_attempt(
    outcome: JobOutcome,
    state: &str,
    exit_code: i64,
    output: String,
    error: String,
    killed: bool,
    start_time: i64,
) -> (attempt: TaskAttempt)
    requires
        outcome != JobOutcome::Unfinished,
    ensures
        attempt.succeeded == (outcome == JobOutcome::Succeeded),
        attempt.output == output,
        attempt.error == error,
        attempt.exit_code == (if i32::MIN <= exit_code <= i32::MAX {
            exit_code as i32
        } else {
            -1i32
        }),
        attempt.killed == killed,
        attempt.start_time == start_time,
        outcome != JobOutcome::ClusterFault ==> attempt.executor@.len() == 0,
        outcome == JobOutcome::ClusterFault ==> attempt.executor@.len() == 1
            && attempt.executor@[0]@ == "Job failed due to potential cluster issue: "@ + state@,
{
    let mut attempt = TaskAttempt::new(start_time);
    attempt.succeeded = match outcome {
        JobOutcome::Succeeded => true,
        _ => false,
    };
    attempt.output = output;
    attempt.error = error;
    attempt.exit_code = exit_code_of(exit_code);
    attempt.killed = killed;
    match outcome {
        JobOutcome::ClusterFault => {
            let mut line = "Job failed due to potential cluster issue: ".to_owned();
            line.append(state);
            attempt.executor.push(line);
        },
        _ => {},
    }
    attempt
}

/// The attempt reported when the scheduler could not be asked after the
/// job `slurm_id` of the task `task_id`: a failure whose only executor line
/// names the job and the task.
pub fn lost_attempt(slurm_id: u64, task_id: &str, start_time: i64) -> (attempt: TaskAttempt)
    ensures
        !attempt.succeeded,
        attempt.output@ == Seq::<char>::empty(),
        attempt.error@ == Seq::<char>::empty(),
        attempt.exit_code == 0,
        !attempt.killed,
        attempt.start_time == start_time,
        attempt.executor@.len() == 1,
        attempt.executor@[0]@
            == "Unable to query job status, assuming critical failure. Investigate job id "@
            + decimal(slurm_id as nat) + ", task name "@ + task_id@
            + " in slurm for more details"@,
{
    let digits = decimal_text(slurm_id);
    let mut line =
        "Unable to query job status, assuming critical failure. Investigate job id ".to_owned();
    line.append(digits.as_str());
    line.append(", task name ");
    line.append(task_id);
    line.append(" in slurm for more details");
    let mut attempt = TaskAttempt::new(start_time);
    attempt.executor.push(line);
    attempt
}

/// What the cluster executor does in answer to a request, in order.
/// `accepted` says whether the scheduler took the submission, and
/// `registered` whether the task to stop is one that runs: a task that was
/// not accepted is reported at once, one that was is watched, and a request
/// to stop is confirmed whether or not there was anything to stop.
pub open spec fn cluster_plan(request: Request, accepted: bool, registered: bool) -> Seq<Step> {
    match request {
        Request::ValidateTask => seq![Step::ReplyValidation],
        Request::ExpandTaskDetails => seq![Step::ReplyExpansion],
        Request::ExecuteTask => if accepted {
            seq![Step::Watch, Step::TrackRunning, Step::Register]
        } else {
            seq![Step::Report]
        },
        Request::StopTask => if registered {
            seq![Step::Kill, Step::Acknowledge]
        } else {
            seq![Step::Acknowledge]
        },
        Request::Stop => seq![Step::Halt],
    }
}

/// The steps of the cluster executor in answer to `request`.
pub fn cluster_steps(request: Request, accepted: bool, registered: bool) -> (steps: Vec<Step>)
    ensures
        steps@ == cluster_plan(request, accepted, registered),
{
    let mut steps: Vec<Step> = Vec::new();
    match request {
        Request::ValidateTask => {
            steps.push(Step::ReplyValidation);
        },
        Request::ExpandTaskDetails => {
            steps.push(Step::ReplyExpansion);
        },
        Request::ExecuteTask => {
            if accepted {
                steps.push(Step::Watch);
                steps.push(Step::TrackRunning);
                steps.push(Step::Register);
            } else {
                steps.push(Step::Report);
            }
        },
        Request::StopTask => {
            if registered {
                steps.push(Step::Kill);
            }
            steps.push(Step::Acknowledge);
        },
        Request::Stop => {
            steps.push(Step::Halt);
        },
    }
    assert(steps@ =~= cluster_plan(request, accepted, registered));
    steps
}

/// The tasks that the executor has submitted and not yet been asked to
/// stop, each with the ticket under which its kill channel is kept.
pub struct RunningTasks {
    entries: Vec<(RunID, String, u64)>,
}

impl RunningTasks {
    /// The ticket of each task that is registered, by run and task.
    pub closed spec fn view(&self) -> Map<(RunID, Seq<char>), u64> {
        Map::new(
            |k: (RunID, Seq<char>)|
                exists|i: int| 0 <= i < self.entries@.len() && #[trigger] self.key_at(i) == k,
            |k: (RunID, Seq<char>)|
                self.entries@[choose|i: int|
                    0 <= i < self.entries@.len() && #[trigger] self.key_at(i) == k].2,
        )
    }

    spec fn key_at(&self, i: int) -> (RunID, Seq<char>) {
        (self.entries@[i].0, self.entries@[i].1@)
    }

    /// No task is registered twice.
    pub closed spec fn wf(&self) -> bool {
        forall|i: int, j: int|
            0 <= i < j < self.entries@.len() ==> #[trigger] self.key_at(i) != #[trigger] self.key_at(
                j,
            )
    }

    /// A registry without tasks.
    pub fn new() -> (tasks: Self)
        ensures
            tasks.wf(),
            tasks@ == Map::<(RunID, Seq<char>), u64>::empty(),
    {
        let tasks = RunningTasks { entries: Vec::new() };
        proof {
            assert(tasks@ =~= Map::<(RunID, Seq<char>), u64>::empty());
        }
        tasks
    }

    fn find(&self, run_id: RunID, task_id: &String) -> (r: Option<usize>)
        requires
            self.wf(),
        ensures
            match r {
                Some(i) => i < self.entries@.len() && self.key_at(i as int) == (run_id, task_id@)
                    && self@.contains_key((run_id, task_id@)) && self@[(run_id, task_id@)]
                    == self.entries@[i as int].2,
                None => !self@.contains_key((run_id, task_id@)),
            },
    {
        let mut i: usize = 0;
        while i < self.entries.len()
            invariant
                self.wf(),
                i <= self.entries@.len(),
                forall|j: int| 0 <= j < i ==> #[trigger] self.key_at(j) != (run_id, task_id@),
            decreases self.entries@.len() - i,
        {
            if self.entries[i].0 == run_id && self.entries[i].1 == *task_id {
                assert(self.key_at(i as int) == (run_id, task_id@));
                return Some(i);
            }
            i += 1;
        }
        None
    }

    /// Registers the task under `ticket`, in place of an earlier ticket of
    /// the same task if there is one.
    pub fn insert(&mut self, run_id: RunID, task_id: String, ticket: u64)
        requires
            old(self).wf(),
        ensures
            final(self).wf(),
            final(self)@ == old(self)@.insert((run_id, task_id@), ticket),
    {
        let ghost key = (run_id, task_id@);
        match self.find(run_id, &task_id) {
            Some(i) => {
                self.entries.set(i, (run_id, task_id, ticket));
                proof {
                    assert forall|j: int| 0 <= j < self.entries@.len() implies #[trigger] self.key_at(
                        j,
                    ) == old(self).key_at(j) by {}
                    assert forall|a: int, b: int|
                        0 <= a < b < self.entries@.len() implies #[trigger] self.key_at(a)
                        != #[trigger] self.key_at(b) by {
                        assert(old(self).key_at(a) != old(self).key_at(b));
                    }
                    assert forall|k: (RunID, Seq<char>)| #[trigger]
                        self@.contains_key(k) == old(self)@.insert(key, ticket).contains_key(k) by {
                        if self@.contains_key(k) {
                            let j = choose|j: int|
                                0 <= j < self.entries@.len() && #[trigger] self.key_at(j) == k;
                            assert(old(self).key_at(j) == k);
                        }
                        if old(self)@.contains_key(k) {
                            let j = choose|j: int|
                                0 <= j < self.entries@.len() && #[trigger] old(self).key_at(j) == k;
                            assert(self.key_at(j) == k);
                        }
                    }
                    assert forall|k: (RunID, Seq<char>)| #[trigger]
                        self@.contains_key(k) implies self@[k] == old(self)@.insert(
                        key,
                        ticket,
                    )[k] by {
                        let j = choose|j: int|
                            0 <= j < self.entries@.len() && #[trigger] self.key_at(j) == k;
                        assert(old(self).key_at(j) == k);
                        self.lemma_entry(j);
                        old(self).lemma_entry(j);
                    }
                    assert(self@ =~= old(self)@.insert(key, ticket));
                }
            },
            None => {
                self.entries.push((run_id, task_id, ticket));
                proof {
                    let n = old(self).entries@.len() as int;
                    assert forall|j: int| 0 <= j < n implies #[trigger] self.key_at(j) == old(
                        self,
                    ).key_at(j) by {}
                    assert(self.key_at(n) == key);
                    assert forall|a: int, b: int|
                        0 <= a < b < self.entries@.len() implies #[trigger] self.key_at(a)
                        != #[trigger] self.key_at(b) by {
                        assert(old(self).key_at(a) == self.key_at(a));
                        if b < n {
                            assert(old(self).key_at(a) != old(self).key_at(b));
                        }
                    }
                    assert forall|k: (RunID, Seq<char>)| #[trigger]
                        self@.contains_key(k) == old(self)@.insert(key, ticket).contains_key(k) by {
                        if self@.contains_key(k) {
                            let j = choose|j: int|
                                0 <= j < self.entries@.len() && #[trigger] self.key_at(j) == k;
                            if j < n {
                                assert(old(self).key_at(j) == k);
                            }
                        }
                        if old(self)@.contains_key(k) {
                            let j = choose|j: int|
                                0 <= j < n && #[trigger] old(self).key_at(j) == k;
                            assert(self.key_at(j) == k);
                        }
                    }
                    assert forall|k: (RunID, Seq<char>)| #[trigger]
                        self@.contains_key(k) implies self@[k] == old(self)@.insert(
                        key,
                        ticket,
                    )[k] by {
                        let j = choose|j: int|
                            0 <= j < self.entries@.len() && #[trigger] self.key_at(j) == k;
                        self.lemma_entry(j);
                        if j < n {
                            assert(old(self).key_at(j) == k);
                            old(self).lemma_entry(j);
                        }
                    }
                    assert(self@ =~= old(self)@.insert(key, ticket));
                }
            },
        }
    }

    /// The entry at position `j` is what the view holds for its key.
    proof fn lemma_entry(&self, j: int)
        requires
            self.wf(),
            0 <= j < self.entries@.len(),
        ensures
            self@.contains_key(self.key_at(j)),
            self@[self.key_at(j)] == self.entries@[j].2,
    {
        let k = self.key_at(j);
        let c = choose|i: int| 0 <= i < self.entries@.len() && #[trigger] self.key_at(i) == k;
        if c < j {
            assert(self.key_at(c) != self.key_at(j));
        }
        if j < c {
            assert(self.key_at(j) != self.key_at(c));
        }
    }

    /// Takes the task out of the registry and returns its ticket, if it is
    /// registered: of two requests to stop one task only the first gets one.
    pub fn take(&mut self, run_id: RunID, task_id: &String) -> (ticket: Option<u64>)
        requires
            old(self).wf(),
        ensures
            final(self).wf(),
            final(self)@ == old(self)@.remove((run_id, task_id@)),
            ticket == (if old(self)@.contains_key((run_id, task_id@)) {
                Some(old(self)@[(run_id, task_id@)])
            } else {
                None
            }),
    {
        let ghost key = (run_id, task_id@);
        match self.find(run_id, task_id) {
            Some(i) => {
                let entry = self.entries.remove(i);
                proof {
                    let n = old(self).entries@.len() as int;
                    assert forall|j: int| 0 <= j < n - 1 implies #[trigger] self.key_at(j) == old(
                        self,
                    ).key_at(if j < i { j } else { j + 1 }) by {}
                    assert forall|a: int, b: int|
                        0 <= a < b < self.entries@.len() implies #[trigger] self.key_at(a)
                        != #[trigger] self.key_at(b) by {
                        let a0 = if a < i { a } else { a + 1 };
                        let b0 = if b < i { b } else { b + 1 };
                        assert(old(self).key_at(a0) != old(self).key_at(b0));
                    }
                    assert forall|k: (RunID, Seq<char>)| #[trigger]
                        self@.contains_key(k) == old(self)@.remove(key).contains_key(k) by {
                        if self@.contains_key(k) {
                            let j = choose|j: int|
                                0 <= j < self.entries@.len() && #[trigger] self.key_at(j) == k;
                            let j0 = if j < i { j } else { j + 1 };
                            assert(old(self).key_at(j0) == k);
                            if j0 < i {
                                assert(old(self).key_at(j0) != old(self).key_at(i as int));
                            } else {
                                assert(old(self).key_at(i as int) != old(self).key_at(j0));
                            }
                        }
                        if old(self)@.contains_key(k) && k != key {
                            let j0 = choose|j: int|
                                0 <= j < n && #[trigger] old(self).key_at(j) == k;
                            let j = if j0 < i { j0 } else { j0 - 1 };
                            assert(self.key_at(j) == k);
                        }
                    }
                    assert forall|k: (RunID, Seq<char>)| #[trigger]
                        self@.contains_key(k) implies self@[k] == old(self)@.remove(key)[k] by {
                        let j = choose|j: int|
                            0 <= j < self.entries@.len() && #[trigger] self.key_at(j) == k;
                        let j0 = if j < i { j } else { j + 1 };
                        assert(old(self).key_at(j0) == k);
                        self.lemma_entry(j);
                        old(self).lemma_entry(j0);
                    }
                    assert(self@ =~= old(self)@.remove(key));
                }
                Some(entry.2)
            },
            None => {
                proof {
                    assert(self@ =~= old(self)@.remove(key));
                }
                None
            },
        }
    }
}

/// Of two requests to stop one task, the second finds nothing to stop.
pub proof fn lemma_stop_once(before: RunningTasks, after: RunningTasks, key: (RunID, Seq<char>))
    requires
        after@ == before@.remove(key),
    ensures
        !after@.contains_key(key),
        after@.remove(key) == after@,
{
    assert(after@.remove(key) =~= after@);
}

} // verus!
