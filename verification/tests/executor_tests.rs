use daggyr::executors::noop_executor::{local_attempt, local_steps};
use daggyr::messages::{Request, Step};
use daggyr::executors::slurm_executor::{
    after_poll, classify, cluster_steps, decimal_text, default_cpus, default_min_memory_mb, default_min_tmp_disk_mb,
    default_priority, default_time_limit_seconds, exit_code_of, job_url, join, killed_after,
    log_path, lost_attempt, rejected_attempt, request_for, slurp_if_exists, submission_result,
    submit_url, terminal_attempt, JobEvent, JobOutcome, JobRequest, RunningTasks, SlurmSubmitJob,
    SlurmTaskDetail, WatchStep,
};
use daggyr::storage::{is_outstanding, migrations_to_undo};
use daggyr::structs::TaskAttempt;

fn detail() -> SlurmTaskDetail {
    SlurmTaskDetail {
        user: "ann".to_string(),
        jwt_token: "not-a-token".to_string(),
        min_cpus: default_cpus(),
        min_memory_mb: default_min_memory_mb(),
        min_tmp_disk_mb: default_min_tmp_disk_mb(),
        priority: default_priority(),
        time_limit_seconds: default_time_limit_seconds(),
        command: vec!["/usr/bin/echo".to_string(), "hello".to_string(), "$MYVAR".to_string()],
        environment: vec![("MYVAR".to_string(), "fancy_pants".to_string())],
        logdir: "/tmp".to_string(),
    }
}

#[test]
fn defaults() {
    assert_eq!(default_cpus(), 1);
    assert_eq!(default_min_memory_mb(), 200);
    assert_eq!(default_min_tmp_disk_mb(), 0);
    assert_eq!(default_priority(), 1);
    assert_eq!(default_time_limit_seconds(), 3600);
}

#[test]
fn blank_attempt() {
    let a = TaskAttempt::new(17);
    assert!(!a.succeeded);
    assert_eq!(a.output, "");
    assert_eq!(a.error, "");
    assert!(a.executor.is_empty());
    assert_eq!(a.exit_code, 0);
    assert!(!a.killed);
    assert_eq!(a.start_time, 17);
}

#[test]
fn local_executor_reports_success() {
    let a = local_attempt(5);
    assert!(a.succeeded);
    assert_eq!(a.exit_code, 0);
    assert_eq!(a.start_time, 5);
    assert!(a.executor.is_empty());
}

#[test]
fn submission_document() {
    let job = SlurmSubmitJob::new("test_task".to_string(), &detail());
    assert_eq!(job.script, "#!/bin/bash\n/usr/bin/echo hello $MYVAR\n");
    assert_eq!(job.job.name, "test_task");
    assert_eq!(job.job.nodes, 1);
    assert_eq!(job.job.standard_output, "/tmp/test_task.stdout");
    assert_eq!(job.job.standard_error, "/tmp/test_task.stderr");
    assert_eq!(
        job.job.environment,
        vec![
            ("MYVAR".to_string(), "fancy_pants".to_string()),
            ("DAGGY_TASK_NAME".to_string(), "test_task".to_string()),
        ]
    );
}

#[test]
fn submission_document_without_command_or_environment() {
    let mut d = detail();
    d.command = Vec::new();
    d.environment = Vec::new();
    let job = SlurmSubmitJob::new("t".to_string(), &d);
    assert_eq!(job.script, "#!/bin/bash\n\n");
    assert_eq!(
        job.job.environment,
        vec![("DAGGY_TASK_NAME".to_string(), "t".to_string())]
    );
}

#[test]
fn joining() {
    assert_eq!(join(&Vec::new(), ", "), "");
    assert_eq!(join(&vec!["a".to_string()], ", "), "a");
    assert_eq!(join(&vec!["a".to_string(), "b".to_string(), "c".to_string()], ", "), "a, b, c");
    assert_eq!(log_path("/var/log", "t1", ".stderr"), "/var/log/t1.stderr");
}

#[test]
fn addresses() {
    assert_eq!(submit_url("http://localhost:6820/slurm/v0.0.36"), "http://localhost:6820/slurm/v0.0.36/job/submit");
    assert_eq!(job_url("http://h", 42), "http://h/job/42");
    assert_eq!(job_url("http://h", 0), "http://h/job/0");
}

#[test]
fn submission_answers() {
    assert_eq!(submission_result(200, Some(77), &Vec::new()), Ok(77));
    assert_eq!(
        submission_result(500, None, &vec!["no such user".to_string(), "bad token".to_string()]),
        Err("no such user\nbad token".to_string())
    );
    assert_eq!(submission_result(404, Some(3), &Vec::new()), Err(String::new()));
    let a = rejected_attempt("no such user\nbad token".to_string(), 9);
    assert!(!a.succeeded);
    assert_eq!(a.executor, vec!["no such user\nbad token".to_string()]);
    assert_eq!(a.start_time, 9);
}

#[test]
fn log_text() {
    assert_eq!(slurp_if_exists("/tmp/x.stdout".to_string(), Some("hello\n".to_string())), "hello\n");
    assert_eq!(slurp_if_exists("/tmp/x.stdout".to_string(), None), "/tmp/x.stdout");
}

#[test]
fn watcher_requests() {
    assert_eq!(request_for(JobEvent::Kill), JobRequest::Delete);
    assert_eq!(request_for(JobEvent::Timeout), JobRequest::Poll);
    assert!(killed_after(false, Some(200)));
    assert!(!killed_after(false, Some(500)));
    assert!(killed_after(true, Some(500)));
    // a request that did not reach the scheduler changes nothing
    assert!(!killed_after(false, None));
    assert!(killed_after(true, None));
}

#[test]
fn state_names() {
    assert_eq!(classify("COMPLETED"), JobOutcome::Succeeded);
    for s in ["FAILED", "CANCELLED", "TIMEOUT", "OOM"] {
        assert_eq!(classify(s), JobOutcome::Failed);
    }
    for s in ["NODE_FAIL", "PREEMPTED", "BOOT_FAIL", "DEADLINE"] {
        assert_eq!(classify(s), JobOutcome::ClusterFault);
    }
    for s in ["PENDING", "SUSPENDED", "RUNNING", "", "completed"] {
        assert_eq!(classify(s), JobOutcome::Unfinished);
    }
}

#[test]
fn steps_after_a_poll() {
    assert_eq!(after_poll(Some(500), Some("COMPLETED")), WatchStep::GiveUp);
    assert_eq!(after_poll(Some(200), Some("RUNNING")), WatchStep::KeepWatching);
    assert_eq!(after_poll(Some(200), Some("COMPLETED")), WatchStep::Finish(JobOutcome::Succeeded));
    assert_eq!(after_poll(Some(200), Some("OOM")), WatchStep::Finish(JobOutcome::Failed));
    assert_eq!(after_poll(Some(200), Some("NODE_FAIL")), WatchStep::Finish(JobOutcome::ClusterFault));
    // the scheduler could not be reached, or its answer names no state
    assert_eq!(after_poll(None, None), WatchStep::GiveUp);
    assert_eq!(after_poll(None, Some("COMPLETED")), WatchStep::GiveUp);
    assert_eq!(after_poll(Some(200), None), WatchStep::GiveUp);
}

#[test]
fn exit_codes() {
    assert_eq!(exit_code_of(0), 0);
    assert_eq!(exit_code_of(2), 2);
    assert_eq!(exit_code_of(-7), -7);
    assert_eq!(exit_code_of(2147483647), 2147483647);
    assert_eq!(exit_code_of(-2147483648), -2147483648);
    assert_eq!(exit_code_of(2147483648), -1);
    assert_eq!(exit_code_of(-2147483649), -1);
}

#[test]
fn cluster_terminal_mapping() {
    // the poll answered: job_state FAILED, exit_code 2, and the two log paths
    let state = "FAILED";
    let step = after_poll(Some(200), Some(state));
    assert_eq!(step, WatchStep::Finish(JobOutcome::Failed));
    let out = slurp_if_exists("/tmp/x.stdout".to_string(), None);
    let err = slurp_if_exists("/tmp/x.stderr".to_string(), Some("boom\n".to_string()));
    let a = terminal_attempt(JobOutcome::Failed, state, 2, out, err, false, 11);
    assert!(!a.succeeded);
    assert_eq!(a.exit_code, 2);
    assert_eq!(a.output, "/tmp/x.stdout");
    assert_eq!(a.error, "boom\n");
    assert!(!a.killed);
    assert!(a.executor.is_empty());
    assert_eq!(a.start_time, 11);
}

#[test]
fn terminal_reports() {
    let a = terminal_attempt(JobOutcome::Succeeded, "COMPLETED", 0, "o".to_string(), "e".to_string(), true, 1);
    assert!(a.succeeded);
    assert!(a.killed);
    let a = terminal_attempt(JobOutcome::ClusterFault, "NODE_FAIL", 1 << 40, String::new(), String::new(), false, 1);
    assert!(!a.succeeded);
    assert_eq!(a.exit_code, -1);
    assert_eq!(a.executor, vec!["Job failed due to potential cluster issue: NODE_FAIL".to_string()]);
}

#[test]
fn lost_job_report() {
    let a = lost_attempt(31, "test_task", 4);
    assert!(!a.succeeded);
    assert_eq!(
        a.executor,
        vec!["Unable to query job status, assuming critical failure. Investigate job id 31, task name test_task in slurm for more details".to_string()]
    );
}

#[test]
fn a_task_is_stopped_once() {
    let mut tasks = RunningTasks::new();
    tasks.insert(0, "a".to_string(), 10);
    tasks.insert(0, "b".to_string(), 11);
    tasks.insert(1, "a".to_string(), 12);
    assert_eq!(tasks.take(0, &"a".to_string()), Some(10));
    assert_eq!(tasks.take(0, &"a".to_string()), None);
    assert_eq!(tasks.take(1, &"a".to_string()), Some(12));
    assert_eq!(tasks.take(2, &"a".to_string()), None);
    tasks.insert(0, "b".to_string(), 13);
    assert_eq!(tasks.take(0, &"b".to_string()), Some(13));
    assert_eq!(tasks.take(0, &"b".to_string()), None);
}

#[test]
fn migration_plans() {
    assert_eq!(migrations_to_undo(-1, 4), 0);
    assert_eq!(migrations_to_undo(0, 4), 1);
    assert_eq!(migrations_to_undo(3, 4), 4);
    assert_eq!(migrations_to_undo(9, 4), 4);
    assert!(is_outstanding(0, -1));
    assert!(!is_outstanding(2, 2));
    assert!(is_outstanding(3, 2));
    assert!(is_outstanding(usize::MAX, i32::MAX));
    assert!(!is_outstanding(2147483647, i32::MAX));
}

#[test]
fn decimal_numerals() {
    assert_eq!(decimal_text(0), "0");
    assert_eq!(decimal_text(7), "7");
    assert_eq!(decimal_text(10), "10");
    assert_eq!(decimal_text(9051), "9051");
    assert_eq!(decimal_text(u64::MAX), "18446744073709551615");
}

#[test]
fn details_with_defaults() {
    let d = SlurmTaskDetail::new(
        "ann".to_string(),
        "not-a-token".to_string(),
        vec!["sleep".to_string(), "1800".to_string()],
        "/tmp".to_string(),
    );
    assert_eq!(d.min_cpus, 1);
    assert_eq!(d.min_memory_mb, 200);
    assert_eq!(d.min_tmp_disk_mb, 0);
    assert_eq!(d.priority, 1);
    assert_eq!(d.time_limit_seconds, 3600);
    assert!(d.environment.is_empty());
    let job = SlurmSubmitJob::new("test_task".to_string(), &d);
    assert_eq!(job.script, "#!/bin/bash\nsleep 1800\n");
}

#[test]
fn task_name_overrides_an_entry_of_the_same_name() {
    let mut d = detail();
    d.environment.push(("DAGGY_TASK_NAME".to_string(), "other".to_string()));
    let job = SlurmSubmitJob::new("t".to_string(), &d);
    let last = job.job.environment.last().unwrap();
    assert_eq!(last, &("DAGGY_TASK_NAME".to_string(), "t".to_string()));
}

#[test]
fn local_executor_runs_a_task_with_one_notice_and_one_report() {
    assert_eq!(local_steps(Request::ExecuteTask), vec![Step::TrackRunning, Step::Report]);
    assert_eq!(local_steps(Request::ValidateTask), vec![Step::ReplyValidation]);
    assert_eq!(local_steps(Request::ExpandTaskDetails), vec![Step::ReplyExpansion]);
    assert_eq!(local_steps(Request::StopTask), Vec::new());
    assert_eq!(local_steps(Request::Stop), vec![Step::Halt]);
}

#[test]
fn cluster_executor_steps() {
    assert_eq!(
        cluster_steps(Request::ExecuteTask, true, false),
        vec![Step::Watch, Step::TrackRunning, Step::Register]
    );
    assert_eq!(cluster_steps(Request::ExecuteTask, false, false), vec![Step::Report]);
    assert_eq!(cluster_steps(Request::StopTask, false, true), vec![Step::Kill, Step::Acknowledge]);
    assert_eq!(cluster_steps(Request::StopTask, false, false), vec![Step::Acknowledge]);
    assert_eq!(cluster_steps(Request::Stop, true, true), vec![Step::Halt]);
    assert_eq!(cluster_steps(Request::ValidateTask, false, false), vec![Step::ReplyValidation]);
    assert_eq!(cluster_steps(Request::ExpandTaskDetails, false, false), vec![Step::ReplyExpansion]);
}
