use nshell::execute::{
    announce_job, describe_job, is_stopped, select_job, status_code, stop_status, Executor, Job,
    Wait,
};

fn job(id: usize, pids: Vec<i32>) -> Job {
    Job {
        id,
        command: format!("sleep {id}"),
        pids,
        pgid: 100 + id as i32,
        stopped: false,
        last_pid: 1,
    }
}

#[test]
fn wait_statuses_decode() {
    assert_eq!(status_code(0), 0);
    assert_eq!(status_code(3 << 8), 3);
    assert_eq!(status_code(9), 137);
    assert!(is_stopped(0x137f));
    assert!(!is_stopped(0));
    assert_eq!(stop_status(0x137f), 128 + 0x13);
}

#[test]
fn jobs_are_selected_by_id_or_latest() {
    let jobs = vec![job(1, vec![10]), job(3, vec![11])];
    assert_eq!(select_job(&jobs, None), Some(1));
    assert_eq!(select_job(&jobs, Some(1)), Some(0));
    assert_eq!(select_job(&jobs, Some(2)), None);
    assert_eq!(select_job(&Vec::new(), None), None);
}

#[test]
fn finished_jobs_are_swept_with_a_line_each() {
    let mut executor = Executor::with_group(1, false);
    assert_eq!(executor.add_job("sleep 1".to_string(), vec![5], 5, 5, false), 1);
    assert_eq!(executor.add_job("sleep 2".to_string(), vec![6], 6, 6, true), 2);
    executor.jobs[0].note_status(5, 0);
    let lines = executor.sweep();
    assert_eq!(lines, vec!["[1] Done\tsleep 1".to_string()]);
    assert_eq!(executor.jobs.len(), 1);
    assert_eq!(describe_job(&executor.jobs[0]), "[2] Stopped\tsleep 2");
    assert_eq!(announce_job(3, 42, true), "[3] Stopped\t42");
    assert_eq!(announce_job(3, 42, false), "[3] 42");
}

#[test]
fn waiting_ends_with_the_last_status_or_a_stop() {
    let mut wait = Wait {
        pids: vec![1, 2],
        last_pid: 2,
        status: 0,
        stopped: false,
    };
    assert!(!wait.observe(1, 1 << 8));
    assert_eq!(wait.status, 0);
    assert!(wait.observe(2, 7 << 8));
    assert_eq!(wait.status, 7);
    let mut stopped = Wait {
        pids: vec![3],
        last_pid: 3,
        status: 0,
        stopped: false,
    };
    assert!(stopped.observe(3, 0x147f));
    assert!(stopped.stopped);
    assert_eq!(stopped.status, 128 + 0x14);
    assert!(!stopped.observe_error(4));
    assert!(stopped.observe_error(1));
    assert_eq!(stopped.status, 1);
}

#[test]
fn job_ids_rise_and_survive_a_sweep() {
    let mut executor = Executor::with_group(50, false);
    assert_eq!(executor.add_job("sleep 1".to_string(), vec![11], 11, 11, false), 1);
    assert_eq!(executor.add_job("sleep 2".to_string(), vec![12], 12, 12, false), 2);
    assert_eq!(executor.add_job("sleep 3".to_string(), vec![13], 13, 13, true), 3);
    executor.jobs[1].pids.clear();
    let done = executor.sweep();
    assert_eq!(done, vec!["[2] Done\tsleep 2".to_string()]);
    let ids: Vec<usize> = executor.jobs.iter().map(|job| job.id).collect();
    assert_eq!(ids, vec![1, 3]);
    assert_eq!(select_job(&executor.jobs, Some(3)), Some(1));
    assert_eq!(select_job(&executor.jobs, Some(2)), None);
    assert_eq!(executor.add_job("sleep 4".to_string(), vec![14], 14, 14, false), 4);
}
