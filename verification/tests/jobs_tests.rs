use minish::jobs::{JobState, JobTable, ReapOutcome};

#[test]
fn background_job_lifecycle() {
    let mut t = JobTable::new();
    let id = t.insert(4200, vec![4200], b"sleep 5 &".to_vec());
    assert_eq!(id, 1);
    assert_eq!(t.jobs.len(), 1);
    assert_eq!(t.jobs[0].members, vec![4200]);
    assert_eq!(t.jobs[0].pgid, 4200);
    assert_eq!(t.jobs[0].state, JobState::Running);
    let out = t.reap(4200);
    assert_eq!(
        out,
        ReapOutcome::JobFinished {
            id: 1,
            command: b"sleep 5 &".to_vec()
        }
    );
    assert_eq!(t.jobs.len(), 0);
}

#[test]
fn reaping_an_untracked_pid_changes_nothing() {
    let mut t = JobTable::new();
    t.insert(10, vec![10], b"a".to_vec());
    let out = t.reap(999);
    assert_eq!(out, ReapOutcome::NotTracked);
    assert_eq!(t.jobs.len(), 1);
}

#[test]
fn partial_reap_keeps_the_job() {
    let mut t = JobTable::new();
    let id = t.insert(20, vec![20, 21, 22], b"a | b | c &".to_vec());
    assert_eq!(t.reap(21), ReapOutcome::MemberExited { id });
    assert_eq!(t.jobs.len(), 1);
    assert_eq!(t.jobs[0].members, vec![20, 22]);
    assert_eq!(t.reap(20), ReapOutcome::MemberExited { id });
    assert_eq!(
        t.reap(22),
        ReapOutcome::JobFinished {
            id,
            command: b"a | b | c &".to_vec()
        }
    );
    assert_eq!(t.jobs.len(), 0);
}

#[test]
fn job_ids_grow_and_are_never_reused() {
    let mut t = JobTable::new();
    let a = t.insert(1, vec![1], b"a".to_vec());
    let b = t.insert(2, vec![2], b"b".to_vec());
    assert_eq!((a, b), (1, 2));
    t.reap(1);
    let c = t.insert(3, vec![3], b"c".to_vec());
    assert_eq!(c, 3);
}

#[test]
fn set_state_moves_between_running_and_stopped() {
    let mut t = JobTable::new();
    let id = t.insert(7, vec![7], b"vi".to_vec());
    assert!(t.set_state(id, JobState::Stopped));
    assert_eq!(t.jobs[0].state, JobState::Stopped);
    assert!(t.set_state(id, JobState::Running));
    assert_eq!(t.jobs[0].state, JobState::Running);
    assert!(!t.set_state(99, JobState::Running));
}

#[test]
fn take_job_removes_by_id() {
    let mut t = JobTable::new();
    t.insert(5, vec![5], b"a".to_vec());
    let id = t.insert(6, vec![6], b"b".to_vec());
    let job = t.take_job(id).unwrap();
    assert_eq!(job.id, id);
    assert_eq!(job.pgid, 6);
    assert_eq!(t.jobs.len(), 1);
    assert_eq!(t.jobs[0].pgid, 5);
    assert!(t.take_job(42).is_none());
}
