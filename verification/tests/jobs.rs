use wavalyze::demo::{DemoTimedSummary, demo_summary};
use wavalyze::jobs::{
    FinishedJob, JobCompletionEvent, JobEvent, JobFailureEvent, JobKind, JobManager, JobProgressEvent, JobStatus,
    RECENT_FINISHED_CAP,
};

/// What a worker reports as progress.
#[derive(Debug, Clone, PartialEq)]
struct JobProgress {
    stage_name: String,
    stage_current: u64,
    stage_total: u64,
    overall_fraction: f32,
}

fn starting() -> JobProgress {
    JobProgress { stage_name: "starting".to_string(), stage_current: 0, stage_total: 0, overall_fraction: 0.0 }
}

#[derive(Debug, Clone, PartialEq)]
enum JobProgressData {
    Units { current: u64, total: u64 },
}

#[test]
fn mod_job_manager_tracks_progress_and_completion() {
    let mut manager = JobManager::new();
    let job_id = manager.start_job(JobKind::DemoTimed, "demo".to_string(), starting());
    assert!(manager.apply_event(JobEvent::Progress(JobProgressEvent {
        job_id,
        progress: JobProgress {
            stage_name: "working".to_string(),
            stage_current: 1,
            stage_total: 3,
            overall_fraction: 1.0 / 3.0,
        },
        message: Some("hello".to_string()),
    })));
    let job = manager.primary_job().unwrap();
    assert_eq!(job.status, JobStatus::Running);
    assert_eq!(job.progress.stage_current, 1);

    assert!(manager.apply_event(JobEvent::Completed(JobCompletionEvent {
        job_id,
        summary: "demo done".to_string(),
    })));
    assert_eq!(manager.pending(), 0);
    let finished: Vec<_> = manager.recent_finished();
    assert_eq!(finished.len(), 1);
    assert_eq!(finished[0].status, JobStatus::Completed);
    assert_eq!(finished[0].summary, "demo done");
}

#[test]
fn jobs_job_manager_tracks_progress_and_completion() {
    let mut manager = JobManager::new();
    let job_id = manager.start_job(JobKind::DemoTimed, "demo".to_string(), JobProgressData::Units { current: 0, total: 0 });
    assert!(manager.apply_event(JobEvent::Progress(JobProgressEvent {
        job_id,
        progress: JobProgressData::Units { current: 1, total: 3 },
        message: Some("hello".to_string()),
    })));
    let job = manager.primary_job().unwrap();
    assert_eq!(job.status, JobStatus::Running);
    assert_eq!(job.progress, JobProgressData::Units { current: 1, total: 3 });

    let summary = demo_summary(&DemoTimedSummary { stage_count: 3, checksum: 42 });
    assert!(manager.apply_event(JobEvent::Completed(JobCompletionEvent { job_id, summary })));
    assert_eq!(manager.pending(), 0);
    assert_eq!(manager.recent_finished().len(), 1);
    assert_eq!(manager.recent_finished()[0].summary, "3 stages complete, checksum 42");
}

#[test]
fn job_ids_start_at_one_and_increase() {
    let mut manager: JobManager<u8> = JobManager::default();
    assert_eq!(manager.next_job_id(), 1);
    let a = manager.start_job(JobKind::LoadWav, "a".to_string(), 0);
    let b = manager.start_job(JobKind::DemoTimed, "b".to_string(), 0);
    assert_eq!((a, b), (1, 2));
    assert_eq!(manager.pending(), 2);
    assert_eq!(manager.primary_job().unwrap().job_id, 1);
    let job = manager.job(b).unwrap();
    assert_eq!(job.label, "b");
    assert_eq!(job.kind, JobKind::DemoTimed);
    assert_eq!(job.message, None);
}

#[test]
fn events_for_unknown_jobs_change_nothing() {
    let mut manager: JobManager<u8> = JobManager::new();
    let id = manager.start_job(JobKind::LoadWav, "a".to_string(), 0);
    assert!(!manager.apply_event(JobEvent::Progress(JobProgressEvent { job_id: id + 5, progress: 9, message: None })));
    assert!(!manager.apply_event(JobEvent::Failed(JobFailureEvent { job_id: id + 5, error: "x".to_string() })));
    assert_eq!(manager.pending(), 1);
    assert_eq!(manager.job(id).unwrap().progress, 0);
    assert!(manager.recent_finished().is_empty());
}

#[test]
fn failures_are_recorded_with_their_error() {
    let mut manager: JobManager<u8> = JobManager::new();
    let id = manager.start_job(JobKind::LoadWav, "load".to_string(), 0);
    assert!(manager.apply_event(JobEvent::Failed(JobFailureEvent { job_id: id, error: "bad header".to_string() })));
    let finished = manager.recent_finished();
    assert_eq!(
        *finished[0],
        FinishedJob {
            job_id: id,
            kind: JobKind::LoadWav,
            label: "load".to_string(),
            status: JobStatus::Failed,
            summary: "bad header".to_string(),
        }
    );
    assert!(manager.job(id).is_none());
}

#[test]
fn recency_ring_keeps_the_latest_twelve_newest_first() {
    let mut manager: JobManager<u8> = JobManager::new();
    for n in 0..20u64 {
        let id = manager.start_job(JobKind::DemoTimed, format!("job {n}"), 0);
        manager.apply_event(JobEvent::Completed(JobCompletionEvent { job_id: id, summary: format!("done {n}") }));
    }
    let finished = manager.recent_finished();
    assert_eq!(finished.len(), RECENT_FINISHED_CAP);
    assert_eq!(finished[0].summary, "done 19");
    assert_eq!(finished[RECENT_FINISHED_CAP - 1].summary, "done 8");
}

#[test]
fn in_flight_jobs_are_listed_in_start_order() {
    let mut manager: JobManager<u8> = JobManager::new();
    let a = manager.start_job(JobKind::DemoTimed, "a".to_string(), 0);
    let b = manager.start_job(JobKind::LoadWav, "b".to_string(), 0);
    let c = manager.start_job(JobKind::DemoTimed, "c".to_string(), 0);
    manager.apply_event(JobEvent::Completed(JobCompletionEvent { job_id: b, summary: String::new() }));
    let ids: Vec<u64> = manager.jobs().iter().map(|job| job.job_id).collect();
    assert_eq!(ids, vec![a, c]);
}
