use phantasy::scanner::{
    failure_scope, track_outcome, AdmissionGate, BatchScan, FailureKind, FailureScope, Progress,
    ScanAction, TrackOutcome, TrackReport, DEFAULT_CAPACITY,
};

fn scan_of(total: usize, capacity: usize) -> BatchScan {
    match BatchScan::new(total, capacity) {
        Ok(scan) => scan,
        Err(kind) => panic!("refused: {:?}", kind),
    }
}

#[test]
fn four_pipelines_run_at_once_by_default() {
    assert_eq!(DEFAULT_CAPACITY, 4);
}

#[test]
fn only_a_configuration_failure_aborts_the_run() {
    assert_eq!(failure_scope(FailureKind::Configuration), FailureScope::AbortRun);
    assert_eq!(failure_scope(FailureKind::Decode), FailureScope::SkipTrack);
    assert_eq!(failure_scope(FailureKind::Conversion), FailureScope::SkipTrack);
    assert_eq!(failure_scope(FailureKind::Matching), FailureScope::SkipTrack);
    assert_eq!(failure_scope(FailureKind::CacheIo), FailureScope::SkipTrack);
}

#[test]
fn a_pipeline_ends_in_a_hit_a_miss_or_a_skip() {
    assert_eq!(
        track_outcome(Ok(Some((469, 12)))),
        TrackOutcome::Hit { offset_frames: 469, score: 12 }
    );
    assert_eq!(track_outcome(Ok(None)), TrackOutcome::NoMatch);
    assert_eq!(
        track_outcome(Err(FailureKind::Decode)),
        TrackOutcome::Skipped { reason: FailureKind::Decode }
    );
    assert_eq!(
        track_outcome(Err(FailureKind::CacheIo)),
        TrackOutcome::Skipped { reason: FailureKind::CacheIo }
    );
}

#[test]
fn the_gate_admits_up_to_its_capacity() {
    let mut gate = AdmissionGate::new(2);
    assert_eq!(gate.capacity(), 2);
    assert_eq!(gate.in_flight(), 0);
    assert!(gate.try_acquire());
    assert!(gate.try_acquire());
    assert_eq!(gate.in_flight(), 2);
    assert!(!gate.try_acquire());
    assert_eq!(gate.in_flight(), 2);
    assert!(gate.release());
    assert_eq!(gate.in_flight(), 1);
    assert!(gate.try_acquire());
    assert!(!gate.try_acquire());
    assert!(gate.release());
    assert!(gate.release());
    assert!(!gate.release());
    assert_eq!(gate.in_flight(), 0);
    assert_eq!(gate.capacity(), 2);
}

#[test]
fn a_gate_without_slots_admits_nothing() {
    let mut gate = AdmissionGate::new(0);
    assert!(!gate.try_acquire());
    assert!(!gate.release());
    assert_eq!(gate.in_flight(), 0);
}

#[test]
fn a_scan_needs_a_slot() {
    assert_eq!(BatchScan::new(10, 0).err(), Some(FailureKind::Configuration));
    assert_eq!(BatchScan::new(0, 0).err(), Some(FailureKind::Configuration));
    assert!(BatchScan::new(10, 1).is_ok());
}

#[test]
fn never_more_pipelines_than_the_gate_allows() {
    let mut scan = scan_of(10, 4);
    let mut running: Vec<usize> = Vec::new();
    let mut started = 0;
    let mut finished = 0;
    let mut steps = 0;
    loop {
        steps += 1;
        assert!(steps < 1000);
        match scan.next_action() {
            ScanAction::Start { track } => {
                assert_eq!(track, started);
                started += 1;
                running.push(track);
            }
            ScanAction::Wait => {
                assert!(!running.is_empty());
                assert!(running.len() == 4 || started == 10);
                let track = running.remove(0);
                assert!(scan.complete(track, TrackOutcome::NoMatch, 10));
                finished += 1;
            }
            ScanAction::Finish => break,
        }
        assert!(scan.in_flight() <= 4);
        assert_eq!(scan.in_flight(), running.len());
        assert_eq!(scan.progress(), Progress { completed: finished, total: 10 });
    }
    assert_eq!(started, 10);
    assert_eq!(finished, 10);
    assert_eq!(scan.in_flight(), 0);
    assert_eq!(scan.reports().len(), 10);
}

#[test]
fn the_first_actions_fill_the_gate() {
    let mut scan = scan_of(6, 4);
    assert_eq!(scan.next_action(), ScanAction::Start { track: 0 });
    assert_eq!(scan.next_action(), ScanAction::Start { track: 1 });
    assert_eq!(scan.next_action(), ScanAction::Start { track: 2 });
    assert_eq!(scan.next_action(), ScanAction::Start { track: 3 });
    assert_eq!(scan.next_action(), ScanAction::Wait);
    assert_eq!(scan.next_action(), ScanAction::Wait);
    assert_eq!(scan.in_flight(), 4);
    assert!(scan.complete(2, TrackOutcome::NoMatch, 5));
    assert_eq!(scan.in_flight(), 3);
    assert_eq!(scan.next_action(), ScanAction::Start { track: 4 });
    assert_eq!(scan.next_action(), ScanAction::Wait);
}

#[test]
fn a_scan_of_nothing_finishes_at_once() {
    let mut scan = scan_of(0, 4);
    assert_eq!(scan.next_action(), ScanAction::Finish);
    assert_eq!(scan.progress(), Progress { completed: 0, total: 0 });
    assert_eq!(scan.eta_ms(), None);
}

#[test]
fn fewer_tracks_than_slots() {
    let mut scan = scan_of(2, 4);
    assert_eq!(scan.next_action(), ScanAction::Start { track: 0 });
    assert_eq!(scan.next_action(), ScanAction::Start { track: 1 });
    assert_eq!(scan.next_action(), ScanAction::Wait);
    assert!(scan.complete(1, TrackOutcome::NoMatch, 1));
    assert_eq!(scan.next_action(), ScanAction::Wait);
    assert!(scan.complete(0, TrackOutcome::NoMatch, 1));
    assert_eq!(scan.next_action(), ScanAction::Finish);
    assert_eq!(scan.next_action(), ScanAction::Finish);
}

#[test]
fn a_report_without_a_running_pipeline_is_not_taken() {
    let mut scan = scan_of(3, 2);
    assert!(!scan.complete(0, TrackOutcome::NoMatch, 100));
    assert_eq!(scan.progress(), Progress { completed: 0, total: 3 });
    assert_eq!(scan.reports().len(), 0);
    assert_eq!(scan.mean_ms(), None);
    assert_eq!(scan.next_action(), ScanAction::Start { track: 0 });
    assert!(scan.complete(0, TrackOutcome::NoMatch, 100));
    assert!(!scan.complete(0, TrackOutcome::NoMatch, 100));
    assert_eq!(scan.progress(), Progress { completed: 1, total: 3 });
}

#[test]
fn the_estimate_is_the_mean_duration_times_the_tracks_left() {
    let mut scan = scan_of(6, 4);
    assert_eq!(scan.mean_ms(), None);
    assert_eq!(scan.eta_ms(), None);
    for _ in 0..4 {
        scan.next_action();
    }
    assert!(scan.complete(0, TrackOutcome::NoMatch, 100));
    assert_eq!(scan.mean_ms(), Some(100));
    assert_eq!(scan.eta_ms(), Some(500));
    assert!(scan.complete(1, TrackOutcome::NoMatch, 301));
    // 401 ms over two tracks: 200 ms each, rounded down; four tracks left
    assert_eq!(scan.mean_ms(), Some(200));
    assert_eq!(scan.eta_ms(), Some(800));
}

#[test]
fn the_estimate_holds_the_longest_durations() {
    let mut scan = scan_of(3, 2);
    scan.next_action();
    scan.next_action();
    assert!(scan.complete(0, TrackOutcome::NoMatch, u64::MAX));
    assert!(scan.complete(1, TrackOutcome::NoMatch, u64::MAX));
    assert_eq!(scan.mean_ms(), Some(u64::MAX));
    assert_eq!(scan.eta_ms(), Some(u64::MAX as u128));
}

#[test]
fn reports_are_kept_in_the_order_of_completion() {
    let mut scan = scan_of(3, 3);
    scan.next_action();
    scan.next_action();
    scan.next_action();
    let hit = TrackOutcome::Hit { offset_frames: 469, score: 40 };
    let skipped = TrackOutcome::Skipped { reason: FailureKind::Decode };
    assert!(scan.complete(2, hit, 30));
    assert!(scan.complete(0, skipped, 10));
    assert!(scan.complete(1, TrackOutcome::NoMatch, 20));
    assert_eq!(
        scan.reports(),
        &vec![
            TrackReport { track: 2, outcome: hit },
            TrackReport { track: 0, outcome: skipped },
            TrackReport { track: 1, outcome: TrackOutcome::NoMatch },
        ]
    );
    assert_eq!(scan.next_action(), ScanAction::Finish);
    assert_eq!(scan.eta_ms(), Some(0));
}
