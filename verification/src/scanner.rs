//! Scheduling a batch scan: admission of track pipelines under a bound,
//! progress, the estimate of the time left, and what a failure stops.

use vstd::prelude::*;

verus! {

/// How many track pipelines run at once where the caller has no other wish.
pub const DEFAULT_CAPACITY: usize = 4;

/// What can go wrong.
#[derive(Clone, Copy, Debug, PartialEq, Eq, Structural)]
pub enum FailureKind {
    /// A required input of the run is missing or unusable.
    Configuration,
    /// A track's audio could not be decoded.
    Decode,
    /// The conversion tool failed on a track.
    Conversion,
    /// Snippet and track fingerprints do not fit each other.
    Matching,
    /// A stored fingerprint could not be read or written.
    CacheIo,
}

/// How far a failure reaches.
#[derive(Clone, Copy, Debug, PartialEq, Eq, Structural)]
pub enum FailureScope {
    /// The run ends before any work starts.
    AbortRun,
    /// The track is skipped and the batch goes on.
    SkipTrack,
}

/// Only a configuration failure ends the run; every other failure costs one
/// track.
pub open spec fn spec_failure_scope(kind: FailureKind) -> FailureScope {
    if kind == FailureKind::Configuration {
        FailureScope::AbortRun
    } else {
        FailureScope::SkipTrack
    }
}

/// Tells how far a failure reaches.
pub fn failure_scope(kind: FailureKind) -> (scope: FailureScope)
    ensures
        scope == spec_failure_scope(kind),
{
    match kind {
        FailureKind::Configuration => FailureScope::AbortRun,
        FailureKind::Decode => FailureScope::SkipTrack,
        FailureKind::Conversion => FailureScope::SkipTrack,
        FailureKind::Matching => FailureScope::SkipTrack,
        FailureKind::CacheIo => FailureScope::SkipTrack,
    }
}

/// What became of one track.
#[derive(Clone, Copy, Debug, PartialEq, Eq, Structural)]
pub enum TrackOutcome {
    /// The snippet was found `offset_frames` into the track.
    Hit { offset_frames: i64, score: u128 },
    /// The track was scanned and does not hold the snippet.
    NoMatch,
    /// The track could not be scanned.
    Skipped { reason: FailureKind },
}

/// The outcome of a track whose pipeline ended with `result`.
pub open spec fn spec_track_outcome(result: Result<Option<(i64, u128)>, FailureKind>) -> TrackOutcome {
    match result {
        Ok(Some(hit)) => TrackOutcome::Hit { offset_frames: hit.0, score: hit.1 },
        Ok(None) => TrackOutcome::NoMatch,
        Err(reason) => TrackOutcome::Skipped { reason },
    }
}

/// Turns the end of a track's pipeline into its outcome: a failure never
/// leaves the scanner, it becomes a skipped track.
pub fn track_outcome(result: Result<Option<(i64, u128)>, FailureKind>) -> (outcome: TrackOutcome)
    ensures
        outcome == spec_track_outcome(result),
{
    match result {
        Ok(Some(hit)) => TrackOutcome::Hit { offset_frames: hit.0, score: hit.1 },
        Ok(None) => TrackOutcome::NoMatch,
        Err(reason) => TrackOutcome::Skipped { reason },
    }
}

/// A counting gate: at most `capacity` holders at a time.
pub struct AdmissionGate {
    capacity: usize,
    in_flight: usize,
}

impl AdmissionGate {
    #[verifier::type_invariant]
    spec fn inv(&self) -> bool {
        self.in_flight <= self.capacity
    }

    /// Number of slots.
    pub closed spec fn spec_capacity(&self) -> nat {
        self.capacity as nat
    }

    /// Number of slots held.
    pub closed spec fn spec_in_flight(&self) -> nat {
        self.in_flight as nat
    }

    /// A gate with `capacity` slots, all free.
    pub fn new(capacity: usize) -> (gate: AdmissionGate)
        ensures
            gate.spec_capacity() == capacity,
            gate.spec_in_flight() == 0,
    {
        AdmissionGate { capacity, in_flight: 0 }
    }

    /// Number of slots.
    pub fn capacity(&self) -> (capacity: usize)
        ensures
            capacity == self.spec_capacity(),
    {
        self.capacity
    }

    /// Number of slots held; never more than there are.
    pub fn in_flight(&self) -> (held: usize)
        ensures
            held == self.spec_in_flight(),
            held <= self.spec_capacity(),
    {
        proof {
            use_type_invariant(self);
        }
        self.in_flight
    }

    /// Takes a slot if one is free, and says whether it did.
    pub fn try_acquire(&mut self) -> (admitted: bool)
        ensures
            admitted <==> old(self).spec_in_flight() < old(self).spec_capacity(),
            final(self).spec_capacity() == old(self).spec_capacity(),
            final(self).spec_in_flight() == old(self).spec_in_flight() + if admitted {
                1nat
            } else {
                0nat
            },
            final(self).spec_in_flight() <= final(self).spec_capacity(),
    {
        proof {
            use_type_invariant(&*self);
        }
        if self.in_flight < self.capacity {
            self.in_flight = self.in_flight + 1;
            true
        } else {
            false
        }
    }

    /// Gives a slot back, and says whether one was held.
    pub fn release(&mut self) -> (released: bool)
        ensures
            released <==> old(self).spec_in_flight() > 0,
            final(self).spec_capacity() == old(self).spec_capacity(),
            final(self).spec_in_flight() == old(self).spec_in_flight() - if released {
                1int
            } else {
                0int
            },
            final(self).spec_in_flight() <= final(self).spec_capacity(),
    {
        proof {
            use_type_invariant(&*self);
        }
        if self.in_flight > 0 {
            self.in_flight = self.in_flight - 1;
            true
        } else {
            false
        }
    }
}

/// What the caller of a scan does next.
#[derive(Clone, Copy, Debug, PartialEq, Eq, Structural)]
pub enum ScanAction {
    /// Start the pipeline of the track with this number.
    Start { track: usize },
    /// Wait for a running pipeline to end, and report it.
    Wait,
    /// Every track is done.
    Finish,
}

/// The counters of a scan and its reports.
pub struct ScanState {
    /// Number of tracks to scan.
    pub total: nat,
    /// Most pipelines that may run at once.
    pub capacity: nat,
    /// Number of pipelines started.
    pub started: nat,
    /// Number of pipelines ended.
    pub completed: nat,
    /// Sum of the durations of the pipelines ended, in milliseconds.
    pub elapsed_ms: nat,
    /// The reports of the pipelines ended, oldest first.
    pub reports: Seq<TrackReport>,
}

/// Number of pipelines running.
pub open spec fn running(state: ScanState) -> int {
    state.started - state.completed
}

/// What holds of a scan at every moment: no more pipelines ended than
/// started, no more started than there are tracks, no more running than
/// there are slots, and one report for each pipeline ended.
pub open spec fn consistent(state: ScanState) -> bool {
    &&& state.capacity > 0
    &&& state.completed <= state.started <= state.total
    &&& running(state) <= state.capacity
    &&& state.reports.len() == state.completed
}

/// The action that a scan in `state` asks for.
pub open spec fn spec_next_action(state: ScanState) -> ScanAction {
    if state.started < state.total && running(state) < state.capacity {
        ScanAction::Start { track: state.started as usize }
    } else if state.completed < state.total {
        ScanAction::Wait
    } else {
        ScanAction::Finish
    }
}

/// The state after the scan was asked for its next action.
pub open spec fn after_next(state: ScanState) -> ScanState {
    if state.started < state.total && running(state) < state.capacity {
        ScanState { started: state.started + 1, ..state }
    } else {
        state
    }
}

/// The state after the pipeline of one track was reported to have ended
/// after `duration_ms` milliseconds; a report with no pipeline running
/// changes nothing.
pub open spec fn after_completion(state: ScanState, report: TrackReport, duration_ms: nat) -> ScanState {
    if running(state) > 0 {
        ScanState {
            completed: state.completed + 1,
            elapsed_ms: state.elapsed_ms + duration_ms,
            reports: state.reports.push(report),
            ..state
        }
    } else {
        state
    }
}

/// Mean duration of the pipelines ended so far, in whole milliseconds.
pub open spec fn spec_mean_ms(state: ScanState) -> Option<nat> {
    if state.completed == 0 {
        None
    } else {
        Some(state.elapsed_ms / state.completed)
    }
}

/// Estimate of the time that the tracks not yet done will take: as many
/// times the mean duration as tracks are left. None before the first
/// pipeline has ended.
pub open spec fn spec_eta_ms(state: ScanState) -> Option<nat> {
    match spec_mean_ms(state) {
        None => None,
        Some(mean) => Some((mean * (state.total - state.completed)) as nat),
    }
}

/// One step of a scan.
pub enum ScanEvent {
    /// The scan is asked for its next action.
    Next,
    /// A pipeline is reported to have ended after this many milliseconds.
    Completed { report: TrackReport, duration_ms: nat },
}

/// The state after one event.
pub open spec fn after_event(state: ScanState, event: ScanEvent) -> ScanState {
    match event {
        ScanEvent::Next => after_next(state),
        ScanEvent::Completed { report, duration_ms } => after_completion(
            state,
            report,
            duration_ms,
        ),
    }
}

/// The state after a run of events.
pub open spec fn after_events(state: ScanState, events: Seq<ScanEvent>) -> ScanState
    decreases events.len(),
{
    if events.len() == 0 {
        state
    } else {
        after_event(after_events(state, events.drop_last()), events.last())
    }
}

/// The state of a scan of `total` tracks before anything was started.
pub open spec fn initial_state(total: nat, capacity: nat) -> ScanState {
    ScanState { total, capacity, started: 0, completed: 0, elapsed_ms: 0, reports: Seq::empty() }
}

/// Whatever is asked and reported, in whatever order, a scan that began
/// with a gate of `capacity` slots never has more than `capacity` pipelines
/// running, and stays consistent.
pub proof fn lemma_never_more_than_capacity(total: nat, capacity: nat, events: Seq<ScanEvent>)
    requires
        capacity > 0,
    ensures
        consistent(after_events(initial_state(total, capacity), events)),
        running(after_events(initial_state(total, capacity), events)) <= capacity,
        after_events(initial_state(total, capacity), events).capacity == capacity,
        after_events(initial_state(total, capacity), events).total == total,
    decreases events.len(),
{
    if events.len() > 0 {
        lemma_never_more_than_capacity(total, capacity, events.drop_last());
    }
}

/// A consistent scan that asks to wait has a pipeline running, so the wait
/// ends; one that asks to finish has none left.
pub proof fn lemma_wait_has_work(state: ScanState)
    requires
        consistent(state),
    ensures
        spec_next_action(state) == ScanAction::Wait ==> running(state) > 0,
        spec_next_action(state) == ScanAction::Finish ==> running(state) == 0 && state.completed
            == state.total,
{
}

/// The outcome of one track, with the track's number.
#[derive(Clone, Copy, Debug, PartialEq, Eq, Structural)]
pub struct TrackReport {
    pub track: usize,
    pub outcome: TrackOutcome,
}

/// How far a scan has come.
#[derive(Clone, Copy, Debug, PartialEq, Eq, Structural)]
pub struct Progress {
    pub completed: usize,
    pub total: usize,
}

/// A scan of a batch of tracks: decides which pipeline starts when, and
/// keeps the reports in the order in which the pipelines ended.
pub struct BatchScan {
    total: usize,
    started: usize,
    completed: usize,
    elapsed_ms: u128,
    gate: AdmissionGate,
    reports: Vec<TrackReport>,
}

impl View for BatchScan {
    type V = ScanState;

    closed spec fn view(&self) -> ScanState {
        ScanState {
            total: self.total as nat,
            capacity: self.gate.spec_capacity(),
            started: self.started as nat,
            completed: self.completed as nat,
            elapsed_ms: self.elapsed_ms as nat,
            reports: self.reports@,
        }
    }
}

impl BatchScan {
    /// What holds of every scan that `new` made and the methods changed:
    /// it is consistent, one slot is taken for each pipeline running, and
    /// the durations add up to no more than 64 bits hold for each.
    pub closed spec fn wf(&self) -> bool {
        &&& consistent(self@)
        &&& self.gate.spec_in_flight() == running(self@)
        &&& self.elapsed_ms <= self.completed * u64::MAX
    }

    /// Sets up the scan of `total` tracks with at most `capacity` pipelines
    /// at once. A gate without slots would never let a track in: that is a
    /// configuration failure.
    pub fn new(total: usize, capacity: usize) -> (made: Result<BatchScan, FailureKind>)
        ensures
            capacity == 0 <==> made is Err,
            made matches Err(kind) ==> kind == FailureKind::Configuration,
            made matches Ok(scan) ==> scan.wf() && scan@ == initial_state(total as nat, capacity as nat),
    {
        if capacity == 0 {
            return Err(FailureKind::Configuration);
        }
        Ok(
            BatchScan {
                total,
                started: 0,
                completed: 0,
                elapsed_ms: 0,
                gate: AdmissionGate::new(capacity),
                reports: Vec::new(),
            },
        )
    }

    /// Says what to do next. A track is started as soon as one is left and a
    /// slot is free; its slot is taken by this call.
    pub fn next_action(&mut self) -> (action: ScanAction)
        requires
            old(self).wf(),
        ensures
            final(self).wf(),
            action == spec_next_action(old(self)@),
            final(self)@ == after_next(old(self)@),
    {
        if self.started < self.total && self.gate.try_acquire() {
            let track = self.started;
            self.started = self.started + 1;
            ScanAction::Start { track }
        } else if self.completed < self.total {
            ScanAction::Wait
        } else {
            ScanAction::Finish
        }
    }

    /// Takes the report of a pipeline that ended after `duration_ms`
    /// milliseconds, frees its slot, and says whether a pipeline was running
    /// at all; if none was, nothing changes.
    pub fn complete(&mut self, track: usize, outcome: TrackOutcome, duration_ms: u64) -> (taken: bool)
        requires
            old(self).wf(),
        ensures
            final(self).wf(),
            taken <==> running(old(self)@) > 0,
            final(self)@ == after_completion(
                old(self)@,
                (TrackReport { track, outcome }),
                duration_ms as nat,
            ),
    {
        if !self.gate.release() {
            return false;
        }
        proof {
            assert((self.completed + 1) * u64::MAX == self.completed * u64::MAX + u64::MAX)
                by (nonlinear_arith);
            assert(self.completed * u64::MAX <= usize::MAX * u64::MAX) by (nonlinear_arith)
                requires
                    self.completed <= usize::MAX,
            ;
            assert(usize::MAX * u64::MAX <= 0xffff_ffff_ffff_ffff * 0xffff_ffff_ffff_ffff)
                by (nonlinear_arith)
                requires
                    usize::MAX <= 0xffff_ffff_ffff_ffff,
                    u64::MAX == 0xffff_ffff_ffff_ffff,
            ;
        }
        self.completed = self.completed + 1;
        self.elapsed_ms = self.elapsed_ms + duration_ms as u128;
        self.reports.push(TrackReport { track, outcome });
        true
    }

    /// How many tracks are done, of how many.
    pub fn progress(&self) -> (progress: Progress)
        requires
            self.wf(),
        ensures
            progress.completed == self@.completed,
            progress.total == self@.total,
            progress.completed <= progress.total,
    {
        Progress { completed: self.completed, total: self.total }
    }

    /// How many pipelines are running; never more than there are slots.
    pub fn in_flight(&self) -> (count: usize)
        requires
            self.wf(),
        ensures
            count == running(self@),
            count <= self@.capacity,
    {
        self.gate.in_flight()
    }

    /// Mean duration of the pipelines ended so far, in milliseconds.
    pub fn mean_ms(&self) -> (mean: Option<u64>)
        requires
            self.wf(),
        ensures
            mean is None <==> spec_mean_ms(self@) is None,
            mean matches Some(ms) ==> spec_mean_ms(self@) == Some(ms as nat),
    {
        if self.completed == 0 {
            None
        } else {
            let mean = self.elapsed_ms / (self.completed as u128);
            proof {
                assert(self.elapsed_ms / (self.completed as u128) <= u64::MAX) by (nonlinear_arith)
                    requires
                        self.completed > 0,
                        self.elapsed_ms <= self.completed * u64::MAX,
                ;
            }
            Some(mean as u64)
        }
    }

    /// Estimate of the time left, in milliseconds.
    pub fn eta_ms(&self) -> (eta: Option<u128>)
        requires
            self.wf(),
        ensures
            eta is None <==> spec_eta_ms(self@) is None,
            eta matches Some(ms) ==> spec_eta_ms(self@) == Some(ms as nat),
    {
        match self.mean_ms() {
            None => None,
            Some(mean) => {
                let left = self.total - self.completed;
                proof {
                    assert(mean * left <= 0xffff_ffff_ffff_ffff * 0xffff_ffff_ffff_ffff)
                        by (nonlinear_arith)
                        requires
                            0 <= mean <= 0xffff_ffff_ffff_ffff,
                            0 <= left <= 0xffff_ffff_ffff_ffff,
                    ;
                }
                Some((mean as u128) * (left as u128))
            },
        }
    }

    /// The reports made so far, oldest first.
    pub fn reports(&self) -> (reports: &Vec<TrackReport>)
        ensures
            reports@ == self@.reports,
    {
        &self.reports
    }
}

} // verus!
