//! The decisions of the background file-operation engine: what a copy, move or
//! delete job reports, how a name conflict is resolved (including the sticky
//! "apply to all" answers), the tallies it keeps, and the run of a job from its
//! one `Total` report to its one `Finished`. The worker that walks the file
//! system and talks to the UI over channels drives this state.
use vstd::prelude::*;

use crate::text;

verus! {

/// Which operation a job performs.
#[derive(Clone, Copy, PartialEq, Eq, Debug, Structural)]
pub enum Kind {
    Copy,
    Move,
    Delete,
}

/// A message from the worker to the UI.
#[derive(Debug)]
pub enum Event {
    /// The measured size of the whole job, sent once up front.
    Total { bytes: u64, items: u64 },
    /// Progress so far, sent as work proceeds.
    Advance { bytes_done: u64, items_done: u64, current: String },
    /// `name` already exists at the destination — the worker now blocks until
    /// the UI sends back a [`Decision`].
    Conflict { name: String },
    /// The job has ended (possibly cancelled or with some failures); `landed`
    /// pairs each source that was copied or moved with the path it landed at.
    Finished { ok: u64, failed: u64, landed: Vec<(String, String)> },
}

/// The UI's answer to a [`Event::Conflict`].
#[derive(Clone, Copy, PartialEq, Eq, Debug, Structural)]
pub enum Decision {
    Replace,
    Skip,
    /// Keep both by copying to a non-colliding "(copy)" name.
    Rename,
    ReplaceAll,
    SkipAll,
    /// Keep both, for this and every later conflict of the job.
    RenameAll,
    Cancel,
}

/// What the worker does with a source whose name is already at the destination.
#[derive(Clone, Copy, PartialEq, Eq, Debug, Structural)]
pub enum Resolution {
    /// Stop the whole job (and mark it cancelled).
    Stop,
    /// Leave this source alone and count it as done.
    Skip,
    /// Copy or move to a free "(copy)" name beside the existing entry.
    Rename,
    /// Remove the existing entry, then copy or move over it.
    Replace,
}

/// The running state of a job: the sticky "apply to all" answer, the tallies of
/// finished sources, and the progress counters.
#[derive(Clone, Copy, PartialEq, Eq, Debug, Structural)]
pub struct Job {
    pub sticky: Option<Decision>,
    pub ok: u64,
    pub failed: u64,
    pub bytes_done: u64,
    pub items_done: u64,
}

/// The answer that a sticky choice gives to every later conflict, if any.
pub open spec fn sticky_answer(sticky: Option<Decision>) -> Option<Decision> {
    match sticky {
        Some(Decision::ReplaceAll) => Some(Decision::Replace),
        Some(Decision::SkipAll) => Some(Decision::Skip),
        Some(Decision::RenameAll) => Some(Decision::Rename),
        _ => None,
    }
}

/// What a decision means for the source at hand.
pub open spec fn resolution_of(d: Decision) -> Resolution {
    match d {
        Decision::Cancel => Resolution::Stop,
        Decision::Skip | Decision::SkipAll => Resolution::Skip,
        Decision::Rename | Decision::RenameAll => Resolution::Rename,
        Decision::Replace | Decision::ReplaceAll => Resolution::Replace,
    }
}

/// The job after it has taken decision `d` for a source measured at `sbytes`
/// bytes and `sitems` items.
pub open spec fn after_decision(j: Job, d: Decision, sbytes: u64, sitems: u64) -> Job {
    let sticky = match d {
        Decision::ReplaceAll => Some(Decision::ReplaceAll),
        Decision::SkipAll => Some(Decision::SkipAll),
        Decision::RenameAll => Some(Decision::RenameAll),
        _ => j.sticky,
    };
    match resolution_of(d) {
        Resolution::Skip => Job {
            sticky,
            bytes_done: (j.bytes_done + sbytes) as u64,
            items_done: (j.items_done + sitems) as u64,
            ..j
        },
        _ => Job { sticky, ..j },
    }
}

impl Job {
    /// A job that has done nothing yet, as a value.
    pub open spec fn new_spec() -> Job {
        Job { sticky: None, ok: 0, failed: 0, bytes_done: 0, items_done: 0 }
    }

    /// A job that has done nothing yet.
    pub fn new() -> (j: Job)
        ensures
            j == Job::new_spec(),
    {
        Job { sticky: None, ok: 0, failed: 0, bytes_done: 0, items_done: 0 }
    }

    /// The answer to a conflict that an earlier "apply to all" already gives;
    /// `None` when the UI must be asked.
    pub fn conflict_answer(&self) -> (d: Option<Decision>)
        ensures
            d == sticky_answer(self.sticky),
    {
        match self.sticky {
            Some(Decision::ReplaceAll) => Some(Decision::Replace),
            Some(Decision::SkipAll) => Some(Decision::Skip),
            Some(Decision::RenameAll) => Some(Decision::Rename),
            _ => None,
        }
    }

    /// Take decision `d` for the conflicting source at hand (measured at `sbytes`
    /// bytes and `sitems` items): remember an "apply to all", count a skipped
    /// source as done, and say what to do with it.
    pub fn decide(&mut self, d: Decision, sbytes: u64, sitems: u64) -> (r: Resolution)
        requires
            resolution_of(d) == Resolution::Skip ==> old(self).bytes_done + sbytes <= u64::MAX
                && old(self).items_done + sitems <= u64::MAX,
        ensures
            r == resolution_of(d),
            *final(self) == after_decision(*old(self), d, sbytes, sitems),
    {
        match d {
            Decision::ReplaceAll => {
                self.sticky = Some(Decision::ReplaceAll);
            },
            Decision::SkipAll => {
                self.sticky = Some(Decision::SkipAll);
            },
            Decision::RenameAll => {
                self.sticky = Some(Decision::RenameAll);
            },
            _ => {},
        }
        match d {
            Decision::Cancel => Resolution::Stop,
            Decision::Skip | Decision::SkipAll => {
                self.bytes_done = self.bytes_done + sbytes;
                self.items_done = self.items_done + sitems;
                Resolution::Skip
            },
            Decision::Rename | Decision::RenameAll => Resolution::Rename,
            Decision::Replace | Decision::ReplaceAll => Resolution::Replace,
        }
    }

    /// Count one source as finished, successfully or not.
    pub fn record(&mut self, success: bool)
        requires
            success ==> old(self).ok < u64::MAX,
            !success ==> old(self).failed < u64::MAX,
        ensures
            *final(self) == (if success {
                Job { ok: (old(self).ok + 1) as u64, ..*old(self) }
            } else {
                Job { failed: (old(self).failed + 1) as u64, ..*old(self) }
            }),
    {
        if success {
            self.ok = self.ok + 1;
        } else {
            self.failed = self.failed + 1;
        }
    }

    /// Add work done to the progress counters.
    pub fn advance(&mut self, bytes: u64, items: u64)
        requires
            old(self).bytes_done + bytes <= u64::MAX,
            old(self).items_done + items <= u64::MAX,
        ensures
            *final(self) == (Job {
                bytes_done: (old(self).bytes_done + bytes) as u64,
                items_done: (old(self).items_done + items) as u64,
                ..*old(self)
            }),
    {
        self.bytes_done = self.bytes_done + bytes;
        self.items_done = self.items_done + items;
    }
}

/// The decision that the conflict dialog's response `response` makes, with
/// "apply to all conflicts" ticked when `all`: Replace, Skip or Keep Both
/// ("rename"), each for every later conflict too when `all`; anything else,
/// closing the dialog included, cancels the job.
pub open spec fn decision_spec(response: Seq<char>, all: bool) -> Decision {
    if response == "replace"@ {
        if all {
            Decision::ReplaceAll
        } else {
            Decision::Replace
        }
    } else if response == "skip"@ {
        if all {
            Decision::SkipAll
        } else {
            Decision::Skip
        }
    } else if response == "rename"@ {
        if all {
            Decision::RenameAll
        } else {
            Decision::Rename
        }
    } else {
        Decision::Cancel
    }
}

/// The decision for the conflict dialog's response `response`, "apply to all"
/// ticked when `all`.
pub fn decision_for(response: &str, all: bool) -> (d: Decision)
    ensures
        d == decision_spec(response@, all),
{
    let r = text::chars_of(response);
    if text::chars_eq_str(&r, "replace") {
        if all {
            Decision::ReplaceAll
        } else {
            Decision::Replace
        }
    } else if text::chars_eq_str(&r, "skip") {
        if all {
            Decision::SkipAll
        } else {
            Decision::Skip
        }
    } else if text::chars_eq_str(&r, "rename") {
        if all {
            Decision::RenameAll
        } else {
            Decision::Rename
        }
    } else {
        Decision::Cancel
    }
}

/// The sum of the byte counts and of the item counts of `measured`.
pub open spec fn sum_measures(measured: Seq<(u64, u64)>) -> (int, int)
    decreases measured.len(),
{
    if measured.len() == 0 {
        (0, 0)
    } else {
        let rest = sum_measures(measured.drop_last());
        (rest.0 + measured.last().0, rest.1 + measured.last().1)
    }
}

proof fn lemma_sum_measures_monotone(m: Seq<(u64, u64)>, i: int)
    requires
        0 <= i <= m.len(),
    ensures
        0 <= sum_measures(m.take(i)).0 <= sum_measures(m).0,
        0 <= sum_measures(m.take(i)).1 <= sum_measures(m).1,
    decreases m.len() - i,
{
    if i < m.len() {
        lemma_sum_measures_monotone(m, i + 1);
        assert(m.take(i + 1).drop_last() =~= m.take(i));
        assert(m.take(i + 1).last() == m[i]);
        lemma_sum_measures_nonneg(m.take(i));
    } else {
        assert(m.take(i) =~= m);
        lemma_sum_measures_nonneg(m);
    }
}

proof fn lemma_sum_measures_nonneg(m: Seq<(u64, u64)>)
    ensures
        sum_measures(m).0 >= 0,
        sum_measures(m).1 >= 0,
    decreases m.len(),
{
    if m.len() > 0 {
        lemma_sum_measures_nonneg(m.drop_last());
    }
}

/// The measured size of the whole job, for the progress bar's denominator: the
/// bytes and items of every source added up.
pub fn totals(measured: &[(u64, u64)]) -> (t: (u64, u64))
    requires
        sum_measures(measured@).0 <= u64::MAX,
        sum_measures(measured@).1 <= u64::MAX,
    ensures
        t.0 == sum_measures(measured@).0,
        t.1 == sum_measures(measured@).1,
{
    let mut bytes: u64 = 0;
    let mut items: u64 = 0;
    let mut i: usize = 0;
    while i < measured.len()
        invariant
            i <= measured.len(),
            sum_measures(measured@).0 <= u64::MAX,
            sum_measures(measured@).1 <= u64::MAX,
            bytes == sum_measures(measured@.take(i as int)).0,
            items == sum_measures(measured@.take(i as int)).1,
        decreases measured.len() - i,
    {
        proof {
            assert(measured@.take(i + 1).drop_last() =~= measured@.take(i as int));
            lemma_sum_measures_monotone(measured@, i + 1);
        }
        bytes = bytes + measured[i].0;
        items = items + measured[i].1;
        i += 1;
    }
    assert(measured@.take(i as int) =~= measured@);
    (bytes, items)
}

// ---------------------------------------------------------------------------
// The run of a job
// ---------------------------------------------------------------------------

/// Where a job's run stands: measuring its sources, working through them, or
/// finished. It only ever moves forward.
#[derive(Clone, Copy, PartialEq, Eq, Debug, Structural)]
pub enum Phase {
    Measuring,
    Running,
    Done,
}

/// A job's run over `count` sources: which comes next, whether a Cancel answer
/// stopped it, its phase, its decisions and tallies, and the (source, landing
/// path) pairs of what it copied or moved. The worker walks the file system and
/// asks this what to do and what to report: the one `Total` comes from
/// [`Worker::start`], before any source; the one `Finished` from
/// [`Worker::finish`], after the last.
pub struct Worker {
    pub kind: Kind,
    pub count: usize,
    pub next: usize,
    pub stopped: bool,
    pub phase: Phase,
    pub job: Job,
    pub landed: Vec<(String, String)>,
}

/// A run's state as plain values: its phase, how many sources it has and has
/// handed out, whether a Cancel answer stopped it, and its job.
pub struct RunState {
    pub phase: Phase,
    pub count: nat,
    pub next: nat,
    pub stopped: bool,
    pub job: Job,
}

/// One thing that happens in a run, in the order the worker does them.
pub enum Step {
    /// Every source is measured; the job's total size.
    Start { bytes: u64, items: u64 },
    /// The worker asks for the next source (`cancelled`: the UI's Cancel button).
    Next { cancelled: bool },
    /// The source at hand clashes with an existing name.
    Clash,
    /// The decision for the clash (measured at `sbytes` bytes and `sitems` items).
    Resolve { d: Decision, sbytes: u64, sitems: u64 },
    /// The source at hand is finished.
    Record { success: bool },
    /// Work done on the source at hand.
    Advance { bytes: u64, items: u64 },
    /// The run ends.
    Finish,
}

/// What a step reports: the job's total, a source handed out (by its index),
/// a clash the UI must answer, the decision taken, the end with its tallies.
pub enum Report {
    Total { bytes: u64, items: u64 },
    Source { index: nat },
    Conflict,
    Decided { d: Decision },
    Finished { ok: u64, failed: u64 },
}

/// A fresh run over `count` sources.
pub open spec fn fresh_run(count: nat) -> RunState {
    RunState { phase: Phase::Measuring, count, next: 0, stopped: false, job: Job::new_spec() }
}

/// Whether the run's tallies fit: no more finished than handed out, no more
/// handed out than there are.
pub open spec fn run_wf(s: RunState) -> bool {
    s.job.ok + s.job.failed <= s.next <= s.count
}

/// Whether `st` may happen in state `s`: `Start` once every source is measured;
/// everything else while running; a decision that follows an "apply to all"
/// answer is that answer; no counter overflows.
pub open spec fn step_allowed(s: RunState, st: Step) -> bool {
    match st {
        Step::Start { .. } => s.phase == Phase::Measuring,
        Step::Resolve { d, sbytes, sitems } => {
            &&& s.phase == Phase::Running
            &&& (sticky_answer(s.job.sticky) matches Some(a) ==> d == a)
            &&& (resolution_of(d) == Resolution::Skip ==> s.job.bytes_done + sbytes <= u64::MAX
                && s.job.items_done + sitems <= u64::MAX)
        },
        Step::Record { .. } => s.phase == Phase::Running && s.job.ok + s.job.failed < s.next,
        Step::Advance { bytes, items } => {
            &&& s.phase == Phase::Running
            &&& s.job.bytes_done + bytes <= u64::MAX
            &&& s.job.items_done + items <= u64::MAX
        },
        _ => s.phase == Phase::Running,
    }
}

/// Whether the run is over for the sources: cancelled, stopped or all handed out.
pub open spec fn run_exhausted(s: RunState, cancelled: bool) -> bool {
    cancelled || s.stopped || s.next >= s.count
}

/// The state after `st`.
pub open spec fn step_state(s: RunState, st: Step) -> RunState {
    match st {
        Step::Start { .. } => RunState { phase: Phase::Running, ..s },
        Step::Next { cancelled } => if run_exhausted(s, cancelled) {
            s
        } else {
            RunState { next: s.next + 1, ..s }
        },
        Step::Clash => s,
        Step::Resolve { d, sbytes, sitems } => RunState {
            job: after_decision(s.job, d, sbytes, sitems),
            stopped: s.stopped || resolution_of(d) == Resolution::Stop,
            ..s
        },
        Step::Record { success } => RunState {
            job: if success {
                Job { ok: (s.job.ok + 1) as u64, ..s.job }
            } else {
                Job { failed: (s.job.failed + 1) as u64, ..s.job }
            },
            ..s
        },
        Step::Advance { bytes, items } => RunState {
            job: Job {
                bytes_done: (s.job.bytes_done + bytes) as u64,
                items_done: (s.job.items_done + items) as u64,
                ..s.job
            },
            ..s
        },
        Step::Finish => RunState { phase: Phase::Done, ..s },
    }
}

/// What `st` reports in state `s`.
pub open spec fn step_reports(s: RunState, st: Step) -> Seq<Report> {
    match st {
        Step::Start { bytes, items } => seq![Report::Total { bytes, items }],
        Step::Next { cancelled } => if run_exhausted(s, cancelled) {
            seq![]
        } else {
            seq![Report::Source { index: s.next }]
        },
        Step::Clash => if sticky_answer(s.job.sticky) is None {
            seq![Report::Conflict]
        } else {
            seq![]
        },
        Step::Resolve { d, .. } => seq![Report::Decided { d }],
        Step::Finish => seq![Report::Finished { ok: s.job.ok, failed: s.job.failed }],
        _ => seq![],
    }
}

/// Whether every step of `steps`, taken in turn from `s`, may happen.
pub open spec fn run_allowed(s: RunState, steps: Seq<Step>) -> bool
    decreases steps.len(),
{
    steps.len() == 0 || (step_allowed(s, steps[0]) && run_allowed(
        step_state(s, steps[0]),
        steps.drop_first(),
    ))
}

/// What taking `steps` in turn from `s` reports.
pub open spec fn run_reports(s: RunState, steps: Seq<Step>) -> Seq<Report>
    decreases steps.len(),
{
    if steps.len() == 0 {
        seq![]
    } else {
        step_reports(s, steps[0]) + run_reports(step_state(s, steps[0]), steps.drop_first())
    }
}

/// Whether `d` is an "apply to all" answer.
pub open spec fn applies_to_all(d: Decision) -> bool {
    d == Decision::ReplaceAll || d == Decision::SkipAll || d == Decision::RenameAll
}

impl Worker {
    /// The run's state as plain values.
    pub open spec fn state(&self) -> RunState {
        RunState {
            phase: self.phase,
            count: self.count as nat,
            next: self.next as nat,
            stopped: self.stopped,
            job: self.job,
        }
    }

    /// Whether the tallies fit the run: no more sources finished than handed
    /// out, and no more handed out than there are.
    pub open spec fn wf(&self) -> bool {
        run_wf(self.state())
    }

    /// A run of a `kind` job over `count` sources, not yet measured.
    pub fn new(kind: Kind, count: usize) -> (w: Worker)
        ensures
            w.state() == fresh_run(count as nat),
            w.kind == kind,
            w.landed@.len() == 0,
    {
        Worker {
            kind,
            count,
            next: 0,
            stopped: false,
            phase: Phase::Measuring,
            job: Job::new(),
            landed: Vec::new(),
        }
    }

    /// Start the run once every source is measured (`measured` holds the bytes
    /// and items of each): the event to send first, the job's total size.
    pub fn start(&mut self, measured: &[(u64, u64)]) -> (e: Event)
        requires
            old(self).phase == Phase::Measuring,
            sum_measures(measured@).0 <= u64::MAX,
            sum_measures(measured@).1 <= u64::MAX,
        ensures
            e == (Event::Total {
                bytes: sum_measures(measured@).0 as u64,
                items: sum_measures(measured@).1 as u64,
            }),
            final(self).state() == step_state(
                old(self).state(),
                Step::Start {
                    bytes: sum_measures(measured@).0 as u64,
                    items: sum_measures(measured@).1 as u64,
                },
            ),
            final(self).kind == old(self).kind,
            final(self).landed@ == old(self).landed@,
    {
        let (bytes, items) = totals(measured);
        self.phase = Phase::Running;
        Event::Total { bytes, items }
    }

    /// The index of the next source to work on; `None` once the UI has cancelled
    /// (`cancelled`), a Cancel answer stopped the job, or every source is done.
    pub fn next_source(&mut self, cancelled: bool) -> (i: Option<usize>)
        requires
            old(self).phase == Phase::Running,
        ensures
            run_exhausted(old(self).state(), cancelled) ==> i is None,
            !run_exhausted(old(self).state(), cancelled) ==> i == Some(old(self).next),
            final(self).state() == step_state(old(self).state(), Step::Next { cancelled }),
            final(self).kind == old(self).kind,
            final(self).landed@ == old(self).landed@,
    {
        if cancelled || self.stopped || self.next >= self.count {
            None
        } else {
            let i = self.next;
            self.next = self.next + 1;
            Some(i)
        }
    }

    /// The answer that an earlier "apply to all" already gives the clash at
    /// hand; `None` when the UI must be asked (and a `Conflict` sent).
    pub fn clash(&self) -> (d: Option<Decision>)
        ensures
            d == sticky_answer(self.job.sticky),
    {
        self.job.conflict_answer()
    }

    /// Take decision `d` for the clashing source at hand (measured at `sbytes`
    /// bytes and `sitems` items), which is the "apply to all" answer when there
    /// is one; a Cancel answer stops the run.
    pub fn resolve(&mut self, d: Decision, sbytes: u64, sitems: u64) -> (r: Resolution)
        requires
            step_allowed(old(self).state(), Step::Resolve { d, sbytes, sitems }),
        ensures
            r == resolution_of(d),
            final(self).state() == step_state(old(self).state(), Step::Resolve { d, sbytes, sitems }),
            final(self).kind == old(self).kind,
            final(self).landed@ == old(self).landed@,
    {
        let r = self.job.decide(d, sbytes, sitems);
        if r == Resolution::Stop {
            self.stopped = true;
        }
        r
    }

    /// Count the source at hand as finished, successfully or not, with the
    /// (source, landing path) pair to report when it was copied or moved.
    pub fn record(&mut self, success: bool, landed: Option<(String, String)>)
        requires
            step_allowed(old(self).state(), Step::Record { success }),
        ensures
            final(self).state() == step_state(old(self).state(), Step::Record { success }),
            final(self).landed@ == (match landed {
                Some(p) => old(self).landed@.push(p),
                None => old(self).landed@,
            }),
            final(self).kind == old(self).kind,
    {
        self.job.record(success);
        if let Some(p) = landed {
            self.landed.push(p);
        }
    }

    /// Add work done to the progress counters.
    pub fn advance(&mut self, bytes: u64, items: u64)
        requires
            step_allowed(old(self).state(), Step::Advance { bytes, items }),
        ensures
            final(self).state() == step_state(old(self).state(), Step::Advance { bytes, items }),
            final(self).kind == old(self).kind,
            final(self).landed@ == old(self).landed@,
    {
        self.job.advance(bytes, items);
    }

    /// End the run: the event to send last, with the tallies (at most one per
    /// source) and what landed where.
    pub fn finish(&mut self) -> (e: Event)
        requires
            old(self).phase == Phase::Running,
        ensures
            e matches Event::Finished { ok, failed, landed } && ok == old(self).job.ok && failed
                == old(self).job.failed && landed@ == old(self).landed@,
            final(self).state() == step_state(old(self).state(), Step::Finish),
            final(self).landed@.len() == 0,
    {
        let mut landed: Vec<(String, String)> = Vec::new();
        std::mem::swap(&mut landed, &mut self.landed);
        self.phase = Phase::Done;
        Event::Finished { ok: self.job.ok, failed: self.job.failed, landed }
    }
}

// ---------------------------------------------------------------------------
// Laws
// ---------------------------------------------------------------------------

/// "Apply to all" sticks: once a job has taken `ReplaceAll`, `SkipAll` or
/// `RenameAll`, every later conflict is answered `Replace`, `Skip` or `Rename`
/// (Keep Both) without asking, whatever is decided for other sources in between.
pub proof fn lemma_apply_to_all_sticks(j: Job, d: Decision, sbytes: u64, sitems: u64)
    requires
        d == Decision::ReplaceAll || d == Decision::SkipAll || d == Decision::RenameAll,
    ensures
        sticky_answer(after_decision(j, d, sbytes, sitems).sticky) == Some(
            if d == Decision::ReplaceAll {
                Decision::Replace
            } else if d == Decision::SkipAll {
                Decision::Skip
            } else {
                Decision::Rename
            },
        ),
        forall|e: Decision, b: u64, i: u64|
            sticky_answer(
                #[trigger] after_decision(after_decision(j, d, sbytes, sitems), e, b, i).sticky,
            ) is Some,
{
}

/// A skipped source still counts towards progress: skipping adds its measure.
pub proof fn lemma_skip_counts_progress(j: Job, sbytes: u64, sitems: u64)
    requires
        j.bytes_done + sbytes <= u64::MAX,
        j.items_done + sitems <= u64::MAX,
    ensures
        after_decision(j, Decision::Skip, sbytes, sitems).bytes_done == j.bytes_done + sbytes,
        after_decision(j, Decision::Skip, sbytes, sitems).items_done == j.items_done + sitems,
        after_decision(j, Decision::Skip, sbytes, sitems).ok == j.ok,
{
}

/// An allowed step keeps the tallies within the sources handed out, and the
/// phase only moves forward.
proof fn lemma_step_keeps(s: RunState, st: Step)
    requires
        run_wf(s),
        step_allowed(s, st),
    ensures
        run_wf(step_state(s, st)),
        step_state(s, st).count == s.count,
        step_state(s, st).phase != Phase::Measuring,
        s.phase == Phase::Done ==> false,
        s.stopped ==> step_state(s, st).stopped,
        sticky_answer(s.job.sticky) is Some ==> sticky_answer(step_state(s, st).job.sticky) is Some,
{
}

/// The facts behind the run-order law, for a run from any state whose tallies fit.
proof fn lemma_run_from(s: RunState, steps: Seq<Step>)
    requires
        run_wf(s),
        run_allowed(s, steps),
    ensures
        ({
            let r = run_reports(s, steps);
            &&& s.phase == Phase::Done ==> r.len() == 0
            &&& forall|i: int| 0 <= i < r.len() && (#[trigger] r[i] is Total) ==> i == 0 && s.phase
                == Phase::Measuring
            &&& forall|i: int|
                0 <= i < r.len() ==> (#[trigger] r[i] matches Report::Finished { ok, failed } ==> i
                    == r.len() - 1 && ok + failed <= s.count)
            &&& sticky_answer(s.job.sticky) is Some ==> forall|i: int|
                0 <= i < r.len() ==> !(#[trigger] r[i] is Conflict)
            &&& s.stopped ==> forall|i: int| 0 <= i < r.len() ==> !(#[trigger] r[i] is Source)
            &&& forall|i: int|
                0 <= i < r.len() ==> (#[trigger] r[i] matches Report::Source { index } ==> index
                    < s.count)
            &&& forall|i: int, j: int|
                0 <= i < j < r.len() && (#[trigger] r[i] matches Report::Decided { d }
                    && applies_to_all(d)) ==> !(#[trigger] r[j] is Conflict)
            &&& forall|i: int, j: int|
                0 <= i < j < r.len() && (#[trigger] r[i] matches Report::Decided { d }
                    && resolution_of(d) == Resolution::Stop) ==> !(#[trigger] r[j] is Source)
        }),
    decreases steps.len(),
{
    let r = run_reports(s, steps);
    if steps.len() > 0 {
        let st = steps[0];
        let s1 = step_state(s, st);
        let e1 = step_reports(s, st);
        let rest = steps.drop_first();
        let r1 = run_reports(s1, rest);
        lemma_step_keeps(s, st);
        lemma_run_from(s1, rest);
        assert(r == e1 + r1);
        assert(e1.len() <= 1);
        assert forall|i: int| 0 <= i < r.len() && (#[trigger] r[i] is Total) implies i == 0
            && s.phase == Phase::Measuring by {
            if i >= e1.len() {
                assert(r1[i - e1.len()] == r[i]);
            }
        }
        assert forall|i: int| 0 <= i < r.len() implies (#[trigger] r[i] matches Report::Finished {
            ok,
            failed,
        } ==> i == r.len() - 1 && ok + failed <= s.count) by {
            if i >= e1.len() {
                assert(r1[i - e1.len()] == r[i]);
            } else if r[i] is Finished {
                assert(st is Finish);
                assert(r1.len() == 0);
            }
        }
        if sticky_answer(s.job.sticky) is Some {
            assert forall|i: int| 0 <= i < r.len() implies !(#[trigger] r[i] is Conflict) by {
                if i >= e1.len() {
                    assert(r1[i - e1.len()] == r[i]);
                }
            }
        }
        assert forall|i: int| 0 <= i < r.len() implies (#[trigger] r[i] matches Report::Source {
            index,
        } ==> index < s.count) by {
            if i >= e1.len() {
                assert(r1[i - e1.len()] == r[i]);
            }
        }
        if s.stopped {
            assert forall|i: int| 0 <= i < r.len() implies !(#[trigger] r[i] is Source) by {
                if i >= e1.len() {
                    assert(r1[i - e1.len()] == r[i]);
                }
            }
        }
        assert forall|i: int, j: int|
            0 <= i < j < r.len() && (#[trigger] r[i] matches Report::Decided { d }
                && applies_to_all(d)) implies !(#[trigger] r[j] is Conflict) by {
            assert(r1[j - e1.len()] == r[j]);
            if i >= e1.len() {
                assert(r1[i - e1.len()] == r[i]);
            } else {
                assert(st matches Step::Resolve { d, .. } && applies_to_all(d));
                assert(sticky_answer(s1.job.sticky) is Some);
            }
        }
        assert forall|i: int, j: int|
            0 <= i < j < r.len() && (#[trigger] r[i] matches Report::Decided { d }
                && resolution_of(d) == Resolution::Stop) implies !(#[trigger] r[j] is Source) by {
            assert(r1[j - e1.len()] == r[j]);
            if i >= e1.len() {
                assert(r1[i - e1.len()] == r[i]);
            } else {
                assert(s1.stopped);
            }
        }
    }
}

/// The order of a job's reports. Over any run of a fresh job on `count`
/// sources: the first report is the job's `Total` and no other is; a
/// `Finished` comes only last, with no more tallies than there are sources;
/// every source handed out is one of them; after an "apply to all" answer the
/// UI is never asked about a clash again; and after a Cancel answer no further
/// source is touched.
pub proof fn lemma_run_in_order(count: nat, steps: Seq<Step>)
    requires
        run_allowed(fresh_run(count), steps),
    ensures
        ({
            let r = run_reports(fresh_run(count), steps);
            &&& r.len() > 0 ==> r[0] is Total
            &&& forall|i: int| 0 < i < r.len() ==> !(#[trigger] r[i] is Total)
            &&& forall|i: int|
                0 <= i < r.len() ==> (#[trigger] r[i] matches Report::Source { index } ==> index
                    < count)
            &&& forall|i: int|
                0 <= i < r.len() ==> (#[trigger] r[i] matches Report::Finished { ok, failed } ==> i
                    == r.len() - 1 && ok + failed <= count)
            &&& forall|i: int, j: int|
                0 <= i < j < r.len() && (#[trigger] r[i] matches Report::Decided { d }
                    && applies_to_all(d)) ==> !(#[trigger] r[j] is Conflict)
            &&& forall|i: int, j: int|
                0 <= i < j < r.len() && (#[trigger] r[i] matches Report::Decided { d }
                    && resolution_of(d) == Resolution::Stop) ==> !(#[trigger] r[j] is Source)
        }),
{
    let s = fresh_run(count);
    lemma_run_from(s, steps);
    let r = run_reports(s, steps);
    if r.len() > 0 {
        assert(steps.len() > 0);
        assert(steps[0] is Start);
        assert(r[0] == step_reports(s, steps[0])[0]);
    }
}

/// Every skipped source counts toward progress, whether the skip is for this
/// clash alone or for all of them: its measure is added to the counters, and
/// nothing else of the job changes but the sticky answer.
pub proof fn lemma_every_skip_counts_progress(j: Job, d: Decision, sbytes: u64, sitems: u64)
    requires
        d == Decision::Skip || d == Decision::SkipAll,
        j.bytes_done + sbytes <= u64::MAX,
        j.items_done + sitems <= u64::MAX,
    ensures
        after_decision(j, d, sbytes, sitems).bytes_done == j.bytes_done + sbytes,
        after_decision(j, d, sbytes, sitems).items_done == j.items_done + sitems,
        after_decision(j, d, sbytes, sitems).ok == j.ok,
        after_decision(j, d, sbytes, sitems).failed == j.failed,
{
}

/// A source that is replaced, kept beside, or left by a Cancel is not counted
/// when the decision is taken: its work is counted as it is done.
pub proof fn lemma_other_answers_count_nothing(j: Job, d: Decision, sbytes: u64, sitems: u64)
    requires
        d != Decision::Skip && d != Decision::SkipAll,
    ensures
        after_decision(j, d, sbytes, sitems).bytes_done == j.bytes_done,
        after_decision(j, d, sbytes, sitems).items_done == j.items_done,
        after_decision(j, d, sbytes, sitems).ok == j.ok,
        after_decision(j, d, sbytes, sitems).failed == j.failed,
{
}

} // verus!
