//! The decisions of a flow-controlled source, as a state machine.
//!
//! The source is driven once per scheduler step with the watermark that the pipeline
//! reports and the wall-clock time elapsed since its run started; it answers with the
//! action to perform. It emits new input only once the watermark has reached its progress
//! token, which is its only form of backpressure.

use crate::input::{
    drained, lemma_drained, strictly_increasing, undrained, InputTimeResumableIterator,
    SyntheticInputTimeGenerator,
};
use vstd::prelude::*;

verus! {

/// Where the source is in its life.
#[derive(PartialEq, Eq, Structural, Clone, Copy, Debug)]
pub enum SourcePhase {
    /// The seed batch has not been emitted yet.
    Loading,
    /// The seed batch is out; the run has not started.
    Waiting,
    /// Emitting the schedule as wall-clock time passes.
    Running,
    /// Finished: the progress token is released.
    Done,
}

/// What the driver of the source is to do after a step.
pub enum SourceAction {
    /// Nothing this step.
    Idle,
    /// Emit the seed batch at time `at`, then move the progress token to `token`.
    Load { at: u64, token: u64 },
    /// Start the wall clock of the run: later steps report the time elapsed since now.
    StartRun,
    /// Emit one record for each of `times`, at time `at`, then move the progress token to
    /// `token`.
    Emit { at: u64, times: Vec<u64>, token: u64 },
    /// Emit one record for each of `times`, at time `at`, then release the progress token.
    Finish { at: u64, times: Vec<u64> },
}

/// An action, as plain values.
pub enum ActionView {
    Idle,
    Load { at: u64, token: u64 },
    StartRun,
    Emit { at: u64, times: Seq<u64>, token: u64 },
    Finish { at: u64, times: Seq<u64> },
}

impl SourceAction {
    pub open spec fn view(&self) -> ActionView {
        match self {
            SourceAction::Idle => ActionView::Idle,
            SourceAction::Load { at, token } => ActionView::Load { at: *at, token: *token },
            SourceAction::StartRun => ActionView::StartRun,
            SourceAction::Emit { at, times, token } => ActionView::Emit {
                at: *at,
                times: times@,
                token: *token,
            },
            SourceAction::Finish { at, times } => ActionView::Finish { at: *at, times: times@ },
        }
    }
}

/// The state of a source, as plain values.
pub struct SourceView {
    pub phase: SourcePhase,
    /// The progress token: no record is emitted at an earlier time from now on.
    pub token: u64,
    /// The scheduled send times not emitted yet.
    pub remaining: Seq<u64>,
    /// The time at which the seed batch is emitted.
    pub load_at: u64,
    /// The progress token once the seed batch is out.
    pub load_token: u64,
    /// Whether the run waits for the seed batch to drain before its clock starts.
    pub wait_for_load: bool,
    /// Elapsed time is rounded down to a multiple of this to give the next target.
    pub granularity: u64,
}

/// Whether the watermark has reached time `t`; `None` stands for a pipeline in which
/// nothing is left in flight.
pub open spec fn reached(watermark: Option<u64>, t: u64) -> bool {
    match watermark {
        None => true,
        Some(w) => w >= t,
    }
}

/// `elapsed` rounded down to a multiple of `granularity`.
pub open spec fn round_down(elapsed: u64, granularity: u64) -> u64 {
    (elapsed as int - (elapsed as int) % (granularity as int)) as u64
}

/// The larger of two times.
pub open spec fn later(a: u64, b: u64) -> u64 {
    if a >= b {
        a
    } else {
        b
    }
}

/// One step of the source: the next state and the action, given the watermark and the
/// time elapsed since the run started.
pub open spec fn step_spec(s: SourceView, watermark: Option<u64>, elapsed: u64) -> (
    SourceView,
    ActionView,
) {
    match s.phase {
        SourcePhase::Loading => (
            SourceView { phase: SourcePhase::Waiting, token: s.load_token, ..s },
            ActionView::Load { at: s.load_at, token: s.load_token },
        ),
        SourcePhase::Waiting => if !s.wait_for_load || reached(watermark, s.token) {
            (SourceView { phase: SourcePhase::Running, ..s }, ActionView::StartRun)
        } else {
            (s, ActionView::Idle)
        },
        SourcePhase::Running => if !reached(watermark, s.token) {
            (s, ActionView::Idle)
        } else {
            let target = round_down(elapsed, s.granularity);
            let times = drained(s.remaining, target);
            let rest = undrained(s.remaining, target);
            if rest.len() == 0 {
                (
                    SourceView { phase: SourcePhase::Done, remaining: rest, ..s },
                    ActionView::Finish { at: s.token, times },
                )
            } else {
                let token = later(s.token, target);
                (
                    SourceView { token, remaining: rest, ..s },
                    ActionView::Emit { at: s.token, times, token },
                )
            }
        },
        SourcePhase::Done => (s, ActionView::Idle),
    }
}

/// A source that emits a seed batch and then, gated by the watermark, the times of a
/// schedule as wall-clock time passes.
pub struct FlowControlledSource<I: InputTimeResumableIterator> {
    phase: SourcePhase,
    input: SyntheticInputTimeGenerator<I>,
    token: u64,
    load_at: u64,
    load_token: u64,
    wait_for_load: bool,
    granularity: u64,
}

impl<I: InputTimeResumableIterator> FlowControlledSource<I> {
    /// The state's invariant.
    pub closed spec fn wf(&self) -> bool {
        &&& self.granularity > 0
        &&& self.load_at <= self.load_token
        &&& self.phase != SourcePhase::Loading ==> self.load_token <= self.token
    }

    /// A source over the times of `input`: it emits its seed batch at `load_at`, moves its
    /// progress token to `load_token`, and then runs, rounding elapsed time down to a
    /// multiple of `granularity`. With `wait_for_load` its run starts only once the
    /// watermark has reached `load_token`.
    pub fn new(
        input: SyntheticInputTimeGenerator<I>,
        load_at: u64,
        load_token: u64,
        granularity: u64,
        wait_for_load: bool,
    ) -> (r: Self)
        requires
            load_at <= load_token,
            granularity > 0,
        ensures
            r.wf(),
            r@ == (SourceView {
                phase: SourcePhase::Loading,
                token: 0,
                remaining: input.remaining(),
                load_at,
                load_token,
                wait_for_load,
                granularity,
            }),
    {
        FlowControlledSource {
            phase: SourcePhase::Loading,
            input,
            token: 0,
            load_at,
            load_token,
            wait_for_load,
            granularity,
        }
    }

    /// Where the source is in its life.
    pub fn phase(&self) -> (r: SourcePhase)
        ensures
            r == self@.phase,
    {
        self.phase
    }

    /// The progress token.
    pub fn token(&self) -> (r: u64)
        ensures
            r == self@.token,
    {
        self.token
    }

    /// Takes one step, given the `watermark` the pipeline reports (`None` when nothing is
    /// in flight) and the wall-clock nanoseconds `elapsed_ns` since the run started.
    pub fn step(&mut self, watermark: Option<u64>, elapsed_ns: u64) -> (a: SourceAction)
        requires
            old(self).wf(),
        ensures
            final(self).wf(),
            (final(self)@, a@) == step_spec(old(self)@, watermark, elapsed_ns),
    {
        match self.phase {
            SourcePhase::Loading => {
                self.phase = SourcePhase::Waiting;
                self.token = self.load_token;
                SourceAction::Load { at: self.load_at, token: self.load_token }
            },
            SourcePhase::Waiting => {
                if !self.wait_for_load || Self::has_reached(watermark, self.token) {
                    self.phase = SourcePhase::Running;
                    SourceAction::StartRun
                } else {
                    SourceAction::Idle
                }
            },
            SourcePhase::Running => {
                if !Self::has_reached(watermark, self.token) {
                    return SourceAction::Idle;
                }
                proof {
                    vstd::arithmetic::div_mod::lemma_mod_decreases(
                        elapsed_ns as nat,
                        self.granularity as nat,
                    );
                }
                let target = elapsed_ns - elapsed_ns % self.granularity;
                let at = self.token;
                let ghost before = self.input.remaining();
                let times = match self.input.iter_until_incl(target) {
                    Some(times) => times,
                    None => Vec::new(),
                };
                proof {
                    if before.len() == 0 {
                        assert(drained(before, target) =~= Seq::<u64>::empty());
                        assert(undrained(before, target) =~= before);
                    }
                }
                if self.input.is_exhausted() {
                    self.phase = SourcePhase::Done;
                    SourceAction::Finish { at, times }
                } else {
                    let token = if target > self.token {
                        target
                    } else {
                        self.token
                    };
                    self.token = token;
                    SourceAction::Emit { at, times, token }
                }
            },
            SourcePhase::Done => SourceAction::Idle,
        }
    }

    /// Whether `watermark` has reached `t`.
    fn has_reached(watermark: Option<u64>, t: u64) -> (r: bool)
        ensures
            r == reached(watermark, t),
    {
        match watermark {
            None => true,
            Some(w) => w >= t,
        }
    }
}

/// The watermark gates the source. While the watermark has not reached the progress token,
/// a running source emits nothing and stays as it is; it emits only once the watermark has
/// reached its token, at the token, and only times up to its new token, in increasing
/// order; and the token, the target that the watermark must reach before the next
/// emission, never moves back.
pub proof fn lemma_watermark_gating<I: InputTimeResumableIterator>(
    src: FlowControlledSource<I>,
    watermark: Option<u64>,
    elapsed: u64,
)
    requires
        src.wf(),
    ensures
        ({
            let s = src@;
            let (next, a) = step_spec(s, watermark, elapsed);
            &&& s.phase == SourcePhase::Running && !reached(watermark, s.token) ==> a
                == ActionView::Idle && next == s
            &&& s.phase != SourcePhase::Loading ==> next.token >= s.token
            &&& s.phase == SourcePhase::Loading ==> next.token == s.load_token
            &&& (a is Emit || a is Finish) ==> s.phase == SourcePhase::Running && reached(
                watermark,
                s.token,
            )
            &&& match a {
                ActionView::Emit { at, times, token } => {
                    &&& at == s.token
                    &&& token >= at
                    &&& token == next.token
                    &&& strictly_increasing(times)
                    &&& forall|i: int| 0 <= i < times.len() ==> #[trigger] times[i] <= token
                },
                ActionView::Finish { at, times } => at == s.token && strictly_increasing(times),
                _ => true,
            }
        }),
{
    let s = src@;
    src.input.lemma_remaining_increasing();
    let target = round_down(elapsed, s.granularity);
    lemma_drained(s.remaining, target);
}

impl<I: InputTimeResumableIterator> View for FlowControlledSource<I> {
    type V = SourceView;

    /// The state, as plain values.
    closed spec fn view(&self) -> SourceView {
        SourceView {
            phase: self.phase,
            token: self.token,
            remaining: self.input.remaining(),
            load_at: self.load_at,
            load_token: self.load_token,
            wait_for_load: self.wait_for_load,
            granularity: self.granularity,
        }
    }
}

} // verus!
