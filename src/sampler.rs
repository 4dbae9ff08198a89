//! The sampler: a state machine that, on each tick, turns a CPU reading into
//! a (usage, power) pair and publishes it as one unit into shared state that
//! readers may consult at any time.
use vstd::prelude::*;
use vstd::rwlock::{RwLock, RwLockPredicate};
use crate::model::PowerModel;

verus! {

/// One published reading: CPU utilisation in basis points and the power,
/// in microwatts, that the model estimates for it.
#[derive(Clone, Copy, Debug, PartialEq, Eq, Structural)]
pub struct SampleState {
    pub cpu_usage: i64,
    pub power: i128,
}

/// The pair was produced from one reading: its power is the model's
/// estimate for its usage.
pub open spec fn pair_consistent(m: PowerModel, s: SampleState) -> bool {
    s.power == m.spec_estimate(s.cpu_usage as int)
}

/// What every value held by the shared cell satisfies.
pub struct ConsistentPair {
    pub model: PowerModel,
}

impl RwLockPredicate<SampleState> for ConsistentPair {
    open spec fn inv(self, v: SampleState) -> bool {
        pair_consistent(self.model, v)
    }
}

/// Evaluates the model on one reading.
pub fn sample(model: &PowerModel, usage: i64) -> (s: SampleState)
    requires
        model.wf(),
    ensures
        s.cpu_usage == usage,
        pair_consistent(*model, s),
{
    SampleState { cpu_usage: usage, power: model.estimate(usage) }
}

/// The pair published before the first tick: a usage of zero with the
/// model's estimate at zero.
pub fn initial_sample(model: &PowerModel) -> (s: SampleState)
    requires
        model.wf(),
    ensures
        s.cpu_usage == 0,
        s.power == model.spec_estimate(0),
{
    sample(model, 0)
}

/// The shared (usage, power) pair, written by the sampler and read by any
/// number of readers. Writes replace the pair as a whole under an exclusive
/// lock, so no reader sees usage from one tick beside power from another.
pub struct SharedSample {
    model: PowerModel,
    cell: RwLock<SampleState, ConsistentPair>,
}

impl SharedSample {
    pub closed spec fn model_view(&self) -> PowerModel {
        self.model
    }

    pub closed spec fn wf(&self) -> bool {
        self.model.wf() && self.cell.pred().model == self.model
    }

    /// Creates the shared pair for `model`. Before the first tick it holds a
    /// usage of zero and the model's estimate at zero.
    pub fn new(model: PowerModel) -> (s: SharedSample)
        requires
            model.wf(),
        ensures
            s.wf(),
            s.model_view() == model,
    {
        let first = initial_sample(&model);
        let cell = RwLock::new(first, Ghost(ConsistentPair { model }));
        SharedSample { model, cell }
    }

    /// Replaces the pair with the reading `usage` and its estimate, as one
    /// unit; returns the pair written.
    pub fn publish(&self, usage: i64) -> (s: SampleState)
        requires
            self.wf(),
        ensures
            s.cpu_usage == usage,
            pair_consistent(self.model_view(), s),
    {
        let s = sample(&self.model, usage);
        let (_, handle) = self.cell.acquire_write();
        handle.release_write(s);
        s
    }

    /// The pair as last published: always one reading with its own
    /// estimate.
    pub fn snapshot(&self) -> (s: SampleState)
        requires
            self.wf(),
        ensures
            pair_consistent(self.model_view(), s),
    {
        let handle = self.cell.acquire_read();
        let s = *handle.borrow();
        handle.release_read();
        s
    }

    /// The model the pairs are computed with.
    pub fn model(&self) -> (m: &PowerModel)
        requires
            self.wf(),
        ensures
            *m == self.model_view(),
            m.wf(),
    {
        &self.model
    }
}

/// The sampler's two states: it samples until it is cancelled, then stays
/// stopped.
#[derive(Clone, Copy, Debug, PartialEq, Eq, Structural)]
pub enum SamplerPhase {
    Sampling,
    Stopped,
}

/// What became of one tick.
#[derive(Clone, Copy, Debug, PartialEq, Eq, Structural)]
pub enum TickOutcome {
    /// The pair was published.
    Published(SampleState),
    /// Cancellation was seen; nothing was written and the sampler stopped.
    Stopped,
}

/// The sampler's state between ticks.
#[derive(Clone, Copy, Debug, PartialEq, Eq, Structural)]
pub struct Sampler {
    pub phase: SamplerPhase,
    /// Milliseconds to wait between ticks.
    pub interval_ms: u64,
}

impl Sampler {
    /// A sampler that waits `requested_ms` between ticks, but never less
    /// than `minimum_ms`, the shortest interval the CPU reader supports.
    pub fn new(requested_ms: u64, minimum_ms: u64) -> (s: Sampler)
        ensures
            s.phase == SamplerPhase::Sampling,
            s.interval_ms == if requested_ms < minimum_ms {
                minimum_ms
            } else {
                requested_ms
            },
    {
        let interval_ms = if requested_ms < minimum_ms {
            minimum_ms
        } else {
            requested_ms
        };
        Sampler { phase: SamplerPhase::Sampling, interval_ms }
    }

    /// One tick with the CPU reading `usage`. Cancellation is checked first:
    /// once it is raised, or once the sampler has stopped, the tick writes
    /// nothing and the sampler is stopped. Otherwise the reading and its
    /// estimate are published together.
    pub fn tick(&mut self, shared: &SharedSample, usage: i64, cancelled: bool) -> (r: TickOutcome)
        requires
            shared.wf(),
        ensures
            final(self).interval_ms == old(self).interval_ms,
            (cancelled || old(self).phase == SamplerPhase::Stopped) ==> r == TickOutcome::Stopped
                && final(self).phase == SamplerPhase::Stopped,
            !(cancelled || old(self).phase == SamplerPhase::Stopped) ==> final(self).phase
                == SamplerPhase::Sampling && (r matches TickOutcome::Published(s) && s.cpu_usage
                == usage && pair_consistent(shared.model_view(), s)),
    {
        if cancelled || self.phase == SamplerPhase::Stopped {
            self.phase = SamplerPhase::Stopped;
            return TickOutcome::Stopped;
        }
        let s = shared.publish(usage);
        TickOutcome::Published(s)
    }
}

} // verus!
