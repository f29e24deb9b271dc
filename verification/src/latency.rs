//! Network delays for simulation, and the latency of the optimistic pipeline.

use vstd::prelude::*;

verus! {

/// Pluggable network delay for simulation.
pub trait LatencyModel {
    /// Whether the model is usable.
    spec fn valid(&self) -> bool;

    /// Whether the model can delay a message by `ms` milliseconds.
    spec fn allows(&self, ms: u64) -> bool;

    /// The delay of one message in milliseconds, given a random word.
    fn delay(&self, draw: u64) -> (r: u64)
        requires
            self.valid(),
        ensures
            self.allows(r),
    ;
}

/// No delay at all.
#[derive(Debug, Clone, Copy)]
pub struct ZeroLatency;

impl LatencyModel for ZeroLatency {
    open spec fn valid(&self) -> bool {
        true
    }

    open spec fn allows(&self, ms: u64) -> bool {
        ms == 0
    }

    fn delay(&self, draw: u64) -> (r: u64)
        ensures
            r == 0,
    {
        let _ = draw;
        0
    }
}

/// Delay between `min` and `max` milliseconds, both included.
#[derive(Debug, Clone, Copy)]
pub struct UniformLatency {
    pub min: u64,
    pub max: u64,
}

impl LatencyModel for UniformLatency {
    open spec fn valid(&self) -> bool {
        self.min <= self.max
    }

    open spec fn allows(&self, ms: u64) -> bool {
        self.min <= ms <= self.max
    }

    fn delay(&self, draw: u64) -> (r: u64)
        ensures
            r == self.min + draw as int % (self.max - self.min + 1),
    {
        let width: u64 = self.max - self.min;
        if width == u64::MAX {
            draw
        } else {
            let offset: u64 = draw % (width + 1);
            self.min + offset
        }
    }
}

/// Every delay that a uniform model allows is the delay of some draw.
pub proof fn law_uniform_reaches_every_delay(model: UniformLatency, ms: u64)
    requires
        model.valid(),
        model.allows(ms),
    ensures
        model.min + (ms - model.min) as int % (model.max - model.min + 1) == ms,
{
    vstd::arithmetic::div_mod::lemma_small_mod(
        (ms - model.min) as nat,
        (model.max - model.min + 1) as nat,
    );
}

/// Client of an in-process network with simulated delays.
#[derive(Debug)]
pub struct InMemoryNetworkClient<L: LatencyModel> {
    pub(crate) latency: L,
}

impl<L: LatencyModel> InMemoryNetworkClient<L> {
    /// The delays of the client's network.
    pub open(crate) spec fn model(&self) -> L {
        self.latency
    }

    /// A client of a network with the given delays.
    pub fn new(latency: L) -> (r: Self)
        ensures
            r.model() == latency,
    {
        InMemoryNetworkClient { latency }
    }
}

/// When a result is visible if execution starts at the soft commit: execution ends `exec`
/// after two message delays, and the hard commit comes after three.
pub open spec fn optimistic(delta: nat, exec: nat) -> nat {
    if 2 * delta + exec > 3 * delta {
        2 * delta + exec
    } else {
        3 * delta
    }
}

/// When a result is visible if execution starts at the hard commit.
pub open spec fn baseline(delta: nat, exec: nat) -> nat {
    3 * delta + exec
}

/// When the result of a wave is visible. A wave whose speculative result conflicts is run
/// again after the hard commit.
pub open spec fn wave(delta: nat, exec: nat, conflict: bool) -> nat {
    if conflict {
        baseline(delta, exec)
    } else {
        optimistic(delta, exec)
    }
}

/// Milliseconds left until the hard commit, `elapsed_ms` after the start of a round.
pub fn until_hard_commit(delta_ms: u64, elapsed_ms: u64) -> (r: u64)
    requires
        3 * delta_ms <= u64::MAX,
    ensures
        r == if elapsed_ms < 3 * delta_ms {
            3 * delta_ms - elapsed_ms
        } else {
            0
        },
{
    let hard: u64 = 3 * delta_ms;
    if elapsed_ms < hard {
        hard - elapsed_ms
    } else {
        0
    }
}

/// Milliseconds until a result is visible on the optimistic path.
pub fn optimistic_latency(delta_ms: u64, exec_ms: u64) -> (r: u64)
    requires
        3 * delta_ms + exec_ms <= u64::MAX,
    ensures
        r == optimistic(delta_ms as nat, exec_ms as nat),
{
    let executed: u64 = 2 * delta_ms + exec_ms;
    executed + until_hard_commit(delta_ms, executed)
}

/// Milliseconds until a result is visible on the path without speculation.
pub fn baseline_latency(delta_ms: u64, exec_ms: u64) -> (r: u64)
    requires
        3 * delta_ms + exec_ms <= u64::MAX,
    ensures
        r == baseline(delta_ms as nat, exec_ms as nat),
{
    3 * delta_ms + exec_ms
}

/// Milliseconds until the result of a wave is visible on the optimistic path, with or
/// without a conflict.
pub fn wave_latency(delta_ms: u64, exec_ms: u64, conflict: bool) -> (r: u64)
    requires
        3 * delta_ms + exec_ms <= u64::MAX,
    ensures
        r == wave(delta_ms as nat, exec_ms as nat, conflict),
{
    if conflict {
        baseline_latency(delta_ms, exec_ms)
    } else {
        optimistic_latency(delta_ms, exec_ms)
    }
}

/// Speculation saves one message delay or the whole execution, whichever is shorter.
pub proof fn law_gain_is_the_lesser_of_delta_and_exec(delta: nat, exec: nat)
    ensures
        baseline(delta, exec) - optimistic(delta, exec) == if delta < exec {
            delta
        } else {
            exec
        },
{
}

/// Whether or not its result conflicts, a wave is never slower than without speculation.
pub proof fn law_speculation_never_costs(delta: nat, exec: nat, conflict: bool)
    ensures
        wave(delta, exec, conflict) <= baseline(delta, exec),
        !conflict && delta > 0 && exec > 0 ==> wave(delta, exec, conflict) < baseline(delta, exec),
{
}

/// When results are visible. Without speculation three message delays and the execution pass. With
/// it a result is visible once it has been executed, from the soft commit after two delays on, and
/// the hard commit after three delays has come, whichever is later; after a conflict as without.
pub proof fn law_when_results_are_visible(delta: nat, exec: nat)
    ensures
        baseline(delta, exec) == 3 * delta + exec,
        optimistic(delta, exec) >= 2 * delta + exec,
        optimistic(delta, exec) >= 3 * delta,
        optimistic(delta, exec) == 2 * delta + exec || optimistic(delta, exec) == 3 * delta,
        wave(delta, exec, true) == 3 * delta + exec,
        wave(delta, exec, false) == optimistic(delta, exec),
{
}

} // verus!
