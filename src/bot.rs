use vstd::prelude::*;
use crate::arith::{clamp64, clamp_wide, half, half_spec, sat_sub};
use crate::rng::SimRng;

verus! {

/// Ranked neighbor nodes that feed the final brain.
pub const TOTAL_NODE_INPUTS: usize = 4;
/// Ranked co-located agents that feed the final brain.
pub const TOTAL_BOT_INPUTS: usize = 4;
/// Memory slots carried from one tick to the next.
pub const TOTAL_MEMORY: usize = 4;

/// Fixed node-brain inputs: 0, 1, 2, -1, random, neighbor energy, neighbor
/// population, own-node population, agent energy, own-node connections,
/// neighbor connections, tick.
pub const NODE_STATIC_INPUTS: usize = 12;
pub const NODE_TOTAL_INPUTS: usize = 16;
pub const NODE_TOTAL_OUTPUTS: usize = 5;

/// Fixed bot-brain inputs: 0, 1, 2, -1, random, node energy, node
/// population, own energy, candidate energy, candidate signal, own-node
/// connections, tick.
pub const BOT_STATIC_INPUTS: usize = 12;
pub const BOT_TOTAL_INPUTS: usize = 16;
pub const BOT_TOTAL_OUTPUTS: usize = 5;

/// Fixed final-brain inputs: 0, 1, 2, -1, random, node energy, node
/// population, own energy, own index, own-node connections, tick; then
/// memory and the payloads of both ranked sets.
pub const FINAL_STATIC_INPUTS: usize = 11;
pub const FINAL_TOTAL_INPUTS: usize = 55;
/// Mate, node, rate, signal, connect signal, sever choice, pull.
pub const FINAL_STATIC_OUTPUTS: usize = 7;
pub const FINAL_TOTAL_OUTPUTS: usize = 11;

pub const DEFAULT_MUTATE_SIZE: usize = 30;
pub const DEFAULT_CROSSOVER_POINTS: usize = 1;
pub const SMALL_BRAIN_INSTRUCTIONS: usize = 64;
pub const FINAL_BRAIN_INSTRUCTIONS: usize = 256;

pub const ENERGY_EXCHANGE_MAGNITUDE: i64 = 500;
pub const EXISTENCE_COST: i64 = 50;
pub const MAX_ENERGY: i64 = 20000;
pub const DEFAULT_ENERGY: i64 = 200;

/// Shape and evolution parameters of one brain tier.
#[derive(Clone, Copy, Debug, PartialEq, Eq, Structural)]
pub struct BrainConfig {
    pub inputs: usize,
    pub outputs: usize,
    pub mutate_size: usize,
    pub crossover_points: usize,
    pub instructions: usize,
}

pub fn node_brain_config() -> (r: BrainConfig)
    ensures
        r.inputs == NODE_TOTAL_INPUTS && r.outputs == NODE_TOTAL_OUTPUTS,
        r.inputs == NODE_STATIC_INPUTS + TOTAL_MEMORY,
{
    BrainConfig {
        inputs: NODE_TOTAL_INPUTS,
        outputs: NODE_TOTAL_OUTPUTS,
        mutate_size: DEFAULT_MUTATE_SIZE,
        crossover_points: DEFAULT_CROSSOVER_POINTS,
        instructions: SMALL_BRAIN_INSTRUCTIONS,
    }
}

pub fn bot_brain_config() -> (r: BrainConfig)
    ensures
        r.inputs == BOT_TOTAL_INPUTS && r.outputs == BOT_TOTAL_OUTPUTS,
        r.inputs == BOT_STATIC_INPUTS + TOTAL_MEMORY,
{
    BrainConfig {
        inputs: BOT_TOTAL_INPUTS,
        outputs: BOT_TOTAL_OUTPUTS,
        mutate_size: DEFAULT_MUTATE_SIZE,
        crossover_points: DEFAULT_CROSSOVER_POINTS,
        instructions: SMALL_BRAIN_INSTRUCTIONS,
    }
}

pub fn final_brain_config() -> (r: BrainConfig)
    ensures
        r.inputs == FINAL_TOTAL_INPUTS && r.outputs == FINAL_TOTAL_OUTPUTS,
        r.inputs == FINAL_STATIC_INPUTS + TOTAL_MEMORY + TOTAL_NODE_INPUTS * NODE_TOTAL_OUTPUTS
            + TOTAL_BOT_INPUTS * BOT_TOTAL_OUTPUTS,
        r.outputs == FINAL_STATIC_OUTPUTS + TOTAL_MEMORY,
{
    BrainConfig {
        inputs: FINAL_TOTAL_INPUTS,
        outputs: FINAL_TOTAL_OUTPUTS,
        mutate_size: DEFAULT_MUTATE_SIZE,
        crossover_points: DEFAULT_CROSSOVER_POINTS,
        instructions: FINAL_BRAIN_INSTRUCTIONS,
    }
}

/// A sequence of brain values, as contracts see it.
pub type Values = Seq<i64>;

/// An evolvable program that maps inputs to outputs. Its outputs come from
/// an evolved, untrusted program, so callers check their number themselves.
pub trait Brain: Sized {
    /// What the program computes on `inputs`: the outputs depend on the
    /// program and its inputs alone.
    spec fn outputs(&self, inputs: Values) -> Values;

    /// A fresh random program of the given shape.
    fn random(config: &BrainConfig, rng: &mut SimRng) -> Self;

    fn compute(&self, inputs: &Vec<i64>) -> (r: Vec<i64>)
        ensures
            r@ == self.outputs(inputs@),
    ;

    /// Point mutation at the brain's own mutation size.
    fn mutate(&mut self, rng: &mut SimRng);

    /// Crossover with `other` at the brain's own crossover-point count.
    fn crossover(&self, other: &Self, rng: &mut SimRng) -> Self;

    fn replicate(&self) -> Self;
}

/// Output `i` of a brain, or 0 where the brain produced fewer outputs.
pub open spec fn out_at(s: Seq<i64>, i: int) -> i64 {
    if 0 <= i < s.len() {
        s[i]
    } else {
        0
    }
}

pub fn output_at(out: &Vec<i64>, i: usize) -> (r: i64)
    ensures
        r == out_at(out@, i as int),
{
    if i < out.len() {
        out[i]
    } else {
        0
    }
}

/// An agent's decision for one tick.
#[derive(Clone, Copy, Debug)]
pub struct Decision {
    pub mate: i64,
    pub node: i64,
    /// Mapped through a sigmoid to an energy-exchange amount.
    pub rate: i64,
    pub signal: i64,
    pub connect_signal: i64,
    pub sever_choice: i64,
    pub pull: i64,
    /// Memory for the next tick.
    pub memory: [i64; TOTAL_MEMORY],
}

/// `d` is the decision read positionally from final-brain outputs `out`.
pub open spec fn decoded(d: Decision, out: Seq<i64>) -> bool {
    &&& d.mate == out_at(out, 0)
    &&& d.node == out_at(out, 1)
    &&& d.rate == out_at(out, 2)
    &&& d.signal == out_at(out, 3)
    &&& d.connect_signal == out_at(out, 4)
    &&& d.sever_choice == out_at(out, 5)
    &&& d.pull == out_at(out, 6)
    &&& forall|k: int| 0 <= k < TOTAL_MEMORY ==> #[trigger] d.memory@[k] == out_at(out, FINAL_STATIC_OUTPUTS + k)
}

impl Decision {
    pub open spec fn is_default(&self) -> bool {
        &&& self.mate == -1
        &&& self.node == -1
        &&& self.rate == 0
        &&& self.signal == 0
        &&& self.connect_signal == 0
        &&& self.sever_choice == 0
        &&& self.pull == 0
        &&& forall|k: int| 0 <= k < TOTAL_MEMORY ==> #[trigger] self.memory@[k] == 0
    }

    /// Reads the final brain's outputs positionally.
    pub fn from_outputs(out: &Vec<i64>) -> (r: Decision)
        ensures
            decoded(r, out@),
    {
        let memory: [i64; TOTAL_MEMORY] = [
            output_at(out, 7),
            output_at(out, 8),
            output_at(out, 9),
            output_at(out, 10),
        ];
        Decision {
            mate: output_at(out, 0),
            node: output_at(out, 1),
            rate: output_at(out, 2),
            signal: output_at(out, 3),
            connect_signal: output_at(out, 4),
            sever_choice: output_at(out, 5),
            pull: output_at(out, 6),
            memory,
        }
    }
}

impl Default for Decision {
    fn default() -> (r: Decision)
        ensures
            r.is_default(),
    {
        Decision {
            mate: -1,
            node: -1,
            rate: 0,
            signal: 0,
            connect_signal: 0,
            sever_choice: 0,
            pull: 0,
            memory: [0, 0, 0, 0],
        }
    }
}

/// Energy a bot ends up with after asking its node for `asking` (negative:
/// giving energy back), before the cap: it cannot give more than it has.
pub open spec fn granted(energy: i64, asking: i64) -> int {
    if asking < -energy {
        -energy
    } else {
        asking as int
    }
}

pub open spec fn bot_after_exchange(energy: i64, asking: i64) -> i64 {
    let e = clamp64(energy + granted(energy, asking));
    if e > MAX_ENERGY {
        MAX_ENERGY
    } else {
        e
    }
}

pub open spec fn node_after_exchange(node_energy: i64, energy: i64, asking: i64) -> i64 {
    clamp64(node_energy - granted(energy, asking))
}

/// An agent: three brains, energy, signalling state and memory.
pub struct Bot<B> {
    pub bot_brain: B,
    pub node_brain: B,
    pub final_brain: B,
    pub energy: i64,
    pub signal: i64,
    pub connect_signal: i64,
    pub memory: [i64; TOTAL_MEMORY],
    pub decision: Decision,
}

impl<B> Bot<B> {
    /// A newly created agent: starting energy, neutral signals, empty
    /// memory and no decision yet.
    pub open spec fn is_fresh(&self) -> bool {
        &&& self.energy == DEFAULT_ENERGY
        &&& self.signal == 0
        &&& self.connect_signal == 0
        &&& forall|k: int| 0 <= k < TOTAL_MEMORY ==> #[trigger] self.memory@[k] == 0
        &&& self.decision.is_default()
    }
}

impl<B: Brain> Bot<B> {
    /// A fresh agent with random brains and the starting energy.
    pub fn new(rng: &mut SimRng) -> (r: Self)
        ensures
            r.energy == DEFAULT_ENERGY,
            r.signal == 0,
            r.connect_signal == 0,
            forall|k: int| 0 <= k < TOTAL_MEMORY ==> #[trigger] r.memory@[k] == 0,
            r.decision.is_default(),
            r.is_fresh(),
    {
        let bot_brain = B::random(&bot_brain_config(), rng);
        let node_brain = B::random(&node_brain_config(), rng);
        let final_brain = B::random(&final_brain_config(), rng);
        Bot {
            bot_brain,
            node_brain,
            final_brain,
            energy: DEFAULT_ENERGY,
            signal: 0,
            connect_signal: 0,
            memory: [0, 0, 0, 0],
            decision: Decision::default(),
        }
    }

    /// Mutates all three brains; the agent's state is left as it was.
    pub fn mutate(&mut self, rng: &mut SimRng)
        ensures
            final(self).energy == old(self).energy,
            final(self).signal == old(self).signal,
            final(self).connect_signal == old(self).connect_signal,
            final(self).memory == old(self).memory,
            final(self).decision == old(self).decision,
    {
        self.bot_brain.mutate(rng);
        self.node_brain.mutate(rng);
        self.final_brain.mutate(rng);
    }

    /// The offspring of a mating with `other`: crossed-over, then mutated
    /// brains; half of this agent's energy; its signal, memory and decision.
    pub fn crossed_child(&self, other: &Self, rng: &mut SimRng) -> (r: Self)
        ensures
            r.energy == half_spec(self.energy),
            r.signal == self.signal,
            r.connect_signal == 0,
            r.memory == self.memory,
            r.decision == self.decision,
    {
        let mut b = Bot {
            bot_brain: self.bot_brain.crossover(&other.bot_brain, rng),
            node_brain: self.node_brain.crossover(&other.node_brain, rng),
            final_brain: self.final_brain.crossover(&other.final_brain, rng),
            energy: half(self.energy),
            signal: self.signal,
            connect_signal: 0,
            memory: self.memory,
            decision: self.decision,
        };
        b.mutate(rng);
        b
    }

    /// The offspring of a division: as `crossed_child`, with cloned brains.
    pub fn cloned_child(&self, rng: &mut SimRng) -> (r: Self)
        ensures
            r.energy == half_spec(self.energy),
            r.signal == self.signal,
            r.connect_signal == 0,
            r.memory == self.memory,
            r.decision == self.decision,
    {
        let mut b = Bot {
            bot_brain: self.bot_brain.replicate(),
            node_brain: self.node_brain.replicate(),
            final_brain: self.final_brain.replicate(),
            energy: half(self.energy),
            signal: self.signal,
            connect_signal: 0,
            memory: self.memory,
            decision: self.decision,
        };
        b.mutate(rng);
        b
    }

    /// Sexual reproduction with `other`: this agent's energy is halved and
    /// the offspring carries the halved energy (see `crossed_child`).
    pub fn mate(&mut self, other: &Self, rng: &mut SimRng) -> (r: Self)
        ensures
            final(self).energy == half_spec(old(self).energy),
            final(self).signal == old(self).signal,
            final(self).connect_signal == old(self).connect_signal,
            final(self).memory == old(self).memory,
            final(self).decision == old(self).decision,
            final(self).bot_brain == old(self).bot_brain,
            final(self).node_brain == old(self).node_brain,
            final(self).final_brain == old(self).final_brain,
            r.energy == final(self).energy,
            r.signal == old(self).signal,
            r.connect_signal == 0,
            r.memory == old(self).memory,
            r.decision == old(self).decision,
    {
        let b = self.crossed_child(other, rng);
        self.energy = half(self.energy);
        b
    }

    /// Asexual reproduction: as `mate`, with cloned brains.
    pub fn divide(&mut self, rng: &mut SimRng) -> (r: Self)
        ensures
            final(self).energy == half_spec(old(self).energy),
            final(self).signal == old(self).signal,
            final(self).connect_signal == old(self).connect_signal,
            final(self).memory == old(self).memory,
            final(self).decision == old(self).decision,
            final(self).bot_brain == old(self).bot_brain,
            final(self).node_brain == old(self).node_brain,
            final(self).final_brain == old(self).final_brain,
            r.energy == final(self).energy,
            r.signal == old(self).signal,
            r.connect_signal == 0,
            r.memory == old(self).memory,
            r.decision == old(self).decision,
    {
        let b = self.cloned_child(rng);
        self.energy = half(self.energy);
        b
    }
}

impl<B> Bot<B> {
    /// Commits the tick's decision: pays the existence cost and makes the
    /// decided signal, connect signal and memory visible.
    pub fn cycle(&mut self)
        ensures
            final(self).energy == clamp64(old(self).energy - EXISTENCE_COST),
            final(self).signal == old(self).decision.signal,
            final(self).connect_signal == old(self).decision.connect_signal,
            final(self).memory == old(self).decision.memory,
            final(self).bot_brain == old(self).bot_brain,
            final(self).node_brain == old(self).node_brain,
            final(self).final_brain == old(self).final_brain,
            final(self).decision == old(self).decision,
    {
        self.energy = sat_sub(self.energy, EXISTENCE_COST);
        self.signal = self.decision.signal;
        self.connect_signal = self.decision.connect_signal;
        self.memory = self.decision.memory;
    }

    /// Takes `asking` energy from the node (or gives it back when negative),
    /// never giving more than the agent has and never above `MAX_ENERGY`.
    pub fn exchange_energy(&mut self, node_energy: &mut i64, asking: i64)
        ensures
            final(self).energy == bot_after_exchange(old(self).energy, asking),
            *final(node_energy) == node_after_exchange(*old(node_energy), old(self).energy, asking),
            final(self).signal == old(self).signal,
            final(self).connect_signal == old(self).connect_signal,
            final(self).memory == old(self).memory,
            final(self).decision == old(self).decision,
    {
        let e = self.energy as i128;
        let mut ask = asking as i128;
        if ask < -e {
            ask = -e;
        }
        let mut ne = clamp_wide(e + ask);
        if ne > MAX_ENERGY {
            ne = MAX_ENERGY;
        }
        self.energy = ne;
        *node_energy = clamp_wide(*node_energy as i128 - ask);
    }
}

} // verus!
