use vstd::prelude::*;
use crate::arith::{clamp64, clamp_wide, half, half_spec, sat_add, sat_mul, sat_sub};
use crate::bot::{Bot, Brain, EXISTENCE_COST, bot_after_exchange, node_after_exchange};
use crate::cascade::count_to_input;
use crate::instr::quotient;
use crate::rng::{SimRng, chance, coin, draw_below};

verus! {

broadcast use vstd::seq_lib::group_seq_properties;

/// A node at or above this energy splits in two.
pub const ENERGY_THRESHOLD: i64 = 500000;
/// What an empty node loses per tick once the mesh is full.
pub const ENERGY_FULL_COST: i64 = 5000;
/// Growth per tick is `energy * 35 / 100 / node count`, times a multiplier.
pub const GROWTH_NUMERATOR: i64 = 35;
pub const GROWTH_DENOMINATOR: i64 = 100;
/// The multiplier is in thousandths: 1000, plus a random variation in
/// `[-VARIATION, VARIATION)`, plus the edge bonuses.
pub const MULTIPLIER_UNIT: i64 = 1000;
pub const VARIATION: i64 = 100;
pub const HAVE_EDGE_BONUS: i64 = 1000;
pub const THREE_EDGE_BONUS: i64 = 2000;
/// Each connection carries `energy / DIFFUSION_DIVISOR` away per tick.
pub const DIFFUSION_DIVISOR: i64 = 1000;

pub open spec fn edge_bonus(connections: i64) -> int {
    (if connections != 0 {
        HAVE_EDGE_BONUS
    } else {
        0
    }) + (if connections == 3 {
        THREE_EDGE_BONUS
    } else {
        0
    })
}

/// Energy a node gains in one growth step when the mesh is not full.
pub open spec fn growth(energy: i64, connections: i64, total_nodes: usize, variation: i64) -> i64 {
    clamp64(
        quotient(
            energy * GROWTH_NUMERATOR * (MULTIPLIER_UNIT + variation + edge_bonus(connections)),
            GROWTH_DENOMINATOR * MULTIPLIER_UNIT * total_nodes,
        ),
    )
}

/// `energy` is what one growth step can leave a node with: upkeep paid
/// by an empty node of a full mesh, otherwise growth at some variation.
pub open spec fn grown_energy<B>(before: Node<B>, energy: i64, capped: bool, total_nodes: usize) -> bool {
    if capped && before.bots@.len() == 0 {
        energy == clamp64(before.energy - ENERGY_FULL_COST)
    } else {
        exists|v: i64|
            -VARIATION <= v < VARIATION && energy == clamp64(
                before.energy + #[trigger] growth(before.energy, before.connections, total_nodes, v),
            )
    }
}

/// Energy a node sends out in the first diffusion pass.
pub open spec fn diffusion(connections: i64, energy: i64) -> i64 {
    clamp64(connections * quotient(energy as int, DIFFUSION_DIVISOR as int))
}

pub open spec fn is_alive<B>(b: Bot<B>) -> bool {
    b.energy > 0
}

/// The node's energy after its agents, in order, exchanged `asks`.
pub open spec fn energy_after_asks<B>(energy: i64, bots: Seq<Bot<B>>, asks: Seq<i64>) -> i64
    decreases bots.len(),
{
    if bots.len() == 0 || asks.len() == 0 {
        energy
    } else {
        node_after_exchange(
            energy_after_asks(energy, bots.drop_last(), asks.drop_last()),
            bots.last().energy,
            asks.last(),
        )
    }
}

/// An agent's contribution to its node's pull: its pull decision divided
/// by `PULL_DIVISOR`, rounded down, which damps its magnitude.
pub open spec fn pull_share(p: i64) -> i64 {
    (p as int / PULL_DIVISOR as int) as i64
}

/// Sum, saturating at each step, of the first `k` agents' pull shares.
pub open spec fn pull_sum<B>(bots: Seq<Bot<B>>, k: int) -> i64
    decreases k,
{
    if k <= 0 {
        0
    } else {
        clamp64(pull_sum(bots, k - 1) + pull_share(bots[k - 1].decision.pull))
    }
}

pub const PULL_DIVISOR: i64 = 256;

/// `after` is `before` once it has committed its decision and paid the
/// existence cost; its brains may have mutated.
pub open spec fn cycled<B>(before: Bot<B>, after: Bot<B>) -> bool {
    &&& after.energy == clamp64(before.energy - EXISTENCE_COST)
    &&& after.signal == before.decision.signal
    &&& after.connect_signal == before.decision.connect_signal
    &&& after.memory == before.decision.memory
    &&& after.decision == before.decision
}

/// `after` is `before` settled through the cycled agents `c`: residents
/// then arrivals, each cycled, of which exactly the living remain.
pub open spec fn settled_via<B>(before: Node<B>, after: Node<B>, c: Seq<Bot<B>>) -> bool {
    let merged = before.bots@ + before.moved_bots@;
    &&& c.len() == merged.len()
    &&& forall|k: int| 0 <= k < c.len() ==> cycled(merged[k], #[trigger] c[k])
    &&& after.bots@ == c.filter(|b: Bot<B>| is_alive(b))
    &&& after.deaths == c.len() - after.bots@.len()
    &&& after.moved_bots@.len() == 0
    &&& after.moves == before.moved_bots@.len()
    &&& after.energy == before.energy
    &&& after.connections == before.connections
    &&& after.pull == before.pull
    &&& after.diffuse == before.diffuse
}

/// `after` is `before` at the end of a tick (see `Node::settle`).
pub open spec fn settled<B>(before: Node<B>, after: Node<B>) -> bool {
    exists|c: Seq<Bot<B>>| #[trigger] settled_via(before, after, c)
}

/// Energy an agent needs before its mating decision is carried out.
pub const MATE_ENERGY: i64 = 400;

/// Agent `b` of a node of `pop` agents has a mating decision that is carried
/// out: it names an agent of the node, and `b` has the energy for it.
pub open spec fn will_mate<B>(b: Bot<B>, pop: int) -> bool {
    0 <= b.decision.mate < pop && b.energy >= MATE_ENERGY
}

/// How many of the first `k` agents of `s` mate.
pub open spec fn births<B>(s: Seq<Bot<B>>, pop: int, k: int) -> int
    decreases k,
{
    if k <= 0 {
        0
    } else {
        births(s, pop, k - 1) + if will_mate(s[k - 1], pop) {
            1int
        } else {
            0int
        }
    }
}

/// Agent `b` leaves its node: its decision names a choice other than its
/// own node, among `choices` choices.
pub open spec fn leaves<B>(b: Bot<B>, choices: int) -> bool {
    0 < b.decision.node < choices
}

/// Agents that differ at most in energy.
pub open spec fn same_but_energy<B>(a: Bot<B>, b: Bot<B>) -> bool {
    &&& a.signal == b.signal
    &&& a.connect_signal == b.connect_signal
    &&& a.memory == b.memory
    &&& a.decision == b.decision
    &&& a.bot_brain == b.bot_brain
    &&& a.node_brain == b.node_brain
    &&& a.final_brain == b.final_brain
}

/// Agent `k` of `s` after the matings in `m`: it keeps all but energy,
/// which is halved if it mated; its offspring then sits at `s.len()` plus
/// the number of earlier matings, with the same halved energy, its
/// decision, and a neutral connect signal.
pub open spec fn mated_at<B>(s: Seq<Bot<B>>, m: Seq<Bot<B>>, k: int) -> bool {
    let pop = s.len() as int;
    &&& same_but_energy(m[k], s[k])
    &&& m[k].energy == if will_mate(s[k], pop) {
        half_spec(s[k].energy)
    } else {
        s[k].energy
    }
    &&& will_mate(s[k], pop) ==> {
        let c = m[pop + births(s, pop, k)];
        &&& pop + births(s, pop, k) < m.len()
        &&& c.energy == half_spec(s[k].energy)
        &&& c.decision == s[k].decision
        &&& c.connect_signal == 0
    }
}

proof fn lemma_births_grow<B>(s: Seq<Bot<B>>, pop: int, k: int, j: int)
    requires
        0 <= k <= j,
    ensures
        0 <= births(s, pop, k) <= births(s, pop, j),
        births(s, pop, j) <= j,
        k < j && will_mate(s[k], pop) ==> births(s, pop, k) + 1 <= births(s, pop, j),
    decreases j,
{
    if j > 0 {
        if k < j {
            lemma_births_grow(s, pop, k, j - 1);
        } else {
            lemma_births_grow(s, pop, j - 1, j - 1);
        }
    }
}

/// `m` is the node's agents `s` after every agent that `will_mate` did.
pub open spec fn mated<B>(s: Seq<Bot<B>>, m: Seq<Bot<B>>) -> bool {
    &&& m.len() == s.len() + births(s, s.len() as int, s.len() as int)
    &&& s.len() <= m.len()
    &&& forall|k: int| 0 <= k < s.len() ==> #[trigger] mated_at(s, m, k)
}

/// Integer quotient rounded toward zero, for a positive divisor.
pub fn div_toward_zero(a: i128, d: i128) -> (r: i128)
    requires
        d > 0,
    ensures
        r == quotient(a as int, d as int),
{
    match a.checked_div(d) {
        Some(v) => v,
        None => 0,
    }
}

/// The energy growth of a node: `growth` computed without overflow.
pub fn growth_amount(energy: i64, connections: i64, total_nodes: usize, variation: i64) -> (r: i64)
    requires
        total_nodes > 0,
        total_nodes <= u32::MAX,
        -VARIATION <= variation < VARIATION,
    ensures
        r == growth(energy, connections, total_nodes, variation),
{
    let mut multiplier: i128 = MULTIPLIER_UNIT as i128 + variation as i128;
    if connections != 0 {
        multiplier = multiplier + HAVE_EDGE_BONUS as i128;
    }
    if connections == 3 {
        multiplier = multiplier + THREE_EDGE_BONUS as i128;
    }
    let e = energy as i128;
    proof {
        assert(-0x8000_0000_0000_0000 * 35 <= e * 35 <= 0x8000_0000_0000_0000 * 35) by (nonlinear_arith)
            requires
                -0x8000_0000_0000_0000 <= e <= 0x8000_0000_0000_0000,
        ;
        let p = e * 35;
        assert(-0x8000_0000_0000_0000 * 35 * 5000 <= p * multiplier <= 0x8000_0000_0000_0000 * 35
            * 5000) by (nonlinear_arith)
            requires
                -0x8000_0000_0000_0000 * 35 <= p <= 0x8000_0000_0000_0000 * 35,
                0 <= multiplier <= 5000,
        ;
        assert(1 <= 100000 * total_nodes <= 100000 * 0xffff_ffff) by (nonlinear_arith)
            requires
                1 <= total_nodes <= 0xffff_ffff,
        ;
    }
    let scaled = e * (GROWTH_NUMERATOR as i128) * multiplier;
    let divisor = (GROWTH_DENOMINATOR as i128) * (MULTIPLIER_UNIT as i128) * (total_nodes as i128);
    clamp_wide(div_toward_zero(scaled, divisor))
}

/// The diffusion amount: `diffusion` computed with saturation.
pub fn diffusion_amount(connections: i64, energy: i64) -> (r: i64)
    ensures
        r == diffusion(connections, energy),
{
    let share = div_toward_zero(energy as i128, DIFFUSION_DIVISOR as i128);
    proof {
        vstd::arithmetic::div_mod::lemma_div_is_ordered_by_denominator(
            vstd::math::abs(energy as int) as int,
            1,
            1000,
        );
        vstd::arithmetic::div_mod::lemma_div_basics(vstd::math::abs(energy as int) as int);
    }
    sat_mul(connections, share as i64)
}

/// A location holding energy and a population of agents.
pub struct Node<B> {
    pub energy: i64,
    pub bots: Vec<Bot<B>>,
    /// Agents arriving this tick, merged into `bots` when the tick settles.
    pub moved_bots: Vec<Bot<B>>,
    pub deaths: i64,
    pub moves: i64,
    /// Number of live edges, recounted every tick.
    pub connections: i64,
    /// Sum of the agents' pull decisions this tick.
    pub pull: i64,
    /// Energy sent out in this tick's diffusion.
    pub diffuse: i64,
}

impl<B> Node<B> {
    pub fn new(energy: i64) -> (r: Self)
        ensures
            r.energy == energy,
            r.bots@.len() == 0,
            r.moved_bots@.len() == 0,
            r.deaths == 0 && r.moves == 0 && r.connections == 0 && r.pull == 0 && r.diffuse == 0,
    {
        Node {
            energy,
            bots: Vec::new(),
            moved_bots: Vec::new(),
            deaths: 0,
            moves: 0,
            connections: 0,
            pull: 0,
            diffuse: 0,
        }
    }

    /// First diffusion pass: fixes the outgoing amount and pays it.
    pub fn diffuse(&mut self)
        ensures
            final(self).diffuse == diffusion(old(self).connections, old(self).energy),
            final(self).energy == clamp64(old(self).energy - final(self).diffuse),
            final(self).connections == old(self).connections,
            final(self).bots == old(self).bots,
            final(self).moved_bots == old(self).moved_bots,
            final(self).pull == old(self).pull,
            final(self).deaths == old(self).deaths,
            final(self).moves == old(self).moves,
    {
        self.diffuse = diffusion_amount(self.connections, self.energy);
        self.energy = sat_sub(self.energy, self.diffuse);
    }

    /// One growth step. A full mesh makes an empty node pay upkeep;
    /// otherwise it grows by `growth` at some variation in range.
    pub fn grow(&mut self, capped: bool, total_nodes: usize, rng: &mut SimRng)
        requires
            0 < total_nodes <= u32::MAX,
        ensures
            grown_energy(*old(self), final(self).energy, capped, total_nodes),
            final(self).bots == old(self).bots,
            final(self).connections == old(self).connections,
            final(self).moved_bots == old(self).moved_bots,
            final(self).pull == old(self).pull,
            final(self).deaths == old(self).deaths,
            final(self).moves == old(self).moves,
            final(self).diffuse == old(self).diffuse,
    {
        if capped && self.bots.len() == 0 {
            self.energy = sat_sub(self.energy, ENERGY_FULL_COST);
        } else {
            let v = draw_below(rng, (2 * VARIATION) as u64) as i64 - VARIATION;
            let g = growth_amount(self.energy, self.connections, total_nodes, v);
            self.energy = sat_add(self.energy, g);
        }
    }

    pub open spec fn splits(&self) -> bool {
        self.energy >= ENERGY_THRESHOLD
    }

    pub fn should_split(&self) -> (r: bool)
        ensures
            r == self.splits(),
    {
        self.energy >= ENERGY_THRESHOLD
    }

    pub open spec fn obliterates(&self, position_finite: bool) -> bool {
        self.energy <= 0 || !position_finite
    }

    /// Whether the node dies: it has run out of energy, or its position
    /// (judged by the caller) is no longer finite.
    pub fn should_obliterate(&self, position_finite: bool) -> (r: bool)
        ensures
            r == self.obliterates(position_finite),
    {
        self.energy <= 0 || !position_finite
    }

    /// Halves the node's energy, for a split.
    pub fn halve_energy(&mut self)
        ensures
            final(self).energy == half_spec(old(self).energy),
            final(self).bots == old(self).bots,
    {
        self.energy = half(self.energy);
    }

    /// Removes every agent with energy at or below zero, keeping the order
    /// of the others, and records how many died.
    pub fn remove_dead(&mut self)
        requires
            old(self).bots@.len() <= i64::MAX,
        ensures
            final(self).bots@ == old(self).bots@.filter(|b: Bot<B>| is_alive(b)),
            final(self).deaths == old(self).bots@.len() - final(self).bots@.len(),
            final(self).moves == old(self).moves,
            final(self).energy == old(self).energy,
            final(self).moved_bots == old(self).moved_bots,
            final(self).connections == old(self).connections,
            final(self).pull == old(self).pull,
            final(self).diffuse == old(self).diffuse,
    {
        let ghost orig = self.bots@;
        let mut rest: Vec<Bot<B>> = Vec::new();
        std::mem::swap(&mut self.bots, &mut rest);
        let mut i: usize = 0;
        let n = rest.len();
        let mut deaths: i64 = 0;
        while rest.len() > 0
            invariant
                n == orig.len(),
                i + rest@.len() == n,
                rest@ == orig.skip(i as int),
                self.bots@ == orig.take(i as int).filter(|b: Bot<B>| is_alive(b)),
                deaths == i - self.bots@.len(),
                self.bots@.len() <= i,
                n <= i64::MAX,
                self.moves == old(self).moves,
                self.energy == old(self).energy,
                self.moved_bots == old(self).moved_bots,
                self.connections == old(self).connections,
                self.pull == old(self).pull,
                self.diffuse == old(self).diffuse,
            decreases rest@.len(),
        {
            let b = rest.remove(0);
            proof {
                assert(orig.take(i + 1) == orig.take(i as int).push(b));
                orig.take(i as int).lemma_filter_push(b, |b: Bot<B>| is_alive(b));
                assert(rest@ =~= orig.skip(i + 1));
            }
            if b.energy > 0 {
                self.bots.push(b);
            } else {
                deaths = deaths + 1;
            }
            i = i + 1;
        }
        proof {
            assert(orig.take(n as int) =~= orig);
        }
        self.deaths = deaths;
    }

    /// Moves each agent, on a coin flip, out into the returned list; the
    /// others stay in order. No agent is lost or duplicated.
    pub fn split_off_bots(&mut self, rng: &mut SimRng) -> (r: Vec<Bot<B>>)
        ensures
            final(self).bots@.to_multiset().add(r@.to_multiset()) == old(self).bots@.to_multiset(),
            final(self).bots@.len() + r@.len() == old(self).bots@.len(),
            final(self).energy == old(self).energy,
            final(self).moved_bots == old(self).moved_bots,
            final(self).connections == old(self).connections,
    {
        let ghost orig = self.bots@;
        let mut rest: Vec<Bot<B>> = Vec::new();
        std::mem::swap(&mut self.bots, &mut rest);
        let mut gone: Vec<Bot<B>> = Vec::new();
        let mut i: usize = 0;
        let n = rest.len();
        while rest.len() > 0
            invariant
                n == orig.len(),
                i + rest@.len() == n,
                rest@ == orig.skip(i as int),
                self.bots@.to_multiset().add(gone@.to_multiset()) == orig.take(i as int).to_multiset(),
                self.bots@.len() + gone@.len() == i,
                self.energy == old(self).energy,
                self.moved_bots == old(self).moved_bots,
                self.connections == old(self).connections,
            decreases rest@.len(),
        {
            let b = rest.remove(0);
            proof {
                assert(orig.take(i + 1) == orig.take(i as int).push(b));
                assert(rest@ =~= orig.skip(i + 1));
            }
            if coin(rng) {
                gone.push(b);
            } else {
                self.bots.push(b);
            }
            proof {
                assert(self.bots@.to_multiset().add(gone@.to_multiset()) =~= orig.take(i + 1).to_multiset());
            }
            i = i + 1;
        }
        proof {
            assert(orig.take(n as int) =~= orig);
        }
        gone
    }

    /// Takes out, in order, the first `pop` agents that leave for one of
    /// `choices` choices; the others and the agents after them stay in order.
    pub fn take_leavers(&mut self, pop: usize, choices: usize) -> (r: Vec<Bot<B>>)
        requires
            pop <= old(self).bots@.len(),
        ensures
            r@ == old(self).bots@.take(pop as int).filter(|b: Bot<B>| leaves(b, choices as int)),
            final(self).bots@ == old(self).bots@.take(pop as int).filter(|b: Bot<B>| !leaves(b, choices as int))
                + old(self).bots@.skip(pop as int),
            final(self).energy == old(self).energy,
            final(self).moved_bots == old(self).moved_bots,
            final(self).pull == old(self).pull,
            final(self).connections == old(self).connections,
    {
        let ghost orig = self.bots@;
        let mut rest: Vec<Bot<B>> = Vec::new();
        std::mem::swap(&mut self.bots, &mut rest);
        let mut gone: Vec<Bot<B>> = Vec::new();
        let mut i: usize = 0;
        while i < pop
            invariant
                pop <= orig.len(),
                i <= pop,
                rest@ == orig.skip(i as int),
                self.bots@ == orig.take(i as int).filter(|b: Bot<B>| !leaves(b, choices as int)),
                gone@ == orig.take(i as int).filter(|b: Bot<B>| leaves(b, choices as int)),
                self.energy == old(self).energy,
                self.moved_bots == old(self).moved_bots,
                self.pull == old(self).pull,
                self.connections == old(self).connections,
            decreases pop - i,
        {
            let b = rest.remove(0);
            proof {
                assert(orig.take(i + 1) == orig.take(i as int).push(b));
                orig.take(i as int).lemma_filter_push(b, |b: Bot<B>| leaves(b, choices as int));
                orig.take(i as int).lemma_filter_push(b, |b: Bot<B>| !leaves(b, choices as int));
                assert(rest@ =~= orig.skip(i + 1));
            }
            let t = b.decision.node;
            if 0 < t && (t as u64) < (choices as u64) {
                gone.push(b);
            } else {
                self.bots.push(b);
            }
            i = i + 1;
        }
        self.bots.append(&mut rest);
        gone
    }

    /// Recomputes the node's pull from its agents' decisions.
    pub fn accumulate_pull(&mut self)
        ensures
            final(self).pull == pull_sum(old(self).bots@, old(self).bots@.len() as int),
            final(self).bots == old(self).bots,
            final(self).moved_bots == old(self).moved_bots,
            final(self).energy == old(self).energy,
            final(self).connections == old(self).connections,
    {
        let mut p: i64 = 0;
        let mut k: usize = 0;
        while k < self.bots.len()
            invariant
                k <= self.bots@.len(),
                self.bots == old(self).bots,
                p == pull_sum(self.bots@, k as int),
            decreases self.bots@.len() - k,
        {
            let share = match self.bots[k].decision.pull.checked_div_euclid(PULL_DIVISOR) {
                Some(v) => v,
                None => 0,
            };
            p = sat_add(p, share);
            k = k + 1;
        }
        self.pull = p;
    }

    /// Hands each agent `asks[k]` energy from the node (see
    /// `Bot::exchange_energy`), in order.
    pub fn exchange_energy(&mut self, asks: &Vec<i64>)
        requires
            asks@.len() == old(self).bots@.len(),
        ensures
            final(self).bots@.len() == old(self).bots@.len(),
            forall|k: int| 0 <= k < old(self).bots@.len() ==> #[trigger] final(self).bots@[k].energy
                == bot_after_exchange(old(self).bots@[k].energy, asks@[k]),
            final(self).energy == energy_after_asks(old(self).energy, old(self).bots@, asks@),
    {
        let n = self.bots.len();
        let mut k: usize = 0;
        while k < n
            invariant
                n == old(self).bots@.len(),
                asks@.len() == n,
                self.bots@.len() == n,
                k <= n,
                forall|j: int| 0 <= j < k ==> #[trigger] self.bots@[j].energy == bot_after_exchange(
                    old(self).bots@[j].energy,
                    asks@[j],
                ),
                forall|j: int| k <= j < n ==> #[trigger] self.bots@[j] == old(self).bots@[j],
                self.energy == energy_after_asks(
                    old(self).energy,
                    old(self).bots@.take(k as int),
                    asks@.take(k as int),
                ),
            decreases n - k,
        {
            let mut e = self.energy;
            self.bots[k].exchange_energy(&mut e, asks[k]);
            self.energy = e;
            proof {
                let bs = old(self).bots@.take(k + 1);
                let as_ = asks@.take(k + 1);
                assert(bs.drop_last() =~= old(self).bots@.take(k as int));
                assert(as_.drop_last() =~= asks@.take(k as int));
            }
            k = k + 1;
        }
        proof {
            assert(old(self).bots@.take(n as int) =~= old(self).bots@);
            assert(asks@.take(n as int) =~= asks@);
        }
    }
}

impl<B: Brain> Node<B> {
    /// Ends the tick for this node: arrivals join after the residents, every
    /// agent commits its decision and pays the existence cost (see
    /// `cycled`), may mutate (one chance in `mutation_per_million` per
    /// million), and exactly the agents left at or below zero energy are
    /// removed (see `settled`).
    pub fn settle(&mut self, mutation_per_million: u64, rng: &mut SimRng)
        requires
            old(self).bots@.len() + old(self).moved_bots@.len() <= i64::MAX,
        ensures
            settled(*old(self), *final(self)),
    {
        self.moves = self.moved_bots.len() as i64;
        let ghost merged = self.bots@ + self.moved_bots@;
        self.bots.append(&mut self.moved_bots);
        let n = self.bots.len();
        let mut k: usize = 0;
        while k < n
            invariant
                n == self.bots@.len(),
                n == merged.len(),
                n <= i64::MAX,
                k <= n,
                self.moved_bots@.len() == 0,
                self.moves == old(self).moved_bots@.len(),
                self.energy == old(self).energy,
                self.connections == old(self).connections,
                self.pull == old(self).pull,
                self.diffuse == old(self).diffuse,
                forall|j: int| 0 <= j < k ==> cycled(merged[j], #[trigger] self.bots@[j]),
                forall|j: int| k <= j < n ==> #[trigger] self.bots@[j] == merged[j],
            decreases n - k,
        {
            self.bots[k].cycle();
            if chance(rng, mutation_per_million) {
                self.bots[k].mutate(rng);
            }
            k = k + 1;
        }
        let ghost c = self.bots@;
        self.remove_dead();
        proof {
            assert(settled_via(*old(self), *self, c));
        }
    }

    /// Carries out agent `ib`'s mating decision. A decision naming the agent
    /// itself divides it; one naming another agent of the node mates with
    /// it, leaving the partner untouched; the offspring joins the node. Any
    /// other decision is ignored.
    pub fn reproduce(&mut self, ib: usize, rng: &mut SimRng)
        requires
            ib < old(self).bots@.len(),
            old(self).bots@.len() < i64::MAX,
        ensures
            ({
                let m = old(self).bots@[ib as int].decision.mate;
                let n = old(self).bots@.len();
                if 0 <= m < n {
                    &&& final(self).bots@.len() == n + 1
                    &&& final(self).bots@[ib as int].energy == half_spec(old(self).bots@[ib as int].energy)
                    &&& final(self).bots@[n as int].energy == final(self).bots@[ib as int].energy
                    &&& final(self).bots@[n as int].decision == old(self).bots@[ib as int].decision
                    &&& final(self).bots@[n as int].connect_signal == 0
                    &&& same_but_energy(final(self).bots@[ib as int], old(self).bots@[ib as int])
                    &&& forall|k: int| 0 <= k < n && k != ib ==> #[trigger] final(self).bots@[k]
                        == old(self).bots@[k]
                } else {
                    final(self).bots@ == old(self).bots@
                }
            }),
            final(self).energy == old(self).energy,
            final(self).moved_bots == old(self).moved_bots,
            final(self).pull == old(self).pull,
            final(self).connections == old(self).connections,
    {
        let m = self.bots[ib].decision.mate;
        let n = self.bots.len();
        if m < 0 || m >= n as i64 {
            return;
        }
        let child = if m as usize == ib {
            self.bots[ib].cloned_child(rng)
        } else {
            self.bots[ib].crossed_child(&self.bots[m as usize], rng)
        };
        let e = half(self.bots[ib].energy);
        self.bots[ib].energy = e;
        self.bots.push(child);
    }

    /// Carries out, in index order, the mating decision of each of the
    /// node's agents that `will_mate` (see `mated`); offspring are appended.
    pub fn mate_all(&mut self, rng: &mut SimRng)
        requires
            old(self).bots@.len() < 0x4000_0000_0000_0000,
        ensures
            mated(old(self).bots@, final(self).bots@),
            final(self).energy == old(self).energy,
            final(self).moved_bots == old(self).moved_bots,
            final(self).pull == old(self).pull,
            final(self).connections == old(self).connections,
    {
        let ghost orig = self.bots@;
        let pop = self.bots.len();
        let mut ib: usize = 0;
        while ib < pop
            invariant
                pop == orig.len(),
                pop < 0x4000_0000_0000_0000,
                ib <= pop,
                0 <= births(orig, pop as int, ib as int) <= ib,
                self.bots@.len() == pop + births(orig, pop as int, ib as int),
                self.energy == old(self).energy,
                self.moved_bots == old(self).moved_bots,
                self.pull == old(self).pull,
                self.connections == old(self).connections,
                forall|k: int| ib <= k < pop ==> #[trigger] self.bots@[k] == orig[k],
                forall|k: int| 0 <= k < ib ==> mated_at(orig, self.bots@, k),
            decreases pop - ib,
        {
            proof {
                lemma_births_grow(orig, pop as int, 0, ib as int);
                assert forall|k: int| 0 <= k < ib && will_mate(orig[k], pop as int) implies births(orig, pop as int, k) + 1
                    <= births(orig, pop as int, ib as int) by {
                    lemma_births_grow(orig, pop as int, k, ib as int);
                }
            }
            let m = self.bots[ib].decision.mate;
            let e = self.bots[ib].energy;
            let ghost before = self.bots@;
            if 0 <= m && m < count_to_input(pop) && e >= MATE_ENERGY {
                self.reproduce(ib, rng);
                proof {
                    assert forall|k: int| 0 <= k < ib implies mated_at(orig, self.bots@, k) by {
                        assert(mated_at(orig, before, k));
                        if will_mate(orig[k], pop as int) {
                            lemma_births_grow(orig, pop as int, k, ib as int);
                            assert(pop + births(orig, pop as int, k) < before.len());
                            assert(self.bots@[pop + births(orig, pop as int, k)] == before[pop + births(orig, pop as int, k)]);
                        }
                        assert(self.bots@[k] == before[k]);
                    }
                }
            }
            proof {
                assert(births(orig, pop as int, ib + 1) == births(orig, pop as int, ib as int) + if will_mate(orig[ib as int], pop as int) {
                    1int
                } else {
                    0int
                });
            }
            ib = ib + 1;
        }
    }
}

} // verus!
