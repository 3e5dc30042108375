use vstd::prelude::*;
use crate::arith::{clamp64, half_spec, sat_add};
use crate::bot::{Bot, Brain, Decision, TOTAL_BOT_INPUTS, TOTAL_NODE_INPUTS, bot_after_exchange, decoded};
use crate::cascade::{
    Payload,
    bot_brain_inputs,
    bot_inputs,
    count_input,
    final_inputs,
    node_inputs,
    rank_of,
    sentinel_payload,
    count_to_input,
    final_brain_inputs,
    node_brain_inputs,
    rank_entry,
    tick_to_input,
};
use crate::rank::{Rank, RankSelector, inserted, sentinels};
use crate::instr::quotient;
use crate::node::{Node, leaves, mated, diffusion, energy_after_asks, grown_energy, pull_sum, settled};
use crate::rng::{SimRng, chance, coin, draw_below, draw_i64};
use crate::topology::{Topology, shifted};

verus! {

broadcast use {vstd::seq_lib::group_seq_properties, vstd::seq_lib::group_to_multiset_ensures};

/// Energy of the node created when the world is empty.
pub const NODE_STARTING_ENERGY: i64 = 200000;
/// From this many nodes on, nodes stop growing and empty ones pay upkeep.
pub const ENERGY_CUTOFF_AT: usize = 150;
/// Chance per million that an empty node of a full mesh gets a new agent.
pub const EMPTY_NODE_SPAWN_PER_MILLION: u64 = 5000;
/// Chance per million that two neighbors of an obliterated node are joined.
pub const CONNECT_PER_MILLION: u64 = 0;
/// Chance per million, per tick, that an agent mutates.
pub const MUTATION_PER_MILLION: u64 = 1;
/// Random spawning grows with the square of the node count over this.
pub const START_SPAWNING_AT: u64 = 50000;

/// How many agents a random spawn step creates in a world of `n` nodes,
/// given a draw uniform below `START_SPAWNING_AT` squared: the draw's
/// fraction of `(n / START_SPAWNING_AT)` squared, rounded down.
pub fn spawner_count(draw: u64, n: usize) -> (r: u64)
    requires
        draw < START_SPAWNING_AT * START_SPAWNING_AT,
        n < u32::MAX,
    ensures
        r == (draw as nat * n as nat * n as nat) / (START_SPAWNING_AT * START_SPAWNING_AT) as nat,
{
    let scale = START_SPAWNING_AT as u128 * START_SPAWNING_AT as u128;
    proof {
        assert(n as u128 * n as u128 <= 0xffff_ffff * 0xffff_ffffu128) by (nonlinear_arith)
            requires
                n <= 0xffff_ffff,
        ;
    }
    let nn = n as u128 * n as u128;
    proof {
        assert(draw * nn <= 2_500_000_000 * (0xffff_ffff * 0xffff_ffffu128)) by (nonlinear_arith)
            requires
                draw < 2_500_000_000,
                nn <= 0xffff_ffff * 0xffff_ffffu128,
        ;
        assert((draw * nn) / 2_500_000_000 <= 0xffff_ffff * 0xffff_ffffu128) by (nonlinear_arith)
            requires
                draw < 2_500_000_000,
                nn <= 0xffff_ffff * 0xffff_ffffu128,
                draw * nn <= 2_500_000_000 * (0xffff_ffff * 0xffff_ffffu128),
        ;
    }
    proof {
        assert(draw as nat * n as nat * n as nat == draw * nn) by (nonlinear_arith)
            requires
                nn == n * n,
        ;
    }
    ((draw as u128 * nn) / scale) as u64
}

/// `a` and `b` are the halves of `before` after a split: each has half its
/// energy, and together they hold exactly its agents.
pub open spec fn split_halves<B>(before: Node<B>, a: Node<B>, b: Node<B>) -> bool {
    &&& a.energy == half_spec(before.energy)
    &&& b.energy == a.energy
    &&& a.bots@.to_multiset().add(b.bots@.to_multiset()) == before.bots@.to_multiset()
}

/// `nb` is a choice list of node `i`: `i` itself first, then each
/// neighbor of `i` exactly once.
pub open spec fn valid_choices(n: int, t: Topology, i: int, nb: Seq<usize>) -> bool {
    &&& nb.len() >= 1
    &&& nb[0] == i
    &&& forall|k: int| 0 <= k < nb.len() ==> #[trigger] nb[k] < n
    &&& forall|k: int| 1 <= k < nb.len() ==> t.edge(i, #[trigger] nb[k] as int)
    &&& forall|k: int, l: int| 1 <= k < nb.len() && 1 <= l < nb.len() && k != l ==> #[trigger] nb[k] != #[trigger] nb[l]
    &&& forall|j: int| 0 <= j < n && #[trigger] t.edge(i, j) ==> exists|k: int|
        1 <= k < nb.len() && nb[k] == j
}

/// The entries agent `ib` of node `i` keeps after ranking the first `k`
/// nodes of `nb` with its node brain.
pub open spec fn node_ranked<B: Brain>(w: World<B>, i: int, ib: int, nb: Seq<usize>, random: i64, k: int) -> Seq<Rank<Payload>>
    decreases k,
{
    if k <= 0 {
        sentinels(TOTAL_NODE_INPUTS as nat, sentinel_payload())
    } else {
        let node = w.nodes@[i];
        let bot = node.bots@[ib];
        let other = w.nodes@[nb[k - 1] as int];
        let inputs = node_inputs(
            random,
            other.energy,
            count_input(other.bots@.len()),
            count_input(node.bots@.len()),
            bot.energy,
            node.connections,
            other.connections,
            count_input(w.tick as nat),
            bot.memory@,
        );
        inserted(node_ranked(w, i, ib, nb, random, k - 1), rank_of(count_input((k - 1) as nat), bot.node_brain.outputs(inputs)))
    }
}

/// The entries agent `ib` of node `i` keeps after ranking the first `k`
/// agents of its node with its bot brain.
pub open spec fn bot_ranked<B: Brain>(w: World<B>, i: int, ib: int, random: i64, k: int) -> Seq<Rank<Payload>>
    decreases k,
{
    if k <= 0 {
        sentinels(TOTAL_BOT_INPUTS as nat, sentinel_payload())
    } else {
        let node = w.nodes@[i];
        let bot = node.bots@[ib];
        let other = node.bots@[k - 1];
        let inputs = bot_inputs(
            random,
            node.energy,
            count_input(node.bots@.len()),
            bot.energy,
            other.energy,
            other.signal,
            node.connections,
            count_input(w.tick as nat),
            bot.memory@,
        );
        inserted(bot_ranked(w, i, ib, random, k - 1), rank_of(count_input((k - 1) as nat), bot.bot_brain.outputs(inputs)))
    }
}

/// The final brain's outputs for agent `ib` of node `i`, given its choice
/// list `nb` and the node's random value for the tick.
pub open spec fn final_outputs<B: Brain>(w: World<B>, i: int, ib: int, nb: Seq<usize>, random: i64) -> Seq<i64> {
    let node = w.nodes@[i];
    let bot = node.bots@[ib];
    bot.final_brain.outputs(
        final_inputs(
            random,
            node.energy,
            count_input(node.bots@.len()),
            bot.energy,
            count_input(ib as nat),
            node.connections,
            count_input(w.tick as nat),
            bot.memory@,
            node_ranked(w, i, ib, nb, random, nb.len() as int),
            bot_ranked(w, i, ib, random, node.bots@.len() as int),
        ),
    )
}

/// Every agent of `after` holds the decision its brains give in `before`,
/// for node `i`'s random value `rs[i]` and choice list `nbs[i]`.
pub open spec fn decided<B: Brain>(before: World<B>, after: World<B>, rs: Seq<i64>, nbs: Seq<Seq<usize>>) -> bool {
    &&& rs.len() == before.nodes@.len()
    &&& nbs.len() == before.nodes@.len()
    &&& forall|i: int| 0 <= i < before.nodes@.len() ==> valid_choices(before.nodes@.len() as int, before.topology, i, #[trigger] nbs[i])
    &&& forall|i: int, k: int|
        0 <= i < before.nodes@.len() && 0 <= k < before.nodes@[i].bots@.len() ==> decoded(
            (#[trigger] after.nodes@[i].bots@[k]).decision,
            final_outputs(before, i, k, nbs[i], rs[i]),
        )
}

/// Two agents are the same but for their pending decisions.
pub open spec fn same_but_decision<B>(a: Bot<B>, b: Bot<B>) -> bool {
    &&& committed_same(a, b)
    &&& a.bot_brain == b.bot_brain
    &&& a.node_brain == b.node_brain
    &&& a.final_brain == b.final_brain
}

/// Agent `b` leaves for node `d`, given its node's choice list `nb`.
pub open spec fn goes_to<B>(b: Bot<B>, nb: Seq<usize>, d: int) -> bool {
    leaves(b, nb.len() as int) && nb[b.decision.node as int] == d
}

/// The agents among the first `pop` of `m` that leave, in order.
pub open spec fn leavers<B>(m: Seq<Bot<B>>, pop: int, nb: Seq<usize>) -> Seq<Bot<B>> {
    m.take(pop).filter(|b: Bot<B>| leaves(b, nb.len() as int))
}

/// The agents that stay: the first `pop` of `m` that do not leave, then
/// the offspring after them.
pub open spec fn stays<B>(m: Seq<Bot<B>>, pop: int, nb: Seq<usize>) -> Seq<Bot<B>> {
    m.take(pop).filter(|b: Bot<B>| !leaves(b, nb.len() as int)) + m.skip(pop)
}

/// Agents that arrive at node `d` from nodes `0..i`, in node order.
pub open spec fn arrivals<B>(before: World<B>, ms: Seq<Seq<Bot<B>>>, nbs: Seq<Seq<usize>>, d: int, i: int) -> Seq<Bot<B>>
    decreases i,
{
    if i <= 0 {
        Seq::empty()
    } else {
        arrivals(before, ms, nbs, d, i - 1) + leavers(ms[i - 1], before.nodes@[i - 1].bots@.len() as int, nbs[i - 1]).filter(
            |b: Bot<B>| goes_to(b, nbs[i - 1], d),
        )
    }
}

/// Agent `bot` of node `i`, with choice list `nb`, chose to cut the edge
/// between `a` and `b`.
pub open spec fn sever_pair<B>(bot: Bot<B>, nb: Seq<usize>, i: int, a: int, b: int) -> bool {
    let c = bot.decision.sever_choice;
    0 < c < nb.len() && ((a == i && b == nb[c as int]) || (a == nb[c as int] && b == i))
}

/// Some agent chose to cut the edge between `a` and `b`.
pub open spec fn severed<B>(before: World<B>, nbs: Seq<Seq<usize>>, a: int, b: int) -> bool {
    exists|i: int, k: int|
        0 <= i < before.nodes@.len() && 0 <= k < before.nodes@[i].bots@.len() && #[trigger] sever_pair(
            before.nodes@[i].bots@[k],
            nbs[i],
            i,
            a,
            b,
        )
}

/// `after` is `before` once every node's agents acted on their decisions,
/// node `i` through its choice list `nbs[i]` and its mated agents `ms[i]`.
pub open spec fn acted<B>(before: World<B>, after: World<B>, ms: Seq<Seq<Bot<B>>>, nbs: Seq<Seq<usize>>) -> bool {
    let n = before.nodes@.len();
    &&& ms.len() == n
    &&& nbs.len() == n
    &&& after.nodes@.len() == n
    &&& forall|i: int|
        0 <= i < n ==> {
            let pop = before.nodes@[i].bots@.len() as int;
            &&& valid_choices(before.nodes@.len() as int, before.topology, i, #[trigger] nbs[i])
            &&& mated(before.nodes@[i].bots@, ms[i])
            &&& after.nodes@[i].bots@ == stays(ms[i], pop, nbs[i])
            &&& after.nodes@[i].moved_bots@ == before.nodes@[i].moved_bots@ + arrivals(before, ms, nbs, i, n as int)
            &&& after.nodes@[i].pull == pull_sum(before.nodes@[i].bots@, pop)
            &&& after.nodes@[i].energy == before.nodes@[i].energy
            &&& after.nodes@[i].connections == before.nodes@[i].connections
        }
    &&& forall|a: int, b: int|
        0 <= a < n && 0 <= b < n ==> #[trigger] after.topology.edge(a, b) == (before.topology.edge(a, b) && !severed(
            before,
            nbs,
            a,
            b,
        ))
}

proof fn lemma_arrivals_prefix<B>(
    before: World<B>,
    ms: Seq<Seq<Bot<B>>>,
    nbs: Seq<Seq<usize>>,
    ms2: Seq<Seq<Bot<B>>>,
    nbs2: Seq<Seq<usize>>,
    d: int,
    i: int,
)
    requires
        forall|j: int| 0 <= j < i ==> #[trigger] ms[j] == ms2[j],
        forall|j: int| 0 <= j < i ==> #[trigger] nbs[j] == nbs2[j],
    ensures
        arrivals(before, ms, nbs, d, i) == arrivals(before, ms2, nbs2, d, i),
    decreases i,
{
    if i > 0 {
        lemma_arrivals_prefix(before, ms, nbs, ms2, nbs2, d, i - 1);
        assert(ms[i - 1] == ms2[i - 1] && nbs[i - 1] == nbs2[i - 1]);
    }
}

/// The pair `p` is the edge between `a` and `b`, in either order.
pub open spec fn sever_matches(p: (usize, usize), a: int, b: int) -> bool {
    (a == p.0 && b == p.1) || (a == p.1 && b == p.0)
}

/// Node `i` of `after` is node `i` of `before` once its agents acted, with
/// choice list `nb` and mated agents `m`; `sv` are the edges they chose to
/// cut. Other nodes only gained arrivals.
pub open spec fn node_acted<B>(before: World<B>, after: World<B>, i: int, nb: Seq<usize>, m: Seq<Bot<B>>, sv: Seq<(usize, usize)>) -> bool {
    let n = before.nodes@.len();
    let orig = before.nodes@[i].bots@;
    let pop = orig.len() as int;
    &&& after.nodes@.len() == n
    &&& valid_choices(before.nodes@.len() as int, before.topology, i, nb)
    &&& mated(orig, m)
    &&& after.nodes@[i].bots@ == stays(m, pop, nb)
    &&& after.nodes@[i].pull == pull_sum(orig, pop)
    &&& forall|d: int|
        0 <= d < n ==> (#[trigger] after.nodes@[d]).moved_bots@ == before.nodes@[d].moved_bots@ + leavers(m, pop, nb).filter(
            |b: Bot<B>| goes_to(b, nb, d),
        )
    &&& forall|d: int| 0 <= d < n && d != i ==> (#[trigger] after.nodes@[d]).bots == before.nodes@[d].bots && after.nodes@[d].pull == before.nodes@[d].pull
    &&& forall|d: int|
        0 <= d < n ==> (#[trigger] after.nodes@[d]).energy == before.nodes@[d].energy && after.nodes@[d].connections
            == before.nodes@[d].connections
    &&& forall|x: int|
        0 <= x < sv.len() ==> (#[trigger] sv[x]).0 == i && sv[x].1 < n && exists|b: int|
            0 <= b < pop && #[trigger] sever_pair(orig[b], nb, i, sv[x].0 as int, sv[x].1 as int)
    &&& forall|b: int|
        0 <= b < pop && 0 < (#[trigger] orig[b]).decision.sever_choice < nb.len() ==> exists|x: int|
            0 <= x < sv.len() && sv[x].0 == i && sv[x].1 == nb[orig[b].decision.sever_choice as int]
}

/// What `act_all` has done after the first `i` nodes.
pub open spec fn act_progress<B>(before: World<B>, cur: World<B>, i: int, ms: Seq<Seq<Bot<B>>>, nbs: Seq<Seq<usize>>, severs: Seq<(usize, usize)>) -> bool {
    let n = before.nodes@.len();
    &&& cur.nodes@.len() == n
    &&& ms.len() == i
    &&& nbs.len() == i
    &&& forall|k: int|
        0 <= k < i ==> {
            let pop = before.nodes@[k].bots@.len() as int;
            &&& valid_choices(before.nodes@.len() as int, before.topology, k, #[trigger] nbs[k])
            &&& mated(before.nodes@[k].bots@, ms[k])
            &&& cur.nodes@[k].bots@ == stays(ms[k], pop, nbs[k])
            &&& cur.nodes@[k].pull == pull_sum(before.nodes@[k].bots@, pop)
        }
    &&& forall|k: int| i <= k < n ==> (#[trigger] cur.nodes@[k]).bots == before.nodes@[k].bots
    &&& forall|k: int|
        0 <= k < n ==> (#[trigger] cur.nodes@[k]).energy == before.nodes@[k].energy && cur.nodes@[k].connections
            == before.nodes@[k].connections
    &&& forall|d: int|
        0 <= d < n ==> (#[trigger] cur.nodes@[d]).moved_bots@ == before.nodes@[d].moved_bots@ + arrivals(before, ms, nbs, d, i)
    &&& forall|x: int|
        0 <= x < severs.len() ==> (#[trigger] severs[x]).0 < n && severs[x].1 < n && exists|k: int, b: int|
            0 <= k < i && 0 <= b < before.nodes@[k].bots@.len() && #[trigger] sever_pair(
                before.nodes@[k].bots@[b],
                nbs[k],
                k,
                severs[x].0 as int,
                severs[x].1 as int,
            )
    &&& forall|k: int, b: int|
        0 <= k < i && 0 <= b < before.nodes@[k].bots@.len() && 0 < (#[trigger] before.nodes@[k].bots@[b]).decision.sever_choice
            < nbs[k].len() ==> exists|x: int|
            0 <= x < severs.len() && severs[x].0 == k && severs[x].1 == nbs[k][before.nodes@[k].bots@[b].decision.sever_choice as int]
}

proof fn lemma_sever_equiv<B>(start: World<B>, nbs: Seq<Seq<usize>>, severs: Seq<(usize, usize)>)
    requires
        forall|x: int|
            0 <= x < severs.len() ==> (#[trigger] severs[x]).0 < start.nodes@.len() && severs[x].1 < start.nodes@.len()
                && exists|k: int, b: int|
                0 <= k < start.nodes@.len() as int && 0 <= b < start.nodes@[k].bots@.len() && #[trigger] sever_pair(
                    start.nodes@[k].bots@[b],
                    nbs[k],
                    k,
                    severs[x].0 as int,
                    severs[x].1 as int,
                ),
        forall|k: int, b: int|
            0 <= k < start.nodes@.len() as int && 0 <= b < start.nodes@[k].bots@.len() && 0 < (
            #[trigger] start.nodes@[k].bots@[b]).decision.sever_choice < nbs[k].len() ==> exists|x: int|
                0 <= x < severs.len() && severs[x].0 == k && severs[x].1 == nbs[k][start.nodes@[k].bots@[b].decision.sever_choice as int],
    ensures
        forall|a: int, b: int|
            (exists|x: int| 0 <= x < severs.len() && #[trigger] sever_matches(severs[x], a, b)) == #[trigger] severed(
                start,
                nbs,
                a,
                b,
            ),
{
    let n = start.nodes@.len();
    assert forall|a: int, b: int| (exists|x: int| 0 <= x < severs.len() && #[trigger] sever_matches(severs[x], a, b))
        == #[trigger] severed(start, nbs, a, b) by {
        if exists|x: int| 0 <= x < severs.len() && #[trigger] sever_matches(severs[x], a, b) {
            let x = choose|x: int| 0 <= x < severs.len() && #[trigger] sever_matches(severs[x], a, b);
            let (k, bb) = choose|k: int, bb: int|
                0 <= k < n && 0 <= bb < start.nodes@[k].bots@.len() && #[trigger] sever_pair(
                    start.nodes@[k].bots@[bb],
                    nbs[k],
                    k,
                    severs[x].0 as int,
                    severs[x].1 as int,
                );
            assert(sever_pair(start.nodes@[k].bots@[bb], nbs[k], k, a, b));
        }
        if severed(start, nbs, a, b) {
            let (k, bb) = choose|k: int, bb: int|
                0 <= k < n && 0 <= bb < start.nodes@[k].bots@.len() && #[trigger] sever_pair(
                    start.nodes@[k].bots@[bb],
                    nbs[k],
                    k,
                    a,
                    b,
                );
            let x = choose|x: int|
                0 <= x < severs.len() && severs[x].0 == k && severs[x].1 == nbs[k][start.nodes@[k].bots@[bb].decision.sever_choice as int];
            assert(sever_matches(severs[x], a, b));
        }
    }
}

proof fn lemma_act_finish<B>(
    start: World<B>,
    cur: World<B>,
    after: World<B>,
    ms: Seq<Seq<Bot<B>>>,
    nbs: Seq<Seq<usize>>,
    severs: Seq<(usize, usize)>,
)
    requires
        act_progress(start, cur, start.nodes@.len() as int, ms, nbs, severs),
        after.nodes == cur.nodes,
        forall|a: int, b: int|
            0 <= a < start.nodes@.len() && 0 <= b < start.nodes@.len() ==> #[trigger] after.topology.edge(a, b) == (
            start.topology.edge(a, b) && !exists|x: int| 0 <= x < severs.len() && #[trigger] sever_matches(severs[x], a, b)),
    ensures
        acted(start, after, ms, nbs),
{
    lemma_sever_equiv(start, nbs, severs);
}

#[verifier::spinoff_prover]
#[verifier::rlimit(100)]
proof fn lemma_act_step<B>(
    start: World<B>,
    before: World<B>,
    after: World<B>,
    i: int,
    ms: Seq<Seq<Bot<B>>>,
    nbs: Seq<Seq<usize>>,
    severs: Seq<(usize, usize)>,
    nb: Seq<usize>,
    m: Seq<Bot<B>>,
    sv: Seq<(usize, usize)>,
)
    requires
        0 <= i < start.nodes@.len(),
        before.topology == start.topology,
        act_progress(start, before, i, ms, nbs, severs),
        node_acted(before, after, i, nb, m, sv),
    ensures
        act_progress(start, after, i + 1, ms.push(m), nbs.push(nb), severs + sv),
{
    let n = start.nodes@.len();
    let ms2 = ms.push(m);
    let nbs2 = nbs.push(nb);
    let sv2 = severs + sv;
    assert(before.nodes@[i].bots == start.nodes@[i].bots);
    assert(valid_choices(start.nodes@.len() as int, start.topology, i, nb));
    assert forall|k: int| 0 <= k < i + 1 implies {
        let pop = start.nodes@[k].bots@.len() as int;
        &&& valid_choices(start.nodes@.len() as int, start.topology, k, #[trigger] nbs2[k])
        &&& mated(start.nodes@[k].bots@, ms2[k])
        &&& after.nodes@[k].bots@ == stays(ms2[k], pop, nbs2[k])
        &&& after.nodes@[k].pull == pull_sum(start.nodes@[k].bots@, pop)
    } by {
        if k < i {
            assert(nbs2[k] == nbs[k] && ms2[k] == ms[k]);
            assert(valid_choices(start.nodes@.len() as int, start.topology, k, nbs[k]));
            assert(after.nodes@[k].bots == before.nodes@[k].bots);
        }
    }
    assert forall|k: int| i + 1 <= k < n implies (#[trigger] after.nodes@[k]).bots == start.nodes@[k].bots by {
        assert(after.nodes@[k].bots == before.nodes@[k].bots);
        assert(before.nodes@[k].bots == start.nodes@[k].bots);
    }
    assert forall|k: int| 0 <= k < n implies (#[trigger] after.nodes@[k]).energy == start.nodes@[k].energy
        && after.nodes@[k].connections == start.nodes@[k].connections by {
        assert(after.nodes@[k].energy == before.nodes@[k].energy);
        assert(before.nodes@[k].energy == start.nodes@[k].energy);
    }
    assert forall|d: int| 0 <= d < n implies (#[trigger] after.nodes@[d]).moved_bots@ == start.nodes@[d].moved_bots@ + arrivals(
        start,
        ms2,
        nbs2,
        d,
        i + 1,
    ) by {
        lemma_arrivals_prefix(start, ms, nbs, ms2, nbs2, d, i);
        assert(after.nodes@[d].moved_bots@ == before.nodes@[d].moved_bots@ + leavers(m, start.nodes@[i].bots@.len() as int, nb).filter(
            |b: Bot<B>| goes_to(b, nb, d),
        ));
        assert(before.nodes@[d].moved_bots@ == start.nodes@[d].moved_bots@ + arrivals(start, ms, nbs, d, i));
        assert(arrivals(start, ms2, nbs2, d, i + 1) == arrivals(start, ms2, nbs2, d, i) + leavers(
            ms2[i],
            start.nodes@[i].bots@.len() as int,
            nbs2[i],
        ).filter(|b: Bot<B>| goes_to(b, nbs2[i], d)));
    }
    assert forall|x: int| 0 <= x < sv2.len() implies (#[trigger] sv2[x]).0 < n && sv2[x].1 < n && exists|k: int, b: int|
        0 <= k < i + 1 && 0 <= b < start.nodes@[k].bots@.len() && #[trigger] sever_pair(
            start.nodes@[k].bots@[b],
            nbs2[k],
            k,
            sv2[x].0 as int,
            sv2[x].1 as int,
        ) by {
        if x < severs.len() {
            assert(sv2[x] == severs[x]);
            let (k, b) = choose|k: int, b: int|
                0 <= k < i && 0 <= b < start.nodes@[k].bots@.len() && #[trigger] sever_pair(
                    start.nodes@[k].bots@[b],
                    nbs[k],
                    k,
                    severs[x].0 as int,
                    severs[x].1 as int,
                );
            assert(nbs2[k] == nbs[k]);
            assert(sever_pair(start.nodes@[k].bots@[b], nbs2[k], k, sv2[x].0 as int, sv2[x].1 as int));
        } else {
            let y = x - severs.len();
            assert(sv2[x] == sv[y]);
            let b = choose|b: int|
                0 <= b < before.nodes@[i].bots@.len() && #[trigger] sever_pair(before.nodes@[i].bots@[b], nb, i, sv[y].0 as int, sv[y].1 as int);
            assert(sever_pair(start.nodes@[i].bots@[b], nbs2[i], i, sv2[x].0 as int, sv2[x].1 as int));
        }
    }
    assert forall|k: int, b: int|
        0 <= k < i + 1 && 0 <= b < start.nodes@[k].bots@.len() && 0 < (#[trigger] start.nodes@[k].bots@[b]).decision.sever_choice
            < nbs2[k].len() implies exists|x: int|
            0 <= x < sv2.len() && sv2[x].0 == k && sv2[x].1 == nbs2[k][start.nodes@[k].bots@[b].decision.sever_choice as int] by {
        if k < i {
            assert(nbs2[k] == nbs[k]);
            let x = choose|x: int|
                0 <= x < severs.len() && severs[x].0 == k && severs[x].1 == nbs[k][start.nodes@[k].bots@[b].decision.sever_choice as int];
            assert(sv2[x] == severs[x]);
        } else {
            assert(start.nodes@[k].bots@[b] == before.nodes@[i].bots@[b]);
            let y = choose|y: int|
                0 <= y < sv.len() && sv[y].0 == i && sv[y].1 == nb[before.nodes@[i].bots@[b].decision.sever_choice as int];
            assert(sv2[severs.len() + y] == sv[y]);
        }
    }
}

/// `b` is node `a` with its connection count reset.
pub open spec fn reset_node<B>(a: Node<B>, b: Node<B>) -> bool {
    &&& b.energy == a.energy
    &&& b.bots == a.bots
    &&& b.moved_bots == a.moved_bots
    &&& b.deaths == a.deaths
    &&& b.moves == a.moves
    &&& b.pull == a.pull
    &&& b.diffuse == a.diffuse
    &&& b.connections == 0
}

/// Index in `before` of node `x` while nodes from `i` on are the kept ones.
pub open spec fn kept_index(i: int, kept: Seq<int>, x: int) -> int {
    if x < i {
        x
    } else {
        kept[x - i]
    }
}

/// `after` holds, in order, the nodes of `before` at the indices `kept`,
/// which are exactly those that do not obliterate, with their connection
/// counts reset and the edges between them kept.
pub open spec fn survivors<B>(before: World<B>, after: World<B>, finite: Seq<bool>, kept: Seq<int>) -> bool {
    let n = before.nodes@.len();
    &&& kept.len() == after.nodes@.len()
    &&& forall|m: int| 0 <= m < kept.len() ==> 0 <= #[trigger] kept[m] < n && !before.nodes@[kept[m]].obliterates(finite[kept[m]])
        && reset_node(before.nodes@[kept[m]], after.nodes@[m])
    &&& forall|m: int, l: int| 0 <= m < l < kept.len() ==> #[trigger] kept[m] < #[trigger] kept[l]
    &&& forall|x: int| 0 <= x < n && !#[trigger] before.nodes@[x].obliterates(finite[x]) ==> exists|m: int|
        0 <= m < kept.len() && kept[m] == x
    &&& forall|a: int, b: int|
        0 <= a < kept.len() && 0 <= b < kept.len() ==> #[trigger] after.topology.edge(a, b) == before.topology.edge(kept[a], kept[b])
}

/// How far apart two nodes are, as the topology rules see it.
#[derive(Clone, Copy, Debug, PartialEq, Eq, Structural)]
pub enum Reach {
    /// Close enough that an edge forms by itself.
    Close,
    /// Within the length an edge may have.
    Span,
    /// Too far for an edge, but close enough for agents to bond the nodes.
    Remote,
    /// Beyond any edge.
    Beyond,
}

/// Minimum connect-signal magnitude with which agents bond their nodes.
pub const CONNECT_SIGNAL_MIN: i64 = 16;

pub open spec fn strong_signal(c: i64) -> bool {
    c >= CONNECT_SIGNAL_MIN || c <= -CONNECT_SIGNAL_MIN
}

/// Some agent of `x` and some agent of `y` broadcast the same connect
/// signal, strong enough to bond.
pub open spec fn bonded<B>(x: Seq<Bot<B>>, y: Seq<Bot<B>>) -> bool {
    exists|p: int, q: int|
        0 <= p < x.len() && 0 <= q < y.len() && strong_signal(x[p].connect_signal)
            && #[trigger] x[p].connect_signal == #[trigger] y[q].connect_signal
}

/// Whether an edge stands after a topology update: an edge that is too
/// long goes, close nodes are joined, and bonding keeps or creates an edge
/// at any distance within the bonding radius.
pub open spec fn edge_after(had: bool, reach: Reach, bond: bool) -> bool {
    (had && (reach == Reach::Close || reach == Reach::Span)) || reach == Reach::Close || (bond && reach
        != Reach::Beyond)
}

pub fn bots_bonded<B>(x: &Vec<Bot<B>>, y: &Vec<Bot<B>>) -> (r: bool)
    ensures
        r == bonded(x@, y@),
{
    let mut p: usize = 0;
    while p < x.len()
        invariant
            p <= x@.len(),
            forall|pp: int, q: int|
                0 <= pp < p && 0 <= q < y@.len() ==> !(strong_signal(x@[pp].connect_signal)
                    && #[trigger] x@[pp].connect_signal == #[trigger] y@[q].connect_signal),
        decreases x@.len() - p,
    {
        let c = x[p].connect_signal;
        if c >= CONNECT_SIGNAL_MIN || c <= -CONNECT_SIGNAL_MIN {
            let mut q: usize = 0;
            while q < y.len()
                invariant
                    p < x@.len(),
                    c == x@[p as int].connect_signal,
                    strong_signal(c),
                    q <= y@.len(),
                    forall|qq: int| 0 <= qq < q ==> #[trigger] y@[qq].connect_signal != c,
                decreases y@.len() - q,
            {
                if y[q].connect_signal == c {
                    proof {
                        assert(strong_signal(x@[p as int].connect_signal));
                        assert(x@[p as int].connect_signal == y@[q as int].connect_signal);
                    }
                    return true;
                }
                q = q + 1;
            }
        }
        p = p + 1;
    }
    false
}

/// Energy a node sends out in the first diffusion pass.
pub open spec fn sent<B>(nd: Node<B>) -> i64 {
    diffusion(nd.connections, nd.energy)
}

/// Energy of node `i` once it has received, from each neighbor `j` below
/// `upto` in increasing order, that neighbor's outflow shared evenly over
/// its connections; `e` is its energy after its own outflow.
pub open spec fn received<B>(nodes: Seq<Node<B>>, topo: Topology, i: int, upto: int, e: i64) -> i64
    decreases upto,
{
    if upto <= 0 {
        e
    } else {
        let prev = received(nodes, topo, i, upto - 1, e);
        let j = upto - 1;
        if j < nodes.len() && topo.edge(i, j) && nodes[j].connections > 0 {
            clamp64(prev + quotient(sent(nodes[j]) as int, nodes[j].connections as int))
        } else {
            prev
        }
    }
}

/// `after` is `before` after one two-pass diffusion step.
pub open spec fn diffused<B>(before: World<B>, after: World<B>) -> bool {
    let n = before.nodes@.len();
    &&& after.nodes@.len() == n
    &&& after.topology == before.topology
    &&& forall|i: int|
        0 <= i < n ==> {
            &&& (#[trigger] after.nodes@[i]).diffuse == sent(before.nodes@[i])
            &&& after.nodes@[i].energy == received(
                before.nodes@,
                before.topology,
                i,
                n as int,
                clamp64(before.nodes@[i].energy - sent(before.nodes@[i])),
            )
            &&& after.nodes@[i].connections == before.nodes@[i].connections
            &&& after.nodes@[i].bots == before.nodes@[i].bots
        }
}

/// Diffusion between two nodes joined only to each other moves energy
/// from one to the other without creating or losing any.
pub proof fn diffusion_conserves_pair<B>(before: World<B>, after: World<B>)
    requires
        before.wf(),
        before.nodes@.len() == 2,
        before.topology.edge(0, 1),
        before.nodes@[0].connections == 1,
        before.nodes@[1].connections == 1,
        diffused(before, after),
    ensures
        after.nodes@[0].energy + after.nodes@[1].energy == before.nodes@[0].energy
            + before.nodes@[1].energy,
{
    let a = before.nodes@[0];
    let b = before.nodes@[1];
    lemma_share_bounded(a.energy);
    lemma_share_bounded(b.energy);
    lemma_exchange_in_range(a.energy, b.energy);
    lemma_exchange_in_range(b.energy, a.energy);
    before.topology.lemma_wf();
    assert(after.nodes@[0].diffuse == sent(a));
    assert(after.nodes@[1].diffuse == sent(b));
    vstd::arithmetic::div_mod::lemma_div_basics(vstd::math::abs(sent(a) as int) as int);
    vstd::arithmetic::div_mod::lemma_div_basics(vstd::math::abs(sent(b) as int) as int);
    assert(quotient(sent(a) as int, 1) == sent(a) as int);
    assert(quotient(sent(b) as int, 1) == sent(b) as int);
    let ea = clamp64(a.energy - sent(a));
    let eb = clamp64(b.energy - sent(b));
    assert(!before.topology.edge(0, 0));
    assert(!before.topology.edge(1, 1));
    assert(before.topology.edge(1, 0));
    assert(received(before.nodes@, before.topology, 0, 0, ea) == ea);
    assert(received(before.nodes@, before.topology, 0, 1, ea) == ea);
    assert(received(before.nodes@, before.topology, 0, 2, ea) == clamp64(ea + sent(b)));
    assert(received(before.nodes@, before.topology, 1, 0, eb) == eb);
    assert(received(before.nodes@, before.topology, 1, 1, clamp64(b.energy - sent(b))) == clamp64(
        clamp64(b.energy - sent(b)) + sent(a),
    ));
}

/// A node that pays its share and receives another node's share stays
/// within the range of `i64`, whatever the two energies.
proof fn lemma_exchange_in_range(a: i64, b: i64)
    ensures
        i64::MIN <= a - quotient(a as int, 1000) <= i64::MAX,
        i64::MIN <= a - quotient(a as int, 1000) + quotient(b as int, 1000) <= i64::MAX,
{
    let qm: int = 9223372036854775;
    let x = a as int;
    let y = b as int;
    let ax = vstd::math::abs(x) as int;
    let ay = vstd::math::abs(y) as int;
    vstd::arithmetic::div_mod::lemma_fundamental_div_mod(ax, 1000);
    vstd::arithmetic::div_mod::lemma_fundamental_div_mod(ay, 1000);
    vstd::arithmetic::div_mod::lemma_mod_bound(ax, 1000);
    vstd::arithmetic::div_mod::lemma_mod_bound(ay, 1000);
    vstd::arithmetic::div_mod::lemma_div_is_ordered(ax, 9223372036854775808, 1000);
    vstd::arithmetic::div_mod::lemma_div_is_ordered(ay, 9223372036854775808, 1000);
    vstd::arithmetic::div_mod::lemma_div_is_ordered(0, ax, 1000);
    vstd::arithmetic::div_mod::lemma_div_is_ordered(0, ay, 1000);
    assert(9223372036854775808int / 1000 == 9223372036854775);
    let qx = ax / 1000;
    let qy = ay / 1000;
    assert(ax == 1000 * qx + ax % 1000);
    assert(ay == 1000 * qy + ay % 1000);
    if x >= 0 {
        assert(ax <= 9223372036854775807);
        if qx == qm {
            assert(ax % 1000 <= 807);
        }
    } else {
        if qx == qm {
            assert(ax % 1000 <= 808);
        }
    }
    if y >= 0 {
        assert(ay <= 9223372036854775807);
        if qy == qm {
            assert(ay % 1000 <= 807);
        }
    }
}

/// The share `quotient(e, DIFFUSION_DIVISOR)` is no larger than `e`.
proof fn lemma_share_bounded(e: i64)
    ensures
        vstd::math::abs(quotient(e as int, 1000)) <= vstd::math::abs(e as int),
        diffusion(1, e) == quotient(e as int, 1000),
{
    let x = vstd::math::abs(e as int) as int;
    vstd::arithmetic::div_mod::lemma_div_is_ordered_by_denominator(x, 1, 1000);
    vstd::arithmetic::div_mod::lemma_div_basics(x);
}

/// Two agents agree on everything other agents can perceive of them, and
/// on what they carry from tick to tick: all but the pending decision.
pub open spec fn committed_same<B>(a: Bot<B>, b: Bot<B>) -> bool {
    &&& a.energy == b.energy
    &&& a.signal == b.signal
    &&& a.connect_signal == b.connect_signal
    &&& a.memory == b.memory
}

/// The simulated ecosystem: nodes, the edges between them and the tick.
pub struct World<B> {
    pub nodes: Vec<Node<B>>,
    pub topology: Topology,
    pub tick: u64,
    /// How many times the world had to be restarted from one node.
    pub resets: i64,
}

impl<B> World<B> {
    pub open spec fn wf(&self) -> bool {
        &&& self.topology.wf()
        &&& self.topology.count() == self.nodes@.len()
        &&& self.nodes@.len() < u32::MAX
    }

    pub fn new() -> (r: Self)
        ensures
            r.wf(),
            r.nodes@.len() == 0,
            r.tick == 0,
    {
        World { nodes: Vec::new(), topology: Topology::new(), tick: 0, resets: -1 }
    }

    pub fn node_count(&self) -> (r: usize)
        ensures
            r == self.nodes@.len(),
    {
        self.nodes.len()
    }

    /// Restarts an empty world from a single node; says whether it did.
    pub fn ensure_populated(&mut self) -> (r: bool)
        requires
            old(self).wf(),
        ensures
            final(self).wf(),
            r == (old(self).nodes@.len() == 0),
            r ==> final(self).nodes@.len() == 1 && final(self).nodes@[0].energy == NODE_STARTING_ENERGY
                && final(self).nodes@[0].bots@.len() == 0,
            !r ==> final(self).nodes == old(self).nodes && final(self).topology == old(self).topology,
    {
        if self.nodes.len() == 0 {
            self.nodes.push(Node::new(NODE_STARTING_ENERGY));
            self.topology.add_node();
            self.resets = sat_add(self.resets, 1);
            true
        } else {
            false
        }
    }

    /// One growth step for every node. Once the mesh is full, an empty
    /// node may also receive a fresh agent.
    pub fn grow_all(&mut self, rng: &mut SimRng)
        where
            B: Brain,
        requires
            old(self).wf(),
        ensures
            final(self).wf(),
            final(self).nodes@.len() == old(self).nodes@.len(),
            final(self).topology == old(self).topology,
            forall|i: int|
                0 <= i < old(self).nodes@.len() ==> {
                    let capped = old(self).nodes@.len() >= ENERGY_CUTOFF_AT;
                    let empty = old(self).nodes@[i].bots@.len() == 0;
                    &&& grown_energy(
                        old(self).nodes@[i],
                        (#[trigger] final(self).nodes@[i]).energy,
                        capped,
                        old(self).nodes@.len() as usize,
                    )
                    &&& final(self).nodes@[i].connections == old(self).nodes@[i].connections
                    &&& !(capped && empty) ==> final(self).nodes@[i].bots == old(self).nodes@[i].bots
                    &&& capped && empty ==> final(self).nodes@[i].bots@.len() <= 1
                    &&& capped && empty && final(self).nodes@[i].bots@.len() == 1 ==> final(self).nodes@[i].bots@[0].is_fresh()
                },
    {
        let n = self.nodes.len();
        let capped = n >= ENERGY_CUTOFF_AT;
        let mut i: usize = 0;
        while i < n
            invariant
                n == self.nodes@.len(),
                n == old(self).nodes@.len(),
                capped == (n >= ENERGY_CUTOFF_AT),
                self.topology == old(self).topology,
                self.wf(),
                i <= n,
                forall|k: int|
                    0 <= k < i ==> {
                        let empty = old(self).nodes@[k].bots@.len() == 0;
                        &&& grown_energy(old(self).nodes@[k], (#[trigger] self.nodes@[k]).energy, capped, n)
                        &&& self.nodes@[k].connections == old(self).nodes@[k].connections
                        &&& !(capped && empty) ==> self.nodes@[k].bots == old(self).nodes@[k].bots
                        &&& capped && empty ==> self.nodes@[k].bots@.len() <= 1
                        &&& capped && empty && self.nodes@[k].bots@.len() == 1 ==> self.nodes@[k].bots@[0].is_fresh()
                    },
                forall|k: int| i <= k < n ==> #[trigger] self.nodes@[k] == old(self).nodes@[k],
            decreases n - i,
        {
            self.nodes[i].grow(capped, n, rng);
            if capped && self.nodes[i].bots.len() == 0 && chance(rng, EMPTY_NODE_SPAWN_PER_MILLION) {
                let b = Bot::new(rng);
                self.nodes[i].bots.push(b);
            }
            i = i + 1;
        }
    }

    /// Splits node `i` in two: both halves keep half of its energy, each
    /// of its edges and agents goes to one half on a coin flip, and the
    /// halves are joined. Returns the index of the new node.
    #[verifier::spinoff_prover]
    pub fn split_node(&mut self, i: usize, rng: &mut SimRng) -> (r: usize)
        requires
            old(self).wf(),
            i < old(self).nodes@.len(),
            old(self).nodes@.len() + 1 < u32::MAX,
        ensures
            final(self).wf(),
            r == old(self).nodes@.len(),
            final(self).nodes@.len() == r + 1,
            final(self).nodes@[i as int].energy == half_spec(old(self).nodes@[i as int].energy),
            final(self).nodes@[r as int].energy == final(self).nodes@[i as int].energy,
            final(self).nodes@[i as int].bots@.to_multiset().add(final(self).nodes@[r as int].bots@.to_multiset())
                == old(self).nodes@[i as int].bots@.to_multiset(),
            forall|k: int| 0 <= k < r && k != i ==> #[trigger] final(self).nodes@[k] == old(self).nodes@[k],
            final(self).topology.edge(i as int, r as int),
            forall|j: int|
                0 <= j < r && j != i ==> (#[trigger] old(self).topology.edge(i as int, j) ==> final(self).topology.edge(i as int, j) != final(self).topology.edge(r as int, j)),
            forall|j: int|
                0 <= j < r && j != i ==> (!#[trigger] old(self).topology.edge(i as int, j) ==> !final(self).topology.edge(i as int, j) && !final(self).topology.edge(r as int, j)),
            forall|a: int, b: int|
                0 <= a < r && 0 <= b < r && a != i && b != i ==> #[trigger] final(self).topology.edge(a, b)
                    == old(self).topology.edge(a, b),
    {
        let n = self.nodes.len();
        self.nodes[i].halve_energy();
        let e = self.nodes[i].energy;
        let gone = self.nodes[i].split_off_bots(rng);
        let mut fresh = Node::new(e);
        fresh.bots = gone;
        self.nodes.push(fresh);
        let r = self.topology.add_node();
        let ghost t1 = self.topology;
        let ghost nodes1 = self.nodes@;
        let nb = self.topology.neighbors(i);
        let mut k: usize = 0;
        while k < nb.len()
            invariant
                self.nodes@ == nodes1,
                self.topology.wf(),
                self.topology.count() == n + 1,
                t1.wf(),
                t1.count() == n + 1,
                r == n,
                i < n,
                k <= nb@.len(),
                forall|m: int| 0 <= m < nb@.len() ==> #[trigger] nb@[m] < n + 1 && t1.edge(i as int, nb@[m] as int),
                nb@.no_duplicates(),
                forall|j: int| 0 <= j < n + 1 && #[trigger] t1.edge(i as int, j) ==> nb@.contains(j as usize),
                forall|j: int| 0 <= j <= n ==> !#[trigger] t1.edge(r as int, j),
                forall|a: int, b: int|
                    0 <= a < n + 1 && 0 <= b < n + 1 && a != i && b != i && a != r && b != r
                        ==> #[trigger] self.topology.edge(a, b) == t1.edge(a, b),
                forall|j: int|
                    0 <= j < n && j != i ==> (!#[trigger] t1.edge(i as int, j) ==> !self.topology.edge(i as int, j)
                        && !self.topology.edge(r as int, j)),
                forall|m: int|
                    0 <= m < k ==> #[trigger] self.topology.edge(i as int, nb@[m] as int) != self.topology.edge(
                        r as int,
                        nb@[m] as int,
                    ),
                forall|m: int|
                    k <= m < nb@.len() ==> #[trigger] self.topology.edge(i as int, nb@[m] as int)
                        && !self.topology.edge(r as int, nb@[m] as int),
                !self.topology.edge(i as int, r as int),
            decreases nb@.len() - k,
        {
            let j = nb[k];
            proof {
                t1.lemma_wf();
                assert forall|m: int| k < m < nb@.len() implies #[trigger] nb@[m] != j by {
                    assert(nb@[k as int] != nb@[m]);
                }
            }
            let ghost t3 = self.topology;
            let ghost rest = nb@.subrange(k + 1, nb@.len() as int);
            proof {
                assert forall|x: int| 0 <= x < rest.len() implies #[trigger] t3.edge(i as int, rest[x] as int)
                    && !t3.edge(r as int, rest[x] as int) && rest[x] != j by {
                    let m = k + 1 + x;
                    assert(rest[x] == nb@[m]);
                    assert(nb@[k as int] != nb@[m]);
                    assert(self.topology.edge(i as int, nb@[m] as int) && !self.topology.edge(r as int, nb@[m] as int));
                }
            }
            if coin(rng) {
                self.topology.disconnect(i, j);
                self.topology.connect(r, j);
            }
            proof {
                assert forall|x: int| 0 <= x < rest.len() implies #[trigger] self.topology.edge(
                    i as int,
                    rest[x] as int,
                ) && !self.topology.edge(r as int, rest[x] as int) by {
                    assert(t3.edge(i as int, rest[x] as int));
                }
                assert forall|m: int| k < m < nb@.len() implies #[trigger] self.topology.edge(
                    i as int,
                    nb@[m] as int,
                ) && !self.topology.edge(r as int, nb@[m] as int) by {
                    let x = m - k - 1;
                    assert(rest[x] == nb@[m]);
                    assert(self.topology.edge(i as int, rest[x] as int) && !self.topology.edge(r as int, rest[x] as int));
                }
            }
            k = k + 1;
        }
        proof {
            t1.lemma_wf();
            self.topology.lemma_wf();
            assert forall|j: int| 0 <= j < n && j != i && #[trigger] t1.edge(i as int, j) implies self.topology.edge(
                i as int,
                j,
            ) != self.topology.edge(r as int, j) by {
                let m = choose|m: int| 0 <= m < nb@.len() && nb@[m] == j as usize;
                assert(self.topology.edge(i as int, nb@[m] as int) != self.topology.edge(r as int, nb@[m] as int));
            }
        }
        let ghost t2 = self.topology;
        self.topology.connect(i, r);
        proof {
            assert forall|j: int| 0 <= j < r && j != i implies (#[trigger] old(self).topology.edge(i as int, j)
                ==> self.topology.edge(i as int, j) != self.topology.edge(r as int, j)) && (!old(
                self,
            ).topology.edge(i as int, j) ==> !self.topology.edge(i as int, j) && !self.topology.edge(
                r as int,
                j,
            )) by {
                assert(t1.edge(i as int, j) == old(self).topology.edge(i as int, j));
                assert(self.topology.edge(i as int, j) == t2.edge(i as int, j));
                assert(self.topology.edge(r as int, j) == t2.edge(r as int, j));
            }
            assert forall|a: int, b: int|
                0 <= a < r && 0 <= b < r && a != i && b != i implies #[trigger] self.topology.edge(a, b)
                == old(self).topology.edge(a, b) by {
                assert(t1.edge(a, b) == old(self).topology.edge(a, b));
                assert(self.topology.edge(a, b) == t2.edge(a, b));
            }
        }
        r
    }

    /// Splits, in index order, every node of the current world whose energy
    /// has reached the threshold and that does not obliterate (`finite[i]`
    /// says whether its position is finite): obliteration takes precedence.
    /// Returns each split as (old, new) index; every other node is unchanged.
    #[verifier::spinoff_prover]
    pub fn split_nodes(&mut self, finite: &Vec<bool>, rng: &mut SimRng) -> (r: Vec<(usize, usize)>)
        requires
            old(self).wf(),
            2 * old(self).nodes@.len() + 1 < u32::MAX,
            finite@.len() == old(self).nodes@.len(),
        ensures
            final(self).wf(),
            final(self).nodes@.len() == old(self).nodes@.len() + r@.len(),
            forall|k: int| 0 <= k < r@.len() ==> (#[trigger] r@[k]).0 < old(self).nodes@.len()
                && r@[k].1 == old(self).nodes@.len() + k && old(self).nodes@[r@[k].0 as int].splits()
                && !old(self).nodes@[r@[k].0 as int].obliterates(finite@[r@[k].0 as int])
                && split_halves(
                    old(self).nodes@[r@[k].0 as int],
                    final(self).nodes@[r@[k].0 as int],
                    final(self).nodes@[r@[k].1 as int],
                ),
            forall|k: int, l: int| 0 <= k < l < r@.len() ==> (#[trigger] r@[k]).0 < (#[trigger] r@[l]).0,
            forall|i: int|
                0 <= i < old(self).nodes@.len() && #[trigger] old(self).nodes@[i].splits()
                    && !old(self).nodes@[i].obliterates(finite@[i]) ==> exists|k: int|
                    0 <= k < r@.len() && r@[k].0 == i,
            forall|i: int|
                0 <= i < old(self).nodes@.len() && !(old(self).nodes@[i].splits()
                    && !old(self).nodes@[i].obliterates(finite@[i])) ==> #[trigger] final(self).nodes@[i]
                    == old(self).nodes@[i],
    {
        let n = self.nodes.len();
        let mut r: Vec<(usize, usize)> = Vec::new();
        let mut i: usize = 0;
        while i < n
            invariant
                self.wf(),
                n == old(self).nodes@.len(),
                finite@.len() == n,
                2 * n + 1 < u32::MAX,
                i <= n,
                r@.len() <= i,
                self.nodes@.len() == n + r@.len(),
                forall|idx: int| i <= idx < n ==> #[trigger] self.nodes@[idx] == old(self).nodes@[idx],
                forall|k: int| 0 <= k < r@.len() ==> (#[trigger] r@[k]).0 < i && r@[k].1 == n + k
                    && old(self).nodes@[r@[k].0 as int].splits()
                    && !old(self).nodes@[r@[k].0 as int].obliterates(finite@[r@[k].0 as int])
                    && split_halves(
                        old(self).nodes@[r@[k].0 as int],
                        self.nodes@[r@[k].0 as int],
                        self.nodes@[r@[k].1 as int],
                    ),
                forall|k: int, l: int| 0 <= k < l < r@.len() ==> (#[trigger] r@[k]).0 < (#[trigger] r@[l]).0,
                forall|idx: int|
                    0 <= idx < i && #[trigger] old(self).nodes@[idx].splits()
                        && !old(self).nodes@[idx].obliterates(finite@[idx]) ==> exists|k: int|
                        0 <= k < r@.len() && r@[k].0 == idx,
                forall|idx: int|
                    0 <= idx < i && !(old(self).nodes@[idx].splits() && !old(self).nodes@[idx].obliterates(
                        finite@[idx],
                    )) ==> #[trigger] self.nodes@[idx] == old(self).nodes@[idx],
            decreases n - i,
        {
            if self.nodes[i].should_split() && !self.nodes[i].should_obliterate(finite[i]) {
                let ghost before = self.nodes@;
                let j = self.split_node(i, rng);
                let ghost prev = r@;
                r.push((i, j));
                proof {
                    assert(r@[r@.len() - 1].0 == i);
                    assert forall|idx: int| i < idx < n implies #[trigger] self.nodes@[idx] == old(self).nodes@[idx] by {
                        assert(self.nodes@[idx] == before[idx]);
                    }
                    assert forall|k: int| 0 <= k < r@.len() implies (#[trigger] r@[k]).0 < i + 1 && r@[k].1 == n + k
                        && old(self).nodes@[r@[k].0 as int].splits()
                        && !old(self).nodes@[r@[k].0 as int].obliterates(finite@[r@[k].0 as int])
                        && split_halves(
                            old(self).nodes@[r@[k].0 as int],
                            self.nodes@[r@[k].0 as int],
                            self.nodes@[r@[k].1 as int],
                        ) by {
                        if k < prev.len() {
                            assert(r@[k] == prev[k]);
                            assert(self.nodes@[prev[k].0 as int] == before[prev[k].0 as int]);
                            assert(self.nodes@[prev[k].1 as int] == before[prev[k].1 as int]);
                        }
                    }
                    assert forall|idx: int|
                        0 <= idx < i + 1 && #[trigger] old(self).nodes@[idx].splits()
                            && !old(self).nodes@[idx].obliterates(finite@[idx]) implies exists|k: int|
                            0 <= k < r@.len() && r@[k].0 == idx by {
                        if idx == i {
                            assert(r@[r@.len() - 1].0 == idx);
                        } else {
                            let k = choose|k: int| 0 <= k < prev.len() && prev[k].0 == idx;
                            assert(r@[k].0 == idx);
                        }
                    }
                    assert forall|idx: int|
                        0 <= idx < i + 1 && !(old(self).nodes@[idx].splits() && !old(self).nodes@[idx].obliterates(
                            finite@[idx],
                        )) implies #[trigger] self.nodes@[idx] == old(self).nodes@[idx] by {
                        assert(self.nodes@[idx] == before[idx]);
                    }
                }
            }
            i = i + 1;
        }
        r
    }

    /// Spawns agents at random nodes; how many grows with the square of
    /// the node count (see `spawner_count`) and is almost always zero in a
    /// small world. Existing agents and node state are left as they were.
    pub fn spawn_random(&mut self, rng: &mut SimRng)
        where
            B: Brain,
        requires
            old(self).wf(),
        ensures
            final(self).wf(),
            final(self).nodes@.len() == old(self).nodes@.len(),
            final(self).topology == old(self).topology,
            forall|i: int|
                0 <= i < old(self).nodes@.len() ==> {
                    &&& (#[trigger] final(self).nodes@[i]).energy == old(self).nodes@[i].energy
                    &&& final(self).nodes@[i].connections == old(self).nodes@[i].connections
                    &&& final(self).nodes@[i].bots@.len() >= old(self).nodes@[i].bots@.len()
                    &&& final(self).nodes@[i].bots@.subrange(0, old(self).nodes@[i].bots@.len() as int)
                        == old(self).nodes@[i].bots@
                    &&& forall|k: int|
                        old(self).nodes@[i].bots@.len() <= k < final(self).nodes@[i].bots@.len() ==> (
                        #[trigger] final(self).nodes@[i].bots@[k]).is_fresh()
                },
    {
        let n = self.nodes.len();
        if n == 0 {
            return;
        }
        let x = draw_below(rng, START_SPAWNING_AT * START_SPAWNING_AT);
        let spawners = spawner_count(x, n);
        let mut s: u64 = 0;
        while s < spawners
            invariant
                self.wf(),
                n == self.nodes@.len(),
                n == old(self).nodes@.len(),
                self.topology == old(self).topology,
                n > 0,
                forall|i: int|
                    0 <= i < n ==> {
                        &&& (#[trigger] self.nodes@[i]).energy == old(self).nodes@[i].energy
                        &&& self.nodes@[i].connections == old(self).nodes@[i].connections
                        &&& self.nodes@[i].bots@.len() >= old(self).nodes@[i].bots@.len()
                        &&& self.nodes@[i].bots@.subrange(0, old(self).nodes@[i].bots@.len() as int)
                            == old(self).nodes@[i].bots@
                        &&& forall|k: int|
                            old(self).nodes@[i].bots@.len() <= k < self.nodes@[i].bots@.len() ==> (
                            #[trigger] self.nodes@[i].bots@[k]).is_fresh()
                    },
            decreases spawners - s,
        {
            let p = draw_below(rng, n as u64) as usize;
            let b = Bot::new(rng);
            let ghost before = self.nodes@[p as int].bots@;
            self.nodes[p].bots.push(b);
            proof {
                let len = old(self).nodes@[p as int].bots@.len() as int;
                assert(self.nodes@[p as int].bots@.subrange(0, len) =~= before.subrange(0, len));
            }
            s = s + 1;
        }
    }

    /// Removes, from the last index down, every node that runs out of
    /// energy or whose position is not finite (`finite[i]`, judged by the
    /// caller), with its agents and edges; its former neighbors may be
    /// joined first. Returns the removed indices, in decreasing order.
    #[verifier::spinoff_prover]
    pub fn obliterate(&mut self, finite: &Vec<bool>, rng: &mut SimRng) -> (r: Vec<usize>)
        requires
            old(self).wf(),
            finite@.len() == old(self).nodes@.len(),
        ensures
            final(self).wf(),
            final(self).nodes@.len() + r@.len() == old(self).nodes@.len(),
            forall|m: int| 0 <= m < r@.len() ==> #[trigger] r@[m] < old(self).nodes@.len()
                && old(self).nodes@[r@[m] as int].obliterates(finite@[r@[m] as int]),
            forall|m: int, l: int| 0 <= m < l < r@.len() ==> #[trigger] r@[m] > #[trigger] r@[l],
            forall|i: int|
                0 <= i < old(self).nodes@.len() && #[trigger] old(self).nodes@[i].obliterates(finite@[i])
                    ==> r@.contains(i as usize),
            exists|kept: Seq<int>| #[trigger] survivors(*old(self), *final(self), finite@, kept),
    {
        let n = self.nodes.len();
        let mut r: Vec<usize> = Vec::new();
        let ghost mut kept: Seq<int> = Seq::empty();
        let mut i: usize = n;
        while i > 0
            invariant
                self.wf(),
                n == old(self).nodes@.len(),
                finite@.len() == n,
                i <= n,
                self.nodes@.len() + r@.len() == n,
                self.nodes@.len() >= i,
                forall|idx: int| 0 <= idx < i ==> #[trigger] self.nodes@[idx] == old(self).nodes@[idx],
                forall|m: int| 0 <= m < r@.len() ==> #[trigger] r@[m] >= i && r@[m] < n
                    && old(self).nodes@[r@[m] as int].obliterates(finite@[r@[m] as int]),
                forall|m: int, l: int| 0 <= m < l < r@.len() ==> #[trigger] r@[m] > #[trigger] r@[l],
                forall|idx: int|
                    i <= idx < n && #[trigger] old(self).nodes@[idx].obliterates(finite@[idx]) ==> r@.contains(
                        idx as usize,
                    ),
                kept.len() == self.nodes@.len() - i,
                forall|m: int|
                    0 <= m < kept.len() ==> i <= #[trigger] kept[m] < n && !old(self).nodes@[kept[m]].obliterates(finite@[kept[m]])
                        && reset_node(old(self).nodes@[kept[m]], self.nodes@[i + m]),
                forall|m: int, l: int| 0 <= m < l < kept.len() ==> #[trigger] kept[m] < #[trigger] kept[l],
                forall|x: int| i <= x < n && !#[trigger] old(self).nodes@[x].obliterates(finite@[x]) ==> exists|m: int|
                    0 <= m < kept.len() && kept[m] == x,
                forall|a: int, b: int|
                    0 <= a < self.nodes@.len() && 0 <= b < self.nodes@.len() ==> #[trigger] self.topology.edge(a, b)
                        == old(self).topology.edge(kept_index(i as int, kept, a), kept_index(i as int, kept, b)),
            decreases i,
        {
            i = i - 1;
            let ghost t0 = self.topology;
            self.nodes[i].connections = 0;
            if self.nodes[i].should_obliterate(finite[i]) {
                let nb = self.topology.neighbors(i);
                let ghost snap = self.nodes@;
                let mut a: usize = 0;
                while a < nb.len()
                    invariant
                        self.nodes@ == snap,
                        self.topology == t0,
                        i < snap.len(),
                        self.topology.wf(),
                        self.topology.count() == self.nodes@.len(),
                        forall|m: int| 0 <= m < nb@.len() ==> #[trigger] nb@[m] < self.topology.count(),
                        nb@.no_duplicates(),
                    decreases nb@.len() - a,
                {
                    let mut b: usize = a + 1;
                    while b < nb.len()
                        invariant
                            self.nodes@ == snap,
                            self.topology == t0,
                            i < snap.len(),
                            self.topology.wf(),
                            self.topology.count() == self.nodes@.len(),
                            a < b,
                            a < nb@.len(),
                            forall|m: int| 0 <= m < nb@.len() ==> #[trigger] nb@[m] < self.topology.count(),
                            nb@.no_duplicates(),
                        decreases nb@.len() - b,
                    {
                        if chance(rng, CONNECT_PER_MILLION) {
                            assert(nb@[a as int] != nb@[b as int]);
                            self.topology.connect(nb[a], nb[b]);
                        }
                        b = b + 1;
                    }
                    a = a + 1;
                }
                self.nodes.remove(i);
                self.topology.remove_node(i);
                let ghost prev = r@;
                r.push(i);
                proof {
                    assert forall|m: int| 0 <= m < kept.len() implies i <= #[trigger] kept[m] < n && !old(self).nodes@[kept[m]].obliterates(finite@[kept[m]])
                        && reset_node(old(self).nodes@[kept[m]], self.nodes@[i + m]) by {
                        assert(self.nodes@[i + m] == snap[i + m + 1]);
                    }
                    assert forall|a: int, b: int| 0 <= a < self.nodes@.len() && 0 <= b < self.nodes@.len() implies #[trigger] self.topology.edge(a, b)
                        == old(self).topology.edge(kept_index(i as int, kept, a), kept_index(i as int, kept, b)) by {
                        assert(kept_index(i + 1, kept, shifted(a, i as int)) == kept_index(i as int, kept, a));
                        assert(kept_index(i + 1, kept, shifted(b, i as int)) == kept_index(i as int, kept, b));
                    }
                    assert forall|x: int| i <= x < n && !#[trigger] old(self).nodes@[x].obliterates(finite@[x]) implies exists|m: int|
                        0 <= m < kept.len() && kept[m] == x by {
                        assert(x != i);
                    }
                    assert(old(self).nodes@[i as int].obliterates(finite@[i as int]));
                    assert forall|idx: int|
                        i <= idx < n && #[trigger] old(self).nodes@[idx].obliterates(finite@[idx]) implies r@.contains(
                        idx as usize,
                    ) by {
                        if idx == i {
                            assert(r@[r@.len() - 1] == i);
                        } else {
                            let m = choose|m: int| 0 <= m < prev.len() && prev[m] == idx as usize;
                            assert(r@[m] == idx as usize);
                        }
                    }
                }
            } else {
                proof {
                    let k0 = kept;
                    kept = seq![i as int] + k0;
                    assert(!old(self).nodes@[i as int].obliterates(finite@[i as int]));
                    assert forall|m: int| 0 <= m < kept.len() implies i <= #[trigger] kept[m] < n && !old(self).nodes@[kept[m]].obliterates(finite@[kept[m]])
                        && reset_node(old(self).nodes@[kept[m]], self.nodes@[i + m]) by {
                        if m > 0 {
                            assert(kept[m] == k0[m - 1]);
                        }
                    }
                    assert forall|m: int, l: int| 0 <= m < l < kept.len() implies #[trigger] kept[m] < #[trigger] kept[l] by {
                        if m > 0 {
                            assert(kept[m] == k0[m - 1]);
                        }
                        assert(kept[l] == k0[l - 1]);
                    }
                    assert forall|x: int| i <= x < n && !#[trigger] old(self).nodes@[x].obliterates(finite@[x]) implies exists|m: int|
                        0 <= m < kept.len() && kept[m] == x by {
                        if x == i {
                            assert(kept[0] == x);
                        } else {
                            let m = choose|m: int| 0 <= m < k0.len() && k0[m] == x;
                            assert(kept[m + 1] == x);
                        }
                    }
                    assert forall|a: int, b: int| 0 <= a < self.nodes@.len() && 0 <= b < self.nodes@.len() implies #[trigger] self.topology.edge(a, b)
                        == old(self).topology.edge(kept_index(i as int, kept, a), kept_index(i as int, kept, b)) by {
                        assert(kept_index(i as int, kept, a) == kept_index(i + 1, k0, a));
                        assert(kept_index(i as int, kept, b) == kept_index(i + 1, k0, b));
                    }
                }
            }
        }
        proof {
            assert forall|a: int| 0 <= a < self.nodes@.len() implies kept_index(0, kept, a) == kept[a] by {}
            assert(survivors(*old(self), *self, finite@, kept));
        }
        r
    }

    /// Prunes and creates edges by `reach[a][b]` (read for `a < b`) and the
    /// agents' bonds, as `edge_after` says, then recounts every node's
    /// connections.
    #[verifier::spinoff_prover]
    pub fn update_topology(&mut self, reach: &Vec<Vec<Reach>>)
        requires
            old(self).wf(),
            reach@.len() == old(self).nodes@.len(),
            forall|a: int| 0 <= a < reach@.len() ==> #[trigger] reach@[a]@.len() == reach@.len(),
        ensures
            final(self).wf(),
            final(self).nodes@.len() == old(self).nodes@.len(),
            forall|a: int, b: int|
                0 <= a < b < old(self).nodes@.len() ==> #[trigger] final(self).topology.edge(a, b) == edge_after(
                    old(self).topology.edge(a, b),
                    reach@[a]@[b],
                    bonded(old(self).nodes@[a].bots@, old(self).nodes@[b].bots@),
                ),
            forall|a: int, b: int|
                0 <= a < b < old(self).nodes@.len() && reach@[a]@[b] != Reach::Beyond && bonded(
                    old(self).nodes@[a].bots@,
                    old(self).nodes@[b].bots@,
                ) ==> #[trigger] final(self).topology.edge(a, b),
            forall|i: int|
                0 <= i < old(self).nodes@.len() ==> (#[trigger] final(self).nodes@[i]).bots == old(
                    self,
                ).nodes@[i].bots && final(self).nodes@[i].energy == old(self).nodes@[i].energy
                    && final(self).nodes@[i].connections >= 0 && ((final(self).nodes@[i].connections == 0) == (
                    forall|j: int| 0 <= j < old(self).nodes@.len() ==> !#[trigger] final(self).topology.edge(i, j))),
    {
        let n = self.nodes.len();
        let mut a: usize = 0;
        while a < n
            invariant
                self.wf(),
                n == self.nodes@.len(),
                self.nodes@ == old(self).nodes@,
                reach@.len() == n,
                forall|x: int| 0 <= x < reach@.len() ==> #[trigger] reach@[x]@.len() == reach@.len(),
                a <= n,
                forall|x: int, y: int|
                    0 <= x < y < n ==> #[trigger] self.topology.edge(x, y) == (if x < a {
                        edge_after(
                            old(self).topology.edge(x, y),
                            reach@[x]@[y],
                            bonded(old(self).nodes@[x].bots@, old(self).nodes@[y].bots@),
                        )
                    } else {
                        old(self).topology.edge(x, y)
                    }),
            decreases n - a,
        {
            let mut b: usize = a + 1;
            while b < n
                invariant
                    self.wf(),
                    n == self.nodes@.len(),
                    self.nodes@ == old(self).nodes@,
                    reach@.len() == n,
                    forall|x: int| 0 <= x < reach@.len() ==> #[trigger] reach@[x]@.len() == reach@.len(),
                    a < n,
                    a < b <= n,
                    forall|x: int, y: int|
                        0 <= x < y < n ==> #[trigger] self.topology.edge(x, y) == (if x < a || (x == a && y
                            < b) {
                            edge_after(
                                old(self).topology.edge(x, y),
                                reach@[x]@[y],
                                bonded(old(self).nodes@[x].bots@, old(self).nodes@[y].bots@),
                            )
                        } else {
                            old(self).topology.edge(x, y)
                        }),
                decreases n - b,
            {
                let had = self.topology.has_edge(a, b);
                let rc = reach[a][b];
                let bond = bots_bonded(&self.nodes[a].bots, &self.nodes[b].bots);
                let keep = (had && (rc == Reach::Close || rc == Reach::Span)) || rc == Reach::Close || (
                bond && rc != Reach::Beyond);
                let ghost t = self.topology;
                if keep {
                    self.topology.connect(a, b);
                } else {
                    self.topology.disconnect(a, b);
                }
                proof {
                    t.lemma_wf();
                    assert forall|x: int, y: int| 0 <= x < y < n implies #[trigger] self.topology.edge(x, y)
                        == (if x < a || (x == a && y < b + 1) {
                        edge_after(
                            old(self).topology.edge(x, y),
                            reach@[x]@[y],
                            bonded(old(self).nodes@[x].bots@, old(self).nodes@[y].bots@),
                        )
                    } else {
                        old(self).topology.edge(x, y)
                    }) by {
                        assert(self.topology.edge(x, y) == (if x == a && y == b {
                            keep
                        } else {
                            t.edge(x, y)
                        }));
                    }
                }
                b = b + 1;
            }
            a = a + 1;
        }
        let mut i: usize = 0;
        while i < n
            invariant
                self.wf(),
                n == self.nodes@.len(),
                n == old(self).nodes@.len(),
                i <= n,
                forall|x: int, y: int|
                    0 <= x < y < n ==> #[trigger] self.topology.edge(x, y) == edge_after(
                        old(self).topology.edge(x, y),
                        reach@[x]@[y],
                        bonded(old(self).nodes@[x].bots@, old(self).nodes@[y].bots@),
                    ),
                forall|k: int|
                    0 <= k < n ==> (#[trigger] self.nodes@[k]).bots == old(self).nodes@[k].bots
                        && self.nodes@[k].energy == old(self).nodes@[k].energy,
                forall|k: int|
                    0 <= k < i ==> (#[trigger] self.nodes@[k]).connections >= 0 && ((self.nodes@[k].connections == 0) == (
                    forall|j: int| 0 <= j < n ==> !#[trigger] self.topology.edge(k, j))),
                forall|k: int| i <= k < n ==> #[trigger] self.nodes@[k] == old(self).nodes@[k],
            decreases n - i,
        {
            let d = self.topology.degree(i);
            self.nodes[i].connections = count_to_input(d);
            i = i + 1;
        }
    }

    /// Two-pass diffusion: every node first pays its outflow, then receives
    /// from each neighbor that neighbor's outflow shared over its
    /// connections. See `diffused`.
    #[verifier::spinoff_prover]
    pub fn diffuse_all(&mut self)
        requires
            old(self).wf(),
        ensures
            final(self).wf(),
            diffused(*old(self), *final(self)),
    {
        let n = self.nodes.len();
        let mut i: usize = 0;
        while i < n
            invariant
                self.wf(),
                n == self.nodes@.len(),
                n == old(self).nodes@.len(),
                self.topology == old(self).topology,
                i <= n,
                forall|k: int|
                    0 <= k < i ==> (#[trigger] self.nodes@[k]).diffuse == sent(old(self).nodes@[k])
                        && self.nodes@[k].energy == clamp64(old(self).nodes@[k].energy - sent(old(self).nodes@[k]))
                        && self.nodes@[k].connections == old(self).nodes@[k].connections
                        && self.nodes@[k].bots == old(self).nodes@[k].bots,
                forall|k: int| i <= k < n ==> #[trigger] self.nodes@[k] == old(self).nodes@[k],
            decreases n - i,
        {
            self.nodes[i].diffuse();
            i = i + 1;
        }
        let ghost mid = self.nodes@;
        let mut i: usize = 0;
        while i < n
            invariant
                self.wf(),
                n == self.nodes@.len(),
                n == old(self).nodes@.len(),
                mid.len() == n,
                self.topology == old(self).topology,
                i <= n,
                forall|k: int|
                    0 <= k < n ==> (#[trigger] mid[k]).diffuse == sent(old(self).nodes@[k]) && mid[k].energy
                        == clamp64(old(self).nodes@[k].energy - sent(old(self).nodes@[k])) && mid[k].connections
                        == old(self).nodes@[k].connections && mid[k].bots == old(self).nodes@[k].bots,
                forall|k: int|
                    0 <= k < n ==> (#[trigger] self.nodes@[k]).diffuse == mid[k].diffuse
                        && self.nodes@[k].connections == mid[k].connections && self.nodes@[k].bots == mid[k].bots,
                forall|k: int|
                    0 <= k < i ==> (#[trigger] self.nodes@[k]).energy == received(
                        old(self).nodes@,
                        old(self).topology,
                        k,
                        n as int,
                        mid[k].energy,
                    ),
                forall|k: int| i <= k < n ==> (#[trigger] self.nodes@[k]).energy == mid[k].energy,
            decreases n - i,
        {
            let mut e = self.nodes[i].energy;
            let mut j: usize = 0;
            while j < n
                invariant
                    self.wf(),
                    n == self.nodes@.len(),
                    n == old(self).nodes@.len(),
                    mid.len() == n,
                    i < n,
                    j <= n,
                    self.topology == old(self).topology,
                    forall|k: int|
                        0 <= k < n ==> (#[trigger] mid[k]).diffuse == sent(old(self).nodes@[k])
                            && mid[k].connections == old(self).nodes@[k].connections,
                    forall|k: int|
                        0 <= k < n ==> (#[trigger] self.nodes@[k]).diffuse == mid[k].diffuse
                            && self.nodes@[k].connections == mid[k].connections,
                    self.nodes@[i as int].energy == mid[i as int].energy,
                    e == received(old(self).nodes@, old(self).topology, i as int, j as int, mid[i as int].energy),
                decreases n - j,
            {
                if self.topology.has_edge(i, j) && self.nodes[j].connections > 0 {
                    let share = self.nodes[j].diffuse / self.nodes[j].connections;
                    proof {
                        assert(self.nodes@[j as int].diffuse == sent(old(self).nodes@[j as int]));
                        assert(share == quotient(
                            sent(old(self).nodes@[j as int]) as int,
                            old(self).nodes@[j as int].connections as int,
                        ));
                    }
                    e = sat_add(e, share);
                }
                j = j + 1;
            }
            self.nodes[i].energy = e;
            i = i + 1;
        }
    }

    /// Neighbor list as agents see it: index 0 is node `i` itself, then
    /// its graph neighbors, each once.
    pub fn choices(&self, i: usize) -> (r: Vec<usize>)
        requires
            self.wf(),
            i < self.nodes@.len(),
        ensures
            valid_choices(self.nodes@.len() as int, self.topology, i as int, r@),
    {
        let nb = self.topology.neighbors(i);
        let mut r: Vec<usize> = vec![i];
        let mut k: usize = 0;
        while k < nb.len()
            invariant
                k <= nb@.len(),
                r@.len() == k + 1,
                r@[0] == i,
                i < self.nodes@.len(),
                self.wf(),
                nb@.no_duplicates(),
                forall|m: int| 0 <= m < nb@.len() ==> #[trigger] nb@[m] < self.topology.count() && self.topology.edge(i as int, nb@[m] as int),
                forall|j: int| 0 <= j < self.topology.count() && #[trigger] self.topology.edge(i as int, j) ==> nb@.contains(j as usize),
                forall|m: int| 1 <= m < r@.len() ==> #[trigger] r@[m] == nb@[m - 1],
                forall|m: int| 0 <= m < r@.len() ==> #[trigger] r@[m] < self.nodes@.len(),
                forall|m: int| 1 <= m < r@.len() ==> self.topology.edge(i as int, #[trigger] r@[m] as int),
            decreases nb@.len() - k,
        {
            r.push(nb[k]);
            k = k + 1;
        }
        proof {
            self.topology.lemma_wf();
            assert forall|m: int, l: int| 1 <= m < r@.len() && 1 <= l < r@.len() && m != l implies #[trigger] r@[m] != #[trigger] r@[l] by {
                assert(r@[m] == nb@[m - 1] && r@[l] == nb@[l - 1]);
            }
            assert forall|j: int| 0 <= j < self.nodes@.len() && #[trigger] self.topology.edge(i as int, j) implies exists|m: int|
                1 <= m < r@.len() && r@[m] == j by {
                let q = choose|q: int| 0 <= q < nb@.len() && nb@[q] == j as usize;
                assert(r@[q + 1] == j);
            }
        }
        r
    }

    /// Agent `ib` of node `i` ranks the nodes of `nb` and its co-located
    /// agents, then its final brain decides (see `final_outputs`). Only the
    /// committed state of the world is read.
    pub fn decide_bot(&self, i: usize, ib: usize, nb: &Vec<usize>, random: i64) -> (r: Decision)
        where
            B: Brain,
        requires
            self.wf(),
            i < self.nodes@.len(),
            ib < self.nodes@[i as int].bots@.len(),
            forall|k: int| 0 <= k < nb@.len() ==> #[trigger] nb@[k] < self.nodes@.len(),
        ensures
            decoded(r, final_outputs(*self, i as int, ib as int, nb@, random)),
    {
        let node = &self.nodes[i];
        let bot = &node.bots[ib];
        let tick = tick_to_input(self.tick);
        let own_pop = count_to_input(node.bots.len());
        let sentinel: Payload = (-1, -1, -1, -1, -1);
        let mut node_ranks: RankSelector<Payload> = RankSelector::new(TOTAL_NODE_INPUTS, sentinel);
        let mut k: usize = 0;
        while k < nb.len()
            invariant
                k <= nb@.len(),
                i < self.nodes@.len(),
                ib < self.nodes@[i as int].bots@.len(),
                *node == self.nodes@[i as int],
                *bot == node.bots@[ib as int],
                tick == count_input(self.tick as nat),
                own_pop == count_input(node.bots@.len()),
                forall|m: int| 0 <= m < nb@.len() ==> #[trigger] nb@[m] < self.nodes@.len(),
                node_ranks@ == node_ranked(*self, i as int, ib as int, nb@, random, k as int),
            decreases nb@.len() - k,
        {
            let other = &self.nodes[nb[k]];
            let inputs = node_brain_inputs(
                random,
                other.energy,
                count_to_input(other.bots.len()),
                own_pop,
                bot.energy,
                node.connections,
                other.connections,
                tick,
                &bot.memory,
            );
            let out = bot.node_brain.compute(&inputs);
            node_ranks.insert(rank_entry(count_to_input(k), &out));
            k = k + 1;
        }
        let mut bot_ranks: RankSelector<Payload> = RankSelector::new(TOTAL_BOT_INPUTS, sentinel);
        let mut k: usize = 0;
        while k < node.bots.len()
            invariant
                k <= node.bots@.len(),
                i < self.nodes@.len(),
                ib < self.nodes@[i as int].bots@.len(),
                *node == self.nodes@[i as int],
                *bot == node.bots@[ib as int],
                tick == count_input(self.tick as nat),
                own_pop == count_input(node.bots@.len()),
                bot_ranks@ == bot_ranked(*self, i as int, ib as int, random, k as int),
            decreases node.bots@.len() - k,
        {
            let other = &node.bots[k];
            let inputs = bot_brain_inputs(
                random,
                node.energy,
                own_pop,
                bot.energy,
                other.energy,
                other.signal,
                node.connections,
                tick,
                &bot.memory,
            );
            let out = bot.bot_brain.compute(&inputs);
            bot_ranks.insert(rank_entry(count_to_input(k), &out));
            k = k + 1;
        }
        let inputs = final_brain_inputs(
            random,
            node.energy,
            own_pop,
            bot.energy,
            count_to_input(ib),
            node.connections,
            tick,
            &bot.memory,
            node_ranks.entries(),
            bot_ranks.entries(),
        );
        let out = bot.final_brain.compute(&inputs);
        Decision::from_outputs(&out)
    }

    /// Every agent decides. Every decision is computed from the world as it
    /// was before any was recorded, so all decisions of a tick see the same
    /// snapshot; each node draws one random value for its agents.
    pub fn decide_all(&mut self, rng: &mut SimRng)
        where
            B: Brain,
        requires
            old(self).wf(),
        ensures
            final(self).wf(),
            final(self).topology == old(self).topology,
            final(self).tick == old(self).tick,
            final(self).nodes@.len() == old(self).nodes@.len(),
            forall|i: int|
                0 <= i < final(self).nodes@.len() ==> (#[trigger] final(self).nodes@[i]).bots@.len() == old(self).nodes@[i].bots@.len()
                    && final(self).nodes@[i].energy == old(self).nodes@[i].energy
                    && final(self).nodes@[i].connections == old(self).nodes@[i].connections
                    && final(self).nodes@[i].moved_bots == old(self).nodes@[i].moved_bots,
            forall|i: int, k: int|
                0 <= i < final(self).nodes@.len() && 0 <= k < final(self).nodes@[i].bots@.len() ==> same_but_decision(
                    #[trigger] final(self).nodes@[i].bots@[k],
                    old(self).nodes@[i].bots@[k],
                ),
            exists|rs: Seq<i64>, nbs: Seq<Seq<usize>>| #[trigger] decided(*old(self), *final(self), rs, nbs),
    {
        let n = self.nodes.len();
        let mut all: Vec<Vec<Decision>> = Vec::new();
        let ghost mut rs: Seq<i64> = Seq::empty();
        let ghost mut nbs: Seq<Seq<usize>> = Seq::empty();
        let mut i: usize = 0;
        while i < n
            invariant
                *self == *old(self),
                self.wf(),
                n == self.nodes@.len(),
                i <= n,
                all@.len() == i,
                rs.len() == i,
                nbs.len() == i,
                forall|a: int|
                    0 <= a < i ==> valid_choices(old(self).nodes@.len() as int, old(self).topology, a, #[trigger] nbs[a]) && all@[a]@.len()
                        == old(self).nodes@[a].bots@.len(),
                forall|a: int, k: int|
                    0 <= a < i && 0 <= k < old(self).nodes@[a].bots@.len() ==> decoded(
                        #[trigger] all@[a]@[k],
                        final_outputs(*old(self), a, k, nbs[a], rs[a]),
                    ),
            decreases n - i,
        {
            let random = draw_i64(rng);
            let nb = self.choices(i);
            let pop = self.nodes[i].bots.len();
            let mut row: Vec<Decision> = Vec::new();
            let mut ib: usize = 0;
            while ib < pop
                invariant
                    *self == *old(self),
                    self.wf(),
                    n == self.nodes@.len(),
                    i < n,
                    pop == self.nodes@[i as int].bots@.len(),
                    ib <= pop,
                    row@.len() == ib,
                    valid_choices(self.nodes@.len() as int, self.topology, i as int, nb@),
                    forall|k: int| 0 <= k < ib ==> decoded(#[trigger] row@[k], final_outputs(*self, i as int, k, nb@, random)),
                decreases pop - ib,
            {
                let d = self.decide_bot(i, ib, &nb, random);
                row.push(d);
                ib = ib + 1;
            }
            let ghost prev = all@;
            all.push(row);
            proof {
                rs = rs.push(random);
                nbs = nbs.push(nb@);
                assert forall|a: int, k: int|
                    0 <= a < i + 1 && 0 <= k < old(self).nodes@[a].bots@.len() implies decoded(
                        #[trigger] all@[a]@[k],
                        final_outputs(*old(self), a, k, nbs[a], rs[a]),
                    ) by {
                    if a == i {
                        assert(all@[a]@[k] == row@[k]);
                    } else {
                        assert(all@[a] == prev[a]);
                    }
                }
                assert forall|a: int| 0 <= a < i + 1 implies valid_choices(old(self).nodes@.len() as int, old(self).topology, a, #[trigger] nbs[a]) && all@[a]@.len()
                    == old(self).nodes@[a].bots@.len() by {
                    if a < i {
                        assert(all@[a] == prev[a]);
                    }
                }
            }
            i = i + 1;
        }
        proof {
            assert forall|a: int| 0 <= a < n implies (#[trigger] all@[a])@.len() == old(self).nodes@[a].bots@.len() by {
                assert(valid_choices(old(self).nodes@.len() as int, old(self).topology, a, nbs[a]));
            }
        }
        let mut i: usize = 0;
        while i < n
            invariant
                self.wf(),
                n == self.nodes@.len(),
                n == old(self).nodes@.len(),
                self.topology == old(self).topology,
                self.tick == old(self).tick,
                i <= n,
                all@.len() == n,
                forall|a: int| 0 <= a < n ==> (#[trigger] all@[a])@.len() == old(self).nodes@[a].bots@.len(),
                forall|k: int|
                    0 <= k < n ==> (#[trigger] self.nodes@[k]).bots@.len() == old(self).nodes@[k].bots@.len()
                        && self.nodes@[k].energy == old(self).nodes@[k].energy
                        && self.nodes@[k].connections == old(self).nodes@[k].connections
                        && self.nodes@[k].moved_bots == old(self).nodes@[k].moved_bots,
                forall|a: int, k: int|
                    0 <= a < n && 0 <= k < self.nodes@[a].bots@.len() ==> same_but_decision(
                        #[trigger] self.nodes@[a].bots@[k],
                        old(self).nodes@[a].bots@[k],
                    ),
                forall|a: int, k: int|
                    0 <= a < i && 0 <= k < self.nodes@[a].bots@.len() ==> (#[trigger] self.nodes@[a].bots@[k]).decision
                        == all@[a]@[k],
            decreases n - i,
        {
            let pop = self.nodes[i].bots.len();
            let mut ib: usize = 0;
            while ib < pop
                invariant
                    self.wf(),
                    n == self.nodes@.len(),
                    n == old(self).nodes@.len(),
                    self.topology == old(self).topology,
                    self.tick == old(self).tick,
                    i < n,
                    all@.len() == n,
                    forall|a: int| 0 <= a < n ==> (#[trigger] all@[a])@.len() == old(self).nodes@[a].bots@.len(),
                    pop == self.nodes@[i as int].bots@.len(),
                    ib <= pop,
                    forall|k: int|
                        0 <= k < n ==> (#[trigger] self.nodes@[k]).bots@.len() == old(self).nodes@[k].bots@.len()
                            && self.nodes@[k].energy == old(self).nodes@[k].energy
                            && self.nodes@[k].connections == old(self).nodes@[k].connections
                            && self.nodes@[k].moved_bots == old(self).nodes@[k].moved_bots,
                    forall|a: int, k: int|
                        0 <= a < n && 0 <= k < self.nodes@[a].bots@.len() ==> same_but_decision(
                            #[trigger] self.nodes@[a].bots@[k],
                            old(self).nodes@[a].bots@[k],
                        ),
                    forall|a: int, k: int|
                        0 <= a < n && 0 <= k < self.nodes@[a].bots@.len() && (a < i || (a == i && k < ib)) ==> (
                        #[trigger] self.nodes@[a].bots@[k]).decision == all@[a]@[k],
                decreases pop - ib,
            {
                let d = all[i][ib];
                self.nodes[i].bots[ib].decision = d;
                ib = ib + 1;
            }
            i = i + 1;
        }
        proof {
            assert(decided(*old(self), *self, rs, nbs));
        }
    }

    /// The edges that node `i`'s agents chose to cut, given its choice list.
    #[verifier::spinoff_prover]
    #[verifier::rlimit(100)]
    pub fn sever_choices(&self, i: usize, nb: &Vec<usize>) -> (sv: Vec<(usize, usize)>)
        requires
            i < self.nodes@.len(),
            valid_choices(self.nodes@.len() as int, self.topology, i as int, nb@),
        ensures
            forall|x: int|
                0 <= x < sv@.len() ==> (#[trigger] sv@[x]).0 == i && sv@[x].1 < self.nodes@.len() && exists|b: int|
                    0 <= b < self.nodes@[i as int].bots@.len() && #[trigger] sever_pair(
                        self.nodes@[i as int].bots@[b],
                        nb@,
                        i as int,
                        sv@[x].0 as int,
                        sv@[x].1 as int,
                    ),
            forall|b: int|
                0 <= b < self.nodes@[i as int].bots@.len() && 0 < (#[trigger] self.nodes@[i as int].bots@[b]).decision.sever_choice
                    < nb@.len() ==> exists|x: int|
                    0 <= x < sv@.len() && sv@[x].0 == i && sv@[x].1 == nb@[self.nodes@[i as int].bots@[b].decision.sever_choice as int],
    {
        let n = self.nodes.len();
        let pop = self.nodes[i].bots.len();
        let ghost orig = self.nodes@[i as int].bots@;
        let mut sv: Vec<(usize, usize)> = Vec::new();
        let ghost mut src: Seq<int> = Seq::empty();
        let mut ib: usize = 0;
        while ib < pop
            invariant
                pop == orig.len(),
                orig == self.nodes@[i as int].bots@,
                i < n,
                n == self.nodes@.len(),
                forall|k: int| 0 <= k < nb@.len() ==> #[trigger] nb@[k] < n,
                ib <= pop,
                src.len() == sv@.len(),
                forall|x: int|
                    0 <= x < sv@.len() ==> (#[trigger] sv@[x]).0 == i && sv@[x].1 < n && 0 <= src[x] < ib && sever_pair(
                        orig[src[x]],
                        nb@,
                        i as int,
                        sv@[x].0 as int,
                        sv@[x].1 as int,
                    ),
                forall|b: int|
                    0 <= b < ib && 0 < (#[trigger] orig[b]).decision.sever_choice < nb@.len() ==> exists|x: int|
                        0 <= x < sv@.len() && sv@[x].0 == i && sv@[x].1 == nb@[orig[b].decision.sever_choice as int],
            decreases pop - ib,
        {
            let c = self.nodes[i].bots[ib].decision.sever_choice;
            let in_range = 0 < c && (c as u64) < (nb.len() as u64);
            proof {
                assert(c == orig[ib as int].decision.sever_choice);
                assert(in_range == (0 < c < nb@.len()));
            }
            if in_range {
                let ghost before = sv@;
                proof {
                    assert(0 < c < nb@.len());
                    assert(nb@[c as int] < n);
                }
                let target = nb[c as usize];
                sv.push((i, target));
                proof {
                    src = src.push(ib as int);
                    assert(sv@[before.len() as int] == (i, target));
                    assert forall|b: int|
                        0 <= b < ib + 1 && 0 < (#[trigger] orig[b]).decision.sever_choice < nb@.len() implies exists|x: int|
                            0 <= x < sv@.len() && sv@[x].0 == i && sv@[x].1 == nb@[orig[b].decision.sever_choice as int] by {
                        if b == ib {
                            assert(sv@[before.len() as int].0 == i);
                        } else {
                            let x = choose|x: int|
                                0 <= x < before.len() && before[x].0 == i && before[x].1 == nb@[orig[b].decision.sever_choice as int];
                            assert(sv@[x] == before[x]);
                        }
                    }
                }
            }
            ib = ib + 1;
        }
        proof {
            assert forall|x: int| 0 <= x < sv@.len() implies (#[trigger] sv@[x]).0 == i && sv@[x].1 < self.nodes@.len() && exists|b: int|
                0 <= b < self.nodes@[i as int].bots@.len() && #[trigger] sever_pair(
                    self.nodes@[i as int].bots@[b],
                    nb@,
                    i as int,
                    sv@[x].0 as int,
                    sv@[x].1 as int,
                ) by {
                assert(sever_pair(orig[src[x]], nb@, i as int, sv@[x].0 as int, sv@[x].1 as int));
            }
        }
        sv
    }

    /// Carries out the decisions of node `i`'s agents (see `node_acted`):
    /// pull is summed, matings happen, leaving agents join the arrivals of
    /// the node they chose. Returns the edges its agents chose to cut.
    #[verifier::spinoff_prover]
    #[verifier::rlimit(60)]
    pub fn act_node(&mut self, i: usize, rng: &mut SimRng) -> (r: Vec<(usize, usize)>)
        where
            B: Brain,
        requires
            old(self).wf(),
            i < old(self).nodes@.len(),
            old(self).nodes@[i as int].bots@.len() < 0x4000_0000_0000_0000,
        ensures
            final(self).wf(),
            final(self).tick == old(self).tick,
            final(self).topology == old(self).topology,
            exists|nb: Seq<usize>, m: Seq<Bot<B>>| #[trigger] node_acted(*old(self), *final(self), i as int, nb, m, r@),
    {
        let n = self.nodes.len();
        self.nodes[i].accumulate_pull();
        let nb = self.choices(i);
        proof {
            assert(valid_choices(old(self).nodes@.len() as int, old(self).topology, i as int, nb@));
        }
        let pop = self.nodes[i].bots.len();
        let sv = self.sever_choices(i, &nb);
        self.nodes[i].mate_all(rng);
        let ghost mm = self.nodes@[i as int].bots@;
        let mut lv = self.nodes[i].take_leavers(pop, nb.len());
        let ghost lall = lv@;
        let ghost base = self.nodes@;
        let ghost mut taken: int = 0;
        while lv.len() > 0
            invariant
                self.wf(),
                n == self.nodes@.len(),
                n == old(self).nodes@.len(),
                base.len() == n,
                self.topology == old(self).topology,
                self.tick == old(self).tick,
                i < n,
                valid_choices(old(self).nodes@.len() as int, old(self).topology, i as int, nb@),
                0 <= taken <= lall.len(),
                lv@ == lall.skip(taken),
                lall == leavers(mm, pop as int, nb@),
                forall|d: int|
                    0 <= d < n ==> (#[trigger] self.nodes@[d]).moved_bots@ == base[d].moved_bots@ + lall.take(taken).filter(
                        |b: Bot<B>| goes_to(b, nb@, d),
                    ),
                forall|d: int|
                    0 <= d < n ==> (#[trigger] self.nodes@[d]).bots == base[d].bots && self.nodes@[d].pull == base[d].pull
                        && self.nodes@[d].energy == base[d].energy && self.nodes@[d].connections == base[d].connections,
            decreases lv@.len(),
        {
            let b = lv.remove(0);
            proof {
                assert(b == lall[taken]);
                assert(lall.take(taken + 1) =~= lall.take(taken).push(b));
                assert(leaves(b, nb@.len() as int));
            }
            let t = b.decision.node;
            let dest = nb[t as usize];
            proof {
                assert(0 < t < nb@.len());
                assert(nb@[t as int] < n);
            }
            let ghost prev = self.nodes@;
            self.nodes[dest].moved_bots.push(b);
            proof {
                assert forall|d: int| 0 <= d < n implies (#[trigger] self.nodes@[d]).moved_bots@ == base[d].moved_bots@
                    + lall.take(taken + 1).filter(|b: Bot<B>| goes_to(b, nb@, d)) by {
                    lall.take(taken).lemma_filter_push(b, |b: Bot<B>| goes_to(b, nb@, d));
                    if d != dest {
                        assert(self.nodes@[d] == prev[d]);
                    }
                }
                assert forall|d: int| 0 <= d < n implies (#[trigger] self.nodes@[d]).bots == base[d].bots && self.nodes@[d].pull
                    == base[d].pull && self.nodes@[d].energy == base[d].energy && self.nodes@[d].connections
                    == base[d].connections by {
                    if d != dest {
                        assert(self.nodes@[d] == prev[d]);
                    }
                }
                taken = taken + 1;
                assert(lv@ =~= lall.skip(taken));
            }
        }
        proof {
            assert(lall.take(lall.len() as int) =~= lall);
            assert(node_acted(*old(self), *self, i as int, nb@, mm, sv@));
        }
        sv
    }

    /// Carries out the decisions of every node's agents, node by node (see
    /// `acted`), then cuts the chosen edges.
    #[verifier::spinoff_prover]
    pub fn act_all(&mut self, rng: &mut SimRng)
        where
            B: Brain,
        requires
            old(self).wf(),
            forall|i: int| 0 <= i < old(self).nodes@.len() ==> (#[trigger] old(self).nodes@[i]).bots@.len() < 0x4000_0000_0000_0000,
        ensures
            final(self).wf(),
            final(self).tick == old(self).tick,
            exists|ms: Seq<Seq<Bot<B>>>, nbs: Seq<Seq<usize>>| #[trigger] acted(*old(self), *final(self), ms, nbs),
    {
        let n = self.nodes.len();
        let mut severs: Vec<(usize, usize)> = Vec::new();
        let ghost mut ms: Seq<Seq<Bot<B>>> = Seq::empty();
        let ghost mut nbs: Seq<Seq<usize>> = Seq::empty();
        let mut i: usize = 0;
        while i < n
            invariant
                self.wf(),
                n == self.nodes@.len(),
                n == old(self).nodes@.len(),
                self.topology == old(self).topology,
                self.tick == old(self).tick,
                forall|q: int| 0 <= q < n ==> (#[trigger] old(self).nodes@[q]).bots@.len() < 0x4000_0000_0000_0000,
                i <= n,
                act_progress(*old(self), *self, i as int, ms, nbs, severs@),
            decreases n - i,
        {
            let ghost before = *self;
            let ghost severs0 = severs@;
            let ghost ms0 = ms;
            let ghost nbs0 = nbs;
            proof {
                assert(before.nodes@[i as int].bots == old(self).nodes@[i as int].bots);
            }
            let mut sv = self.act_node(i, rng);
            let ghost svs = sv@;
            severs.append(&mut sv);
            proof {
                let (nb, m) = choose|nb: Seq<usize>, m: Seq<Bot<B>>| #[trigger] node_acted(before, *self, i as int, nb, m, svs);
                lemma_act_step(*old(self), before, *self, i as int, ms0, nbs0, severs0, nb, m, svs);
                ms = ms0.push(m);
                nbs = nbs0.push(nb);
                assert(severs@ == severs0 + svs);
            }
            i = i + 1;
        }
        let ghost cur = *self;
        self.cut_edges(&severs);
        proof {
            lemma_act_finish(*old(self), cur, *self, ms, nbs, severs@);
        }
    }

    /// Removes the edge of every pair in `pairs`, if there is one.
    #[verifier::spinoff_prover]
    pub fn cut_edges(&mut self, pairs: &Vec<(usize, usize)>)
        requires
            old(self).wf(),
            forall|x: int| 0 <= x < pairs@.len() ==> (#[trigger] pairs@[x]).0 < old(self).nodes@.len() && pairs@[x].1
                < old(self).nodes@.len(),
        ensures
            final(self).wf(),
            final(self).nodes == old(self).nodes,
            final(self).tick == old(self).tick,
            forall|a: int, b: int|
                0 <= a < old(self).nodes@.len() && 0 <= b < old(self).nodes@.len() ==> #[trigger] final(self).topology.edge(a, b)
                    == (old(self).topology.edge(a, b) && !exists|x: int|
                    0 <= x < pairs@.len() && #[trigger] sever_matches(pairs@[x], a, b)),
    {
        let n = self.nodes.len();
        let mut k: usize = 0;
        while k < pairs.len()
            invariant
                self.wf(),
                n == self.nodes@.len(),
                self.nodes == old(self).nodes,
                self.tick == old(self).tick,
                forall|x: int| 0 <= x < pairs@.len() ==> (#[trigger] pairs@[x]).0 < n && pairs@[x].1 < n,
                forall|a: int, b: int|
                    0 <= a < n && 0 <= b < n ==> #[trigger] self.topology.edge(a, b) == (old(self).topology.edge(a, b)
                        && !exists|x: int| 0 <= x < k && #[trigger] sever_matches(pairs@[x], a, b)),
                k <= pairs@.len(),
            decreases pairs@.len() - k,
        {
            let (a, b) = pairs[k];
            self.topology.disconnect(a, b);
            proof {
                assert forall|x: int, y: int| 0 <= x < n && 0 <= y < n implies #[trigger] self.topology.edge(x, y) == (old(
                    self,
                ).topology.edge(x, y) && !exists|q: int| 0 <= q < k + 1 && #[trigger] sever_matches(pairs@[q], x, y)) by {
                    if exists|q: int| 0 <= q < k + 1 && #[trigger] sever_matches(pairs@[q], x, y) {
                        let q = choose|q: int| 0 <= q < k + 1 && #[trigger] sever_matches(pairs@[q], x, y);
                        if q < k {
                            assert(exists|q2: int| 0 <= q2 < k && #[trigger] sever_matches(pairs@[q2], x, y));
                        }
                    } else {
                        assert(!sever_matches(pairs@[k as int], x, y));
                    }
                }
            }
            k = k + 1;
        }
    }

    /// Ends the tick for every node (see `Node::settle`); a node whose
    /// population could overflow the death count is left as it was.
    pub fn settle_all(&mut self, rng: &mut SimRng)
        where
            B: Brain,
        requires
            old(self).wf(),
        ensures
            final(self).wf(),
            final(self).topology == old(self).topology,
            final(self).nodes@.len() == old(self).nodes@.len(),
            forall|i: int|
                0 <= i < final(self).nodes@.len() && old(self).nodes@[i].bots@.len() < 0x4000_0000_0000_0000
                    && old(self).nodes@[i].moved_bots@.len() < 0x4000_0000_0000_0000 ==> settled(
                    old(self).nodes@[i],
                    #[trigger] final(self).nodes@[i],
                ),
    {
        let n = self.nodes.len();
        let mut i: usize = 0;
        while i < n
            invariant
                self.wf(),
                n == self.nodes@.len(),
                n == old(self).nodes@.len(),
                self.topology == old(self).topology,
                i <= n,
                forall|k: int|
                    0 <= k < i && old(self).nodes@[k].bots@.len() < 0x4000_0000_0000_0000
                        && old(self).nodes@[k].moved_bots@.len() < 0x4000_0000_0000_0000 ==> settled(
                        old(self).nodes@[k],
                        #[trigger] self.nodes@[k],
                    ),
                forall|k: int| i <= k < n ==> #[trigger] self.nodes@[k] == old(self).nodes@[k],
            decreases n - i,
        {
            if (self.nodes[i].bots.len() as u64) < 0x4000_0000_0000_0000 && (self.nodes[i].moved_bots.len() as u64)
                < 0x4000_0000_0000_0000 {
                self.nodes[i].settle(MUTATION_PER_MILLION, rng);
            }
            i = i + 1;
        }
    }

    /// Each agent takes `asks[i][k]` energy from its node (or gives it back).
    pub fn exchange_all(&mut self, asks: &Vec<Vec<i64>>)
        requires
            old(self).wf(),
            asks@.len() == old(self).nodes@.len(),
            forall|i: int| 0 <= i < asks@.len() ==> #[trigger] asks@[i]@.len() == old(self).nodes@[i].bots@.len(),
        ensures
            final(self).wf(),
            final(self).topology == old(self).topology,
            final(self).nodes@.len() == old(self).nodes@.len(),
            forall|i: int|
                0 <= i < final(self).nodes@.len() ==> (#[trigger] final(self).nodes@[i]).energy == energy_after_asks(
                    old(self).nodes@[i].energy,
                    old(self).nodes@[i].bots@,
                    asks@[i]@,
                ) && final(self).nodes@[i].bots@.len() == old(self).nodes@[i].bots@.len(),
            forall|i: int, k: int|
                0 <= i < final(self).nodes@.len() && 0 <= k < old(self).nodes@[i].bots@.len() ==> (#[trigger] final(self).nodes@[i].bots@[k]).energy == bot_after_exchange(old(self).nodes@[i].bots@[k].energy, asks@[i]@[k]),
    {
        let n = self.nodes.len();
        let mut i: usize = 0;
        while i < n
            invariant
                self.wf(),
                n == self.nodes@.len(),
                n == old(self).nodes@.len(),
                asks@.len() == n,
                self.topology == old(self).topology,
                i <= n,
                forall|k: int| 0 <= k < i ==> (#[trigger] self.nodes@[k]).energy == energy_after_asks(
                    old(self).nodes@[k].energy,
                    old(self).nodes@[k].bots@,
                    asks@[k]@,
                ) && self.nodes@[k].bots@.len() == old(self).nodes@[k].bots@.len(),
                forall|k: int, b: int|
                    0 <= k < i && 0 <= b < old(self).nodes@[k].bots@.len() ==> (#[trigger] self.nodes@[k].bots@[b]).energy
                        == bot_after_exchange(old(self).nodes@[k].bots@[b].energy, asks@[k]@[b]),
                forall|k: int| i <= k < n ==> #[trigger] self.nodes@[k] == old(self).nodes@[k],
                forall|k: int| 0 <= k < asks@.len() ==> #[trigger] asks@[k]@.len() == old(self).nodes@[k].bots@.len(),
            decreases n - i,
        {
            self.nodes[i].exchange_energy(&asks[i]);
            i = i + 1;
        }
    }

    /// Advances the tick counter.
    pub fn finish_tick(&mut self)
        ensures
            final(self).tick == if old(self).tick < u64::MAX {
                old(self).tick + 1
            } else {
                old(self).tick as int
            },
            final(self).nodes == old(self).nodes,
            final(self).topology == old(self).topology,
    {
        if self.tick < u64::MAX {
            self.tick = self.tick + 1;
        }
    }
}

} // verus!
