use vstd::prelude::*;
use crate::bot::{TOTAL_MEMORY, out_at, output_at};
use crate::rank::Rank;

verus! {

/// Payload of a ranked entry: which neighbor or agent it came from, then
/// the brain's outputs after the score.
pub type Payload = (i64, i64, i64, i64, i64);

/// Payload of a sentinel entry.
pub open spec fn sentinel_payload() -> Payload {
    (-1i64, -1i64, -1i64, -1i64, -1i64)
}

pub open spec fn payload_seq(p: Payload) -> Seq<i64> {
    seq![p.0, p.1, p.2, p.3, p.4]
}

/// The fixed inputs every brain sees first.
pub open spec fn statics() -> Seq<i64> {
    seq![0i64, 1i64, 2i64, -1i64]
}

/// A count as a brain input, pinned to the range of `i64`.
pub open spec fn count_input(n: nat) -> i64 {
    if n > i64::MAX {
        i64::MAX
    } else {
        n as i64
    }
}

pub fn count_to_input(n: usize) -> (r: i64)
    ensures
        r == count_input(n as nat),
{
    if n as u64 > i64::MAX as u64 {
        i64::MAX
    } else {
        n as i64
    }
}

pub fn tick_to_input(t: u64) -> (r: i64)
    ensures
        r == count_input(t as nat),
{
    if t > i64::MAX as u64 {
        i64::MAX
    } else {
        t as i64
    }
}

fn push_memory(v: &mut Vec<i64>, memory: &[i64; TOTAL_MEMORY])
    ensures
        final(v)@ == old(v)@ + memory@,
{
    let ghost start = v@;
    let mut k: usize = 0;
    while k < TOTAL_MEMORY
        invariant
            k <= TOTAL_MEMORY,
            memory@.len() == TOTAL_MEMORY,
            v@ == start + memory@.take(k as int),
        decreases TOTAL_MEMORY - k,
    {
        v.push(memory[k]);
        k = k + 1;
        proof {
            assert(memory@.take(k as int) =~= memory@.take(k - 1).push(memory@[k - 1]));
        }
    }
    proof {
        assert(memory@.take(TOTAL_MEMORY as int) =~= memory@);
    }
}

pub open spec fn node_inputs(
    random: i64,
    neighbor_energy: i64,
    neighbor_population: i64,
    own_population: i64,
    bot_energy: i64,
    own_connections: i64,
    neighbor_connections: i64,
    tick: i64,
    memory: Seq<i64>,
) -> Seq<i64> {
    statics() + seq![
        random,
        neighbor_energy,
        neighbor_population,
        own_population,
        bot_energy,
        own_connections,
        neighbor_connections,
        tick,
    ] + memory
}

pub open spec fn bot_inputs(
    random: i64,
    node_energy: i64,
    population: i64,
    own_energy: i64,
    candidate_energy: i64,
    candidate_signal: i64,
    connections: i64,
    tick: i64,
    memory: Seq<i64>,
) -> Seq<i64> {
    statics() + seq![
        random,
        node_energy,
        population,
        own_energy,
        candidate_energy,
        candidate_signal,
        connections,
        tick,
    ] + memory
}

pub open spec fn final_inputs(
    random: i64,
    node_energy: i64,
    population: i64,
    own_energy: i64,
    own_index: i64,
    connections: i64,
    tick: i64,
    memory: Seq<i64>,
    node_ranks: Seq<Rank<Payload>>,
    bot_ranks: Seq<Rank<Payload>>,
) -> Seq<i64> {
    statics() + seq![random, node_energy, population, own_energy, own_index, connections, tick] + memory
        + payloads(node_ranks) + payloads(bot_ranks)
}

/// The ranked entry for a candidate: the first output is the score; the
/// payload is the candidate's index followed by the next four outputs.
pub open spec fn rank_of(index: i64, out: Seq<i64>) -> Rank<Payload> {
    Rank { rank: out_at(out, 0), data: (index, out_at(out, 1), out_at(out, 2), out_at(out, 3), out_at(out, 4)) }
}

/// Node-brain inputs for one candidate node: the statics, a tick-scoped
/// random value, the candidate's energy and population, the own node's
/// population, the agent's energy, the own node's and the candidate's
/// connections, the tick, then the agent's memory.
pub fn node_brain_inputs(
    random: i64,
    neighbor_energy: i64,
    neighbor_population: i64,
    own_population: i64,
    bot_energy: i64,
    own_connections: i64,
    neighbor_connections: i64,
    tick: i64,
    memory: &[i64; TOTAL_MEMORY],
) -> (r: Vec<i64>)
    ensures
        r@ == node_inputs(
            random,
            neighbor_energy,
            neighbor_population,
            own_population,
            bot_energy,
            own_connections,
            neighbor_connections,
            tick,
            memory@,
        ),
{
    let mut v: Vec<i64> = vec![0, 1, 2, -1];
    v.push(random);
    v.push(neighbor_energy);
    v.push(neighbor_population);
    v.push(own_population);
    v.push(bot_energy);
    v.push(own_connections);
    v.push(neighbor_connections);
    v.push(tick);
    let ghost head = v@;
    push_memory(&mut v, memory);
    proof {
        assert(head =~= statics() + seq![
            random,
            neighbor_energy,
            neighbor_population,
            own_population,
            bot_energy,
            own_connections,
            neighbor_connections,
            tick,
        ]);
    }
    v
}

/// Bot-brain inputs for one co-located candidate: the statics, the random
/// value, the node's energy and population, the agent's own energy, the
/// candidate's energy and signal, the node's connections, the tick, then
/// the agent's memory.
pub fn bot_brain_inputs(
    random: i64,
    node_energy: i64,
    population: i64,
    own_energy: i64,
    candidate_energy: i64,
    candidate_signal: i64,
    connections: i64,
    tick: i64,
    memory: &[i64; TOTAL_MEMORY],
) -> (r: Vec<i64>)
    ensures
        r@ == bot_inputs(
            random,
            node_energy,
            population,
            own_energy,
            candidate_energy,
            candidate_signal,
            connections,
            tick,
            memory@,
        ),
{
    let mut v: Vec<i64> = vec![0, 1, 2, -1];
    v.push(random);
    v.push(node_energy);
    v.push(population);
    v.push(own_energy);
    v.push(candidate_energy);
    v.push(candidate_signal);
    v.push(connections);
    v.push(tick);
    let ghost head = v@;
    push_memory(&mut v, memory);
    proof {
        assert(head =~= statics() + seq![
            random,
            node_energy,
            population,
            own_energy,
            candidate_energy,
            candidate_signal,
            connections,
            tick,
        ]);
    }
    v
}

/// The payloads of ranked entries, one after another.
pub open spec fn payloads(s: Seq<Rank<Payload>>) -> Seq<i64>
    decreases s.len(),
{
    if s.len() == 0 {
        Seq::empty()
    } else {
        payloads(s.drop_last()) + payload_seq(s.last().data)
    }
}

fn push_payloads(v: &mut Vec<i64>, ranks: &Vec<Rank<Payload>>)
    ensures
        final(v)@ == old(v)@ + payloads(ranks@),
{
    let ghost start = v@;
    let mut k: usize = 0;
    while k < ranks.len()
        invariant
            k <= ranks@.len(),
            v@ == start + payloads(ranks@.take(k as int)),
        decreases ranks@.len() - k,
    {
        let d = ranks[k].data;
        v.push(d.0);
        v.push(d.1);
        v.push(d.2);
        v.push(d.3);
        v.push(d.4);
        proof {
            assert(ranks@.take(k + 1).drop_last() =~= ranks@.take(k as int));
            assert(v@ =~= start + payloads(ranks@.take(k + 1)));
        }
        k = k + 1;
    }
    proof {
        assert(ranks@.take(ranks@.len() as int) =~= ranks@);
    }
}

/// Final-brain inputs: the statics, the random value, the node's energy and
/// population, the agent's energy and index, the node's connections, the
/// tick, the agent's memory, then the payloads of the ranked nodes and of
/// the ranked agents.
pub fn final_brain_inputs(
    random: i64,
    node_energy: i64,
    population: i64,
    own_energy: i64,
    own_index: i64,
    connections: i64,
    tick: i64,
    memory: &[i64; TOTAL_MEMORY],
    node_ranks: &Vec<Rank<Payload>>,
    bot_ranks: &Vec<Rank<Payload>>,
) -> (r: Vec<i64>)
    ensures
        r@ == final_inputs(
            random,
            node_energy,
            population,
            own_energy,
            own_index,
            connections,
            tick,
            memory@,
            node_ranks@,
            bot_ranks@,
        ),
{
    let mut v: Vec<i64> = vec![0, 1, 2, -1];
    v.push(random);
    v.push(node_energy);
    v.push(population);
    v.push(own_energy);
    v.push(own_index);
    v.push(connections);
    v.push(tick);
    let ghost head = v@;
    push_memory(&mut v, memory);
    push_payloads(&mut v, node_ranks);
    push_payloads(&mut v, bot_ranks);
    proof {
        assert(head =~= statics() + seq![
            random,
            node_energy,
            population,
            own_energy,
            own_index,
            connections,
            tick,
        ]);
    }
    v
}

/// A ranked entry from a brain's outputs (see `rank_of`).
pub fn rank_entry(index: i64, out: &Vec<i64>) -> (r: Rank<Payload>)
    ensures
        r == rank_of(index, out@),
{
    let data: Payload = (index, output_at(out, 1), output_at(out, 2), output_at(out, 3), output_at(out, 4));
    Rank { rank: output_at(out, 0), data }
}

} // verus!
