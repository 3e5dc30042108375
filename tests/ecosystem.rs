use evobots::bot::{Bot, Brain, BrainConfig, Values, Decision, DEFAULT_ENERGY, EXISTENCE_COST, MAX_ENERGY};
use evobots::cascade::{final_brain_inputs, node_brain_inputs, rank_entry};
use evobots::node::{diffusion_amount, growth_amount, Node, ENERGY_THRESHOLD};
use evobots::rank::Rank;
use evobots::rng::{draw_below, SimRng};
use evobots::world::{bots_bonded, spawner_count, Reach, World};
use rand::SeedableRng;

/// A small deterministic brain: output k is a wrapping weighted sum.
#[derive(Clone, Debug, PartialEq)]
struct LinearBrain {
    weights: Vec<i64>,
    outputs: usize,
}

impl Brain for LinearBrain {
    fn random(config: &BrainConfig, rng: &mut SimRng) -> Self {
        let weights = (0..config.inputs + config.outputs)
            .map(|_| draw_below(rng, 7) as i64 - 3)
            .collect();
        LinearBrain { weights, outputs: config.outputs }
    }

    // a specification-only view; the library's contracts are stated over
    // it and it is never called at run time
    fn outputs(&self, inputs: Values) -> Values {
        inputs
    }

    fn compute(&self, inputs: &Vec<i64>) -> Vec<i64> {
        (0..self.outputs)
            .map(|k| {
                inputs.iter().enumerate().fold(0i64, |acc, (j, &x)| {
                    acc.wrapping_add(x.wrapping_mul(self.weights[(j + k) % self.weights.len()]))
                })
            })
            .collect()
    }

    fn mutate(&mut self, rng: &mut SimRng) {
        let at = draw_below(rng, self.weights.len() as u64) as usize;
        self.weights[at] = draw_below(rng, 7) as i64 - 3;
    }

    fn crossover(&self, other: &Self, rng: &mut SimRng) -> Self {
        let cut = draw_below(rng, self.weights.len() as u64) as usize;
        let mut weights = self.weights[..cut].to_vec();
        weights.extend_from_slice(&other.weights[cut..]);
        LinearBrain { weights, outputs: self.outputs }
    }

    fn replicate(&self) -> Self {
        self.clone()
    }
}

fn seeded(seed: u64) -> SimRng {
    rand::Isaac64Rng::from_seed(&[seed, 1, 72, 5][..])
}

fn brain() -> LinearBrain {
    LinearBrain { weights: vec![1, 0, -1], outputs: 5 }
}

/// An agent whose memory carries `tag`, so tests can tell agents apart.
fn agent(energy: i64, tag: i64) -> Bot<LinearBrain> {
    Bot {
        bot_brain: brain(),
        node_brain: brain(),
        final_brain: brain(),
        energy,
        signal: 0,
        connect_signal: 0,
        memory: [tag, 0, 0, 0],
        decision: Decision::default(),
    }
}

fn tags(bots: &[Bot<LinearBrain>]) -> Vec<i64> {
    let mut t: Vec<i64> = bots.iter().map(|b| b.memory[0]).collect();
    t.sort();
    t
}

fn world_with(energies: &[i64]) -> World<LinearBrain> {
    let mut w: World<LinearBrain> = World::new();
    for &e in energies {
        w.nodes.push(Node::new(e));
        w.topology.add_node();
    }
    w
}

#[test]
fn split_threshold_is_inclusive() {
    assert!(Node::<LinearBrain>::new(ENERGY_THRESHOLD).should_split());
    assert!(!Node::<LinearBrain>::new(ENERGY_THRESHOLD - 1).should_split());
}

#[test]
fn split_halves_energy_and_keeps_every_agent() {
    let mut w = world_with(&[ENERGY_THRESHOLD + 1, 10, 20]);
    w.topology.connect(0, 1);
    w.topology.connect(0, 2);
    for t in 0..9 {
        w.nodes[0].bots.push(agent(100, t));
    }
    let mut rng = seeded(3);
    let splits = w.split_nodes(&vec![true, true, true], &mut rng);
    assert_eq!(splits, vec![(0, 3)]);
    assert_eq!(w.nodes[0].energy, (ENERGY_THRESHOLD + 1) / 2);
    assert_eq!(w.nodes[3].energy, (ENERGY_THRESHOLD + 1) / 2);
    let mut all = tags(&w.nodes[0].bots);
    all.extend(tags(&w.nodes[3].bots));
    all.sort();
    assert_eq!(all, (0..9).collect::<Vec<i64>>());
    assert!(w.topology.has_edge(0, 3));
    for j in [1usize, 2] {
        assert!(w.topology.has_edge(0, j) != w.topology.has_edge(3, j));
    }
}

#[test]
fn obliteration_predicate() {
    let dead = Node::<LinearBrain>::new(0);
    let poor = Node::<LinearBrain>::new(-5);
    let alive = Node::<LinearBrain>::new(1);
    assert!(dead.should_obliterate(true));
    assert!(poor.should_obliterate(true));
    assert!(alive.should_obliterate(false));
    assert!(!alive.should_obliterate(true));
}

#[test]
fn obliterate_removes_failing_nodes() {
    let mut w = world_with(&[100, 0, 50, 70]);
    w.topology.connect(0, 1);
    w.topology.connect(2, 3);
    let mut rng = seeded(4);
    let removed = w.obliterate(&vec![true, true, true, false], &mut rng);
    assert_eq!(removed, vec![3, 1]);
    assert_eq!(w.nodes.iter().map(|n| n.energy).collect::<Vec<i64>>(), vec![100, 50]);
    assert!(!w.topology.has_edge(0, 1));
}

#[test]
fn diffusion_conserves_a_connected_pair() {
    let mut w = world_with(&[123_456, 7_890]);
    w.topology.connect(0, 1);
    w.nodes[0].connections = 1;
    w.nodes[1].connections = 1;
    w.diffuse_all();
    assert_eq!(w.nodes[0].diffuse, 123);
    assert_eq!(w.nodes[1].diffuse, 7);
    assert_eq!(w.nodes[0].energy, 123_456 - 123 + 7);
    assert_eq!(w.nodes[1].energy, 7_890 - 7 + 123);
    assert_eq!(w.nodes[0].energy + w.nodes[1].energy, 123_456 + 7_890);
}

#[test]
fn diffusion_amount_values() {
    assert_eq!(diffusion_amount(3, 10_999), 30);
    assert_eq!(diffusion_amount(2, -2_500), -4);
    assert_eq!(diffusion_amount(0, 1_000_000), 0);
    assert_eq!(diffusion_amount(i64::MAX, 5_000), i64::MAX);
}

#[test]
fn growth_amount_values() {
    // 200000 * 0.35 / 10 * (1.0 + 0.05 + 1 + 2) = 28350
    assert_eq!(growth_amount(200_000, 3, 10, 50), 28_350);
    // no connections, lowest variation: 200000 * 0.35 / 1 * 0.9 = 63000
    assert_eq!(growth_amount(200_000, 0, 1, -100), 63_000);
    assert_eq!(growth_amount(-1_000, 1, 1, 0), -700);
}

#[test]
fn capped_empty_node_pays_upkeep() {
    let mut n: Node<LinearBrain> = Node::new(7_000);
    let mut rng = seeded(5);
    n.grow(true, 200, &mut rng);
    assert_eq!(n.energy, 2_000);
    n.grow(false, 1, &mut rng);
    assert!(n.energy > 2_000);
}

#[test]
fn dead_agents_are_removed_once() {
    let mut n: Node<LinearBrain> = Node::new(0);
    for (t, e) in [(0, 5), (1, 0), (2, -3), (3, 8), (4, 0)] {
        n.bots.push(agent(e, t));
    }
    n.remove_dead();
    assert_eq!(n.bots.iter().map(|b| b.memory[0]).collect::<Vec<i64>>(), vec![0, 3]);
    assert_eq!(n.deaths, 3);
}

#[test]
fn settle_cycles_merges_and_culls() {
    let mut n: Node<LinearBrain> = Node::new(0);
    n.bots.push(agent(EXISTENCE_COST, 0));
    n.bots.push(agent(EXISTENCE_COST + 1, 1));
    n.moved_bots.push(agent(500, 2));
    let mut rng = seeded(6);
    n.settle(0, &mut rng);
    assert_eq!(n.moves, 1);
    assert_eq!(n.deaths, 1);
    assert!(n.moved_bots.is_empty());
    let mut energies: Vec<i64> = n.bots.iter().map(|b| b.energy).collect();
    energies.sort();
    assert_eq!(energies, vec![1, 500 - EXISTENCE_COST]);
}

#[test]
fn divide_halves_and_copies_energy() {
    let mut rng = seeded(7);
    let mut b = agent(301, 4);
    b.signal = 9;
    b.connect_signal = 33;
    let child = b.divide(&mut rng);
    assert_eq!(b.energy, 150);
    assert_eq!(child.energy, 150);
    assert_eq!(child.signal, 9);
    assert_eq!(child.connect_signal, 0);
    assert_eq!(child.memory, b.memory);
}

#[test]
fn mate_halves_only_the_initiator() {
    let mut rng = seeded(8);
    let mut a = agent(1000, 1);
    let p = agent(800, 2);
    let child = a.mate(&p, &mut rng);
    assert_eq!(a.energy, 500);
    assert_eq!(p.energy, 800);
    assert_eq!(child.energy, 500);
    assert_eq!(child.memory[0], 1);
}

#[test]
fn node_reproduction_by_decision() {
    let mut rng = seeded(9);
    let mut n: Node<LinearBrain> = Node::new(0);
    n.bots.push(agent(1000, 0));
    n.bots.push(agent(600, 1));
    n.bots[0].decision.mate = 1;
    n.reproduce(0, &mut rng);
    assert_eq!(n.bots.len(), 3);
    assert_eq!(n.bots[0].energy, 500);
    assert_eq!(n.bots[1].energy, 600);
    assert_eq!(n.bots[2].energy, 500);
    n.bots[1].decision.mate = 1;
    n.reproduce(1, &mut rng);
    assert_eq!(n.bots.len(), 4);
    assert_eq!(n.bots[1].energy, 300);
    assert_eq!(n.bots[3].energy, 300);
    n.bots[2].decision.mate = 17;
    n.reproduce(2, &mut rng);
    assert_eq!(n.bots.len(), 4);
}

#[test]
fn cycle_commits_the_decision() {
    let mut b = agent(100, 0);
    b.decision.signal = 4;
    b.decision.connect_signal = -20;
    b.decision.memory = [1, 2, 3, 4];
    b.cycle();
    assert_eq!(b.energy, 100 - EXISTENCE_COST);
    assert_eq!(b.signal, 4);
    assert_eq!(b.connect_signal, -20);
    assert_eq!(b.memory, [1, 2, 3, 4]);
    let mut poor = agent(i64::MIN + 1, 0);
    poor.cycle();
    assert_eq!(poor.energy, i64::MIN);
}

#[test]
fn energy_exchange_limits() {
    let mut b = agent(MAX_ENERGY - 10, 0);
    let mut node = 1_000;
    b.exchange_energy(&mut node, 200);
    assert_eq!(b.energy, MAX_ENERGY);
    assert_eq!(node, 800);
    let mut c = agent(30, 0);
    let mut node = 1_000;
    c.exchange_energy(&mut node, -200);
    assert_eq!(c.energy, 0);
    assert_eq!(node, 1_030);
}

#[test]
fn node_energy_exchange_in_order() {
    let mut n: Node<LinearBrain> = Node::new(100);
    n.bots.push(agent(10, 0));
    n.bots.push(agent(20, 1));
    n.exchange_energy(&vec![50, -100]);
    assert_eq!(n.bots[0].energy, 60);
    assert_eq!(n.bots[1].energy, 0);
    assert_eq!(n.energy, 100 - 50 + 20);
}

#[test]
fn decision_reads_outputs_in_order() {
    let d = Decision::from_outputs(&vec![1, 2, 3, 4, 5, 6, 7, 8, 9, 10, 11]);
    assert_eq!((d.mate, d.node, d.rate, d.signal), (1, 2, 3, 4));
    assert_eq!((d.connect_signal, d.sever_choice, d.pull), (5, 6, 7));
    assert_eq!(d.memory, [8, 9, 10, 11]);
    let short = Decision::from_outputs(&vec![3]);
    assert_eq!((short.mate, short.node, short.memory), (3, 0, [0, 0, 0, 0]));
    let def = Decision::default();
    assert_eq!((def.mate, def.node, def.rate), (-1, -1, 0));
}

#[test]
fn new_agent_starts_neutral() {
    let mut rng = seeded(10);
    let b: Bot<LinearBrain> = Bot::new(&mut rng);
    assert_eq!(b.energy, DEFAULT_ENERGY);
    assert_eq!(b.memory, [0, 0, 0, 0]);
    assert_eq!(b.node_brain.weights.len(), 16 + 5);
    assert_eq!(b.final_brain.weights.len(), 55 + 11);
}

#[test]
fn brain_input_layouts() {
    let v = node_brain_inputs(9, 10, 11, 12, 13, 14, 15, 16, &[20, 21, 22, 23]);
    assert_eq!(v, vec![0, 1, 2, -1, 9, 10, 11, 12, 13, 14, 15, 16, 20, 21, 22, 23]);
    let r = rank_entry(2, &vec![100, 1, 2, 3, 4, 5]);
    assert_eq!((r.rank, r.data), (100, (2, 1, 2, 3, 4)));
    let ranks = vec![Rank { rank: 0, data: (-1, -1, -1, -1, -1) }, r];
    let f = final_brain_inputs(1, 2, 3, 4, 5, 6, 7, &[8, 8, 8, 8], &ranks, &ranks);
    assert_eq!(f.len(), 11 + 4 + 20);
    assert_eq!(&f[15..20], &[-1, -1, -1, -1, -1]);
    assert_eq!(&f[20..25], &[2, 1, 2, 3, 4]);
}

#[test]
fn bonding_overrides_distance() {
    let mut w = world_with(&[100, 100, 100]);
    w.topology.connect(0, 2);
    let mut a = agent(100, 0);
    a.connect_signal = 16;
    let mut b = agent(100, 1);
    b.connect_signal = 16;
    w.nodes[0].bots.push(a);
    w.nodes[1].bots.push(b);
    assert!(bots_bonded(&w.nodes[0].bots, &w.nodes[1].bots));
    let reach = vec![
        vec![Reach::Close, Reach::Remote, Reach::Remote],
        vec![Reach::Remote, Reach::Close, Reach::Beyond],
        vec![Reach::Remote, Reach::Beyond, Reach::Close],
    ];
    w.update_topology(&reach);
    assert!(w.topology.has_edge(0, 1));
    assert!(!w.topology.has_edge(0, 2));
    assert!(!w.topology.has_edge(1, 2));
    assert_eq!(w.nodes[0].connections, 1);
    assert_eq!(w.nodes[2].connections, 0);
}

fn signalling(c: i64) -> Vec<Bot<LinearBrain>> {
    let mut a = agent(1, 0);
    a.connect_signal = c;
    vec![a]
}

#[test]
fn weak_or_unequal_signals_do_not_bond() {
    assert!(!bots_bonded(&signalling(15), &signalling(15)));
    assert!(!bots_bonded(&signalling(-40), &signalling(40)));
    assert!(bots_bonded(&signalling(-40), &signalling(-40)));
    assert!(!bots_bonded(&Vec::new(), &signalling(-40)));
}

#[test]
fn close_nodes_connect_and_long_edges_drop() {
    let mut w = world_with(&[1, 1, 1]);
    w.topology.connect(1, 2);
    let reach = vec![
        vec![Reach::Close, Reach::Close, Reach::Span],
        vec![Reach::Close, Reach::Close, Reach::Remote],
        vec![Reach::Span, Reach::Remote, Reach::Close],
    ];
    w.update_topology(&reach);
    assert!(w.topology.has_edge(0, 1));
    assert!(!w.topology.has_edge(0, 2));
    assert!(!w.topology.has_edge(1, 2));
}

/// Runs the whole tick loop with fixed stand-ins for the physics.
fn run(seed: u64, ticks: usize) -> (Vec<i64>, Vec<usize>, Vec<(usize, usize)>) {
    let mut rng = seeded(seed);
    let mut w: World<LinearBrain> = World::new();
    for _ in 0..ticks {
        w.ensure_populated();
        if w.node_count() == 1 && w.nodes[0].bots.is_empty() {
            for _ in 0..6 {
                let b = Bot::new(&mut rng);
                w.nodes[0].bots.push(b);
            }
        }
        w.grow_all(&mut rng);
        let finite = vec![true; w.node_count()];
        w.split_nodes(&finite, &mut rng);
        w.spawn_random(&mut rng);
        let finite = vec![true; w.node_count()];
        w.obliterate(&finite, &mut rng);
        let n = w.node_count();
        let reach: Vec<Vec<Reach>> = (0..n)
            .map(|a| {
                (0..n)
                    .map(|b| if a.abs_diff(b) <= 1 { Reach::Close } else { Reach::Remote })
                    .collect()
            })
            .collect();
        w.update_topology(&reach);
        w.diffuse_all();
        w.decide_all(&mut rng);
        w.act_all(&mut rng);
        w.settle_all(&mut rng);
        let asks: Vec<Vec<i64>> = w
            .nodes
            .iter()
            .map(|nd| nd.bots.iter().map(|b| (b.decision.rate % 250).abs()).collect())
            .collect();
        w.exchange_all(&asks);
        w.finish_tick();
    }
    let n = w.node_count();
    let energies = w.nodes.iter().map(|nd| nd.energy).collect();
    let pops = w.nodes.iter().map(|nd| nd.bots.len()).collect();
    let mut edges = Vec::new();
    for a in 0..n {
        for b in a + 1..n {
            if w.topology.has_edge(a, b) {
                edges.push((a, b));
            }
        }
    }
    (energies, pops, edges)
}

#[test]
fn same_seed_same_world() {
    let first = run(234, 40);
    let second = run(234, 40);
    assert_eq!(first, second);
    assert!(!first.0.is_empty());
}

#[test]
fn spawn_count_values() {
    assert_eq!(spawner_count(0, 150), 0);
    assert_eq!(spawner_count(2_000_000_000, 150), 18_000);
    assert_eq!(spawner_count(1_250_000_000, 50_000), 1_250_000_000);
    assert_eq!(spawner_count(2_499_999_999, 100_000), 9_999_999_996);
}

#[test]
fn diffusion_conserves_extreme_energies() {
    for (a, b) in [(i64::MAX, i64::MAX), (i64::MIN, i64::MAX), (i64::MIN, i64::MIN), (999, -1_999)] {
        let mut w = world_with(&[a, b]);
        w.topology.connect(0, 1);
        w.nodes[0].connections = 1;
        w.nodes[1].connections = 1;
        w.diffuse_all();
        assert_eq!(
            w.nodes[0].energy as i128 + w.nodes[1].energy as i128,
            a as i128 + b as i128
        );
    }
}

#[test]
fn decisions_are_carried_out() {
    let mut w = world_with(&[100, 100, 100]);
    w.topology.connect(0, 1);
    w.topology.connect(0, 2);
    let mut a = agent(1000, 0);
    a.decision.mate = 0;
    a.decision.node = 0;
    a.decision.pull = 512;
    let mut b = agent(300, 1);
    b.decision.node = 1;
    b.decision.pull = -1;
    let mut c = agent(300, 2);
    c.decision.sever_choice = 2;
    c.decision.node = 7;
    c.decision.pull = 255;
    w.nodes[0].bots.push(a);
    w.nodes[0].bots.push(b);
    w.nodes[0].bots.push(c);
    let seen = w.choices(0);
    assert_eq!(seen[0], 0);
    let mut rest = seen[1..].to_vec();
    rest.sort();
    assert_eq!(rest, vec![1, 2]);
    let mut rng = seeded(11);
    w.act_all(&mut rng);
    assert_eq!(w.nodes[0].pull, 2 - 1 + 0);
    let mut energies: Vec<i64> = w.nodes[0].bots.iter().map(|b| b.energy).collect();
    energies.sort();
    assert_eq!(energies, vec![300, 500, 500]);
    let dest = seen[1];
    assert_eq!(w.nodes[dest].moved_bots.len(), 1);
    assert_eq!(w.nodes[dest].moved_bots[0].memory[0], 1);
    assert!(w.topology.has_edge(0, seen[1]));
    assert!(!w.topology.has_edge(0, seen[2]));
}

#[test]
fn deciding_keeps_committed_state() {
    let mut w = world_with(&[1000, 2000]);
    w.topology.connect(0, 1);
    w.nodes[0].connections = 1;
    w.nodes[1].connections = 1;
    let mut rng = seeded(12);
    for t in 0..3 {
        let b = Bot::new(&mut rng);
        w.nodes[t % 2].bots.push(b);
    }
    w.decide_all(&mut rng);
    for n in &w.nodes {
        for b in &n.bots {
            assert_eq!(b.energy, DEFAULT_ENERGY);
            assert_eq!(b.memory, [0, 0, 0, 0]);
            assert_eq!(b.signal, 0);
        }
    }
    assert_eq!(w.nodes[0].energy, 1000);
}

#[test]
fn obliteration_takes_precedence_over_splitting() {
    let mut w = world_with(&[ENERGY_THRESHOLD, ENERGY_THRESHOLD]);
    let mut rng = seeded(13);
    let splits = w.split_nodes(&vec![false, true], &mut rng);
    assert_eq!(splits, vec![(1, 2)]);
    assert_eq!(w.nodes[0].energy, ENERGY_THRESHOLD);
    let removed = w.obliterate(&vec![false, true, true], &mut rng);
    assert_eq!(removed, vec![0]);
    assert_eq!(w.node_count(), 2);
}
