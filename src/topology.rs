use vstd::prelude::*;
use vstd::multiset::Multiset;
use petgraph::graph::{EdgeIndex, NodeIndex};

verus! {

broadcast use {vstd::seq_lib::group_seq_properties, vstd::seq_lib::group_to_multiset_ensures};

#[verifier::external_type_specification]
#[verifier::external_body]
#[verifier::reject_recursive_types(N)]
#[verifier::reject_recursive_types(E)]
#[verifier::reject_recursive_types(Ty)]
#[verifier::reject_recursive_types(Ix)]
pub struct ExGraph<N, E, Ty, Ix>(petgraph::Graph<N, E, Ty, Ix>);

#[verifier::external_type_specification]
#[verifier::external_body]
pub struct ExUndirected(petgraph::Undirected);

/// An undirected petgraph graph with `usize` indices, which never run out.
pub type UnGraph = petgraph::Graph<(), (), petgraph::Undirected, usize>;

/// The endpoints of a graph's edges by edge index, in the order given when
/// each edge was added.
pub uninterp spec fn graph_edges(g: UnGraph) -> Seq<(nat, nat)>;

/// The number of nodes of a graph.
pub uninterp spec fn graph_order(g: UnGraph) -> nat;

/// Other endpoints of the edges at `a`; a self-loop counts once.
pub open spec fn incident(edges: Seq<(nat, nat)>, a: nat) -> Multiset<nat>
    decreases edges.len(),
{
    if edges.len() == 0 {
        Multiset::empty()
    } else {
        let rest = incident(edges.drop_last(), a);
        let p = edges.last();
        if p.0 == a {
            rest.insert(p.1)
        } else if p.1 == a {
            rest.insert(p.0)
        } else {
            rest
        }
    }
}

/// Relies on petgraph's `Graph::with_capacity`: no nodes and no edges.
#[verifier::external_body]
fn graph_new() -> (r: UnGraph)
    ensures
        graph_order(r) == 0,
        graph_edges(r) == Seq::<(nat, nat)>::empty(),
{
    UnGraph::with_capacity(0, 0)
}

/// Relies on `Graph::node_count`.
#[verifier::external_body]
fn graph_node_count(g: &UnGraph) -> (r: usize)
    ensures
        r == graph_order(*g),
{
    g.node_count()
}

/// Relies on `Graph::edge_count`.
#[verifier::external_body]
fn graph_edge_count(g: &UnGraph) -> (r: usize)
    ensures
        r == graph_edges(*g).len(),
{
    g.edge_count()
}

/// Relies on `Graph::add_node`: the new node's index is the old node count
/// and the edges are unchanged; with `usize` indices there is no limit.
#[verifier::external_body]
fn graph_add_node(g: &mut UnGraph) -> (r: usize)
    ensures
        r == graph_order(*old(g)),
        graph_order(*final(g)) == graph_order(*old(g)) + 1,
        graph_edges(*final(g)) == graph_edges(*old(g)),
{
    g.add_node(()).index()
}

/// Relies on `Graph::add_edge`: appends the edge `(a, b)`; it panics when
/// either node does not exist.
#[verifier::external_body]
fn graph_add_edge(g: &mut UnGraph, a: usize, b: usize)
    requires
        a < graph_order(*old(g)),
        b < graph_order(*old(g)),
    ensures
        graph_order(*final(g)) == graph_order(*old(g)),
        graph_edges(*final(g)) == graph_edges(*old(g)).push((a as nat, b as nat)),
{
    g.add_edge(NodeIndex::new(a), NodeIndex::new(b), ());
}

/// Relies on `Graph::update_edge` of an undirected graph: an edge between
/// `a` and `b` in either direction is kept as it is, otherwise the edge
/// `(a, b)` is appended; it panics when either node does not exist.
#[verifier::external_body]
fn graph_update_edge(g: &mut UnGraph, a: usize, b: usize)
    requires
        a < graph_order(*old(g)),
        b < graph_order(*old(g)),
    ensures
        graph_order(*final(g)) == graph_order(*old(g)),
        graph_edges(*final(g)) == if pair_joined(graph_edges(*old(g)), a as int, b as int) {
            graph_edges(*old(g))
        } else {
            graph_edges(*old(g)).push((a as nat, b as nat))
        },
{
    g.update_edge(NodeIndex::new(a), NodeIndex::new(b), ());
}

/// Relies on `Graph::find_edge` of an undirected graph: an edge between
/// `a` and `b` in either direction, if there is one.
#[verifier::external_body]
fn graph_find_edge(g: &UnGraph, a: usize, b: usize) -> (r: Option<usize>)
    requires
        a < graph_order(*g),
        b < graph_order(*g),
    ensures
        r.is_none() == !pair_joined(graph_edges(*g), a as int, b as int),
        r.is_some() ==> joined_at(graph_edges(*g), r.unwrap() as int, a as int, b as int),
{
    g.find_edge(NodeIndex::new(a), NodeIndex::new(b)).map(|e| e.index())
}

/// Relies on `Graph::remove_edge`: the last edge takes the index of the
/// removed one.
#[verifier::external_body]
fn graph_remove_edge(g: &mut UnGraph, e: usize)
    requires
        e < graph_edges(*old(g)).len(),
    ensures
        graph_order(*final(g)) == graph_order(*old(g)),
        graph_edges(*final(g)) == graph_edges(*old(g)).update(e as int, graph_edges(*old(g)).last()).drop_last(),
{
    g.remove_edge(EdgeIndex::new(e));
}

/// Relies on `Graph::edge_endpoints`: the endpoints of edge `e`.
#[verifier::external_body]
fn graph_edge_endpoints(g: &UnGraph, e: usize) -> (r: (usize, usize))
    requires
        e < graph_edges(*g).len(),
    ensures
        (r.0 as nat, r.1 as nat) == graph_edges(*g)[e as int],
{
    let (a, b) = g.edge_endpoints(EdgeIndex::new(e)).unwrap();
    (a.index(), b.index())
}

/// Relies on `Graph::neighbors` of an undirected graph: the other endpoint
/// of every edge at `a`, a self-loop once.
#[verifier::external_body]
fn graph_neighbors(g: &UnGraph, a: usize) -> (r: Vec<usize>)
    requires
        a < graph_order(*g),
    ensures
        r@.map_values(|x: usize| x as nat).to_multiset() == incident(graph_edges(*g), a as nat),
{
    g.neighbors(NodeIndex::new(a)).map(|n| n.index()).collect()
}

/// Edge `e` of `s` joins `i` and `j`.
pub open spec fn joined_at(s: Seq<(nat, nat)>, e: int, i: int, j: int) -> bool {
    0 <= e < s.len() && joins(s[e], i, j)
}

/// Some edge of `s` joins `i` and `j`.
pub open spec fn pair_joined(s: Seq<(nat, nat)>, i: int, j: int) -> bool {
    exists|e: int| #[trigger] joined_at(s, e, i, j)
}

/// Edge endpoints `p` join `i` and `j`, in either direction.
pub open spec fn joins(p: (nat, nat), i: int, j: int) -> bool {
    (p.0 == i && p.1 == j) || (p.0 == j && p.1 == i)
}

/// No self-loops, and no two edges join the same pair of nodes.
pub open spec fn simple_edges(s: Seq<(nat, nat)>) -> bool {
    &&& forall|e: int| 0 <= e < s.len() ==> (#[trigger] s[e]).0 != s[e].1
    &&& forall|e1: int, e2: int|
        0 <= e1 < s.len() && 0 <= e2 < s.len() && e1 != e2 ==> !joins(#[trigger] s[e2], (#[trigger] s[e1]).0 as int, s[e1].1 as int)
}

/// How often `x` is a neighbor of `a`: once if an edge joins them, else never.
proof fn lemma_incident_count(s: Seq<(nat, nat)>, a: nat, x: nat)
    requires
        simple_edges(s),
    ensures
        incident(s, a).count(x) == if pair_joined(s, a as int, x as int) {
            1nat
        } else {
            0nat
        },
    decreases s.len(),
{
    if s.len() > 0 {
        let t = s.drop_last();
        assert forall|e1: int, e2: int|
            0 <= e1 < t.len() && 0 <= e2 < t.len() && e1 != e2 implies !joins(#[trigger] t[e2], (#[trigger] t[e1]).0 as int, t[e1].1 as int) by {
            assert(t[e1] == s[e1] && t[e2] == s[e2]);
        }
        lemma_incident_count(t, a, x);
        let p = s.last();
        let last = s.len() - 1;
        if joins(p, a as int, x as int) {
            assert(joined_at(s, last, a as int, x as int));
            if pair_joined(t, a as int, x as int) {
                let e = choose|e: int| #[trigger] joined_at(t, e, a as int, x as int);
                assert(s[e] == t[e]);
                assert(joins(s[last], s[e].0 as int, s[e].1 as int));
            }
        } else {
            if pair_joined(s, a as int, x as int) {
                let e = choose|e: int| #[trigger] joined_at(s, e, a as int, x as int);
                assert(t[e] == s[e]);
                assert(joined_at(t, e, a as int, x as int));
            }
            if pair_joined(t, a as int, x as int) {
                let e = choose|e: int| #[trigger] joined_at(t, e, a as int, x as int);
                assert(t[e] == s[e]);
                assert(joined_at(s, e, a as int, x as int));
            }
        }
    }
}

/// Undirected graph over nodes `0..count`, with no self-loops and at most
/// one edge per pair of nodes.
pub struct Topology {
    graph: UnGraph,
}

/// Index that node `a` had before node `gone` was removed.
pub open spec fn shifted(a: int, gone: int) -> int {
    if a < gone {
        a
    } else {
        a + 1
    }
}

impl Topology {
    pub closed spec fn count(&self) -> nat {
        graph_order(self.graph)
    }

    pub closed spec fn edges(&self) -> Seq<(nat, nat)> {
        graph_edges(self.graph)
    }

    /// Whether an edge joins `i` and `j`.
    pub closed spec fn edge(&self, i: int, j: int) -> bool {
        pair_joined(self.edges(), i, j)
    }

    pub closed spec fn wf(&self) -> bool {
        &&& simple_edges(self.edges())
        &&& forall|e: int| 0 <= e < self.edges().len() ==> (#[trigger] self.edges()[e]).0 < self.count()
            && self.edges()[e].1 < self.count()
    }

    /// Symmetry and irreflexivity, stated over `edge`.
    pub proof fn lemma_wf(&self)
        requires
            self.wf(),
        ensures
            forall|i: int, j: int| #[trigger] self.edge(i, j) == self.edge(j, i),
            forall|i: int| !#[trigger] self.edge(i, i),
            forall|i: int, j: int| #[trigger] self.edge(i, j) ==> 0 <= i < self.count() && 0 <= j < self.count(),
    {
        assert forall|i: int, j: int| #[trigger] self.edge(i, j) implies self.edge(j, i) by {
            let e = choose|e: int| #[trigger] joined_at(self.edges(), e, i, j);
            assert(joined_at(self.edges(), e, j, i));
        }
        assert forall|i: int| !#[trigger] self.edge(i, i) by {
            if self.edge(i, i) {
                let e = choose|e: int| #[trigger] joined_at(self.edges(), e, i, i);
            }
        }
        assert forall|i: int, j: int| #[trigger] self.edge(i, j) implies 0 <= i < self.count() && 0 <= j < self.count() by {
            let e = choose|e: int| #[trigger] joined_at(self.edges(), e, i, j);
        }
    }

    pub fn new() -> (r: Self)
        ensures
            r.wf(),
            r.count() == 0,
    {
        Topology { graph: graph_new() }
    }

    pub fn len(&self) -> (r: usize)
        ensures
            r == self.count(),
    {
        graph_node_count(&self.graph)
    }

    pub fn has_edge(&self, i: usize, j: usize) -> (r: bool)
        requires
            self.wf(),
            i < self.count(),
            j < self.count(),
        ensures
            r == self.edge(i as int, j as int),
    {
        graph_find_edge(&self.graph, i, j).is_some()
    }

    /// Adds an isolated node and returns its index.
    pub fn add_node(&mut self) -> (r: usize)
        requires
            old(self).wf(),
        ensures
            final(self).wf(),
            r == old(self).count(),
            final(self).count() == old(self).count() + 1,
            forall|i: int, j: int|
                0 <= i < final(self).count() && 0 <= j < final(self).count() ==> #[trigger] final(self).edge(i, j)
                    == (i < r && j < r && old(self).edge(i, j)),
    {
        proof {
            old(self).lemma_wf();
        }
        graph_add_node(&mut self.graph)
    }

    /// Joins `i` and `j` if they are not joined yet.
    #[verifier::spinoff_prover]
    pub fn connect(&mut self, i: usize, j: usize)
        requires
            old(self).wf(),
            i < old(self).count(),
            j < old(self).count(),
            i != j,
        ensures
            final(self).wf(),
            final(self).count() == old(self).count(),
            forall|a: int, b: int|
                0 <= a < final(self).count() && 0 <= b < final(self).count() ==> #[trigger] final(self).edge(a, b)
                    == (old(self).edge(a, b) || (a == i && b == j) || (a == j && b == i)),
    {
        proof {
            old(self).lemma_wf();
        }
        let ghost s = self.edges();
        let ghost fresh = !pair_joined(s, i as int, j as int);
        graph_update_edge(&mut self.graph, i, j);
        proof {
            if fresh {
                let t = self.edges();
                assert(t[s.len() as int] == (i as nat, j as nat));
                assert forall|a: int, b: int|
                    0 <= a < self.count() && 0 <= b < self.count() implies #[trigger] self.edge(a, b) == (old(
                        self,
                    ).edge(a, b) || (a == i && b == j) || (a == j && b == i)) by {
                    if self.edge(a, b) {
                        let e = choose|e: int| #[trigger] joined_at(t, e, a, b);
                        if e < s.len() {
                            assert(s[e] == t[e]);
                            assert(joined_at(s, e, a, b));
                        }
                    }
                    if old(self).edge(a, b) {
                        let e = choose|e: int| #[trigger] joined_at(s, e, a, b);
                        assert(t[e] == s[e]);
                        assert(joined_at(t, e, a, b));
                    }
                    if (a == i && b == j) || (a == j && b == i) {
                        assert(joined_at(t, s.len() as int, a, b));
                    }
                }
                assert forall|e1: int, e2: int|
                    0 <= e1 < t.len() && 0 <= e2 < t.len() && e1 != e2 implies !joins(#[trigger] t[e2], (#[trigger] t[e1]).0 as int, t[e1].1 as int) by {
                    if e1 < s.len() && e2 < s.len() {
                        assert(t[e1] == s[e1] && t[e2] == s[e2]);
                    } else if e1 < s.len() {
                        assert(t[e1] == s[e1]);
                        if joins(t[e2], t[e1].0 as int, t[e1].1 as int) {
                            assert(joined_at(s, e1, i as int, j as int));
                        }
                    } else {
                        assert(t[e2] == s[e2]);
                        if joins(t[e2], t[e1].0 as int, t[e1].1 as int) {
                            assert(joined_at(s, e2, i as int, j as int));
                        }
                    }
                }
            }
        }
    }

    /// Removes the edge between `i` and `j`, if there is one.
    #[verifier::spinoff_prover]
    pub fn disconnect(&mut self, i: usize, j: usize)
        requires
            old(self).wf(),
            i < old(self).count(),
            j < old(self).count(),
        ensures
            final(self).wf(),
            final(self).count() == old(self).count(),
            forall|a: int, b: int|
                0 <= a < final(self).count() && 0 <= b < final(self).count() ==> #[trigger] final(self).edge(a, b)
                    == (old(self).edge(a, b) && !(a == i && b == j) && !(a == j && b == i)),
    {
        proof {
            old(self).lemma_wf();
        }
        match graph_find_edge(&self.graph, i, j) {
            None => {},
            Some(e) => {
                let ghost s = self.edges();
                graph_remove_edge(&mut self.graph, e);
                proof {
                    let t = self.edges();
                    let last = s.len() - 1;
                    // index in `s` of the edge now at index `k` of `t`
                    assert forall|k: int| 0 <= k < t.len() implies #[trigger] t[k] == s[if k == e {
                        last
                    } else {
                        k
                    }] by {}
                    assert forall|a: int, b: int|
                        0 <= a < self.count() && 0 <= b < self.count() implies #[trigger] self.edge(a, b) == (old(
                            self,
                        ).edge(a, b) && !(a == i && b == j) && !(a == j && b == i)) by {
                        if self.edge(a, b) {
                            let k = choose|k: int| #[trigger] joined_at(t, k, a, b);
                            let src = if k == e {
                                last
                            } else {
                                k
                            };
                            assert(joins(s[src], a, b));
                            assert(src != e);
                            assert(joined_at(s, src, a, b));
                            if (a == i && b == j) || (a == j && b == i) {
                                assert(joins(s[src], s[e as int].0 as int, s[e as int].1 as int));
                            }
                        }
                        if old(self).edge(a, b) && !(a == i && b == j) && !(a == j && b == i) {
                            let k = choose|k: int| #[trigger] joined_at(s, k, a, b);
                            assert(k != e);
                            if k == last {
                                assert(t[e as int] == s[k]);
                                assert(joined_at(t, e as int, a, b));
                            } else {
                                assert(t[k] == s[k]);
                                assert(joined_at(t, k, a, b));
                            }
                        }
                    }
                    assert forall|e1: int, e2: int|
                        0 <= e1 < t.len() && 0 <= e2 < t.len() && e1 != e2 implies !joins(#[trigger] t[e2], (#[trigger] t[e1]).0 as int, t[e1].1 as int) by {
                        let s1 = if e1 == e {
                            last
                        } else {
                            e1
                        };
                        let s2 = if e2 == e {
                            last
                        } else {
                            e2
                        };
                        assert(t[e1] == s[s1] && t[e2] == s[s2]);
                    }
                }
            },
        }
    }

    /// The neighbors of `i`, each once.
    #[verifier::spinoff_prover]
    pub fn neighbors(&self, i: usize) -> (r: Vec<usize>)
        requires
            self.wf(),
            i < self.count(),
        ensures
            forall|k: int| 0 <= k < r@.len() ==> #[trigger] r@[k] < self.count() && self.edge(i as int, r@[k] as int),
            r@.no_duplicates(),
            forall|j: int| 0 <= j < self.count() && #[trigger] self.edge(i as int, j) ==> r@.contains(j as usize),
    {
        let r = graph_neighbors(&self.graph, i);
        proof {
            let m = r@.map_values(|x: usize| x as nat);
            let s = self.edges();
            assert forall|x: nat| m.to_multiset().contains(x) implies m.to_multiset().count(x) == 1 by {
                lemma_incident_count(s, i as nat, x);
            }
            m.lemma_multiset_has_no_duplicates_conv();
            assert forall|k: int| 0 <= k < r@.len() implies #[trigger] r@[k] < self.count() && self.edge(
                i as int,
                r@[k] as int,
            ) by {
                let x = r@[k] as nat;
                assert(m[k] == x);
                assert(m.to_multiset().contains(x));
                lemma_incident_count(s, i as nat, x);
                let e = choose|e: int| #[trigger] joined_at(s, e, i as int, x as int);
                assert(s[e].0 < self.count() && s[e].1 < self.count());
            }
            assert forall|k: int, l: int| 0 <= k < r@.len() && 0 <= l < r@.len() && k != l implies r@[k] != r@[l] by {
                assert(m[k] != m[l]);
            }
            assert forall|j: int| 0 <= j < self.count() && #[trigger] self.edge(i as int, j) implies r@.contains(
                j as usize,
            ) by {
                lemma_incident_count(s, i as nat, j as nat);
                assert(m.to_multiset().contains(j as nat));
                let k = choose|k: int| 0 <= k < m.len() && m[k] == j as nat;
                assert(r@[k] == j as usize);
            }
        }
        r
    }

    /// Number of edges at `i`: zero exactly when `i` has no neighbor.
    pub fn degree(&self, i: usize) -> (r: usize)
        requires
            self.wf(),
            i < self.count(),
        ensures
            (r == 0) == (forall|j: int| 0 <= j < self.count() ==> !#[trigger] self.edge(i as int, j)),
    {
        let nb = self.neighbors(i);
        proof {
            if nb@.len() > 0 {
                assert(self.edge(i as int, nb@[0] as int));
            }
            if exists|j: int| 0 <= j < self.count() && #[trigger] self.edge(i as int, j) {
                let j = choose|j: int| 0 <= j < self.count() && #[trigger] self.edge(i as int, j);
                assert(nb@.contains(j as usize));
            }
        }
        nb.len()
    }

    /// Removes node `gone` with its edges; nodes after it move down by one.
    #[verifier::spinoff_prover]
    pub fn remove_node(&mut self, gone: usize)
        requires
            old(self).wf(),
            gone < old(self).count(),
        ensures
            final(self).wf(),
            final(self).count() == old(self).count() - 1,
            forall|a: int, b: int|
                0 <= a < final(self).count() && 0 <= b < final(self).count() ==> #[trigger] final(self).edge(a, b)
                    == old(self).edge(shifted(a, gone as int), shifted(b, gone as int)),
    {
        let n = graph_node_count(&self.graph);
        let m = graph_edge_count(&self.graph);
        let ghost s = self.edges();
        let mut g = graph_new();
        let mut k: usize = 0;
        while k + 1 < n
            invariant
                n == old(self).count(),
                gone < n,
                k + 1 <= n,
                graph_order(g) == k,
                graph_edges(g) == Seq::<(nat, nat)>::empty(),
            decreases n - k,
        {
            graph_add_node(&mut g);
            k = k + 1;
        }
        let ghost mut src: Seq<int> = Seq::empty();
        let mut e: usize = 0;
        while e < m
            invariant
                self == old(self),
                s == old(self).edges(),
                old(self).wf(),
                m == s.len(),
                n == old(self).count(),
                gone < n,
                e <= m,
                graph_order(g) == n - 1,
                graph_edges(g).len() == src.len(),
                forall|q: int| 0 <= q < src.len() ==> 0 <= #[trigger] src[q] < e,
                forall|q: int, w: int| 0 <= q < w < src.len() ==> #[trigger] src[q] < #[trigger] src[w],
                forall|q: int|
                    0 <= q < src.len() ==> shifted((#[trigger] graph_edges(g)[q]).0 as int, gone as int) == s[src[q]].0
                        && shifted(graph_edges(g)[q].1 as int, gone as int) == s[src[q]].1
                        && graph_edges(g)[q].0 < n - 1 && graph_edges(g)[q].1 < n - 1,
                forall|x: int|
                    0 <= x < e && (#[trigger] s[x]).0 != gone && s[x].1 != gone ==> exists|q: int|
                        0 <= q < src.len() && src[q] == x,
            decreases m - e,
        {
            let (a, b) = graph_edge_endpoints(&self.graph, e);
            if a != gone && b != gone {
                let a2 = if a < gone {
                    a
                } else {
                    a - 1
                };
                let b2 = if b < gone {
                    b
                } else {
                    b - 1
                };
                let ghost before = graph_edges(g);
                graph_add_edge(&mut g, a2, b2);
                proof {
                    let prev = src;
                    src = src.push(e as int);
                    assert(graph_edges(g)[before.len() as int] == (a2 as nat, b2 as nat));
                    assert forall|q: int| 0 <= q < before.len() implies graph_edges(g)[q] == before[q] by {}
                    assert forall|x: int|
                        0 <= x < e + 1 && (#[trigger] s[x]).0 != gone && s[x].1 != gone implies exists|q: int|
                            0 <= q < src.len() && src[q] == x by {
                        if x == e {
                            assert(src[prev.len() as int] == x);
                        } else {
                            let q = choose|q: int| 0 <= q < prev.len() && prev[q] == x;
                            assert(src[q] == x);
                        }
                    }
                }
            }
            e = e + 1;
        }
        self.graph = g;
        proof {
            let t = graph_edges(g);
            assert forall|q: int| 0 <= q < t.len() implies joins(s[src[q]], shifted(t[q].0 as int, gone as int), shifted(t[q].1 as int, gone as int)) by {}
            assert forall|a: int, b: int|
                0 <= a < n - 1 && 0 <= b < n - 1 implies #[trigger] self.edge(a, b) == old(self).edge(
                shifted(a, gone as int),
                shifted(b, gone as int),
            ) by {
                if self.edge(a, b) {
                    let q = choose|q: int| #[trigger] joined_at(t, q, a, b);
                    assert(joined_at(s, src[q], shifted(a, gone as int), shifted(b, gone as int)));
                }
                if old(self).edge(shifted(a, gone as int), shifted(b, gone as int)) {
                    let x = choose|x: int| #[trigger] joined_at(s, x, shifted(a, gone as int), shifted(b, gone as int));
                    assert(s[x].0 != gone && s[x].1 != gone);
                    let q = choose|q: int| 0 <= q < src.len() && src[q] == x;
                    assert(joined_at(t, q, a, b));
                }
            }
            assert forall|e1: int, e2: int|
                0 <= e1 < t.len() && 0 <= e2 < t.len() && e1 != e2 implies !joins(#[trigger] t[e2], (#[trigger] t[e1]).0 as int, t[e1].1 as int) by {
                if joins(t[e2], t[e1].0 as int, t[e1].1 as int) {
                    assert(src[e1] != src[e2]) by {
                        if e1 < e2 {
                            assert(src[e1] < src[e2]);
                        } else {
                            assert(src[e2] < src[e1]);
                        }
                    }
                    assert(joins(s[src[e2]], s[src[e1]].0 as int, s[src[e1]].1 as int));
                }
            }
            assert forall|q: int| 0 <= q < t.len() implies (#[trigger] t[q]).0 != t[q].1 by {
                assert(s[src[q]].0 != s[src[q]].1);
            }
        }
    }
}

} // verus!
