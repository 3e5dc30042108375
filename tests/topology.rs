use evobots::topology::Topology;

fn graph(n: usize, edges: &[(usize, usize)]) -> Topology {
    let mut t = Topology::new();
    for _ in 0..n {
        t.add_node();
    }
    for &(a, b) in edges {
        t.connect(a, b);
    }
    t
}

fn sorted(mut v: Vec<usize>) -> Vec<usize> {
    v.sort();
    v
}

#[test]
fn nodes_are_numbered_in_order() {
    let mut t = Topology::new();
    assert_eq!(t.len(), 0);
    assert_eq!(t.add_node(), 0);
    assert_eq!(t.add_node(), 1);
    assert_eq!(t.len(), 2);
    assert!(!t.has_edge(0, 1));
}

#[test]
fn connect_is_symmetric_and_idempotent() {
    let mut t = graph(3, &[(0, 1)]);
    assert!(t.has_edge(0, 1));
    assert!(t.has_edge(1, 0));
    t.connect(1, 0);
    assert_eq!(t.neighbors(0), vec![1]);
    assert_eq!(t.degree(1), 1);
    assert!(!t.has_edge(0, 2));
}

#[test]
fn neighbors_list_each_once() {
    let t = graph(5, &[(0, 1), (2, 0), (0, 4), (3, 4)]);
    assert_eq!(sorted(t.neighbors(0)), vec![1, 2, 4]);
    assert_eq!(sorted(t.neighbors(4)), vec![0, 3]);
    assert_eq!(t.neighbors(3), vec![4]);
    assert_eq!(t.degree(0), 3);
}

#[test]
fn disconnect_removes_only_that_edge() {
    let mut t = graph(4, &[(0, 1), (1, 2), (2, 3), (3, 0)]);
    t.disconnect(2, 1);
    assert!(!t.has_edge(1, 2));
    assert!(t.has_edge(0, 1) && t.has_edge(2, 3) && t.has_edge(3, 0));
    t.disconnect(0, 2);
    assert_eq!(sorted(t.neighbors(0)), vec![1, 3]);
}

#[test]
fn removing_a_node_shifts_later_ones_down() {
    let mut t = graph(5, &[(0, 1), (1, 2), (2, 4), (3, 4), (0, 3)]);
    t.remove_node(2);
    assert_eq!(t.len(), 4);
    // old 3 and 4 are now 2 and 3
    assert!(t.has_edge(0, 1));
    assert!(t.has_edge(2, 3));
    assert!(t.has_edge(0, 2));
    assert!(!t.has_edge(1, 2));
    assert!(!t.has_edge(1, 3));
    assert_eq!(sorted(t.neighbors(3)), vec![2]);
}
