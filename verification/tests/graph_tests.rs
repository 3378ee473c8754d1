use txgraph::graph::Graph;
use txgraph::ident::{NodeId, OutPoint, TxId};

fn id(tag: u8) -> TxId {
    let mut bytes = [0u8; 32];
    bytes[0] = tag;
    bytes[31] = tag;
    TxId::new(bytes)
}

#[test]
fn new_graph_is_empty() {
    let g: Graph<u64> = Graph::new();
    assert_eq!(g.node_count(), 0);
    assert_eq!(g.edge_count(), 0);
    assert!(!g.has_node(&1));
    assert!(!g.has_edge(&1, &2));
    assert_eq!(g.successors(&1), Vec::<u64>::new());
    assert_eq!(g.predecessors(&1), Vec::<u64>::new());
}

#[test]
fn add_node_is_idempotent() {
    let mut g: Graph<u64> = Graph::new();
    g.add_node(7);
    g.add_node(7);
    assert_eq!(g.node_count(), 1);
    assert!(g.has_node(&7));
    assert!(!g.has_node(&8));
    assert_eq!(g.edge_count(), 0);
}

#[test]
fn node_count_is_number_of_distinct_identifiers() {
    let mut g: Graph<u64> = Graph::new();
    g.add_node(1);
    g.add_edge(1, 2);
    g.add_node(3);
    g.add_edge(3, 1);
    g.add_edge(1, 2);
    g.add_node(2);
    g.add_edge(4, 4);
    assert_eq!(g.node_count(), 4);
    for n in [1u64, 2, 3, 4] {
        assert!(g.has_node(&n));
    }
    assert!(!g.has_node(&5));
    assert_eq!(g.edge_count(), 3);
}

#[test]
fn add_edge_twice_is_add_edge_once() {
    let mut once: Graph<u64> = Graph::new();
    once.add_edge(1, 2);
    once.add_edge(1, 3);
    let mut twice: Graph<u64> = Graph::new();
    twice.add_edge(1, 2);
    twice.add_edge(1, 3);
    twice.add_edge(1, 2);
    twice.add_edge(1, 3);
    assert_eq!(once.edge_count(), 2);
    assert_eq!(twice.edge_count(), 2);
    assert_eq!(twice.node_count(), 3);
    assert_eq!(once.successors(&1), vec![2, 3]);
    assert_eq!(twice.successors(&1), vec![2, 3]);
}

#[test]
fn add_edge_inserts_both_ends() {
    let mut g: Graph<u64> = Graph::new();
    g.add_edge(10, 20);
    assert!(g.has_node(&10));
    assert!(g.has_node(&20));
    assert_eq!(g.node_count(), 2);
    assert_eq!(g.edge_count(), 1);
}

#[test]
fn edges_are_directed() {
    let mut g: Graph<u64> = Graph::new();
    g.add_edge(1, 2);
    assert!(g.has_edge(&1, &2));
    assert!(!g.has_edge(&2, &1));
    assert_eq!(g.successors(&1), vec![2]);
    assert_eq!(g.successors(&2), Vec::<u64>::new());
    assert_eq!(g.predecessors(&2), vec![1]);
    assert_eq!(g.predecessors(&1), Vec::<u64>::new());
    g.add_edge(2, 1);
    assert!(g.has_edge(&2, &1));
    assert_eq!(g.edge_count(), 2);
    assert_eq!(g.node_count(), 2);
}

#[test]
fn neighbours_come_in_insertion_order() {
    let mut g: Graph<u64> = Graph::new();
    g.add_edge(5, 9);
    g.add_edge(1, 9);
    g.add_edge(5, 3);
    g.add_edge(7, 9);
    g.add_edge(5, 4);
    assert_eq!(g.successors(&5), vec![9, 3, 4]);
    assert_eq!(g.predecessors(&9), vec![5, 1, 7]);
    assert_eq!(g.node_count(), 6);
    assert_eq!(g.edge_count(), 5);
}

#[test]
fn neighbours_of_absent_node_are_empty() {
    let mut g: Graph<u64> = Graph::new();
    g.add_edge(1, 2);
    assert_eq!(g.successors(&42), Vec::<u64>::new());
    assert_eq!(g.predecessors(&42), Vec::<u64>::new());
    assert_eq!(g.node_count(), 2);
}

#[test]
fn self_loop_is_one_node_one_edge() {
    let mut g: Graph<u64> = Graph::new();
    g.add_edge(3, 3);
    assert_eq!(g.node_count(), 1);
    assert_eq!(g.edge_count(), 1);
    assert_eq!(g.successors(&3), vec![3]);
    assert_eq!(g.predecessors(&3), vec![3]);
}

#[test]
fn transaction_identifiers_compare_by_all_bytes() {
    let a = id(1);
    let b = id(1);
    let mut other = a.to_bytes();
    other[17] = 9;
    let c = TxId::new(other);
    assert!(a.same(&b));
    assert!(!a.same(&c));
    assert!(!c.same(&a));
    assert_eq!(a, b);
    assert_ne!(a, c);
    assert_eq!(a.to_bytes()[0], 1);
    assert_eq!(a.to_bytes()[31], 1);
    assert_eq!(a.to_bytes()[1], 0);
}

#[test]
fn integers_compare_by_value() {
    assert!(5u64.same(&5));
    assert!(!5u64.same(&6));
}

#[test]
fn graph_over_transaction_identifiers() {
    let mut g: Graph<TxId> = Graph::new();
    g.add_edge(id(1), id(2));
    g.add_edge(id(1), id(2));
    g.add_node(id(3));
    assert_eq!(g.node_count(), 3);
    assert_eq!(g.edge_count(), 1);
    assert!(g.has_edge(&id(1), &id(2)));
    assert!(!g.has_edge(&id(2), &id(1)));
    assert_eq!(g.successors(&id(1)), vec![id(2)]);
    assert_eq!(g.predecessors(&id(2)), vec![id(1)]);
}

#[test]
fn out_points_compare_by_transaction_and_index() {
    let a = OutPoint { txid: id(1), index: 0 };
    let b = OutPoint { txid: id(1), index: 1 };
    assert_eq!(a, OutPoint { txid: id(1), index: 0 });
    assert_ne!(a, b);
}

#[test]
fn nodes_come_in_insertion_order() {
    let mut g: Graph<u64> = Graph::new();
    g.add_edge(9, 4);
    g.add_node(7);
    g.add_edge(4, 2);
    g.add_node(9);
    assert_eq!(g.nodes(), vec![9, 4, 7, 2]);
    let empty: Graph<u64> = Graph::new();
    assert_eq!(empty.nodes(), Vec::<u64>::new());
}

#[test]
fn identifiers_that_share_a_key_stay_apart() {
    let mut a = [0u8; 32];
    a[20] = 1;
    let mut b = [0u8; 32];
    b[20] = 2;
    let mut c = [0u8; 32];
    c[20] = 3;
    let (a, b, c) = (TxId::new(a), TxId::new(b), TxId::new(c));
    assert_eq!(a.hash_key(), b.hash_key());
    let mut g: Graph<TxId> = Graph::new();
    g.add_edge(a, b);
    g.add_edge(b, a);
    g.add_edge(a, c);
    g.add_edge(a, b);
    assert_eq!(g.node_count(), 3);
    assert_eq!(g.edge_count(), 3);
    assert!(g.has_edge(&a, &b));
    assert!(g.has_edge(&b, &a));
    assert!(g.has_edge(&a, &c));
    assert!(!g.has_edge(&c, &a));
    assert!(!g.has_edge(&b, &c));
    assert_eq!(g.successors(&a), vec![b, c]);
    assert_eq!(g.successors(&b), vec![a]);
    assert_eq!(g.successors(&c), Vec::<TxId>::new());
    assert_eq!(g.predecessors(&a), vec![b]);
    assert_eq!(g.predecessors(&b), vec![a]);
    assert_eq!(g.predecessors(&c), vec![a]);
    assert_eq!(g.nodes(), vec![a, b, c]);
}

#[test]
fn many_nodes_and_edges() {
    let mut g: Graph<u64> = Graph::new();
    for i in 0..2000u64 {
        g.add_edge(i, i + 1);
        g.add_edge(i, i + 1);
        g.add_edge(0, i + 1);
    }
    assert_eq!(g.node_count(), 2001);
    assert_eq!(g.edge_count(), 3999);
    assert_eq!(g.successors(&0).len(), 2000);
    assert_eq!(g.predecessors(&2000), vec![1999, 0]);
    assert_eq!(g.predecessors(&1), vec![0]);
    assert_eq!(g.successors(&1999), vec![2000]);
}
