use std::sync::Arc;

use dagrs::{Content, EnvVar, Graph, IdAllocator, Input, Output, Value};

#[test]
fn content_typed_access() {
    let c = Content::new(7usize);
    assert_eq!(c.get::<usize>(), Some(&7));
    assert_eq!(c.get::<String>(), None);
    assert_eq!(c.clone().into_inner::<usize>().map(|x| *x), Some(7));
    assert!(c.into_inner::<i64>().is_none());
    let s = Content::from_arc(Arc::new("hi".to_string()));
    assert_eq!(s.get::<String>().map(|x| x.as_str()), Some("hi"));
}

#[test]
fn output_variants() {
    assert!(!Output::new(3usize).is_err());
    assert!(!Output::empty().is_err());
    assert!(Output::error("bad".to_string()).is_err());
    assert!(Output::error_with_exit_code(Some(2), None).is_err());
    assert_eq!(Output::new(3usize).get_out().and_then(|c| c.get::<usize>().copied()), Some(3));
    assert!(Output::empty().get_out().is_none());
    assert!(Output::error("bad".to_string()).get_out().is_none());
    assert_eq!(Output::error("bad".to_string()).get_err(), Some("bad".to_string()));
    assert_eq!(
        Output::error_with_exit_code(Some(1), Some(Content::new("boom".to_string()))).get_err(),
        Some("boom".to_string())
    );
    assert_eq!(Output::error_with_exit_code(Some(1), Some(Content::new(5usize))).get_err(), None);
    assert_eq!(Output::new(1usize).get_err(), None);
}

#[test]
fn input_keeps_order() {
    let input = Input::new(vec![Content::new(1usize), Content::new(2usize)]);
    let vals: Vec<usize> = input.get_iter().map(|c| *c.get::<usize>().unwrap()).collect();
    assert_eq!(vals, vec![1, 2]);
    assert_eq!(input.len(), 2);
    assert!(input.get(2).is_none());
}

#[test]
fn env_set_and_replace() {
    let mut env = EnvVar::new();
    assert!(env.get::<usize>("base").is_none());
    env.set("base", 2usize);
    env.set("name", "x".to_string());
    assert_eq!(env.get::<usize>("base"), Some(&2));
    assert!(env.get::<String>("base").is_none());
    env.set("base", 5usize);
    assert_eq!(env.get::<usize>("base"), Some(&5));
    assert_eq!(env.get::<String>("name").map(|s| s.as_str()), Some("x"));
}

#[test]
fn ids_count_up() {
    let mut ids = IdAllocator::new();
    assert_eq!(ids.next_id(), 1);
    assert_eq!(ids.next_id(), 2);
    ids.reset();
    assert_eq!(ids.next_id(), 1);
}

#[test]
fn graph_topological_order() {
    let mut g = Graph::new();
    assert!(g.add_node(10));
    assert!(g.add_node(20));
    assert!(g.add_node(30));
    assert!(!g.add_node(20));
    g.add_edge(2, 0);
    g.add_edge(0, 1);
    g.add_edge(0, 1);
    assert_eq!(g.get_node_out_degree(10), 1);
    assert_eq!(g.get_node_out_degree(30), 1);
    assert_eq!(g.get_node_out_degree(99), 0);
    assert_eq!(g.find_index_by_id(30), Some(2));
    assert_eq!(g.find_id_by_index(1), Some(20));
    assert_eq!(g.find_id_by_index(3), None);
    assert_eq!(g.topo_sort(), Some(vec![2, 0, 1]));
}

#[test]
fn graph_ties_by_index_and_cycles() {
    let mut g = Graph::new();
    assert_eq!(g.topo_sort(), Some(vec![]));
    g.add_node(1);
    g.add_node(2);
    g.add_node(3);
    g.add_edge(0, 2);
    assert_eq!(g.topo_sort(), Some(vec![0, 1, 2]));
    g.add_edge(2, 0);
    assert_eq!(g.topo_sort(), None);
    let mut s = Graph::new();
    s.add_node(5);
    s.add_edge(0, 0);
    assert_eq!(s.topo_sort(), None);
}

#[test]
fn value_copies() {
    let v = Value::Text("a".to_string());
    assert!(matches!(v.duplicate(), Value::Text(s) if s == "a"));
}
