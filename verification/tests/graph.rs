use flake_ci::error::GraphError;
use flake_ci::graph::Graph;

#[test]
fn test_simple_chain() {
    // parent -> child
    // 0 -> 1 -> 2 -> 3 ... -> 9
    // Will get built in order

    let n = 10;
    let mut expected = Vec::new();
    let mut g = Graph::new();
    for i in 0..n {
        let data = format!("{i}");
        expected.push(data.clone());
        g.add_node(data);
    }

    for i in 0..(n - 1) {
        let parent = i;
        let child = parent + 1;
        g.mark_dep(&format!("{parent}"), &format!("{child}"))
            .unwrap();
    }

    let walker = g.walker();
    let actual = walker.chains();

    assert_eq!(vec![expected], actual);
}

#[test]
fn test_one_parent() {
    // parent -> child
    // 9 -> 0
    // 9 -> 1
    // 9 -> 2
    // ...
    // 9 -> 8
    // 9 is the parent of them all, so 9 will get built first, then the others

    let n = 10;
    let last = n - 1;

    let mut g = Graph::new();
    for i in 0..n {
        let data = format!("{i}");
        g.add_node(data);
    }

    for i in 0..(n - 1) {
        let parent = last;
        let child = i;
        g.mark_dep(&format!("{parent}"), &format!("{child}"))
            .unwrap();
    }

    let walker = g.walker();
    let actual = walker.chains();

    let mut expected = Vec::new();
    for i in 0..(n - 1) {
        expected.push(vec![format!("{last}"), format!("{i}")]);
    }
    assert_eq!(expected, actual);
}

#[test]
fn test_reverse_edge_is_a_cycle() {
    let mut g = Graph::new();
    g.add_node("a".to_string());
    g.add_node("b".to_string());
    g.mark_dep(&"a".to_string(), &"b".to_string()).unwrap();
    let r = g.mark_dep(&"b".to_string(), &"a".to_string());
    assert!(matches!(r, Err(GraphError::CycleDetected(_))));
}

#[test]
fn test_self_edge_is_a_cycle() {
    let mut g = Graph::new();
    g.add_node("a".to_string());
    let r = g.mark_dep(&"a".to_string(), &"a".to_string());
    assert!(matches!(r, Err(GraphError::CycleDetected(_))));
}

#[test]
fn test_missing_nodes_are_reported() {
    let mut g = Graph::new();
    g.add_node("a".to_string());
    assert!(matches!(
        g.mark_dep(&"x".to_string(), &"a".to_string()),
        Err(GraphError::ParentNotFound)
    ));
    assert!(matches!(
        g.mark_dep(&"a".to_string(), &"x".to_string()),
        Err(GraphError::ChildNotFound)
    ));
}

#[test]
fn test_empty_graph_has_no_chains() {
    let g: Graph<String> = Graph::new();
    let chains = g.walker().chains();
    assert!(chains.is_empty());
}

#[test]
fn test_isolated_nodes_are_singleton_chains() {
    let mut g = Graph::new();
    g.add_node("a".to_string());
    g.add_node("b".to_string());
    let chains = g.walker().chains();
    assert_eq!(
        vec![vec!["a".to_string()], vec!["b".to_string()]],
        chains
    );
}
