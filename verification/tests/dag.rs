use limmat::dag::{Dag, DagError, GraphNode};

#[derive(Debug, Eq, PartialEq, Hash, Clone)]
struct TestGraphNode {
    id: usize,
    child_ids: Vec<usize>,
}

impl GraphNode for TestGraphNode {
    type NodeId = usize;

    fn node_id(&self) -> usize {
        unreachable!()
    }

    fn node_children(&self) -> vstd::seq::Seq<usize> {
        unreachable!()
    }

    fn id(&self) -> usize {
        self.id
    }

    fn child_ids(&self) -> Vec<usize> {
        self.child_ids.clone()
    }
}

fn nodes(edges: Vec<Vec<usize>>) -> Vec<TestGraphNode> {
    edges
        .into_iter()
        .enumerate()
        .map(|(id, child_ids)| TestGraphNode { id, child_ids })
        .collect()
}

fn tree() -> Vec<TestGraphNode> {
    nodes(vec![vec![1], vec![2, 3], vec![], vec![]])
}

fn trees() -> Vec<TestGraphNode> {
    nodes(vec![
        vec![1],
        vec![2, 3],
        vec![],
        vec![],
        vec![5],
        vec![6, 7],
        vec![],
        vec![],
    ])
}

#[test]
fn test_graph_validity() {
    let cases = vec![
        ("empty", vec![], None),
        ("one edge", nodes(vec![vec![1], vec![]]), None),
        ("tree", tree(), None),
        ("trees", trees(), None),
        ("self-link", nodes(vec![vec![0]]), Some(DagError::Cycle(0))),
        // We don't actually care that the Cycle is reported on node 2, but
        // luckily that's stable behaviour so it's just easy to assert it that way.
        (
            "a loop",
            nodes(vec![vec![1], vec![2], vec![3], vec![0]]),
            Some(DagError::Cycle(2)),
        ),
        (
            "no child",
            nodes(vec![vec![1]]),
            Some(DagError::NoSuchChild {
                parent: 0,
                child: 1,
            }),
        ),
    ];
    for (name, edges, want_err) in cases {
        assert_eq!(Dag::new(edges).err(), want_err, "{}", name);
    }
}

#[test]
fn duplicate_ids_are_rejected_before_missing_children() {
    let twice = vec![
        TestGraphNode { id: 4, child_ids: vec![9] },
        TestGraphNode { id: 5, child_ids: vec![] },
        TestGraphNode { id: 4, child_ids: vec![] },
        TestGraphNode { id: 5, child_ids: vec![] },
    ];
    assert_eq!(Dag::new(twice).err(), Some(DagError::DuplicateId(4)));
}

#[test]
fn first_missing_child_is_reported() {
    let missing = vec![
        TestGraphNode { id: 0, child_ids: vec![1, 1] },
        TestGraphNode { id: 1, child_ids: vec![0, 7, 8] },
        TestGraphNode { id: 2, child_ids: vec![9] },
    ];
    assert_eq!(
        Dag::new(missing).err(),
        Some(DagError::NoSuchChild { parent: 1, child: 7 })
    );
}

fn order(dag: &Dag<TestGraphNode>) -> Vec<usize> {
    dag.bottom_up().into_nodes().iter().map(|node| node.id).collect()
}

#[test]
fn test_bottom_up() {
    let cases = vec![
        ("empty", vec![], vec![]),
        ("one edge", nodes(vec![vec![1], vec![]]), vec![1, 0]),
        ("tree", tree(), vec![3, 2, 1, 0]),
        ("trees", trees(), vec![7, 6, 5, 4, 3, 2, 1, 0]),
        (
            "diamond",
            nodes(vec![vec![1, 2], vec![3], vec![3], vec![]]),
            vec![3, 2, 1, 0],
        ),
    ];
    for (name, edges, want_order) in cases {
        let dag = Dag::new(edges).unwrap();
        assert_eq!(order(&dag), want_order, "{}", name);
    }
}

#[test]
fn test_top_down() {
    let cases = vec![
        ("one edge", nodes(vec![vec![1], vec![]]), 0, vec![0, 1]),
        ("tree", tree(), 0, vec![0, 1, 2, 3]),
        ("tree non root", tree(), 1, vec![1, 2, 3]),
        ("trees 1", trees(), 0, vec![0, 1, 2, 3]),
        ("trees 2", trees(), 4, vec![4, 5, 6, 7]),
        (
            "asymmetric diamond",
            nodes(vec![vec![1, 2], vec![4], vec![3], vec![4], vec![]]),
            0,
            vec![0, 1, 2, 3, 4],
        ),
    ];
    for (name, edges, from, want_order) in cases {
        let dag = Dag::new(edges).unwrap();
        let order = dag.top_down_from(&from).unwrap();
        assert_eq!(
            order.iter().map(|node| node.id).collect::<Vec<_>>(),
            want_order,
            "{}",
            name
        );
    }
}

#[test]
fn top_down_from_unknown_node() {
    let dag = Dag::new(tree()).unwrap();
    assert!(dag.top_down_from(&9).is_none());
    assert!(dag.node(&9).is_none());
    assert_eq!(dag.node(&1).unwrap().child_ids, vec![2, 3]);
}

#[test]
fn iterator_hands_out_one_node_at_a_time() {
    let dag = Dag::new(tree()).unwrap();
    let mut sort = dag.bottom_up();
    assert_eq!(sort.next().unwrap().id, 3);
    assert_eq!(sort.next().unwrap().id, 2);
    let rest: Vec<usize> = sort.into_nodes().iter().map(|node| node.id).collect();
    assert_eq!(rest, vec![1, 0]);
}

#[test]
fn with_node_adds_to_the_end() {
    let mut dag: Dag<TestGraphNode> = Dag::empty();
    assert_eq!(dag.nodes().len(), 0);
    for node in [
        TestGraphNode { id: 7, child_ids: vec![] },
        TestGraphNode { id: 5, child_ids: vec![7] },
    ] {
        dag = dag.with_node(node).unwrap();
    }
    assert_eq!(order(&dag), vec![7, 5]);
    let err = dag.with_node(TestGraphNode { id: 1, child_ids: vec![7, 2, 3] });
    assert_eq!(
        err.err(),
        Some(DagError::NoSuchChild { parent: 1, child: 2 })
    );
}

#[test]
fn with_node_keeps_the_graph_valid() {
    let graph = || Dag::new(nodes(vec![vec![1], vec![]])).unwrap();
    // A node with a taken identifier.
    assert_eq!(
        graph().with_node(TestGraphNode { id: 1, child_ids: vec![0] }).err(),
        Some(DagError::DuplicateId(1))
    );
    // The identifier is looked at before the children.
    assert_eq!(
        graph().with_node(TestGraphNode { id: 0, child_ids: vec![0, 9] }).err(),
        Some(DagError::DuplicateId(0))
    );
    // A node that is its own child.
    assert_eq!(
        graph().with_node(TestGraphNode { id: 3, child_ids: vec![1, 3] }).err(),
        Some(DagError::Cycle(3))
    );
    // A child that is not there is reported first.
    assert_eq!(
        graph().with_node(TestGraphNode { id: 3, child_ids: vec![3, 0, 8, 9] }).err(),
        Some(DagError::NoSuchChild { parent: 3, child: 8 })
    );
    let more = graph().with_node(TestGraphNode { id: 3, child_ids: vec![0, 1] }).unwrap();
    assert_eq!(order(&more), vec![1, 0, 3]);
}
