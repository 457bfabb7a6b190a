use helix_engine::storage::{GraphError, HelixGraphStorage};
use helix_engine::traversal::{TraversalBuilder, TraversalValue, WTraversalBuilderMethods};
use helix_engine::value::{Edge, Node, Value};

fn setup_test_db() -> HelixGraphStorage {
    HelixGraphStorage::new("test_db").unwrap()
}

fn props(pairs: Vec<(&str, Value)>) -> Vec<(String, Value)> {
    pairs.into_iter().map(|(k, v)| (k.to_string(), v)).collect()
}

fn node(storage: &mut HelixGraphStorage, label: &str, p: Vec<(&str, Value)>) -> Node {
    let mut txn = storage.write_txn();
    let n = storage.create_node(&mut txn, label, props(p)).unwrap();
    storage.commit(txn).unwrap();
    n
}

fn edge(storage: &mut HelixGraphStorage, label: &str, from: &str, to: &str, p: Vec<(&str, Value)>) -> Edge {
    let mut txn = storage.write_txn();
    let e = storage.create_edge(&mut txn, label, from, to, props(p)).unwrap();
    storage.commit(txn).unwrap();
    e
}

fn count_of(traversal: &mut TraversalBuilder) -> usize {
    traversal.count().unwrap();
    if let TraversalValue::Count(count) = &traversal.current_step[0] {
        count.value()
    } else {
        panic!("Expected Count value");
    }
}

fn age_above(n: &Node, min_age: i64) -> Result<bool, GraphError> {
    if let Some(Value::Integer(age)) = n.check_property(&"age".to_string()) {
        return Ok(*age > min_age);
    }
    Err(GraphError::TraversalError("Invalid node".to_string()))
}

fn has_name(n: &Node) -> Result<bool, GraphError> {
    Ok(n.check_property(&"name".to_string()).is_some())
}

fn match_node_array(values: &[TraversalValue]) -> Vec<Node> {
    values
        .iter()
        .flat_map(|value| match value {
            TraversalValue::NodeArray(nodes) => nodes.iter().map(|n| n.duplicate()).collect(),
            _ => vec![],
        })
        .collect()
}

#[test]
fn test_v() {
    let mut storage = setup_test_db();
    let person1 = node(&mut storage, "person", vec![]);
    let person2 = node(&mut storage, "person", vec![]);
    let thing = node(&mut storage, "thing", vec![]);
    let txn = storage.read_txn();
    let mut traversal = TraversalBuilder::new(&storage, vec![]);
    traversal.v(&txn).unwrap();
    match &traversal.current_step[0] {
        TraversalValue::NodeArray(nodes) => {
            assert_eq!(nodes.len(), 3);
            let node_ids: Vec<String> = nodes.iter().map(|n| n.id.clone()).collect();
            let node_labels: Vec<String> = nodes.iter().map(|n| n.label.clone()).collect();
            assert!(node_ids.contains(&person1.id));
            assert!(node_ids.contains(&person2.id));
            assert!(node_ids.contains(&thing.id));
            assert_eq!(node_labels.iter().filter(|&l| l == "person").count(), 2);
            assert_eq!(node_labels.iter().filter(|&l| l == "thing").count(), 1);
        }
        _ => panic!("Expected NodeArray value"),
    }
}

#[test]
fn test_e() {
    let mut storage = setup_test_db();
    let person1 = node(&mut storage, "person", vec![]);
    let person2 = node(&mut storage, "person", vec![]);
    let person3 = node(&mut storage, "person", vec![]);
    let knows_edge = edge(&mut storage, "knows", &person1.id, &person2.id, vec![]);
    let likes_edge = edge(&mut storage, "likes", &person1.id, &person3.id, vec![]);
    let follows_edge = edge(&mut storage, "follows", &person2.id, &person3.id, vec![]);
    let txn = storage.read_txn();
    let mut traversal = TraversalBuilder::new(&storage, vec![]);
    traversal.e(&txn).unwrap();
    match &traversal.current_step[0] {
        TraversalValue::EdgeArray(edges) => {
            assert_eq!(edges.len(), 3);
            let edge_ids: Vec<String> = edges.iter().map(|e| e.id.clone()).collect();
            let edge_labels: Vec<String> = edges.iter().map(|e| e.label.clone()).collect();
            assert!(edge_ids.contains(&knows_edge.id));
            assert!(edge_ids.contains(&likes_edge.id));
            assert!(edge_ids.contains(&follows_edge.id));
            assert!(edge_labels.contains(&"knows".to_string()));
            assert!(edge_labels.contains(&"likes".to_string()));
            assert!(edge_labels.contains(&"follows".to_string()));
            for edge in edges {
                match edge.label.as_str() {
                    "knows" => {
                        assert_eq!(edge.from_node, person1.id);
                        assert_eq!(edge.to_node, person2.id);
                    }
                    "likes" => {
                        assert_eq!(edge.from_node, person1.id);
                        assert_eq!(edge.to_node, person3.id);
                    }
                    "follows" => {
                        assert_eq!(edge.from_node, person2.id);
                        assert_eq!(edge.to_node, person3.id);
                    }
                    _ => panic!("Unexpected edge label"),
                }
            }
        }
        _ => panic!("Expected EdgeArray value"),
    }
}

#[test]
fn test_v_empty_graph() {
    let storage = setup_test_db();
    let txn = storage.read_txn();
    let mut traversal = TraversalBuilder::new(&storage, vec![]);
    traversal.v(&txn).unwrap();
    match &traversal.current_step[0] {
        TraversalValue::NodeArray(nodes) => assert_eq!(nodes.len(), 0),
        _ => panic!("Expected NodeArray value"),
    }
}

#[test]
fn test_e_empty_graph() {
    let storage = setup_test_db();
    let txn = storage.read_txn();
    let mut traversal = TraversalBuilder::new(&storage, vec![]);
    traversal.e(&txn).unwrap();
    match &traversal.current_step[0] {
        TraversalValue::EdgeArray(edges) => assert_eq!(edges.len(), 0),
        _ => panic!("Expected EdgeArray value"),
    }
}

#[test]
fn test_v_nodes_without_edges() {
    let mut storage = setup_test_db();
    let person1 = node(&mut storage, "person", vec![]);
    let person2 = node(&mut storage, "person", vec![]);
    let txn = storage.read_txn();
    let mut traversal = TraversalBuilder::new(&storage, vec![]);
    traversal.v(&txn).unwrap();
    match &traversal.current_step[0] {
        TraversalValue::NodeArray(nodes) => {
            assert_eq!(nodes.len(), 2);
            let node_ids: Vec<String> = nodes.iter().map(|n| n.id.clone()).collect();
            assert!(node_ids.contains(&person1.id));
            assert!(node_ids.contains(&person2.id));
        }
        _ => panic!("Expected NodeArray value"),
    }
}

#[test]
fn test_add_v() {
    let storage = setup_test_db();
    let mut txn = storage.write_txn();
    let mut traversal = TraversalBuilder::new(&storage, vec![]);
    traversal.add_v(&mut txn, "person", props(vec![])).unwrap();
    match &traversal.current_step[0] {
        TraversalValue::SingleNode(node) => assert_eq!(node.label, "person"),
        _ => panic!("Expected SingleNode value"),
    }
}

#[test]
fn test_add_e() {
    let mut storage = setup_test_db();
    let node1 = node(&mut storage, "person", vec![]);
    let node2 = node(&mut storage, "person", vec![]);
    let mut txn = storage.write_txn();
    let mut traversal = TraversalBuilder::new(&storage, vec![]);
    traversal.add_e(&mut txn, "knows", &node1.id, &node2.id, props(vec![])).unwrap();
    match &traversal.current_step[0] {
        TraversalValue::SingleEdge(edge) => {
            assert_eq!(edge.label, "knows");
            assert_eq!(edge.from_node, node1.id);
            assert_eq!(edge.to_node, node2.id);
        }
        _ => panic!("Expected SingleEdge value"),
    }
}

#[test]
fn test_out() {
    let mut storage = setup_test_db();
    let person1 = node(&mut storage, "person", vec![]);
    let person2 = node(&mut storage, "person", vec![]);
    let person3 = node(&mut storage, "person", vec![]);
    edge(&mut storage, "knows", &person1.id, &person2.id, vec![]);
    edge(&mut storage, "knows", &person2.id, &person3.id, vec![]);
    let txn = storage.read_txn();
    let mut traversal = TraversalBuilder::new(&storage, vec![TraversalValue::NodeArray(vec![person1.duplicate()])]);
    traversal.out(&txn, "knows").unwrap();
    match &traversal.current_step[0] {
        TraversalValue::NodeArray(nodes) => {
            assert_eq!(nodes.len(), 1);
            assert_eq!(nodes[0].id, person2.id);
        }
        _ => panic!("Expected NodeArray value"),
    }
}

#[test]
fn test_out_e() {
    let mut storage = setup_test_db();
    let person1 = node(&mut storage, "person", vec![]);
    let person2 = node(&mut storage, "person", vec![]);
    let e = edge(&mut storage, "knows", &person1.id, &person2.id, vec![]);
    let txn = storage.read_txn();
    let mut traversal = TraversalBuilder::new(&storage, vec![TraversalValue::NodeArray(vec![person1.duplicate()])]);
    traversal.out_e(&txn, "knows").unwrap();
    match &traversal.current_step[0] {
        TraversalValue::EdgeArray(edges) => {
            assert_eq!(edges.len(), 1);
            assert_eq!(edges[0].id, e.id);
            assert_eq!(edges[0].label, "knows");
        }
        _ => panic!("Expected EdgeArray value"),
    }
}

#[test]
fn test_in() {
    let mut storage = setup_test_db();
    let person1 = node(&mut storage, "person", vec![]);
    let person2 = node(&mut storage, "person", vec![]);
    edge(&mut storage, "knows", &person1.id, &person2.id, vec![]);
    let txn = storage.read_txn();
    let mut traversal = TraversalBuilder::new(&storage, vec![TraversalValue::NodeArray(vec![person2.duplicate()])]);
    traversal.in_(&txn, "knows").unwrap();
    match &traversal.current_step[0] {
        TraversalValue::NodeArray(nodes) => {
            assert_eq!(nodes.len(), 1);
            assert_eq!(nodes[0].id, person1.id);
        }
        _ => panic!("Expected NodeArray value"),
    }
}

#[test]
fn test_in_e() {
    let mut storage = setup_test_db();
    let person1 = node(&mut storage, "person", vec![]);
    let person2 = node(&mut storage, "person", vec![]);
    let e = edge(&mut storage, "knows", &person1.id, &person2.id, vec![]);
    let txn = storage.read_txn();
    let mut traversal = TraversalBuilder::new(&storage, vec![TraversalValue::NodeArray(vec![person2.duplicate()])]);
    traversal.in_e(&txn, "knows").unwrap();
    match &traversal.current_step[0] {
        TraversalValue::EdgeArray(edges) => {
            assert_eq!(edges.len(), 1);
            assert_eq!(edges[0].id, e.id);
            assert_eq!(edges[0].label, "knows");
        }
        _ => panic!("Expected EdgeArray value"),
    }
}

#[test]
fn test_traversal_validation() {
    let mut storage = setup_test_db();
    let node1 = node(&mut storage, "person", vec![]);
    let node2 = node(&mut storage, "person", vec![]);
    let e = edge(&mut storage, "knows", &node1.id, &node2.id, vec![]);
    let mut traversal = TraversalBuilder::new(&storage, vec![]);
    traversal.current_step = vec![TraversalValue::SingleEdge(e)];
    assert!(traversal.check_is_valid_node_traversal("test").is_err());
    traversal.current_step = vec![TraversalValue::SingleNode(node1)];
    assert!(traversal.check_is_valid_edge_traversal("test").is_err());
}

#[test]
fn test_complex_traversal() {
    let mut storage = setup_test_db();
    let person1 = node(&mut storage, "person", vec![]);
    let person2 = node(&mut storage, "person", vec![]);
    let person3 = node(&mut storage, "person", vec![]);
    edge(&mut storage, "knows", &person1.id, &person2.id, vec![]);
    edge(&mut storage, "likes", &person2.id, &person3.id, vec![]);
    edge(&mut storage, "follows", &person3.id, &person1.id, vec![]);
    let txn = storage.read_txn();
    let mut traversal = TraversalBuilder::new(&storage, vec![TraversalValue::NodeArray(vec![person1.duplicate()])]);
    traversal.out(&txn, "knows").unwrap();
    match &traversal.current_step[0] {
        TraversalValue::NodeArray(nodes) => {
            assert_eq!(nodes.len(), 1);
            assert_eq!(nodes[0].id, person2.id);
        }
        _ => panic!("Expected NodeArray value"),
    }
    traversal.out(&txn, "likes").unwrap();
    match &traversal.current_step[0] {
        TraversalValue::NodeArray(nodes) => {
            assert_eq!(nodes.len(), 1);
            assert_eq!(nodes[0].id, person3.id);
        }
        _ => panic!("Expected NodeArray value"),
    }
    traversal.out(&txn, "follows").unwrap();
    match &traversal.current_step[0] {
        TraversalValue::NodeArray(nodes) => {
            assert_eq!(nodes.len(), 1);
            assert_eq!(nodes[0].id, person1.id);
        }
        _ => panic!("Expected NodeArray value"),
    }
}

#[test]
fn test_count_single_node() {
    let mut storage = setup_test_db();
    let person = node(&mut storage, "person", vec![]);
    let mut traversal = TraversalBuilder::new(&storage, vec![TraversalValue::SingleNode(person)]);
    assert_eq!(count_of(&mut traversal), 1);
}

#[test]
fn test_count_node_array() {
    let mut storage = setup_test_db();
    node(&mut storage, "person", vec![]);
    node(&mut storage, "person", vec![]);
    node(&mut storage, "person", vec![]);
    let txn = storage.read_txn();
    let mut traversal = TraversalBuilder::new(&storage, vec![]);
    traversal.v(&txn).unwrap();
    assert_eq!(count_of(&mut traversal), 3);
}

#[test]
fn test_count_mixed_steps() {
    let mut storage = setup_test_db();
    let person1 = node(&mut storage, "person", vec![]);
    let person2 = node(&mut storage, "person", vec![]);
    let person3 = node(&mut storage, "person", vec![]);
    edge(&mut storage, "knows", &person1.id, &person2.id, vec![]);
    edge(&mut storage, "knows", &person1.id, &person3.id, vec![]);
    let txn = storage.read_txn();
    let mut traversal = TraversalBuilder::new(&storage, vec![TraversalValue::SingleNode(person1)]);
    traversal.out(&txn, "knows").unwrap();
    assert_eq!(count_of(&mut traversal), 2);
}

#[test]
fn test_range_subset() {
    let mut storage = setup_test_db();
    for _ in 0..5 {
        node(&mut storage, "person", vec![]);
    }
    let txn = storage.read_txn();
    let mut traversal = TraversalBuilder::new(&storage, vec![]);
    traversal.v(&txn).unwrap();
    traversal.range(1, 3).unwrap();
    assert_eq!(count_of(&mut traversal), 2);
}

#[test]
fn test_range_chaining() {
    let mut storage = setup_test_db();
    let nodes: Vec<Node> = (0..5)
        .map(|i| node(&mut storage, "person", vec![("name", Value::Integer(i))]))
        .collect();
    for i in 0..4 {
        edge(&mut storage, "knows", &nodes[i].id, &nodes[i + 1].id, vec![]);
    }
    edge(&mut storage, "knows", &nodes[4].id, &nodes[0].id, vec![]);
    let txn = storage.read_txn();
    let mut traversal = TraversalBuilder::new(&storage, vec![]);
    traversal.v(&txn).unwrap();
    traversal.range(0, 3).unwrap();
    traversal.out(&txn, "knows").unwrap();
    assert_eq!(count_of(&mut traversal), 3);
}

#[test]
fn test_range_empty() {
    let storage = setup_test_db();
    let txn = storage.read_txn();
    let mut traversal = TraversalBuilder::new(&storage, vec![]);
    traversal.v(&txn).unwrap();
    traversal.range(0, 0).unwrap();
    assert_eq!(count_of(&mut traversal), 0);
}

#[test]
fn test_count_empty() {
    let storage = setup_test_db();
    let mut traversal = TraversalBuilder::new(&storage, vec![]);
    assert_eq!(count_of(&mut traversal), 0);
}

#[test]
fn test_v_from_id() {
    let mut storage = setup_test_db();
    let person = node(&mut storage, "person", vec![]);
    let node_id = person.id.clone();
    let txn = storage.read_txn();
    let mut traversal = TraversalBuilder::new(&storage, vec![]);
    traversal.v_from_id(&txn, &node_id).unwrap();
    match &traversal.current_step[0] {
        TraversalValue::SingleNode(node) => {
            assert_eq!(node.id, node_id);
            assert_eq!(node.label, "person");
        }
        _ => panic!("Expected SingleNode value"),
    }
}

#[test]
fn test_v_from_id_with_traversal() {
    let mut storage = setup_test_db();
    let person1 = node(&mut storage, "person", vec![]);
    let person2 = node(&mut storage, "person", vec![]);
    edge(&mut storage, "knows", &person1.id, &person2.id, vec![]);
    let txn = storage.read_txn();
    let mut traversal = TraversalBuilder::new(&storage, vec![]);
    traversal.v_from_id(&txn, &person1.id).unwrap();
    traversal.out(&txn, "knows").unwrap();
    match &traversal.current_step[0] {
        TraversalValue::NodeArray(nodes) => {
            assert_eq!(nodes.len(), 1);
            assert_eq!(nodes[0].id, person2.id);
        }
        _ => panic!("Expected NodeArray value"),
    }
}

#[test]
fn test_e_from_id() {
    let mut storage = setup_test_db();
    let person1 = node(&mut storage, "person", vec![]);
    let person2 = node(&mut storage, "person", vec![]);
    let e = edge(&mut storage, "knows", &person1.id, &person2.id, vec![]);
    let edge_id = e.id.clone();
    let txn = storage.read_txn();
    let mut traversal = TraversalBuilder::new(&storage, vec![]);
    traversal.e_from_id(&txn, &edge_id).unwrap();
    match &traversal.current_step[0] {
        TraversalValue::SingleEdge(e) => {
            assert_eq!(e.id, edge_id);
            assert_eq!(e.label, "knows");
            assert_eq!(e.from_node, person1.id);
            assert_eq!(e.to_node, person2.id);
        }
        _ => panic!("Expected SingleEdge value"),
    }
}

#[test]
fn test_v_from_id_nonexistent() {
    let storage = setup_test_db();
    let _ = TraversalBuilder::new(&storage, vec![]);
    let txn = storage.read_txn();
    let result = storage.get_node(&txn, "nonexistent_id");
    assert!(result.is_err());
    assert!(matches!(result, Err(GraphError::NodeNotFound)));
}

#[test]
fn test_e_from_id_nonexistent() {
    let storage = setup_test_db();
    let _ = TraversalBuilder::new(&storage, vec![]);
    let txn = storage.read_txn();
    let result = storage.get_edge(&txn, "nonexistent_id");
    assert!(result.is_err());
    assert!(matches!(result, Err(GraphError::EdgeNotFound)));
}

#[test]
fn test_v_from_id_chain_operations() {
    let mut storage = setup_test_db();
    let person1 = node(&mut storage, "person", vec![]);
    let person2 = node(&mut storage, "person", vec![]);
    let person3 = node(&mut storage, "person", vec![]);
    edge(&mut storage, "knows", &person1.id, &person2.id, vec![]);
    edge(&mut storage, "likes", &person2.id, &person3.id, vec![]);
    let txn = storage.read_txn();
    let mut traversal = TraversalBuilder::new(&storage, vec![]);
    traversal.v_from_id(&txn, &person1.id).unwrap();
    traversal.out(&txn, "knows").unwrap();
    traversal.out(&txn, "likes").unwrap();
    match &traversal.current_step[0] {
        TraversalValue::NodeArray(nodes) => {
            assert_eq!(nodes.len(), 1);
            assert_eq!(nodes[0].id, person3.id);
        }
        _ => panic!("Expected NodeArray value"),
    }
}

#[test]
fn test_e_from_id_chain_operations() {
    let mut storage = setup_test_db();
    let person1 = node(&mut storage, "person", vec![]);
    let person2 = node(&mut storage, "person", vec![]);
    let e = edge(&mut storage, "knows", &person1.id, &person2.id, vec![]);
    let txn = storage.read_txn();
    let mut traversal = TraversalBuilder::new(&storage, vec![]);
    traversal.e_from_id(&txn, &e.id).unwrap();
    assert_eq!(count_of(&mut traversal), 1);
}

#[test]
fn test_filter_nodes() {
    let mut storage = setup_test_db();
    node(&mut storage, "person", vec![("age", Value::Integer(25))]);
    node(&mut storage, "person", vec![("age", Value::Integer(30))]);
    let person3 = node(&mut storage, "person", vec![("age", Value::Integer(35))]);
    let txn = storage.read_txn();
    let mut traversal = TraversalBuilder::new(&storage, vec![]);
    traversal.v(&txn).unwrap();
    traversal.filter_nodes(|n| age_above(n, 30)).unwrap();
    match &traversal.current_step[0] {
        TraversalValue::SingleNode(node) => assert_eq!(node.id, person3.id),
        _ => panic!("Expected Node value"),
    }
    assert_eq!(count_of(&mut traversal), 1);
}

#[test]
fn test_filter_macro_single_argument() {
    let mut storage = setup_test_db();
    node(&mut storage, "person", vec![("name", Value::String("Alice".to_string()))]);
    node(&mut storage, "person", vec![("name", Value::String("Bob".to_string()))]);
    let txn = storage.read_txn();
    let mut traversal = TraversalBuilder::new(&storage, vec![]);
    traversal.v(&txn).unwrap();
    traversal.filter_nodes(has_name).unwrap();
    assert_eq!(count_of(&mut traversal), 2);
}

#[test]
fn test_filter_macro_multiple_arguments() {
    let mut storage = setup_test_db();
    node(&mut storage, "person", vec![("age", Value::Integer(25))]);
    let person2 = node(&mut storage, "person", vec![("age", Value::Integer(30))]);
    let txn = storage.read_txn();
    let mut traversal = TraversalBuilder::new(&storage, vec![]);
    traversal.v(&txn).unwrap();
    traversal.filter_nodes(|n| age_above(n, 27)).unwrap();
    match &traversal.current_step[0] {
        TraversalValue::SingleNode(node) => assert_eq!(node.id, person2.id),
        _ => panic!("Expected Node value"),
    }
    assert_eq!(count_of(&mut traversal), 1);
}

#[test]
fn test_filter_edges() {
    let mut storage = setup_test_db();
    let person1 = node(&mut storage, "person", vec![]);
    let person2 = node(&mut storage, "person", vec![]);
    edge(&mut storage, "knows", &person1.id, &person2.id, vec![("since", Value::Integer(2020))]);
    let edge2 = edge(&mut storage, "knows", &person2.id, &person1.id, vec![("since", Value::Integer(2022))]);
    let txn = storage.read_txn();
    let mut traversal = TraversalBuilder::new(&storage, vec![]);
    traversal.e(&txn).unwrap();
    fn recent_edge(e: &Edge, year: i64) -> Result<bool, GraphError> {
        if let Some(Value::Integer(since)) = e.check_property(&"since".to_string()) {
            return Ok(*since > year);
        }
        Err(GraphError::TraversalError("Invalid edge".to_string()))
    }
    traversal.filter_edges(|e| recent_edge(e, 2021)).unwrap();
    match &traversal.current_step[0] {
        TraversalValue::SingleEdge(edge) => assert_eq!(edge.id, edge2.id),
        _ => panic!("Expected Edge value"),
    }
    assert_eq!(count_of(&mut traversal), 1);
}

#[test]
fn test_filter_empty_result() {
    let mut storage = setup_test_db();
    node(&mut storage, "person", vec![("age", Value::Integer(25))]);
    let txn = storage.read_txn();
    let mut traversal = TraversalBuilder::new(&storage, vec![]);
    traversal.v(&txn).unwrap();
    traversal.filter_nodes(|n| age_above(n, 100)).unwrap();
    assert!(traversal.current_step.is_empty());
    assert_eq!(count_of(&mut traversal), 0);
}

#[test]
fn test_filter_chain() {
    let mut storage = setup_test_db();
    node(&mut storage, "person", vec![("age", Value::Integer(25)), ("name", Value::String("Alice".to_string()))]);
    let person2 = node(&mut storage, "person", vec![("age", Value::Integer(30)), ("name", Value::String("Bob".to_string()))]);
    node(&mut storage, "person", vec![("age", Value::Integer(35))]);
    let txn = storage.read_txn();
    let mut traversal = TraversalBuilder::new(&storage, vec![]);
    traversal.v(&txn).unwrap();
    traversal.filter_nodes(has_name).unwrap();
    traversal.filter_nodes(|n| age_above(n, 27)).unwrap();
    match &traversal.current_step[0] {
        TraversalValue::SingleNode(node) => {
            assert_eq!(node.id, person2.id);
            assert_eq!(
                node.check_property(&"name".to_string()),
                Some(&Value::String("Bob".to_string()))
            );
        }
        _ => panic!("Expected Node value"),
    }
    assert_eq!(count_of(&mut traversal), 1);
}

#[test]
fn test_in_v() {
    let mut storage = setup_test_db();
    let person1 = node(&mut storage, "person", vec![]);
    let person2 = node(&mut storage, "person", vec![]);
    let e = edge(&mut storage, "knows", &person1.id, &person2.id, vec![]);
    let txn = storage.read_txn();
    let mut traversal = TraversalBuilder::new(&storage, vec![]);
    traversal.e_from_id(&txn, &e.id).unwrap();
    traversal.in_v(&txn).unwrap();
    match &traversal.current_step[0] {
        TraversalValue::SingleNode(node) => assert_eq!(node.id, person2.id),
        _ => panic!("Expected SingleNode value"),
    }
}

#[test]
fn test_out_v() {
    let mut storage = setup_test_db();
    let person1 = node(&mut storage, "person", vec![]);
    let person2 = node(&mut storage, "person", vec![]);
    let e = edge(&mut storage, "knows", &person1.id, &person2.id, vec![]);
    let txn = storage.read_txn();
    let mut traversal = TraversalBuilder::new(&storage, vec![]);
    traversal.e_from_id(&txn, &e.id).unwrap();
    traversal.out_v(&txn).unwrap();
    match &traversal.current_step[0] {
        TraversalValue::SingleNode(node) => assert_eq!(node.id, person1.id),
        _ => panic!("Expected SingleNode value"),
    }
}

#[test]
fn test_both() {
    let mut storage = setup_test_db();
    let person1 = node(&mut storage, "person", vec![]);
    let person2 = node(&mut storage, "person", vec![]);
    let person3 = node(&mut storage, "person", vec![]);
    edge(&mut storage, "knows", &person1.id, &person2.id, vec![]);
    edge(&mut storage, "knows", &person2.id, &person3.id, vec![]);
    edge(&mut storage, "knows", &person3.id, &person2.id, vec![]);
    let txn = storage.read_txn();
    let mut traversal = TraversalBuilder::new(&storage, vec![TraversalValue::NodeArray(vec![person2.duplicate()])]);
    traversal.both(&txn, "knows").unwrap();
    let nodes: Vec<String> = match_node_array(&traversal.current_step)
        .iter()
        .map(|n| n.id.clone())
        .collect();
    assert_eq!(nodes.len(), 3);
    assert!(nodes.contains(&person1.id));
    assert!(nodes.contains(&person3.id));
}

#[test]
fn test_both_e() {
    let mut storage = setup_test_db();
    let person1 = node(&mut storage, "person", vec![]);
    let person2 = node(&mut storage, "person", vec![]);
    let edge1 = edge(&mut storage, "knows", &person1.id, &person2.id, vec![]);
    let edge2 = edge(&mut storage, "likes", &person2.id, &person1.id, vec![]);
    let txn = storage.read_txn();
    let mut traversal = TraversalBuilder::new(&storage, vec![TraversalValue::NodeArray(vec![person2.duplicate()])]);
    traversal.both_e(&txn, "knows").unwrap();
    match &traversal.current_step[0] {
        TraversalValue::EdgeArray(edges) => {
            assert_eq!(edges.len(), 1);
            assert_eq!(edges[0].id, edge1.id);
        }
        _ => panic!("Expected EdgeArray value"),
    }
    let mut traversal = TraversalBuilder::new(&storage, vec![TraversalValue::NodeArray(vec![person2.duplicate()])]);
    traversal.both_e(&txn, "likes").unwrap();
    match &traversal.current_step[0] {
        TraversalValue::EdgeArray(edges) => {
            assert_eq!(edges.len(), 1);
            assert_eq!(edges[0].id, edge2.id);
        }
        _ => panic!("Expected EdgeArray value"),
    }
}

#[test]
fn test_both_v() {
    let mut storage = setup_test_db();
    let person1 = node(&mut storage, "person", vec![]);
    let person2 = node(&mut storage, "person", vec![]);
    let e = edge(&mut storage, "knows", &person1.id, &person2.id, vec![]);
    let txn = storage.read_txn();
    let mut traversal = TraversalBuilder::new(&storage, vec![]);
    traversal.e_from_id(&txn, &e.id).unwrap();
    traversal.both_v(&txn).unwrap();
    match &traversal.current_step[0] {
        TraversalValue::NodeArray(nodes) => {
            assert_eq!(nodes.len(), 2);
            let node_ids: Vec<String> = nodes.iter().map(|n| n.id.clone()).collect();
            assert!(node_ids.contains(&person1.id));
            assert!(node_ids.contains(&person2.id));
        }
        _ => panic!("Expected NodeArray value"),
    }
}

#[test]
fn triangle_traversal_returns_to_start() {
    let mut storage = setup_test_db();
    let first = node(&mut storage, "person", vec![]);
    let second = node(&mut storage, "person", vec![]);
    let third = node(&mut storage, "person", vec![]);
    edge(&mut storage, "knows", &first.id, &second.id, vec![]);
    edge(&mut storage, "likes", &second.id, &third.id, vec![]);
    edge(&mut storage, "follows", &third.id, &first.id, vec![]);
    let txn = storage.read_txn();
    let mut traversal = TraversalBuilder::new(&storage, vec![]);
    traversal.v_from_id(&txn, &first.id).unwrap();
    traversal.out(&txn, "knows").unwrap();
    traversal.out(&txn, "likes").unwrap();
    traversal.out(&txn, "follows").unwrap();
    assert_eq!(traversal.current_step.len(), 1);
    match &traversal.current_step[0] {
        TraversalValue::NodeArray(nodes) => {
            assert_eq!(nodes.len(), 1);
            assert_eq!(nodes[0].id, first.id);
        }
        _ => panic!("Expected NodeArray value"),
    }
}

#[test]
fn out_without_edges_gives_one_empty() {
    let mut storage = setup_test_db();
    let first = node(&mut storage, "person", vec![]);
    let txn = storage.read_txn();
    let mut traversal = TraversalBuilder::new(&storage, vec![]);
    traversal.v_from_id(&txn, &first.id).unwrap();
    traversal.out(&txn, "knows").unwrap();
    assert_eq!(traversal.current_step, vec![TraversalValue::Empty]);
}

#[test]
fn filter_then_count_keeps_one() {
    let mut storage = setup_test_db();
    for age in [25, 30, 35] {
        node(&mut storage, "person", vec![("age", Value::Integer(age))]);
    }
    let txn = storage.read_txn();
    let mut traversal = TraversalBuilder::new(&storage, vec![]);
    traversal.v(&txn).unwrap();
    traversal.filter_nodes(|n| age_above(n, 30)).unwrap();
    traversal.count().unwrap();
    assert_eq!(traversal.current_step.len(), 1);
    assert!(matches!(&traversal.current_step[0], TraversalValue::Count(c) if c.value() == 1));
}

#[test]
fn get_properties_skips_missing_keys() {
    let mut storage = setup_test_db();
    node(&mut storage, "person", vec![("name", Value::String("Alice".to_string())), ("age", Value::Integer(25))]);
    let txn = storage.read_txn();
    let mut traversal = TraversalBuilder::new(&storage, vec![]);
    traversal.v(&txn).unwrap();
    let keys = vec!["name".to_string(), "age".to_string(), "missing".to_string()];
    traversal.get_properties(&keys).unwrap();
    assert_eq!(
        traversal.current_step,
        vec![
            TraversalValue::SingleValue(("name".to_string(), Value::String("Alice".to_string()))),
            TraversalValue::SingleValue(("age".to_string(), Value::Integer(25))),
        ]
    );
}

#[test]
fn predicate_error_is_a_traversal_error() {
    let mut storage = setup_test_db();
    node(&mut storage, "person", vec![]);
    let txn = storage.read_txn();
    let mut traversal = TraversalBuilder::new(&storage, vec![]);
    traversal.v(&txn).unwrap();
    let r = traversal.filter_nodes(|n| age_above(n, 1));
    assert!(matches!(r, Err(GraphError::TraversalError(_))));
    assert!(matches!(&traversal.current_step[0], TraversalValue::NodeArray(ns) if ns.len() == 1));
}

#[test]
fn node_step_on_edges_is_refused() {
    let mut storage = setup_test_db();
    let a = node(&mut storage, "person", vec![]);
    let b = node(&mut storage, "person", vec![]);
    let e = edge(&mut storage, "knows", &a.id, &b.id, vec![]);
    let txn = storage.read_txn();
    let mut traversal = TraversalBuilder::new(&storage, vec![]);
    traversal.e_from_id(&txn, &e.id).unwrap();
    assert!(matches!(traversal.out(&txn, ""), Err(GraphError::TraversalError(_))));
    traversal.v_from_id(&txn, &a.id).unwrap();
    assert!(matches!(traversal.in_v(&txn), Err(GraphError::TraversalError(_))));
}

#[test]
fn range_clamps_end_and_count_matches() {
    let mut storage = setup_test_db();
    for _ in 0..4 {
        node(&mut storage, "person", vec![]);
    }
    let txn = storage.read_txn();
    let mut traversal = TraversalBuilder::new(&storage, vec![]);
    traversal.v(&txn).unwrap();
    traversal.range(2, 10).unwrap();
    assert_eq!(count_of(&mut traversal), 2);
    traversal.v(&txn).unwrap();
    traversal.range(1, 3).unwrap();
    assert_eq!(count_of(&mut traversal), 2);
}

#[test]
fn shortest_path_step_and_result() {
    let mut storage = setup_test_db();
    let a = node(&mut storage, "person", vec![]);
    let b = node(&mut storage, "person", vec![]);
    let c = node(&mut storage, "person", vec![]);
    edge(&mut storage, "knows", &a.id, &b.id, vec![]);
    edge(&mut storage, "knows", &b.id, &c.id, vec![]);
    let txn = storage.read_txn();
    let mut traversal = TraversalBuilder::new(&storage, vec![]);
    traversal.v_from_id(&txn, &a.id).unwrap();
    traversal.shortest_path_to(&txn, &c.id).unwrap();
    match &traversal.current_step[1] {
        TraversalValue::EdgeArray(es) => assert_eq!(es.len(), 2),
        _ => panic!("Expected EdgeArray value"),
    }
    let mut single = TraversalBuilder::new(&storage, vec![]);
    single.v_from_id(&txn, &b.id).unwrap();
    match single.result().unwrap() {
        TraversalValue::SingleNode(n) => assert_eq!(n.id, b.id),
        _ => panic!("Expected SingleNode value"),
    }
}

#[test]
fn add_through_a_write_transaction_then_commit() {
    let mut storage = setup_test_db();
    let mut txn = storage.write_txn();
    let id = {
        let mut traversal = TraversalBuilder::new(&storage, vec![]);
        traversal.add_v(&mut txn, "person", props(vec![])).unwrap();
        match traversal.result().unwrap() {
            TraversalValue::SingleNode(n) => n.id,
            _ => panic!("Expected SingleNode value"),
        }
    };
    storage.commit(txn).unwrap();
    let read = storage.read_txn();
    assert!(storage.check_exists(&read, &id).unwrap());
}

#[test]
fn mutual_keeps_nodes_linked_both_ways() {
    let mut storage = setup_test_db();
    let a = node(&mut storage, "person", vec![]);
    let b = node(&mut storage, "person", vec![]);
    let c = node(&mut storage, "person", vec![]);
    edge(&mut storage, "knows", &a.id, &b.id, vec![]);
    edge(&mut storage, "knows", &b.id, &a.id, vec![]);
    edge(&mut storage, "knows", &a.id, &b.id, vec![]);
    edge(&mut storage, "knows", &a.id, &c.id, vec![]);
    let txn = storage.read_txn();
    let mut traversal = TraversalBuilder::new(&storage, vec![]);
    traversal.v_from_id(&txn, &a.id).unwrap();
    traversal.mutual(&txn, "knows").unwrap();
    match &traversal.current_step[0] {
        TraversalValue::NodeArray(nodes) => {
            assert_eq!(nodes.len(), 1);
            assert_eq!(nodes[0].id, b.id);
        }
        _ => panic!("Expected NodeArray value"),
    }
    let mut lonely = TraversalBuilder::new(&storage, vec![]);
    lonely.v_from_id(&txn, &c.id).unwrap();
    lonely.mutual(&txn, "").unwrap();
    assert_eq!(lonely.current_step, vec![TraversalValue::Empty]);
}

#[test]
fn update_props_merges_and_persists() {
    let mut storage = setup_test_db();
    let a = node(&mut storage, "person", vec![("age", Value::Integer(1)), ("name", Value::String("A".to_string()))]);
    let b = node(&mut storage, "person", vec![]);
    let mut txn = storage.write_txn();
    {
        let mut traversal = TraversalBuilder::new(&storage, vec![]);
        traversal.v_from_ids(txn.read(), &vec![a.id.clone(), b.id.clone()]).unwrap();
        traversal.update_props(&mut txn, props(vec![("age", Value::Integer(2))])).unwrap();
        assert_eq!(traversal.current_step.len(), 2);
    }
    storage.commit(txn).unwrap();
    let read = storage.read_txn();
    let a2 = storage.get_node(&read, &a.id).unwrap();
    assert_eq!(
        a2.properties,
        vec![("age".to_string(), Value::Integer(2)), ("name".to_string(), Value::String("A".to_string()))]
    );
    let b2 = storage.get_node(&read, &b.id).unwrap();
    assert_eq!(b2.properties, vec![("age".to_string(), Value::Integer(2))]);
    assert_eq!(b2.label, "person");
}

#[test]
fn v_from_types_and_v_from_ids() {
    let mut storage = setup_test_db();
    let a = node(&mut storage, "person", vec![]);
    node(&mut storage, "thing", vec![]);
    let txn = storage.read_txn();
    let mut traversal = TraversalBuilder::new(&storage, vec![]);
    traversal.v_from_types(&txn, &vec!["person".to_string()]).unwrap();
    match &traversal.current_step[0] {
        TraversalValue::NodeArray(nodes) => {
            assert_eq!(nodes.len(), 1);
            assert_eq!(nodes[0].id, a.id);
        }
        _ => panic!("Expected NodeArray value"),
    }
    let r = traversal.v_from_ids(&txn, &vec![a.id.clone(), "missing".to_string()]);
    assert!(matches!(r, Err(GraphError::NodeNotFound)));
}

#[test]
fn map_nodes_replaces_nodes_in_place() {
    let mut storage = setup_test_db();
    node(&mut storage, "person", vec![("age", Value::Integer(3))]);
    let txn = storage.read_txn();
    let mut traversal = TraversalBuilder::new(&storage, vec![]);
    traversal.v(&txn).unwrap();
    traversal
        .map_nodes(|n| {
            let mut m = n.duplicate();
            m.label = "adult".to_string();
            Ok(m)
        })
        .unwrap();
    match &traversal.current_step[0] {
        TraversalValue::SingleNode(n) => assert_eq!(n.label, "adult"),
        _ => panic!("Expected SingleNode value"),
    }
    let r = traversal.map_nodes(|_| Err(GraphError::NodeNotFound));
    assert!(matches!(r, Err(GraphError::TraversalError(_))));
}

#[test]
fn map_edges_and_for_each_visit_every_item() {
    let mut storage = setup_test_db();
    let a = node(&mut storage, "person", vec![]);
    let b = node(&mut storage, "person", vec![]);
    edge(&mut storage, "knows", &a.id, &b.id, vec![]);
    edge(&mut storage, "likes", &b.id, &a.id, vec![]);
    let txn = storage.read_txn();
    let mut traversal = TraversalBuilder::new(&storage, vec![]);
    traversal.e(&txn).unwrap();
    let seen = std::cell::Cell::new(0);
    traversal
        .for_each_edge(|_| {
            seen.set(seen.get() + 1);
            Ok(())
        })
        .unwrap();
    assert_eq!(seen.get(), 2);
    assert!(matches!(&traversal.current_step[0], TraversalValue::EdgeArray(es) if es.len() == 2));
    traversal
        .map_edges(|e| {
            let mut f = e.duplicate();
            f.label = "linked".to_string();
            Ok(f)
        })
        .unwrap();
    assert_eq!(traversal.current_step.len(), 2);
    for v in &traversal.current_step {
        match v {
            TraversalValue::SingleEdge(e) => assert_eq!(e.label, "linked"),
            _ => panic!("Expected SingleEdge value"),
        }
    }
    let mut nodes = TraversalBuilder::new(&storage, vec![]);
    nodes.v(&txn).unwrap();
    let count = std::cell::Cell::new(0);
    nodes
        .for_each_node(|_| {
            count.set(count.get() + 1);
            Ok(())
        })
        .unwrap();
    assert_eq!(count.get(), 2);
}
