use helix_engine::storage::{GraphError, HelixGraphStorage, Tables};
use helix_engine::value::{Node, Value};

fn setup_temp_db() -> HelixGraphStorage {
    HelixGraphStorage::new("test_db").unwrap()
}

fn props(pairs: Vec<(&str, Value)>) -> Vec<(String, Value)> {
    pairs.into_iter().map(|(k, v)| (k.to_string(), v)).collect()
}

fn prop<'a>(node: &'a Node, key: &str) -> Option<&'a Value> {
    node.check_property(&key.to_string())
}

#[test]
fn test_get_node() {
    let mut storage = setup_temp_db();
    let mut txn = storage.write_txn();
    let node = storage.create_node(&mut txn, "person", props(vec![])).unwrap();
    storage.commit(txn).unwrap();

    let txn = storage.read_txn();
    let retrieved_node = storage.get_node(&txn, &node.id).unwrap();
    assert_eq!(node.id, retrieved_node.id);
    assert_eq!(node.label, retrieved_node.label);
}

#[test]
fn test_get_edge() {
    let mut storage = setup_temp_db();
    let mut txn = storage.write_txn();
    let node1 = storage.create_node(&mut txn, "person", props(vec![])).unwrap();
    let node2 = storage.create_node(&mut txn, "person", props(vec![])).unwrap();
    let edge = storage
        .create_edge(&mut txn, "knows", &node1.id, &node2.id, props(vec![]))
        .unwrap();
    storage.commit(txn).unwrap();

    let txn = storage.read_txn();
    let retrieved_edge = storage.get_edge(&txn, &edge.id).unwrap();
    assert_eq!(edge.id, retrieved_edge.id);
    assert_eq!(edge.label, retrieved_edge.label);
    assert_eq!(edge.from_node, retrieved_edge.from_node);
    assert_eq!(edge.to_node, retrieved_edge.to_node);
}

#[test]
fn test_create_node() {
    let mut storage = setup_temp_db();
    let mut txn = storage.write_txn();
    let properties = props(vec![("name", Value::String("test node".to_string()))]);
    let node = storage.create_node(&mut txn, "person", properties).unwrap();
    storage.commit(txn).unwrap();

    let txn = storage.read_txn();
    let retrieved_node = storage.get_node(&txn, &node.id).unwrap();
    assert_eq!(node.id, retrieved_node.id);
    assert_eq!(node.label, "person");
    assert_eq!(prop(&node, "name").unwrap(), &Value::String("test node".to_string()));
}

#[test]
fn test_create_edge() {
    let mut storage = setup_temp_db();
    let mut txn = storage.write_txn();
    let node1 = storage.create_node(&mut txn, "person", props(vec![])).unwrap();
    let node2 = storage.create_node(&mut txn, "person", props(vec![])).unwrap();
    let edge_props = props(vec![("age", Value::Integer(22))]);
    let edge = storage
        .create_edge(&mut txn, "knows", &node1.id, &node2.id, edge_props)
        .unwrap();
    storage.commit(txn).unwrap();

    let txn = storage.read_txn();
    let retrieved_edge = storage.get_edge(&txn, &edge.id).unwrap();
    assert_eq!(edge.id, retrieved_edge.id);
    assert_eq!(edge.label, "knows");
    assert_eq!(edge.from_node, node1.id);
    assert_eq!(edge.to_node, node2.id);
}

#[test]
fn test_create_edge_with_nonexistent_nodes() {
    let storage = setup_temp_db();
    let mut txn = storage.write_txn();
    let result = storage.create_edge(&mut txn, "knows", "nonexistent1", "nonexistent2", props(vec![]));
    assert!(result.is_err());
}

#[test]
fn test_drop_node() {
    let mut storage = setup_temp_db();
    let mut txn = storage.write_txn();
    let node1 = storage.create_node(&mut txn, "person", props(vec![])).unwrap();
    let node2 = storage.create_node(&mut txn, "person", props(vec![])).unwrap();
    let node3 = storage.create_node(&mut txn, "person", props(vec![])).unwrap();
    storage
        .create_edge(&mut txn, "knows", &node1.id, &node2.id, props(vec![]))
        .unwrap();
    storage
        .create_edge(&mut txn, "knows", &node3.id, &node1.id, props(vec![]))
        .unwrap();
    storage.drop_node(&mut txn, &node1.id).unwrap();
    storage.commit(txn).unwrap();

    let txn = storage.read_txn();
    assert!(storage.get_node(&txn, &node1.id).is_err());
}

#[test]
fn test_drop_edge() {
    let mut storage = setup_temp_db();
    let mut txn = storage.write_txn();
    let node1 = storage.create_node(&mut txn, "person", props(vec![])).unwrap();
    let node2 = storage.create_node(&mut txn, "person", props(vec![])).unwrap();
    let edge = storage
        .create_edge(&mut txn, "knows", &node1.id, &node2.id, props(vec![]))
        .unwrap();
    storage.drop_edge(&mut txn, &edge.id).unwrap();
    storage.commit(txn).unwrap();

    let txn = storage.read_txn();
    assert!(storage.get_edge(&txn, &edge.id).is_err());
}

#[test]
fn test_check_exists() {
    let mut storage = setup_temp_db();
    let mut txn = storage.write_txn();
    let node = storage.create_node(&mut txn, "person", props(vec![])).unwrap();
    storage.commit(txn).unwrap();

    let txn = storage.read_txn();
    assert!(storage.check_exists(&txn, &node.id).unwrap());
    assert!(!storage.check_exists(&txn, "nonexistent").unwrap());
}

#[test]
fn test_multiple_edges_between_nodes() {
    let mut storage = setup_temp_db();
    let mut txn = storage.write_txn();
    let node1 = storage.create_node(&mut txn, "person", props(vec![])).unwrap();
    let node2 = storage.create_node(&mut txn, "person", props(vec![])).unwrap();
    let edge1 = storage
        .create_edge(&mut txn, "knows", &node1.id, &node2.id, props(vec![]))
        .unwrap();
    let edge2 = storage
        .create_edge(&mut txn, "likes", &node1.id, &node2.id, props(vec![]))
        .unwrap();
    storage.commit(txn).unwrap();

    let txn = storage.read_txn();
    assert!(storage.get_edge(&txn, &edge1.id).is_ok());
    assert!(storage.get_edge(&txn, &edge2.id).is_ok());
}

#[test]
fn test_node_with_properties() {
    let mut storage = setup_temp_db();
    let mut txn = storage.write_txn();
    let properties = props(vec![
        ("name", Value::String("George".to_string())),
        ("age", Value::Integer(22)),
        ("active", Value::Boolean(true)),
    ]);
    let node = storage.create_node(&mut txn, "person", properties).unwrap();
    storage.commit(txn).unwrap();

    let txn = storage.read_txn();
    let retrieved_node = storage.get_node(&txn, &node.id).unwrap();
    assert_eq!(prop(&retrieved_node, "name").unwrap(), &Value::String("George".to_string()));
    assert!(match prop(&retrieved_node, "age").unwrap() {
        Value::Integer(val) => val == &22,
        Value::Float(bits) => f64::from_bits(*bits) == 22.0,
        _ => false,
    });
    assert_eq!(prop(&retrieved_node, "active").unwrap(), &Value::Boolean(true));
}

#[test]
fn test_get_all_nodes() {
    let mut storage = setup_temp_db();
    let mut txn = storage.write_txn();
    let node1 = storage.create_node(&mut txn, "person", props(vec![])).unwrap();
    let node2 = storage.create_node(&mut txn, "thing", props(vec![])).unwrap();
    let node3 = storage.create_node(&mut txn, "other", props(vec![])).unwrap();
    storage.commit(txn).unwrap();

    let txn = storage.read_txn();
    let nodes = storage.get_all_nodes(&txn).unwrap();
    assert_eq!(nodes.len(), 3);
    let node_ids: Vec<String> = nodes.iter().map(|n| n.id.clone()).collect();
    assert!(node_ids.contains(&node1.id));
    assert!(node_ids.contains(&node2.id));
    assert!(node_ids.contains(&node3.id));
    let labels: Vec<String> = nodes.iter().map(|n| n.label.clone()).collect();
    assert!(labels.contains(&"person".to_string()));
    assert!(labels.contains(&"thing".to_string()));
    assert!(labels.contains(&"other".to_string()));
}

#[test]
fn test_get_all_node_by_types() {
    let mut storage = setup_temp_db();
    let mut txn = storage.write_txn();
    let node1 = storage.create_node(&mut txn, "person", props(vec![])).unwrap();
    let node2 = storage.create_node(&mut txn, "thing", props(vec![])).unwrap();
    let node3 = storage.create_node(&mut txn, "person", props(vec![])).unwrap();
    storage.commit(txn).unwrap();

    let txn = storage.read_txn();
    let nodes = storage
        .get_nodes_by_types(&txn, &vec!["person".to_string()])
        .unwrap();
    assert_eq!(nodes.len(), 2);
    let node_ids: Vec<String> = nodes.iter().map(|n| n.id.clone()).collect();
    assert!(node_ids.contains(&node1.id));
    assert!(!node_ids.contains(&node2.id));
    assert!(node_ids.contains(&node3.id));
}

#[test]
fn test_get_all_edges() {
    let mut storage = setup_temp_db();
    let mut txn = storage.write_txn();
    let node1 = storage.create_node(&mut txn, "person", props(vec![])).unwrap();
    let node2 = storage.create_node(&mut txn, "person", props(vec![])).unwrap();
    let node3 = storage.create_node(&mut txn, "person", props(vec![])).unwrap();
    let edge1 = storage
        .create_edge(&mut txn, "knows", &node1.id, &node2.id, props(vec![]))
        .unwrap();
    let edge2 = storage
        .create_edge(&mut txn, "likes", &node2.id, &node3.id, props(vec![]))
        .unwrap();
    let edge3 = storage
        .create_edge(&mut txn, "follows", &node1.id, &node3.id, props(vec![]))
        .unwrap();
    storage.commit(txn).unwrap();

    let txn = storage.read_txn();
    let edges = storage.get_all_edges(&txn).unwrap();
    assert_eq!(edges.len(), 3);
    let edge_ids: Vec<String> = edges.iter().map(|e| e.id.clone()).collect();
    assert!(edge_ids.contains(&edge1.id));
    assert!(edge_ids.contains(&edge2.id));
    assert!(edge_ids.contains(&edge3.id));
    let labels: Vec<String> = edges.iter().map(|e| e.label.clone()).collect();
    assert!(labels.contains(&"knows".to_string()));
    assert!(labels.contains(&"likes".to_string()));
    assert!(labels.contains(&"follows".to_string()));
    let connections: Vec<(String, String)> = edges
        .iter()
        .map(|e| (e.from_node.clone(), e.to_node.clone()))
        .collect();
    assert!(connections.contains(&(node1.id.clone(), node2.id.clone())));
    assert!(connections.contains(&(node2.id.clone(), node3.id.clone())));
    assert!(connections.contains(&(node1.id.clone(), node3.id.clone())));
}

fn six_node_graph(storage: &mut HelixGraphStorage) -> Vec<Node> {
    let mut txn = storage.write_txn();
    let mut nodes = Vec::new();
    for _ in 0..6 {
        nodes.push(storage.create_node(&mut txn, "person", props(vec![])).unwrap());
    }
    for (a, b) in [(0, 1), (0, 2), (1, 3), (1, 2), (2, 1), (2, 3), (2, 4), (4, 3), (4, 5)] {
        storage
            .create_edge(&mut txn, "knows", &nodes[a].id, &nodes[b].id, props(vec![]))
            .unwrap();
    }
    storage.commit(txn).unwrap();
    nodes
}

#[test]
fn test_shortest_path() {
    let mut storage = setup_temp_db();
    let nodes = six_node_graph(&mut storage);
    let txn = storage.read_txn();
    let shortest_path1 = storage
        .shortest_path(&txn, &nodes[0].id, &nodes[5].id)
        .unwrap()
        .1
        .len();
    let shortest_path2 = storage
        .shortest_path(&txn, &nodes[1].id, &nodes[5].id)
        .unwrap()
        .1
        .len();
    assert_eq!(shortest_path1, 3);
    assert_eq!(shortest_path2, 3);
}

#[test]
fn shortest_path_is_a_chain_of_edges_end_first() {
    let mut storage = setup_temp_db();
    let nodes = six_node_graph(&mut storage);
    let txn = storage.read_txn();
    let (path_nodes, edges) = storage.shortest_path(&txn, &nodes[0].id, &nodes[5].id).unwrap();
    assert_eq!(path_nodes.len(), 4);
    assert_eq!(path_nodes[0].id, nodes[5].id);
    assert_eq!(path_nodes[3].id, nodes[0].id);
    assert_eq!(edges[0].to_node, nodes[5].id);
    assert_eq!(edges[2].from_node, nodes[0].id);
    for i in 0..edges.len() - 1 {
        assert_eq!(edges[i].from_node, edges[i + 1].to_node);
    }
}

#[test]
fn shortest_path_unreachable_is_path_not_found() {
    let mut storage = setup_temp_db();
    let nodes = six_node_graph(&mut storage);
    let txn = storage.read_txn();
    let r = storage.shortest_path(&txn, &nodes[5].id, &nodes[0].id);
    assert!(matches!(r, Err(GraphError::PathNotFound)));
}

#[test]
fn drop_node_cascades_to_its_edges() {
    let mut storage = setup_temp_db();
    let mut txn = storage.write_txn();
    let first = storage.create_node(&mut txn, "person", props(vec![])).unwrap();
    let second = storage.create_node(&mut txn, "person", props(vec![])).unwrap();
    storage.create_edge(&mut txn, "knows", &first.id, &second.id, props(vec![])).unwrap();
    storage.drop_node(&mut txn, &first.id).unwrap();
    storage.commit(txn).unwrap();

    let txn = storage.read_txn();
    assert!(storage.get_all_edges(&txn).unwrap().is_empty());
    let people = storage.get_nodes_by_types(&txn, &vec!["person".to_string()]).unwrap();
    assert_eq!(people.len(), 1);
    assert_eq!(people[0].id, second.id);
    assert!(txn.tables.out_edges.is_empty());
    assert!(txn.tables.in_edges.is_empty());
    assert!(txn.tables.edge_labels.is_empty());
    assert_eq!(txn.tables.node_labels.len(), 1);
}

#[test]
fn drop_missing_node_and_edge_fail() {
    let storage = setup_temp_db();
    let mut txn = storage.write_txn();
    assert!(matches!(storage.drop_node(&mut txn, "nope"), Err(GraphError::NodeNotFound)));
    assert!(matches!(storage.drop_edge(&mut txn, "nope"), Err(GraphError::EdgeNotFound)));
}

#[test]
fn create_edge_with_one_missing_endpoint_writes_nothing() {
    let storage = setup_temp_db();
    let mut txn = storage.write_txn();
    let first = storage.create_node(&mut txn, "person", props(vec![])).unwrap();
    let r = storage.create_edge(&mut txn, "knows", &first.id, "missing", props(vec![]));
    assert!(matches!(r, Err(GraphError::NodeNotFound)));
    assert!(txn.read().tables.edges.is_empty());
    assert!(txn.read().tables.out_edges.is_empty());
}

#[test]
fn round_trip_of_every_value_kind() {
    let mut storage = setup_temp_db();
    let mut txn = storage.write_txn();
    let nested = Value::Object(vec![
        ("xs".to_string(), Value::Array(vec![Value::Integer(1), Value::Empty])),
        ("f".to_string(), Value::Float(2.5f64.to_bits())),
    ]);
    let properties = props(vec![
        ("s", Value::String("text".to_string())),
        ("i", Value::Integer(-7)),
        ("b", Value::Boolean(false)),
        ("o", nested.duplicate()),
    ]);
    let node = storage.create_node(&mut txn, "thing", properties).unwrap();
    storage.commit(txn).unwrap();
    let txn = storage.read_txn();
    let back = storage.get_node(&txn, &node.id).unwrap();
    assert_eq!(back.label, "thing");
    assert_eq!(back.properties, node.properties);
    assert_eq!(prop(&back, "o").unwrap(), &nested);
    assert_eq!(prop(&back, "i").unwrap(), &Value::Integer(-7));
}

#[test]
fn later_pair_overwrites_earlier_key() {
    let mut storage = setup_temp_db();
    let mut txn = storage.write_txn();
    let properties = props(vec![("k", Value::Integer(1)), ("k", Value::Integer(2))]);
    let node = storage.create_node(&mut txn, "thing", properties).unwrap();
    storage.commit(txn).unwrap();
    assert_eq!(node.properties.len(), 1);
    assert_eq!(prop(&node, "k").unwrap(), &Value::Integer(2));
}

#[test]
fn read_snapshot_does_not_see_later_commit() {
    let mut storage = setup_temp_db();
    let before = storage.read_txn();
    let mut txn = storage.write_txn();
    let node = storage.create_node(&mut txn, "person", props(vec![])).unwrap();
    storage.commit(txn).unwrap();
    assert!(!storage.check_exists(&before, &node.id).unwrap());
    let after = storage.read_txn();
    assert!(storage.check_exists(&after, &node.id).unwrap());
}

#[test]
fn dropped_write_transaction_leaves_no_trace() {
    let storage = setup_temp_db();
    let mut txn = storage.write_txn();
    storage.create_node(&mut txn, "person", props(vec![])).unwrap();
    drop(txn);
    let read = storage.read_txn();
    assert!(storage.get_all_nodes(&read).unwrap().is_empty());
}

#[test]
fn adjacency_lists_and_label_filter() {
    let mut storage = setup_temp_db();
    let mut txn = storage.write_txn();
    let a = storage.create_node(&mut txn, "person", props(vec![])).unwrap();
    let b = storage.create_node(&mut txn, "person", props(vec![])).unwrap();
    let e1 = storage.create_edge(&mut txn, "knows", &a.id, &b.id, props(vec![])).unwrap();
    let e2 = storage.create_edge(&mut txn, "likes", &a.id, &b.id, props(vec![])).unwrap();
    let e3 = storage.create_edge(&mut txn, "knows", &a.id, &a.id, props(vec![])).unwrap();
    storage.commit(txn).unwrap();
    let txn = storage.read_txn();
    let sorted = |mut v: Vec<String>| {
        v.sort();
        v
    };
    let all: Vec<String> = storage.get_out_edges(&txn, &a.id, "").unwrap().into_iter().map(|e| e.id).collect();
    assert_eq!(all, sorted(vec![e1.id.clone(), e2.id.clone(), e3.id.clone()]));
    let knows: Vec<String> = storage.get_out_edges(&txn, &a.id, "knows").unwrap().into_iter().map(|e| e.id).collect();
    assert_eq!(knows, sorted(vec![e1.id.clone(), e3.id.clone()]));
    let into_b: Vec<String> = storage.get_in_edges(&txn, &b.id, "").unwrap().into_iter().map(|e| e.id).collect();
    assert_eq!(into_b, sorted(vec![e1.id.clone(), e2.id.clone()]));
    let sources: Vec<String> = storage.get_in_nodes(&txn, &b.id, "likes").unwrap().into_iter().map(|n| n.id).collect();
    assert_eq!(sources, vec![a.id.clone()]);
    let sinks = storage.get_out_nodes(&txn, &a.id, "knows").unwrap();
    assert_eq!(sinks.len(), 2);
}

#[test]
fn generated_ids_are_uuid_text() {
    let node = HelixGraphStorage::new_node("person", props(vec![]));
    assert_eq!(node.id.len(), 36);
    assert!(node.id.chars().all(|c| c.is_ascii_hexdigit() || c == '-'));
    let other = HelixGraphStorage::new_node("person", props(vec![]));
    assert_ne!(node.id, other.id);
    let edge = HelixGraphStorage::new_edge("knows", "a", "b", props(vec![]));
    assert_eq!(edge.from_node, "a");
    assert_eq!(edge.to_node, "b");
    assert_eq!(edge.id.len(), 36);
}

#[test]
fn all_nodes_come_in_key_order() {
    let mut storage = setup_temp_db();
    let mut txn = storage.write_txn();
    let mut ids = Vec::new();
    for _ in 0..8 {
        ids.push(storage.create_node(&mut txn, "person", props(vec![])).unwrap().id);
    }
    storage.commit(txn).unwrap();
    ids.sort();
    let txn = storage.read_txn();
    let got: Vec<String> = storage.get_all_nodes(&txn).unwrap().into_iter().map(|n| n.id).collect();
    assert_eq!(got, ids);
}

#[test]
fn update_of_missing_records_fails() {
    let storage = setup_temp_db();
    let mut txn = storage.write_txn();
    assert!(matches!(storage.update_node_props(&mut txn, "nope", props(vec![])), Err(GraphError::NodeNotFound)));
    assert!(matches!(storage.update_edge_props(&mut txn, "nope", props(vec![])), Err(GraphError::EdgeNotFound)));
}

#[test]
fn tables_rebuilt_from_records_answer_queries() {
    let mut storage = setup_temp_db();
    let mut txn = storage.write_txn();
    let a = storage.create_node(&mut txn, "person", props(vec![])).unwrap();
    let b = storage.create_node(&mut txn, "person", props(vec![])).unwrap();
    let e = storage.create_edge(&mut txn, "knows", &a.id, &b.id, props(vec![])).unwrap();
    storage.commit(txn).unwrap();
    let t = &storage.committed;
    let nodes: Vec<Node> = t.nodes.iter().map(|n| n.duplicate()).collect();
    let edges = t.edges.iter().map(|e| e.duplicate()).collect();
    let rebuilt = Tables::from_records(nodes, edges);
    assert_eq!(rebuilt.node_labels, storage.committed.node_labels);
    assert_eq!(rebuilt.out_edges, storage.committed.out_edges);
    let copy = HelixGraphStorage::with_tables("elsewhere", rebuilt);
    let read = copy.read_txn();
    let out = copy.get_out_edges(&read, &a.id, "knows").unwrap();
    assert_eq!(out.len(), 1);
    assert_eq!(out[0].id, e.id);
}

#[test]
fn insert_with_chosen_ids() {
    let mut storage = setup_temp_db();
    let mut txn = storage.write_txn();
    let b = storage.insert_node(&mut txn, "b".to_string(), "person", props(vec![])).unwrap();
    let a = storage.insert_node(&mut txn, "a".to_string(), "person", props(vec![])).unwrap();
    assert_eq!(a.id, "a");
    assert!(matches!(
        storage.insert_node(&mut txn, "a".to_string(), "thing", props(vec![])),
        Err(GraphError::DuplicateId)
    ));
    let e = storage.insert_edge(&mut txn, "e1".to_string(), "knows", "a", "b", props(vec![])).unwrap();
    assert_eq!((e.from_node.as_str(), e.to_node.as_str()), ("a", "b"));
    assert!(matches!(
        storage.insert_edge(&mut txn, "e1".to_string(), "knows", "b", "a", props(vec![])),
        Err(GraphError::DuplicateId)
    ));
    assert!(matches!(
        storage.insert_edge(&mut txn, "e2".to_string(), "knows", "a", "zz", props(vec![])),
        Err(GraphError::NodeNotFound)
    ));
    storage.commit(txn).unwrap();
    let read = storage.read_txn();
    let ids: Vec<String> = storage.get_all_nodes(&read).unwrap().into_iter().map(|n| n.id).collect();
    assert_eq!(ids, vec!["a".to_string(), "b".to_string()]);
    assert_eq!(read.tables.out_edges, vec![b"o:a:e1".to_vec()]);
    assert_eq!(read.tables.in_edges, vec![b"i:b:e1".to_vec()]);
    assert_eq!(read.tables.edge_labels, vec![b"el:knows:e1".to_vec()]);
    assert_eq!(read.tables.node_labels, vec![b"nl:person:b".to_vec(), b"nl:person:a".to_vec()]);
    let path = storage.shortest_path(&read, &a.id, &b.id).unwrap();
    assert_eq!(path.1.len(), 1);
}

#[test]
fn second_writer_fails_fast() {
    let mut storage = setup_temp_db();
    let mut first = storage.write_txn();
    let mut second = storage.write_txn();
    storage.create_node(&mut first, "person", props(vec![])).unwrap();
    storage.create_node(&mut second, "thing", props(vec![])).unwrap();
    storage.commit(first).unwrap();
    assert!(matches!(storage.commit(second), Err(GraphError::TransactionBusy)));
    let read = storage.read_txn();
    let nodes = storage.get_all_nodes(&read).unwrap();
    assert_eq!(nodes.len(), 1);
    assert_eq!(nodes[0].label, "person");
}

#[test]
fn shortest_path_to_itself_is_the_node_alone() {
    let mut storage = setup_temp_db();
    let mut txn = storage.write_txn();
    let a = storage.create_node(&mut txn, "person", props(vec![])).unwrap();
    storage.commit(txn).unwrap();
    let read = storage.read_txn();
    let (nodes, edges) = storage.shortest_path(&read, &a.id, &a.id).unwrap();
    assert_eq!(nodes.len(), 1);
    assert_eq!(nodes[0].id, a.id);
    assert!(edges.is_empty());
    assert!(matches!(storage.shortest_path(&read, "x", "x"), Err(GraphError::NodeNotFound)));
}

#[test]
fn dangling_label_entry_is_node_not_found() {
    let mut storage = setup_temp_db();
    let mut txn = storage.write_txn();
    storage.create_node(&mut txn, "person", props(vec![])).unwrap();
    storage.commit(txn).unwrap();
    let mut read = storage.read_txn();
    assert_eq!(storage.get_nodes_by_types(&read, &vec!["person".to_string()]).unwrap().len(), 1);
    read.tables.node_labels.push(b"nl:person:ghost".to_vec());
    assert!(matches!(
        storage.get_nodes_by_types(&read, &vec!["person".to_string()]),
        Err(GraphError::NodeNotFound)
    ));
    assert!(storage.get_nodes_by_types(&read, &vec!["thing".to_string()]).unwrap().is_empty());
}

#[test]
fn well_formedness_check_spots_corruption() {
    let mut storage = setup_temp_db();
    let mut txn = storage.write_txn();
    let a = storage.create_node(&mut txn, "person", props(vec![])).unwrap();
    let b = storage.create_node(&mut txn, "person", props(vec![])).unwrap();
    storage.create_edge(&mut txn, "knows", &a.id, &b.id, props(vec![])).unwrap();
    storage.commit(txn).unwrap();
    assert!(storage.committed.check_well_formed());
    assert!(Tables::empty().check_well_formed());
    let mut dangling = storage.read_txn().tables;
    dangling.nodes.remove(0);
    dangling.node_labels.remove(0);
    assert!(!dangling.check_well_formed());
    let mut repeated = storage.read_txn().tables;
    repeated.nodes[1].id = repeated.nodes[0].id.clone();
    assert!(!repeated.check_well_formed());
    let mut stray = storage.read_txn().tables;
    stray.out_edges.push(b"o:x:y".to_vec());
    assert!(!stray.check_well_formed());
    let colon = Tables::from_records(
        vec![Node { id: "a:b".to_string(), label: "person".to_string(), properties: vec![] }],
        vec![],
    );
    assert!(!colon.check_well_formed());
}
