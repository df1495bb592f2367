use wasm_canvas::delivery::{plan_delivery, plan_publication, NodeSummary};

fn node(id: u64, label: &str, phantom: bool, imports: &[&str]) -> NodeSummary {
    NodeSummary {
        id,
        label: label.to_string(),
        phantom,
        imports: imports.iter().map(|s| s.to_string()).collect(),
    }
}

fn keys(k: &[&str]) -> Vec<String> {
    k.iter().map(|s| s.to_string()).collect()
}

#[test]
fn a_local_module_takes_no_remote_values() {
    let nodes = vec![node(1, "my mod", false, &[])];
    let plan = plan_delivery(&nodes, 2, "peer1", "my-mod", &keys(&["x"]), true, Some("Ann"), None, &vec![]);
    assert!(plan.node.is_none());
    assert_eq!(plan.peer_name.as_deref(), Some("Ann"));
}

#[test]
fn new_phantom_node_for_a_remote_module() {
    let nodes = vec![node(1, "user", false, &["sensor"]), node(2, "other", false, &["x"]), node(3, "late", false, &["sensor"])];
    let plan = plan_delivery(
        &nodes,
        7,
        "peer1",
        "sensor",
        &keys(&["value", "__source__", "count", "__peer_name__"]),
        true,
        Some(""),
        Some("Bob"),
        &vec![3],
    );
    assert_eq!(plan.peer_name, None);
    let p = plan.node.unwrap();
    assert_eq!(p.id, 7);
    assert!(p.create);
    assert_eq!(p.next_node_id, 8);
    assert_eq!(p.outputs, keys(&["count", "value"]));
    assert_eq!(p.template, Some(("peer1/sensor".to_string(), "Bob".to_string())));
    assert_eq!(p.recompute, vec![1]);
}

#[test]
fn existing_phantom_node_is_updated() {
    let nodes = vec![node(4, "sensor", true, &[]), node(5, "reader", false, &["sensor"])];
    let plan = plan_delivery(&nodes, 9, "peer2", "sensor", &keys(&["b", "a"]), false, None, None, &vec![]);
    let p = plan.node.unwrap();
    assert_eq!(p.id, 4);
    assert!(!p.create);
    assert_eq!(p.next_node_id, 9);
    assert_eq!(p.outputs, keys(&["a", "b"]));
    assert_eq!(p.template, None);
    assert_eq!(p.recompute, vec![5]);

    let plan = plan_delivery(&nodes, 9, "peer2", "sensor", &keys(&[]), true, None, None, &vec![]);
    assert_eq!(plan.node.unwrap().template, Some(("peer2/sensor".to_string(), "peer2".to_string())));
}

#[test]
fn publication_of_a_computed_node() {
    let canvases = keys(&["main", "lab", "notes"]);
    let p = plan_publication("main", "my sensor", false, true, true, "(define x 1)", "ann", &canvases).unwrap();
    assert_eq!(p.channel, "main/my-sensor");
    assert_eq!(p.module, "my-sensor");
    assert!(p.with_source);
    assert!(p.with_peer_name);
    assert_eq!(p.loopback, keys(&["lab", "notes"]));

    let p = plan_publication("lab", "s", false, true, false, "(define x 1)", "", &canvases).unwrap();
    assert!(!p.with_source);
    assert!(!p.with_peer_name);
    assert_eq!(p.loopback, keys(&["main", "notes"]));

    assert!(plan_publication("main", "s", true, true, true, "", "", &canvases).is_none());
    assert!(plan_publication("main", "s", false, false, true, "", "", &canvases).is_none());
    assert!(plan_publication("main", "", false, true, true, "", "", &canvases).is_none());
}
