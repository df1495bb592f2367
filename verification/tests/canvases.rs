use wasm_canvas::canvases::{remap_conflicting_ids, CanvasNodes};

fn canvas(name: &str, ids: &[u64], next: u64) -> CanvasNodes {
    CanvasNodes { name: name.to_string(), ids: ids.to_vec(), next_node_id: next }
}

fn list(names: &[&str]) -> Vec<String> {
    names.iter().map(|n| n.to_string()).collect()
}

#[test]
fn later_canvases_get_fresh_ids_for_taken_ones() {
    let mut cs = vec![canvas("a", &[1, 2, 3], 4), canvas("b", &[2, 5], 6), canvas("c", &[9], 10)];
    remap_conflicting_ids(&list(&["a", "b", "missing"]), &mut cs);
    assert_eq!(cs[0].ids, vec![1, 2, 3]);
    assert_eq!(cs[0].next_node_id, 4);
    assert_eq!(cs[1].ids, vec![10, 5]);
    assert_eq!(cs[1].next_node_id, 11);
    assert_eq!(cs[2].ids, vec![9]);
    assert_eq!(cs[2].next_node_id, 10);
}

#[test]
fn a_canvas_listed_twice_is_walked_twice() {
    let mut cs = vec![canvas("a", &[1, 2, 3], 4), canvas("b", &[2, 5], 6), canvas("c", &[9], 10)];
    remap_conflicting_ids(&list(&["a", "b", "missing", "b"]), &mut cs);
    assert_eq!(cs[1].ids, vec![11, 12]);
    assert_eq!(cs[1].next_node_id, 13);
}

#[test]
fn only_the_first_listed_name_keeps_its_ids_unchecked() {
    let mut cs = vec![canvas("a", &[1], 2), canvas("b", &[1], 2)];
    remap_conflicting_ids(&list(&["missing", "a", "b"]), &mut cs);
    assert_eq!(cs[0].ids, vec![1]);
    assert_eq!(cs[1].ids, vec![2]);
    assert_eq!(cs[1].next_node_id, 3);

    let mut empty = vec![canvas("e", &[], 7)];
    remap_conflicting_ids(&list(&["e"]), &mut empty);
    assert_eq!(empty[0].next_node_id, 1);
}
