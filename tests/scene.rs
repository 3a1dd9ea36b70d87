use dot_vox::scene::{Node, NodeKind, SceneGraph};
use dot_vox::transform::Transform;

const ID: [[i8; 3]; 3] = [[1, 0, 0], [0, 1, 0], [0, 0, 1]];

fn tr(id: u32, child_id: u32, t: [i32; 3], r: [[i8; 3]; 3]) -> Node {
    Node { id, kind: NodeKind::Transform { child_id, transform: Transform { t, r } } }
}

fn group(id: u32, children_ids: Vec<u32>) -> Node {
    Node { id, kind: NodeKind::Group { children_ids } }
}

fn shape(id: u32, model_id: u32) -> Node {
    Node { id, kind: NodeKind::Shape { model_id } }
}

fn graph(nodes: Vec<Node>) -> SceneGraph {
    let mut g = SceneGraph::new();
    for n in nodes {
        g.add_node(n);
    }
    g
}

#[test]
fn example_two_translations() {
    let g = graph(vec![
        tr(0, 1, [1, 0, 0], ID),
        group(1, vec![2]),
        tr(2, 3, [0, 2, 0], ID),
        shape(3, 5),
    ]);
    let out = g.collapse_to_vec();
    assert_eq!(out, vec![(Transform { t: [1, 2, 0], r: ID }, 5)]);
}

#[test]
fn chain_composes_inner_then_outer() {
    let t1 = Transform { t: [10, 0, 0], r: [[0, -1, 0], [1, 0, 0], [0, 0, 1]] };
    let t2 = Transform { t: [1, 2, 3], r: [[0, 0, 1], [0, 1, 0], [-1, 0, 0]] };
    let g = graph(vec![
        tr(0, 1, t1.t, t1.r),
        group(1, vec![2]),
        tr(2, 3, t2.t, t2.r),
        shape(3, 9),
    ]);
    let out = g.collapse_to_vec();
    assert_eq!(out, vec![(t2.apply(t1), 9)]);
    assert_eq!(out[0].0.t, [8, 1, 3]);
}

#[test]
fn missing_child_leaves_siblings() {
    let g = graph(vec![
        tr(0, 1, [0, 0, 0], ID),
        group(1, vec![2, 42, 4]),
        tr(2, 3, [1, 0, 0], ID),
        shape(3, 7),
        tr(4, 5, [0, 1, 0], ID),
        shape(5, 8),
    ]);
    let out = g.collapse_to_vec();
    assert_eq!(
        out,
        vec![
            (Transform { t: [1, 0, 0], r: ID }, 7),
            (Transform { t: [0, 1, 0], r: ID }, 8),
        ]
    );
}

#[test]
fn root_not_transform_is_empty() {
    let g = graph(vec![shape(0, 1)]);
    assert!(g.collapse_to_vec().is_empty());
    let g = graph(vec![group(0, vec![1]), tr(1, 2, [0, 0, 0], ID), shape(2, 3)]);
    assert!(g.collapse_to_vec().is_empty());
    let g = graph(vec![tr(1, 2, [0, 0, 0], ID), shape(2, 3)]);
    assert!(g.collapse_to_vec().is_empty());
    assert!(SceneGraph::new().collapse_to_vec().is_empty());
}

#[test]
fn root_directly_over_shape() {
    let g = graph(vec![tr(0, 1, [4, 5, 6], ID), shape(1, 2)]);
    assert_eq!(g.collapse_to_vec(), vec![(Transform { t: [4, 5, 6], r: ID }, 2)]);
}

#[test]
fn malformed_nesting_is_skipped() {
    let g = graph(vec![
        tr(0, 1, [0, 0, 0], ID),
        group(1, vec![2, 3, 4, 6]),
        shape(2, 1),
        group(3, vec![]),
        tr(4, 5, [1, 1, 1], ID),
        tr(5, 3, [0, 0, 0], ID),
        tr(6, 7, [2, 2, 2], ID),
        shape(7, 3),
    ]);
    assert_eq!(g.collapse_to_vec(), vec![(Transform { t: [2, 2, 2], r: ID }, 3)]);
}

#[test]
fn children_order_is_kept() {
    let g = graph(vec![
        tr(0, 1, [0, 0, 0], ID),
        group(1, vec![6, 2, 4]),
        tr(2, 3, [0, 0, 2], ID),
        shape(3, 20),
        tr(4, 5, [0, 0, 4], ID),
        shape(5, 40),
        tr(6, 7, [0, 0, 6], ID),
        group(7, vec![8]),
        tr(8, 9, [1, 0, 0], ID),
        shape(9, 60),
    ]);
    let out = g.collapse_to_vec();
    let models: Vec<usize> = out.iter().map(|e| e.1).collect();
    assert_eq!(models, vec![60, 20, 40]);
    assert_eq!(out[0].0.t, [1, 0, 6]);
}

#[test]
fn later_node_replaces_earlier() {
    let g = graph(vec![
        tr(0, 1, [0, 0, 0], ID),
        shape(1, 2),
        shape(1, 3),
    ]);
    assert_eq!(g.collapse_to_vec(), vec![(Transform { t: [0, 0, 0], r: ID }, 3)]);
}

#[test]
fn cycle_ends() {
    let g = graph(vec![
        tr(0, 1, [0, 0, 0], ID),
        group(1, vec![2]),
        tr(2, 1, [1, 0, 0], ID),
    ]);
    assert!(g.collapse_to_vec().is_empty());
}

#[test]
fn checked_collapse_matches_and_refuses_overflow() {
    let nodes = || {
        vec![
            tr(0, 1, [1, 0, 0], ID),
            group(1, vec![2]),
            tr(2, 3, [0, 2, 0], ID),
            shape(3, 5),
        ]
    };
    assert_eq!(graph(nodes()).collapse_to_vec_checked(), Some(graph(nodes()).collapse_to_vec()));
    let g = graph(vec![
        tr(0, 1, [i32::MAX, 0, 0], ID),
        group(1, vec![2]),
        tr(2, 3, [1, 0, 0], ID),
        shape(3, 5),
    ]);
    assert_eq!(g.collapse_to_vec_checked(), None);
    assert_eq!(graph(vec![shape(0, 1)]).collapse_to_vec_checked(), Some(vec![]));
}
