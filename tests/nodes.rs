use dot_vox::nodes::{parse_dict, parse_group_node, parse_shape_node, parse_transform_node};
use dot_vox::scene::{Node, NodeKind};
use dot_vox::transform::Transform;

fn put_u32(out: &mut Vec<u8>, x: u32) {
    out.extend_from_slice(&x.to_le_bytes());
}

fn put_dict(out: &mut Vec<u8>, pairs: &[(&str, &str)]) {
    put_u32(out, pairs.len() as u32);
    for (k, v) in pairs {
        put_u32(out, k.len() as u32);
        out.extend_from_slice(k.as_bytes());
        put_u32(out, v.len() as u32);
        out.extend_from_slice(v.as_bytes());
    }
}

#[test]
fn group_node() {
    let mut b = Vec::new();
    put_u32(&mut b, 7);
    put_dict(&mut b, &[("_name", "g")]);
    put_u32(&mut b, 3);
    put_u32(&mut b, 9);
    put_u32(&mut b, 2);
    put_u32(&mut b, 11);
    b.push(0xee);
    let (node, used) = parse_group_node(&b).unwrap();
    assert_eq!(node, Node { id: 7, kind: NodeKind::Group { children_ids: vec![9, 2, 11] } });
    assert_eq!(used, b.len() - 1);
}

#[test]
fn group_node_too_few_children() {
    let mut b = Vec::new();
    put_u32(&mut b, 7);
    put_dict(&mut b, &[]);
    put_u32(&mut b, 3);
    put_u32(&mut b, 9);
    put_u32(&mut b, 2);
    assert_eq!(parse_group_node(&b), None);
}

#[test]
fn transform_node() {
    let mut b = Vec::new();
    put_u32(&mut b, 2);
    put_dict(&mut b, &[("_name", "t"), ("_hidden", "0")]);
    put_u32(&mut b, 3);
    put_u32(&mut b, u32::MAX);
    put_u32(&mut b, 0);
    put_u32(&mut b, 1);
    put_dict(&mut b, &[("_t", "0 2 -5"), ("_r", "81")]);
    let (node, used) = parse_transform_node(&b).unwrap();
    let t = Transform { t: [0, 2, -5], r: [[0, -1, 0], [1, 0, 0], [0, 0, -1]] };
    assert_eq!(node, Node { id: 2, kind: NodeKind::Transform { child_id: 3, transform: t } });
    assert_eq!(used, b.len());
    assert_eq!(parse_transform_node(&b[..b.len() - 1]), None);
}

#[test]
fn transform_node_bad_frame_values_fall_back() {
    let mut b = Vec::new();
    put_u32(&mut b, 2);
    put_dict(&mut b, &[]);
    put_u32(&mut b, 3);
    put_u32(&mut b, u32::MAX);
    put_u32(&mut b, 0);
    put_u32(&mut b, 1);
    put_dict(&mut b, &[("_t", "a b c"), ("_r", "15")]);
    let (node, _) = parse_transform_node(&b).unwrap();
    assert_eq!(
        node.kind,
        NodeKind::Transform { child_id: 3, transform: Transform::default() }
    );
}

#[test]
fn shape_node() {
    let mut b = Vec::new();
    put_u32(&mut b, 3);
    put_dict(&mut b, &[]);
    put_u32(&mut b, 1);
    put_u32(&mut b, 5);
    put_dict(&mut b, &[("k", "v")]);
    let (node, used) = parse_shape_node(&b).unwrap();
    assert_eq!(node, Node { id: 3, kind: NodeKind::Shape { model_id: 5 } });
    assert_eq!(used, b.len());
    assert_eq!(parse_shape_node(&b[..b.len() - 2]), None);
    assert_eq!(parse_shape_node(&b[..3]), None);
}

#[test]
fn dict_bytes() {
    let mut b = vec![0xaa];
    put_dict(&mut b, &[("_t", "1 2 3"), ("a", "")]);
    let (d, end) = parse_dict(&b, 1).unwrap();
    assert_eq!(end, b.len());
    assert_eq!(d.entries.len(), 2);
    assert_eq!(d.get(b"_t"), Some(&b"1 2 3".to_vec()));
    assert_eq!(d.get(b"a"), Some(&Vec::new()));
    assert!(parse_dict(&b[..b.len() - 1], 1).is_none());
    let mut huge = Vec::new();
    put_u32(&mut huge, 1);
    put_u32(&mut huge, u32::MAX);
    assert!(parse_dict(&huge, 0).is_none());
}
