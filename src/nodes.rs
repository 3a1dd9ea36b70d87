//! The three node records, read from the bytes of their chunks. All numbers
//! are little-endian; a record that runs past the end of its bytes is refused.
//!
//! Group: id, attributes, child count n, then n child ids.
//! Transform: id, attributes, child id, reserved, layer id, frame count, then
//! the attributes of the first frame.
//! Shape: id, attributes, model count, then the first model's id and attributes.
use vstd::prelude::*;
use crate::dict::{Dict, entry_view};
use crate::frame::{frame_rotation, frame_translation};
use crate::scene::{KindView, Node, NodeKind};
use crate::transform::{Affine, Transform};

verus! {

/// The little-endian `u32` at `p`, and where it ends.
pub open spec fn u32_at(s: Seq<u8>, p: int) -> Option<(u32, int)> {
    if 0 <= p && p + 4 <= s.len() {
        Some(
            (
                (s[p] as int + 256 * s[p + 1] + 65536 * s[p + 2] + 16777216 * s[p + 3]) as u32,
                p + 4,
            ),
        )
    } else {
        None
    }
}

/// A length-prefixed run of bytes at `p`, and where it ends.
pub open spec fn bytes_at(s: Seq<u8>, p: int) -> Option<(Seq<u8>, int)> {
    match u32_at(s, p) {
        Some((n, q)) => if q + n <= s.len() {
            Some((s.subrange(q, q + n), q + n))
        } else {
            None
        },
        None => None,
    }
}

/// `n` key-value pairs from `p` on, and where they end.
pub open spec fn pairs_at(s: Seq<u8>, p: int, n: nat) -> Option<(Seq<(Seq<u8>, Seq<u8>)>, int)>
    decreases n,
{
    if n == 0 {
        Some((seq![], p))
    } else {
        match pairs_at(s, p, (n - 1) as nat) {
            Some((es, q)) => match bytes_at(s, q) {
                Some((k, q1)) => match bytes_at(s, q1) {
                    Some((v, q2)) => Some((es.push((k, v)), q2)),
                    None => None,
                },
                None => None,
            },
            None => None,
        }
    }
}

/// An attribute dictionary at `p`: a pair count, then the pairs.
pub open spec fn dict_at(s: Seq<u8>, p: int) -> Option<(Seq<(Seq<u8>, Seq<u8>)>, int)> {
    match u32_at(s, p) {
        Some((n, q)) => pairs_at(s, q, n as nat),
        None => None,
    }
}

/// `n` little-endian `u32`s from `p` on, and where they end.
pub open spec fn u32s_at(s: Seq<u8>, p: int, n: nat) -> Option<(Seq<u32>, int)>
    decreases n,
{
    if n == 0 {
        Some((seq![], p))
    } else {
        match u32s_at(s, p, (n - 1) as nat) {
            Some((xs, q)) => match u32_at(s, q) {
                Some((x, q1)) => Some((xs.push(x), q1)),
                None => None,
            },
            None => None,
        }
    }
}

/// A group record: its id, its kind, and where it ends.
pub open spec fn group_node_at(s: Seq<u8>) -> Option<(u32, KindView, int)> {
    match u32_at(s, 0) {
        Some((id, p1)) => match dict_at(s, p1) {
            Some((_a, p2)) => match u32_at(s, p2) {
                Some((n, p3)) => match u32s_at(s, p3, n as nat) {
                    Some((children, p4)) => Some(
                        (id, KindView::Group { children_ids: children }, p4),
                    ),
                    None => None,
                },
                None => None,
            },
            None => None,
        },
        None => None,
    }
}

/// A transform record: its id, its kind, and where it ends.
pub open spec fn transform_node_at(s: Seq<u8>) -> Option<(u32, KindView, int)> {
    match u32_at(s, 0) {
        Some((id, p1)) => match dict_at(s, p1) {
            Some((_a, p2)) => match u32_at(s, p2) {
                Some((child, p3)) => if p3 + 12 <= s.len() {
                    match dict_at(s, p3 + 12) {
                        Some((frame, p4)) => Some(
                            (
                                id,
                                KindView::Transform {
                                    child_id: child,
                                    transform: Affine {
                                        t: frame_translation(frame),
                                        r: frame_rotation(frame),
                                    },
                                },
                                p4,
                            ),
                        ),
                        None => None,
                    }
                } else {
                    None
                },
                None => None,
            },
            None => None,
        },
        None => None,
    }
}

/// A shape record: its id, its kind, and where it ends.
pub open spec fn shape_node_at(s: Seq<u8>) -> Option<(u32, KindView, int)> {
    match u32_at(s, 0) {
        Some((id, p1)) => match dict_at(s, p1) {
            Some((_a, p2)) => if p2 + 4 <= s.len() {
                match u32_at(s, p2 + 4) {
                    Some((model, p3)) => match dict_at(s, p3) {
                        Some((_m, p4)) => Some((id, KindView::Shape { model_id: model }, p4)),
                        None => None,
                    },
                    None => None,
                }
            } else {
                None
            },
            None => None,
        },
        None => None,
    }
}

fn read_u32(s: &[u8], p: usize) -> (r: Option<(u32, usize)>)
    ensures
        match r {
            Some((x, q)) => u32_at(s@, p as int) == Some((x, q as int)),
            None => u32_at(s@, p as int) is None,
        },
{
    if p > s.len() || s.len() - p < 4 {
        return None;
    }
    let x = s[p] as u32 + 256 * (s[p + 1] as u32) + 65536 * (s[p + 2] as u32) + 16777216 * (s[p
        + 3] as u32);
    Some((x, p + 4))
}

fn read_bytes(s: &[u8], p: usize) -> (r: Option<(Vec<u8>, usize)>)
    ensures
        match r {
            Some((b, q)) => bytes_at(s@, p as int) == Some((b@, q as int)),
            None => bytes_at(s@, p as int) is None,
        },
{
    let (n, q) = match read_u32(s, p) {
        Some(x) => x,
        None => return None,
    };
    if s.len() - q < n as usize {
        return None;
    }
    let mut b: Vec<u8> = Vec::new();
    let mut i: usize = q;
    let end: usize = q + n as usize;
    while i < end
        invariant
            q <= i <= end <= s@.len(),
            b@ == s@.subrange(q as int, i as int),
        decreases end - i,
    {
        b.push(s[i]);
        i = i + 1;
        assert(b@ =~= s@.subrange(q as int, i as int));
    }
    Some((b, end))
}

proof fn lemma_pairs_fail(s: Seq<u8>, p: int, i: nat, n: nat)
    requires
        i <= n,
        pairs_at(s, p, i) is None,
    ensures
        pairs_at(s, p, n) is None,
    decreases n - i,
{
    if i < n {
        lemma_pairs_fail(s, p, i + 1, n);
    }
}

proof fn lemma_u32s_fail(s: Seq<u8>, p: int, i: nat, n: nat)
    requires
        i <= n,
        u32s_at(s, p, i) is None,
    ensures
        u32s_at(s, p, n) is None,
    decreases n - i,
{
    if i < n {
        lemma_u32s_fail(s, p, i + 1, n);
    }
}

/// Reads an attribute dictionary that starts at `p`: a pair count, then for
/// each pair a length-prefixed key and a length-prefixed value. Gives the
/// dictionary and where it ends.
pub fn parse_dict(s: &[u8], p: usize) -> (r: Option<(Dict, usize)>)
    ensures
        match r {
            Some((d, q)) => dict_at(s@, p as int) == Some((d@, q as int)),
            None => dict_at(s@, p as int) is None,
        },
{
    let (n, mut q) = match read_u32(s, p) {
        Some(x) => x,
        None => return None,
    };
    let ghost p0 = q as int;
    let mut entries: Vec<(Vec<u8>, Vec<u8>)> = Vec::new();
    let mut i: u32 = 0;
    while i < n
        invariant
            i <= n,
            u32_at(s@, p as int) == Some((n, p0)),
            pairs_at(s@, p0, i as nat) == Some(
                (entries@.map_values(|e: (Vec<u8>, Vec<u8>)| entry_view(e)), q as int),
            ),
        decreases n - i,
    {
        let (k, q1) = match read_bytes(s, q) {
            Some(x) => x,
            None => {
                proof {
                    lemma_pairs_fail(s@, p0, (i + 1) as nat, n as nat);
                }
                return None;
            },
        };
        let (v, q2) = match read_bytes(s, q1) {
            Some(x) => x,
            None => {
                proof {
                    lemma_pairs_fail(s@, p0, (i + 1) as nat, n as nat);
                }
                return None;
            },
        };
        let ghost before = entries@.map_values(|e: (Vec<u8>, Vec<u8>)| entry_view(e));
        entries.push((k, v));
        assert(entries@.map_values(|e: (Vec<u8>, Vec<u8>)| entry_view(e)) =~= before.push(
            (k@, v@),
        ));
        q = q2;
        i = i + 1;
    }
    Some((Dict { entries }, q))
}

fn read_u32s(s: &[u8], p: usize, n: u32) -> (r: Option<(Vec<u32>, usize)>)
    ensures
        match r {
            Some((xs, q)) => u32s_at(s@, p as int, n as nat) == Some((xs@, q as int)),
            None => u32s_at(s@, p as int, n as nat) is None,
        },
{
    let mut xs: Vec<u32> = Vec::new();
    let mut q: usize = p;
    let mut i: u32 = 0;
    while i < n
        invariant
            i <= n,
            u32s_at(s@, p as int, i as nat) == Some((xs@, q as int)),
        decreases n - i,
    {
        let (x, q1) = match read_u32(s, q) {
            Some(x) => x,
            None => {
                proof {
                    lemma_u32s_fail(s@, p as int, (i + 1) as nat, n as nat);
                }
                return None;
            },
        };
        xs.push(x);
        q = q1;
        i = i + 1;
    }
    Some((xs, q))
}

/// Reads a group record; gives the node and the number of bytes it took.
pub fn parse_group_node(s: &[u8]) -> (r: Option<(Node, usize)>)
    ensures
        match r {
            Some((node, used)) => group_node_at(s@) == Some((node.id, node.kind@, used as int)),
            None => group_node_at(s@) is None,
        },
{
    let (id, p1) = match read_u32(s, 0) {
        Some(x) => x,
        None => return None,
    };
    let (_attributes, p2) = match parse_dict(s, p1) {
        Some(x) => x,
        None => return None,
    };
    let (n, p3) = match read_u32(s, p2) {
        Some(x) => x,
        None => return None,
    };
    let (children_ids, p4) = match read_u32s(s, p3, n) {
        Some(x) => x,
        None => return None,
    };
    Some((Node { id, kind: NodeKind::Group { children_ids } }, p4))
}

/// Reads a transform record; gives the node and the number of bytes it took.
/// The reserved field, the layer id and the frame count are read past
/// unchecked; the transform is that of the first frame.
pub fn parse_transform_node(s: &[u8]) -> (r: Option<(Node, usize)>)
    ensures
        match r {
            Some((node, used)) => transform_node_at(s@) == Some(
                (node.id, node.kind@, used as int),
            ),
            None => transform_node_at(s@) is None,
        },
{
    let (id, p1) = match read_u32(s, 0) {
        Some(x) => x,
        None => return None,
    };
    let (_attributes, p2) = match parse_dict(s, p1) {
        Some(x) => x,
        None => return None,
    };
    let (child_id, p3) = match read_u32(s, p2) {
        Some(x) => x,
        None => return None,
    };
    if s.len() - p3 < 12 {
        return None;
    }
    let (frame, p4) = match parse_dict(s, p3 + 12) {
        Some(x) => x,
        None => return None,
    };
    let transform = Transform::from_dict(frame);
    Some((Node { id, kind: NodeKind::Transform { child_id, transform } }, p4))
}

/// Reads a shape record; gives the node and the number of bytes it took. The
/// model count is read past unchecked; the model is the first one.
pub fn parse_shape_node(s: &[u8]) -> (r: Option<(Node, usize)>)
    ensures
        match r {
            Some((node, used)) => shape_node_at(s@) == Some((node.id, node.kind@, used as int)),
            None => shape_node_at(s@) is None,
        },
{
    let (id, p1) = match read_u32(s, 0) {
        Some(x) => x,
        None => return None,
    };
    let (_attributes, p2) = match parse_dict(s, p1) {
        Some(x) => x,
        None => return None,
    };
    if s.len() - p2 < 4 {
        return None;
    }
    let (model_id, p3) = match parse_model_entry(s, p2 + 4) {
        Some(x) => x,
        None => return None,
    };
    Some((Node { id, kind: NodeKind::Shape { model_id } }, p3))
}

/// One model entry of a shape record: the model id, then its attributes,
/// which are read past.
fn parse_model_entry(s: &[u8], p: usize) -> (r: Option<(u32, usize)>)
    ensures
        match r {
            Some((m, q)) => match u32_at(s@, p as int) {
                Some((m2, p1)) => m2 == m && (dict_at(s@, p1) matches Some((_d, e)) && e == q),
                None => false,
            },
            None => match u32_at(s@, p as int) {
                Some((_m, p1)) => dict_at(s@, p1) is None,
                None => true,
            },
        },
{
    let (id, p1) = match read_u32(s, p) {
        Some(x) => x,
        None => return None,
    };
    let (_attributes, p2) = match parse_dict(s, p1) {
        Some(x) => x,
        None => return None,
    };
    Some((id, p2))
}

} // verus!
