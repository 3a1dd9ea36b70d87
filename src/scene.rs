//! The scene graph: nodes by id, and its collapse into positioned models.
use vstd::prelude::*;
use std::collections::HashMap;
use crate::transform::{
    Affine, Transform, compose, fits, identity, lemma_identity_is_unit, lemma_view_shaped,
};

verus! {

broadcast use vstd::std_specs::hash::group_hash_axioms;

/// A node record of the scene graph.
#[derive(Debug, PartialEq)]
pub struct Node {
    pub id: u32,
    pub kind: NodeKind,
}

/// What a node is: a group of transform nodes, a transform over one child,
/// or a shape that places a model.
#[derive(Debug, PartialEq)]
pub enum NodeKind {
    Group { children_ids: Vec<u32> },
    Transform { child_id: u32, transform: Transform },
    Shape { model_id: u32 },
}

/// What a node is, over the models of its parts.
pub enum KindView {
    Group { children_ids: Seq<u32> },
    Transform { child_id: u32, transform: Affine },
    Shape { model_id: u32 },
}

impl View for NodeKind {
    type V = KindView;

    open spec fn view(&self) -> KindView {
        match self {
            NodeKind::Group { children_ids } => KindView::Group { children_ids: children_ids@ },
            NodeKind::Transform { child_id, transform } => KindView::Transform {
                child_id: *child_id,
                transform: transform@,
            },
            NodeKind::Shape { model_id } => KindView::Shape { model_id: *model_id },
        }
    }
}

/// The nodes of a scene, by id.
pub struct SceneGraph(HashMap<u32, NodeKind>);

impl View for SceneGraph {
    type V = Map<u32, NodeKind>;

    closed spec fn view(&self) -> Map<u32, NodeKind> {
        self.0@
    }
}

/// The transforms met on the way from the root to each shape below `id`, with
/// the shape's model. `path` holds the transforms met so far, innermost first;
/// `depth` bounds how many nodes deep the walk goes.
pub open spec fn branch_paths(g: Map<u32, NodeKind>, id: u32, path: Seq<Transform>, depth: nat) -> Seq<
    (Seq<Transform>, u32),
>
    decreases depth, 0nat,
{
    if depth == 0 || !g.contains_key(id) {
        seq![]
    } else {
        match g[id] {
            NodeKind::Group { children_ids } => children_paths(
                g,
                children_ids@,
                path,
                (depth - 1) as nat,
            ),
            NodeKind::Shape { model_id } => seq![(path, model_id)],
            NodeKind::Transform { .. } => seq![],
        }
    }
}

/// The paths below the children of a group, child by child in their order. A
/// child that is missing or is no transform node adds nothing.
pub open spec fn children_paths(
    g: Map<u32, NodeKind>,
    children: Seq<u32>,
    path: Seq<Transform>,
    depth: nat,
) -> Seq<(Seq<Transform>, u32)>
    decreases depth, children.len() + 1,
{
    if children.len() == 0 {
        seq![]
    } else {
        children_paths(g, children.drop_last(), path, depth) + child_paths(
            g,
            children.last(),
            path,
            depth,
        )
    }
}

/// The paths below one child of a group.
pub open spec fn child_paths(g: Map<u32, NodeKind>, c: u32, path: Seq<Transform>, depth: nat) -> Seq<
    (Seq<Transform>, u32),
>
    decreases depth, 1nat,
{
    if g.contains_key(c) && g[c] is Transform {
        branch_paths(g, g[c]->child_id, seq![g[c]->transform] + path, depth)
    } else {
        seq![]
    }
}

/// The transform of a path, innermost first: each transform is applied
/// after the ones before it.
pub open spec fn fold_path(p: Seq<Transform>) -> Affine
    decreases p.len(),
{
    if p.len() == 0 {
        identity()
    } else {
        compose(fold_path(p.drop_last()), p.last()@)
    }
}

/// Folding the path step by step never leaves the range of the fields.
pub open spec fn path_fits(p: Seq<Transform>) -> bool {
    forall|k: int| 1 <= k <= p.len() ==> fits(#[trigger] fold_path(p.take(k)))
}

/// The root node: id 0.
pub open spec fn root_is_transform(g: Map<u32, NodeKind>) -> bool {
    g.contains_key(0) && g[0] is Transform
}

/// The paths from the root to every shape that the walk reaches; a walk goes
/// no deeper than the graph has nodes.
pub open spec fn scene_paths(g: Map<u32, NodeKind>) -> Seq<(Seq<Transform>, u32)> {
    if root_is_transform(g) {
        branch_paths(g, g[0]->child_id, seq![g[0]->transform], g.dom().len())
    } else {
        seq![]
    }
}

/// Each path of the scene folds without leaving the range of the fields.
pub open spec fn scene_fits(g: Map<u32, NodeKind>) -> bool {
    forall|i: int| 0 <= i < scene_paths(g).len() ==> path_fits(#[trigger] scene_paths(g)[i].0)
}

/// The flattened scene: for each path, its composed transform and the model.
pub open spec fn collapsed(g: Map<u32, NodeKind>) -> Seq<(Affine, nat)> {
    scene_paths(g).map(|i: int, e: (Seq<Transform>, u32)| (fold_path(e.0), e.1 as nat))
}

fn prepend(t: Transform, v: &Vec<Transform>) -> (r: Vec<Transform>)
    ensures
        r@ == seq![t] + v@,
{
    let mut r: Vec<Transform> = Vec::new();
    r.push(t);
    let mut k: usize = 0;
    while k < v.len()
        invariant
            k <= v.len(),
            r@ == seq![t] + v@.take(k as int),
        decreases v.len() - k,
    {
        r.push(v[k]);
        k = k + 1;
        assert(r@ =~= seq![t] + v@.take(k as int));
    }
    assert(v@.take(v.len() as int) =~= v@);
    r
}

fn fold_transforms(p: &Vec<Transform>) -> (r: Transform)
    requires
        path_fits(p@),
    ensures
        r@ == fold_path(p@),
{
    let mut acc = Transform::default();
    let mut k: usize = 0;
    assert(p@.take(0) =~= Seq::<Transform>::empty());
    while k < p.len()
        invariant
            k <= p.len(),
            path_fits(p@),
            acc@ == fold_path(p@.take(k as int)),
        decreases p.len() - k,
    {
        assert(p@.take(k + 1).drop_last() =~= p@.take(k as int));
        assert(fits(fold_path(p@.take(k + 1))));
        acc = acc.apply(p[k]);
        k = k + 1;
    }
    assert(p@.take(p.len() as int) =~= p@);
    acc
}

fn fold_transforms_checked(p: &Vec<Transform>) -> (r: Option<Transform>)
    ensures
        r is None <==> !path_fits(p@),
        r matches Some(x) ==> x@ == fold_path(p@),
{
    let mut acc = Transform::default();
    let mut k: usize = 0;
    assert(p@.take(0) =~= Seq::<Transform>::empty());
    while k < p.len()
        invariant
            k <= p.len(),
            acc@ == fold_path(p@.take(k as int)),
            forall|m: int| 1 <= m <= k ==> fits(#[trigger] fold_path(p@.take(m))),
        decreases p.len() - k,
    {
        assert(p@.take(k + 1).drop_last() =~= p@.take(k as int));
        match acc.apply_checked(p[k]) {
            Some(next) => {
                acc = next;
            },
            None => {
                assert(!fits(fold_path(p@.take(k + 1))));
                return None;
            },
        }
        k = k + 1;
    }
    assert(p@.take(p.len() as int) =~= p@);
    Some(acc)
}

impl SceneGraph {
    /// An empty scene graph.
    pub fn new() -> (r: Self)
        ensures
            r@ == Map::<u32, NodeKind>::empty(),
    {
        SceneGraph(HashMap::new())
    }

    /// Adds a node under its id; a node already there under that id is replaced.
    pub fn add_node(&mut self, node: Node)
        ensures
            final(self)@ == old(self)@.insert(node.id, node.kind),
    {
        self.0.insert(node.id, node.kind);
    }

    /// Flattens the scene: one entry for each shape reached from the root
    /// transform node (id 0), in the order of the walk, with the transform of
    /// its whole path from the root and its model. Empty where node 0 is
    /// missing or is no transform node. The walk goes no deeper than the graph
    /// has nodes, which no graph without a cycle reaches.
    pub fn collapse_to_vec(self) -> (r: Vec<(Transform, usize)>)
        requires
            scene_fits(self@),
        ensures
            r@.len() == collapsed(self@).len(),
            forall|i: int|
                0 <= i < r@.len() ==> (#[trigger] r@[i]).0@ == collapsed(self@)[i].0 && r@[i].1
                    == collapsed(self@)[i].1,
    {
        let ghost g = self@;
        let mut out: Vec<(Transform, usize)> = Vec::new();
        match self.0.get(&0) {
            Some(NodeKind::Transform { child_id, transform }) => {
                let mut root: Vec<Transform> = Vec::new();
                root.push(*transform);
                assert(root@ =~= seq![g[0]->transform]);
                let paths = self.collapse_transform(*child_id, root, self.0.len());
                let ghost sp = scene_paths(g);
                let mut k: usize = 0;
                while k < paths.len()
                    invariant
                        g == self@,
                        sp == scene_paths(g),
                        scene_fits(g),
                        paths@.len() == sp.len(),
                        forall|i: int|
                            0 <= i < paths@.len() ==> (#[trigger] paths@[i]).0@ == sp[i].0
                                && paths@[i].1 == sp[i].1,
                        k <= paths.len(),
                        out@.len() == k,
                        forall|i: int|
                            0 <= i < k ==> (#[trigger] out@[i]).0@ == collapsed(g)[i].0
                                && out@[i].1 == collapsed(g)[i].1,
                    decreases paths.len() - k,
                {
                    assert(path_fits(sp[k as int].0));
                    let t = fold_transforms(&paths[k].0);
                    out.push((t, paths[k].1));
                    k = k + 1;
                }
            },
            _ => {},
        }
        out
    }

    /// `collapse_to_vec`, where every step of every fold fits the fields;
    /// `None` where one does not.
    pub fn collapse_to_vec_checked(self) -> (r: Option<Vec<(Transform, usize)>>)
        ensures
            r is None <==> !scene_fits(self@),
            r matches Some(v) ==> v@.len() == collapsed(self@).len() && forall|i: int|
                0 <= i < v@.len() ==> (#[trigger] v@[i]).0@ == collapsed(self@)[i].0 && v@[i].1
                    == collapsed(self@)[i].1,
    {
        let ghost g = self@;
        let mut out: Vec<(Transform, usize)> = Vec::new();
        match self.0.get(&0) {
            Some(NodeKind::Transform { child_id, transform }) => {
                let mut root: Vec<Transform> = Vec::new();
                root.push(*transform);
                assert(root@ =~= seq![g[0]->transform]);
                let paths = self.collapse_transform(*child_id, root, self.0.len());
                let ghost sp = scene_paths(g);
                let mut k: usize = 0;
                while k < paths.len()
                    invariant
                        g == self@,
                        sp == scene_paths(g),
                        paths@.len() == sp.len(),
                        forall|i: int|
                            0 <= i < paths@.len() ==> (#[trigger] paths@[i]).0@ == sp[i].0
                                && paths@[i].1 == sp[i].1,
                        k <= paths.len(),
                        out@.len() == k,
                        forall|i: int| 0 <= i < k ==> path_fits(#[trigger] sp[i].0),
                        forall|i: int|
                            0 <= i < k ==> (#[trigger] out@[i]).0@ == collapsed(g)[i].0
                                && out@[i].1 == collapsed(g)[i].1,
                    decreases paths.len() - k,
                {
                    match fold_transforms_checked(&paths[k].0) {
                        Some(t) => {
                            out.push((t, paths[k].1));
                        },
                        None => {
                            assert(!path_fits(sp[k as int].0));
                            return None;
                        },
                    }
                    k = k + 1;
                }
            },
            _ => {},
        }
        Some(out)
    }

    /// The paths below `child`, innermost transform first, each with the model
    /// of the shape it ends at.
    fn collapse_transform(&self, child: u32, transforms: Vec<Transform>, depth: usize) -> (r: Vec<
        (Vec<Transform>, usize),
    >)
        ensures
            r@.len() == branch_paths(self@, child, transforms@, depth as nat).len(),
            forall|i: int|
                0 <= i < r@.len() ==> (#[trigger] r@[i]).0@ == branch_paths(
                    self@,
                    child,
                    transforms@,
                    depth as nat,
                )[i].0 && r@[i].1 == branch_paths(self@, child, transforms@, depth as nat)[i].1,
        decreases depth,
    {
        let mut collapsed: Vec<(Vec<Transform>, usize)> = Vec::new();
        if depth == 0 {
            return collapsed;
        }
        match self.0.get(&child) {
            Some(NodeKind::Group { children_ids }) => {
                let ghost g = self@;
                let ghost d = (depth - 1) as nat;
                let mut k: usize = 0;
                while k < children_ids.len()
                    invariant
                        g == self@,
                        d == depth - 1,
                        k <= children_ids.len(),
                        collapsed@.len() == children_paths(
                            g,
                            children_ids@.take(k as int),
                            transforms@,
                            d,
                        ).len(),
                        forall|i: int|
                            0 <= i < collapsed@.len() ==> (#[trigger] collapsed@[i]).0@
                                == children_paths(g, children_ids@.take(k as int), transforms@, d)[i].0
                                && collapsed@[i].1 == children_paths(
                                g,
                                children_ids@.take(k as int),
                                transforms@,
                                d,
                            )[i].1,
                    decreases children_ids.len() - k,
                {
                    let id = children_ids[k];
                    let ghost before = children_paths(g, children_ids@.take(k as int), transforms@, d);
                    assert(children_ids@.take(k + 1).drop_last() =~= children_ids@.take(k as int));
                    assert(children_ids@.take(k + 1).last() == id);
                    let ghost step = child_paths(g, id, transforms@, d);
                    assert(children_paths(g, children_ids@.take(k + 1), transforms@, d) == before
                        + step);
                    let ghost old_collapsed = collapsed@;
                    match self.0.get(&id) {
                        Some(NodeKind::Transform { child_id, transform }) => {
                            let new_transforms = prepend(*transform, &transforms);
                            let mut below = self.collapse_transform(
                                *child_id,
                                new_transforms,
                                depth - 1,
                            );
                            assert(step == branch_paths(g, *child_id, new_transforms@, d));
                            collapsed.append(&mut below);
                        },
                        _ => {
                            assert(step == Seq::<(Seq<Transform>, u32)>::empty());
                        },
                    }
                    assert(collapsed@.len() == before.len() + step.len());
                    assert forall|i: int| 0 <= i < collapsed@.len() implies (#[trigger] collapsed@[i]).0@
                        == (before + step)[i].0 && collapsed@[i].1 == (before + step)[i].1 by {
                        if i < before.len() {
                            assert(collapsed@[i] == old_collapsed[i]);
                        }
                    }
                    k = k + 1;
                }
                assert(children_ids@.take(children_ids.len() as int) =~= children_ids@);
            },
            Some(NodeKind::Shape { model_id }) => {
                collapsed.push((transforms, *model_id as usize));
            },
            _ => {},
        }
        collapsed
    }
}

proof fn lemma_children_paths_concat(
    g: Map<u32, NodeKind>,
    a: Seq<u32>,
    b: Seq<u32>,
    path: Seq<Transform>,
    depth: nat,
)
    ensures
        children_paths(g, a + b, path, depth) == children_paths(g, a, path, depth)
            + children_paths(g, b, path, depth),
    decreases b.len(),
{
    if b.len() == 0 {
        assert(a + b =~= a);
        assert(children_paths(g, a, path, depth) + seq![] =~= children_paths(g, a, path, depth));
    } else {
        lemma_children_paths_concat(g, a, b.drop_last(), path, depth);
        assert((a + b).drop_last() =~= a + b.drop_last());
        assert((a + b).last() == b.last());
        assert(children_paths(g, a, path, depth) + children_paths(g, b.drop_last(), path, depth)
            + child_paths(g, b.last(), path, depth) =~= children_paths(g, a, path, depth) + (
        children_paths(g, b.drop_last(), path, depth) + child_paths(g, b.last(), path, depth)));
    }
}

/// A child id of a group that names no node adds no entry, and the entries of
/// the other children stay as they were.
pub proof fn lemma_missing_child_adds_nothing(
    g: Map<u32, NodeKind>,
    children: Seq<u32>,
    i: int,
    missing: u32,
    path: Seq<Transform>,
    depth: nat,
)
    requires
        !g.contains_key(missing),
        0 <= i <= children.len(),
    ensures
        children_paths(g, children.insert(i, missing), path, depth) == children_paths(
            g,
            children,
            path,
            depth,
        ),
{
    let front = children.take(i);
    let back = children.skip(i);
    assert(children.insert(i, missing) =~= front + seq![missing] + back);
    assert(children =~= front + back);
    lemma_children_paths_concat(g, front + seq![missing], back, path, depth);
    lemma_children_paths_concat(g, front, seq![missing], path, depth);
    lemma_children_paths_concat(g, front, back, path, depth);
    assert(seq![missing].drop_last() =~= Seq::<u32>::empty());
    assert(children_paths(g, Seq::<u32>::empty(), path, depth) == Seq::<(Seq<Transform>, u32)>::empty());
    assert(seq![missing].last() == missing);
    assert(child_paths(g, missing, path, depth) == Seq::<(Seq<Transform>, u32)>::empty());
    assert(children_paths(g, seq![missing], path, depth) =~= seq![]);
    assert(children_paths(g, front, path, depth) + seq![] =~= children_paths(g, front, path, depth));
}

/// Where node 0 is missing, or is a group or a shape, the scene is empty.
pub proof fn lemma_root_not_transform(g: Map<u32, NodeKind>)
    requires
        !root_is_transform(g),
    ensures
        scene_paths(g) == Seq::<(Seq<Transform>, u32)>::empty(),
        collapsed(g) == Seq::<(Affine, nat)>::empty(),
{
    assert(collapsed(g) =~= Seq::<(Affine, nat)>::empty());
}

/// A root transform `outer` over a group whose one child is a transform
/// `inner` over a shape gives one entry: the model of the shape, placed by
/// `inner` and then by `outer`.
pub proof fn lemma_two_level_chain(
    g: Map<u32, NodeKind>,
    group: u32,
    inner_node: u32,
    shape: u32,
    outer: Transform,
    inner: Transform,
    model: u32,
)
    requires
        g.dom().finite(),
        g.contains_key(0) && g[0] == (NodeKind::Transform { child_id: group, transform: outer }),
        g.contains_key(group) && g[group] is Group && g[group]->children_ids@ == seq![inner_node],
        g.contains_key(inner_node) && g[inner_node] == (NodeKind::Transform {
            child_id: shape,
            transform: inner,
        }),
        g.contains_key(shape) && g[shape] == (NodeKind::Shape { model_id: model }),
    ensures
        scene_paths(g) == seq![(seq![inner, outer], model)],
        collapsed(g) == seq![(compose(inner@, outer@), model as nat)],
{
    let n = g.dom().len();
    assert(set![0u32, group].subset_of(g.dom()));
    vstd::set_lib::lemma_len_subset(set![0u32, group], g.dom());
    assert(set![0u32, group].len() == 2);
    let d = (n - 1) as nat;
    let kids = seq![inner_node];
    assert(kids.drop_last() =~= Seq::<u32>::empty());
    assert(children_paths(g, Seq::<u32>::empty(), seq![outer], d) == Seq::<(Seq<Transform>, u32)>::empty());
    assert(seq![inner] + seq![outer] =~= seq![inner, outer]);
    assert(branch_paths(g, shape, seq![inner, outer], d) == seq![(seq![inner, outer], model)]);
    assert(child_paths(g, inner_node, seq![outer], d) == seq![(seq![inner, outer], model)]);
    assert(children_paths(g, kids, seq![outer], d) =~= seq![(seq![inner, outer], model)]);
    assert(scene_paths(g) == seq![(seq![inner, outer], model)]);
    let p = seq![inner, outer];
    assert(p.drop_last() =~= seq![inner]);
    assert(seq![inner].drop_last() =~= Seq::<Transform>::empty());
    lemma_view_shaped(inner);
    lemma_identity_is_unit(inner@);
    assert(fold_path(Seq::<Transform>::empty()) == identity());
    assert(fold_path(seq![inner]) == compose(identity(), inner@));
    assert(fold_path(p) == compose(fold_path(seq![inner]), outer@));
    assert(fold_path(p) == compose(inner@, outer@));
    assert(collapsed(g) =~= seq![(compose(inner@, outer@), model as nat)]);
}

/// `g2` is `g` with one dangling child id taken out of the group `gid`.
pub open spec fn without_dangling_child(
    g: Map<u32, NodeKind>,
    g2: Map<u32, NodeKind>,
    gid: u32,
    front: Seq<u32>,
    missing: u32,
    back: Seq<u32>,
) -> bool {
    &&& g.contains_key(gid)
    &&& g[gid] is Group
    &&& g[gid]->children_ids@ == front + seq![missing] + back
    &&& !g.contains_key(missing)
    &&& g2.dom() == g.dom()
    &&& g2[gid] is Group
    &&& g2[gid]->children_ids@ == front + back
    &&& forall|k: u32| k != gid && g.contains_key(k) ==> #[trigger] g2[k] == g[k]
}

proof fn lemma_branch_without_dangling(
    g: Map<u32, NodeKind>,
    g2: Map<u32, NodeKind>,
    gid: u32,
    front: Seq<u32>,
    missing: u32,
    back: Seq<u32>,
    id: u32,
    path: Seq<Transform>,
    depth: nat,
)
    requires
        without_dangling_child(g, g2, gid, front, missing, back),
    ensures
        branch_paths(g, id, path, depth) == branch_paths(g2, id, path, depth),
    decreases depth, 0nat,
{
    if depth > 0 && g.contains_key(id) {
        assert(g2.contains_key(id));
        let d = (depth - 1) as nat;
        if id == gid {
            let full = front + seq![missing] + back;
            assert(full =~= (front + back).insert(front.len() as int, missing));
            lemma_missing_child_adds_nothing(g, front + back, front.len() as int, missing, path, d);
            lemma_children_without_dangling(g, g2, gid, front, missing, back, front + back, path, d);
        } else {
            assert(g2[id] == g[id]);
            if g[id] is Group {
                lemma_children_without_dangling(
                    g,
                    g2,
                    gid,
                    front,
                    missing,
                    back,
                    g[id]->children_ids@,
                    path,
                    d,
                );
            }
        }
    }
}

proof fn lemma_children_without_dangling(
    g: Map<u32, NodeKind>,
    g2: Map<u32, NodeKind>,
    gid: u32,
    front: Seq<u32>,
    missing: u32,
    back: Seq<u32>,
    kids: Seq<u32>,
    path: Seq<Transform>,
    depth: nat,
)
    requires
        without_dangling_child(g, g2, gid, front, missing, back),
    ensures
        children_paths(g, kids, path, depth) == children_paths(g2, kids, path, depth),
    decreases depth, kids.len() + 1,
{
    if kids.len() > 0 {
        lemma_children_without_dangling(g, g2, gid, front, missing, back, kids.drop_last(), path, depth);
        let c = kids.last();
        if g.contains_key(c) && c != gid {
            assert(g2[c] == g[c]);
            if g[c] is Transform {
                lemma_branch_without_dangling(
                    g,
                    g2,
                    gid,
                    front,
                    missing,
                    back,
                    g[c]->child_id,
                    seq![g[c]->transform] + path,
                    depth,
                );
            }
        }
        assert(g2.contains_key(c) == g.contains_key(c));
        assert(child_paths(g, c, path, depth) == child_paths(g2, c, path, depth));
    }
}

/// Taking a dangling child id out of a group leaves the whole flattened
/// scene as it was: that id added no entry, and the other branches keep
/// their entries and their order.
pub proof fn lemma_scene_without_dangling_child(
    g: Map<u32, NodeKind>,
    g2: Map<u32, NodeKind>,
    gid: u32,
    front: Seq<u32>,
    missing: u32,
    back: Seq<u32>,
)
    requires
        without_dangling_child(g, g2, gid, front, missing, back),
    ensures
        scene_paths(g2) == scene_paths(g),
        collapsed(g2) == collapsed(g),
{
    if root_is_transform(g) {
        assert(gid != 0);
        assert(g2[0] == g[0]);
        lemma_branch_without_dangling(
            g,
            g2,
            gid,
            front,
            missing,
            back,
            g[0]->child_id,
            seq![g[0]->transform],
            g.dom().len(),
        );
    } else {
        if g.contains_key(0) && 0 != gid {
            assert(g2[0] == g[0]);
        }
    }
}

} // verus!
