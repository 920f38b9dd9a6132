//! The mathematical model of a scene graph: what the contracts of the
//! graph speak of.

use crate::handle::Handle;
use crate::node::NodeModel;
use crate::pool::{
    generations_ok, handle_at, holds, is_reserved, released, reserved, restored, spawned,
    value_at, Record, Slot,
};
use crate::transform::Transform;
use vstd::prelude::*;

verus! {

/// Which matrix of a placement a query composes along the way to the root.
pub enum Part {
    /// The matrix of the placement with its scale forced to one.
    NoScale,
    /// The matrix of position and rotation alone.
    Isometric,
    /// The matrix of the scale alone.
    Scale,
}

/// The matrix of `t` that `part` names.
pub open spec fn part_of<T: Transform>(t: T, part: Part) -> T::Matrix {
    match part {
        Part::NoScale => t.matrix_no_scale_spec(),
        Part::Isometric => t.isometric_matrix_spec(),
        Part::Scale => t.scale_matrix_spec(),
    }
}

/// A scene graph as the contracts see it: the records of its pool, each node
/// by its model, and the handle of the root.
pub struct GraphModel<T: Transform> {
    pub entries: Seq<Record<NodeModel<T>>>,
    pub root: Handle,
}

impl<T: Transform> GraphModel<T> {
    /// The graph that holds nothing but its root: a visible node named
    /// `__ROOT__`, with the neutral placement, in the first slot.
    pub open spec fn initial() -> Self {
        let root = NodeModel {
            name: "__ROOT__"@,
            parent: Handle::none(),
            children: Seq::<Handle>::empty(),
            local_transform: T::neutral_spec(),
            visibility: true,
            global_transform: T::identity_spec(),
            global_visibility: true,
        };
        GraphModel {
            entries: seq![Record { generation: 1, slot: Slot::Occupied(root) }],
            root: Handle { index: 0, generation: 1 },
        }
    }

    /// The graph that holds nothing and has no root.
    pub open spec fn empty() -> Self {
        GraphModel { entries: Seq::empty(), root: Handle::none() }
    }

    /// `h` refers to a node of the graph.
    pub open spec fn contains(self, h: Handle) -> bool {
        holds(self.entries, h)
    }

    /// The node that `h` refers to.
    pub open spec fn node(self, h: Handle) -> NodeModel<T>
        recommends
            self.contains(h),
    {
        value_at(self.entries, h)
    }

    /// The graph with `n` in the place of the node that `h` refers to.
    pub open spec fn with_node(self, h: Handle, n: NodeModel<T>) -> Self {
        GraphModel { entries: restored(self.entries, h.index as int, n), ..self }
    }

    /// The parent of `h`, or the sentinel where `h` refers to no node.
    pub open spec fn parent_of(self, h: Handle) -> Handle {
        if self.contains(h) {
            self.node(h).parent
        } else {
            Handle::none()
        }
    }

    /// What is reached from `h` by `k` parent steps.
    pub open spec fn ancestor(self, h: Handle, k: nat) -> Handle
        decreases k,
    {
        if k == 0 {
            h
        } else {
            self.ancestor(self.parent_of(h), (k - 1) as nat)
        }
    }

    /// `x` is a node from which finitely many parent steps lead to `top`;
    /// none, where `x` is `top`.
    pub open spec fn descends_from(self, x: Handle, top: Handle) -> bool {
        self.contains(x) && exists|k: nat| self.ancestor(x, k) == top
    }

    /// The graph has a root and `h` is a node from which parent steps lead
    /// to it.
    pub open spec fn below_root(self, h: Handle) -> bool {
        self.contains(self.root) && self.descends_from(h, self.root)
    }

    /// The number of parent steps that lead from `h` to the root, where `h`
    /// descends from the root.
    pub open spec fn depth(self, h: Handle) -> nat {
        choose|k: nat| self.ancestor(h, k) == self.root
    }

    /// The product of the `part` matrices of `h` and of the `k` nodes above
    /// it, the topmost first: each node's matrix is multiplied from the right
    /// onto what the nodes above it gave.
    pub open spec fn composed(self, h: Handle, k: nat, part: Part) -> T::Matrix
        decreases k,
    {
        let own = part_of(self.node(h).local_transform, part);
        if k == 0 {
            own
        } else {
            T::product_spec(self.composed(self.node(h).parent, (k - 1) as nat, part), own)
        }
    }

    /// `c` is a node that names `p` as its parent.
    pub open spec fn owns(self, p: Handle, c: Handle) -> bool {
        self.contains(c) && self.node(c).parent == p
    }

    /// The links of the node `h` agree with those of its neighbours: its
    /// children are distinct nodes that name it as their parent, and its
    /// parent, where that is a node of the graph, lists it.
    pub open spec fn agrees(self, h: Handle) -> bool {
        let n = self.node(h);
        &&& n.children.no_duplicates()
        &&& forall|i: int| 0 <= i < n.children.len() ==> self.owns(h, #[trigger] n.children[i])
        &&& (self.contains(n.parent) ==> self.node(n.parent).children.contains(h))
    }

    /// The links of every node agree with those of its neighbours.
    pub open spec fn links_agree(self) -> bool {
        &&& generations_ok(self.entries)
        &&& forall|h: Handle| #[trigger] self.contains(h) ==> self.agrees(h)
    }

    /// `p` is the sentinel, or it names a slot by the generation under which
    /// the slot is occupied or reserved now, or by an earlier one. No handle
    /// that will be issued equals such a `p`.
    pub open spec fn refers_back(self, p: Handle) -> bool {
        ||| p.is_none()
        ||| {
            &&& p.index < self.entries.len()
            &&& p.generation <= self.entries[p.index as int].generation
            &&& (p.generation == self.entries[p.index as int].generation ==> !(
            self.entries[p.index as int].slot is Vacant))
        }
    }

    /// The links of the node `h` agree with those of its neighbours; its
    /// parent is a node, or a handle that was one; and, in a graph that has
    /// a root, it has a parent unless it is the root or `loose`.
    pub open spec fn links_ok_except(self, h: Handle, loose: Handle) -> bool {
        &&& self.agrees(h)
        &&& self.refers_back(self.node(h).parent)
        &&& (self.node(h).parent.is_none() ==> h == self.root || h == loose
            || self.root.is_none())
    }

    /// The links of the node `h` agree with those of its neighbours; its
    /// parent is a node, or a handle that was one; and, in a graph that has
    /// a root, it has a parent unless it is the root.
    pub open spec fn links_ok(self, h: Handle) -> bool {
        self.links_ok_except(h, self.root)
    }

    /// The graph is well formed but for `loose`, which may be without a
    /// parent: the state between a cut and the link that follows it.
    pub open spec fn wf_except(self, loose: Handle) -> bool {
        &&& generations_ok(self.entries)
        &&& (self.root.is_none() || (self.contains(self.root) && self.node(
            self.root,
        ).parent.is_none()))
        &&& forall|h: Handle| #[trigger] self.contains(h) ==> self.links_ok_except(h, loose)
    }

    /// The invariant that every operation of the graph keeps: the root is a
    /// node without a parent, or the graph has none and its root is the
    /// sentinel; and the links of every node agree with those of its
    /// neighbours.
    ///
    /// Only the default graph is without a root, and it stays so: in it any
    /// node may be without a parent.
    ///
    /// A node's parent may be a handle that refers to no node. That is the
    /// state of the children of a node that was taken out with a ticket,
    /// until it is put back, and for good if the ticket is forgotten.
    pub open spec fn wf(self) -> bool {
        self.wf_except(self.root)
    }

    /// The graph is one tree: it is well formed, it has a root, and from
    /// every node finitely many parent steps lead to the root.
    pub open spec fn is_tree(self) -> bool {
        &&& self.wf()
        &&& self.contains(self.root)
        &&& forall|h: Handle| #[trigger] self.contains(h) ==> self.descends_from(h, self.root)
    }

    /// `h` names a slot by a generation that the slot has left behind: the
    /// node that `h` referred to is gone, and `h` will refer to none again.
    pub open spec fn expired(self, h: Handle) -> bool {
        h.index < self.entries.len() && h.generation < self.entries[h.index as int].generation
    }

    /// `later` may have come from `self`: it has the slots of `self`, and
    /// perhaps more, and no slot is of an earlier generation than in `self`.
    pub open spec fn precedes(self, later: Self) -> bool {
        &&& self.entries.len() <= later.entries.len()
        &&& forall|i: int|
            0 <= i < self.entries.len() ==> self.entries[i].generation <= (
            #[trigger] later.entries[i]).generation
    }

    /// `other` has the nodes of `self` in the same slots, each with the same
    /// links: the two differ at most in what nodes hold beside their links.
    pub open spec fn same_shape(self, other: Self) -> bool {
        &&& other.root == self.root
        &&& other.entries.len() == self.entries.len()
        &&& forall|i: int|
            0 <= i < self.entries.len() ==> (#[trigger] other.entries[i]).generation
                == self.entries[i].generation
        &&& forall|i: int|
            0 <= i < self.entries.len() ==> ((#[trigger] other.entries[i]).slot is Occupied
                <==> self.entries[i].slot is Occupied) && (other.entries[i].slot is Vacant
                <==> self.entries[i].slot is Vacant)
        &&& forall|h: Handle| #[trigger] self.contains(h) ==> self.node(h).same_links(other.node(h))
    }

    /// The graph after `h` was cut from its parent: `h` names no parent, and
    /// the node that was its parent, if there is one, no longer lists it.
    pub open spec fn detach(self, h: Handle) -> Self {
        let p = self.node(h).parent;
        let m = self.with_node(h, NodeModel { parent: Handle::none(), ..self.node(h) });
        if self.contains(p) {
            m.with_node(
                p,
                NodeModel { children: m.node(p).children.remove_value(h), ..m.node(p) },
            )
        } else {
            m
        }
    }

    /// The graph after `child` was cut from its parent and made the last
    /// child of `parent`.
    pub open spec fn link(self, child: Handle, parent: Handle) -> Self {
        let m = self.detach(child);
        let m = m.with_node(child, NodeModel { parent, ..m.node(child) });
        m.with_node(
            parent,
            NodeModel { children: m.node(parent).children.push(child), ..m.node(parent) },
        )
    }

    /// The graph after each of `children` in turn was made the last child of
    /// `parent`.
    pub open spec fn link_all(self, children: Seq<Handle>, parent: Handle) -> Self
        decreases children.len(),
    {
        if children.len() == 0 {
            self
        } else {
            self.link_all(children.drop_last(), parent).link(children.last(), parent)
        }
    }

    /// The graph after `h` was made the last child of the root and moved to
    /// the origin of the root's frame.
    pub open spec fn unlink(self, h: Handle) -> Self {
        let m = self.link(h, self.root);
        m.with_node(
            h,
            NodeModel { local_transform: m.node(h).local_transform.at_origin_spec(), ..m.node(h) },
        )
    }

    /// The graph after `node` was stored under `h`, with no link changed.
    pub open spec fn stored(self, h: Handle, node: NodeModel<T>) -> Self {
        GraphModel { entries: spawned(self.entries, h, node), ..self }
    }

    /// The graph after `node` was stored under the fresh handle `h`, with
    /// no link yet: as the last child of the root, where the graph has one,
    /// and else without a parent.
    pub open spec fn placed(self, h: Handle, node: NodeModel<T>) -> Self {
        let bare = NodeModel { parent: Handle::none(), children: Seq::<Handle>::empty(), ..node };
        if self.contains(self.root) {
            self.stored(h, bare).link(h, self.root)
        } else {
            self.stored(h, bare)
        }
    }

    /// The graph after `node` was stored under the fresh handle `h`: it is
    /// the last child of the root, where the graph has one, and else without
    /// a parent; and the nodes that it listed as children are its children,
    /// in that order.
    pub open spec fn add(self, h: Handle, node: NodeModel<T>) -> Self {
        self.placed(h, node).link_all(node.children, h)
    }

    /// The graph after `h` and every node that descends from it were
    /// removed. The slots they had are vacant, under the next generation.
    pub open spec fn remove(self, h: Handle) -> Self {
        let m = self.detach(h);
        GraphModel {
            entries: Seq::new(
                m.entries.len(),
                |i: int|
                    if m.entries[i].slot is Occupied && m.descends_from(
                        handle_at(m.entries, i),
                        h,
                    ) {
                        Record {
                            generation: (m.entries[i].generation + 1) as u32,
                            slot: Slot::Vacant,
                        }
                    } else {
                        m.entries[i]
                    },
            ),
            ..m
        }
    }

    /// The graph after `h` was cut from its parent and taken out, its slot
    /// reserved. The nodes below `h` stay as they are.
    pub open spec fn take(self, h: Handle) -> Self {
        let m = self.detach(h);
        GraphModel { entries: reserved(m.entries, h.index as int), ..m }
    }

    /// `node` can fill the reserved slot `i` without breaking a link: its
    /// children are exactly the nodes that name the slot's handle as their
    /// parent, each listed once.
    pub open spec fn adoptable(self, i: usize, node: NodeModel<T>) -> bool {
        let h = handle_at(self.entries, i as int);
        &&& is_reserved(self.entries, i)
        &&& node.children.no_duplicates()
        &&& forall|k: int|
            0 <= k < node.children.len() ==> self.owns(h, #[trigger] node.children[k])
        &&& forall|c: Handle| #[trigger] self.owns(h, c) ==> node.children.contains(c)
    }

    /// The graph after `node` was stored in the reserved slot `i` and made
    /// the last child of the root.
    pub open spec fn put(self, i: usize, node: NodeModel<T>) -> Self {
        let h = handle_at(self.entries, i as int);
        let m = GraphModel {
            entries: restored(
                self.entries,
                i as int,
                NodeModel { parent: Handle::none(), ..node },
            ),
            ..self
        };
        m.link(h, self.root)
    }

    /// The graph after the reserved slot `i` was given up.
    pub open spec fn forget(self, i: usize) -> Self {
        GraphModel { entries: released(self.entries, i as int), ..self }
    }

    /// The matrix that a node inherits from `parent`: the parent's world
    /// matrix, or the identity where `parent` refers to no node.
    pub open spec fn inherited_transform(self, parent: Handle) -> T::Matrix {
        if self.contains(parent) {
            self.node(parent).global_transform
        } else {
            T::identity_spec()
        }
    }

    /// The visibility that a node inherits from `parent`.
    pub open spec fn inherited_visibility(self, parent: Handle) -> bool {
        if self.contains(parent) {
            self.node(parent).global_visibility
        } else {
            true
        }
    }

    /// The derived values of the node `h` are those that its parent's derived
    /// values and its own placement and visibility give.
    pub open spec fn derived_ok(self, h: Handle) -> bool {
        let n = self.node(h);
        &&& n.global_transform == T::product_spec(
            self.inherited_transform(n.parent),
            n.local_transform.matrix_spec(),
        )
        &&& n.global_visibility == (self.inherited_visibility(n.parent) && n.visibility)
    }

    /// `post` is `self` after a hierarchical update: nothing but derived
    /// values has changed; the derived values of every node that descends
    /// from the root are those that its parent's new derived values give; and
    /// a node that does not descend from the root is as it was.
    pub open spec fn propagated(self, post: Self) -> bool {
        &&& post.root == self.root
        &&& post.entries.len() == self.entries.len()
        &&& forall|i: int|
            0 <= i < self.entries.len() ==> (#[trigger] post.entries[i]).generation
                == self.entries[i].generation
        &&& forall|i: int|
            0 <= i < self.entries.len() ==> ((#[trigger] post.entries[i]).slot is Occupied
                <==> self.entries[i].slot is Occupied) && (post.entries[i].slot is Reserved
                <==> self.entries[i].slot is Reserved)
        &&& forall|h: Handle| #[trigger]
            self.contains(h) ==> self.node(h).same_but_globals(post.node(h))
        &&& forall|h: Handle| #[trigger]
            self.contains(h) && self.descends_from(h, self.root) ==> post.derived_ok(h)
        &&& forall|h: Handle| #[trigger]
            self.contains(h) && !self.descends_from(h, self.root) ==> post.node(h) == self.node(h)
    }
}

} // verus!
