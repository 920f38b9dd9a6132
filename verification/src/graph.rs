//! The scene graph.

use crate::handle::Handle;
use crate::model::{part_of, GraphModel, Part};
use crate::node::{Node, NodeModel};
use crate::pool::{
    can_spawn_at, generations_ok, handle_at, has_vacancy, holds, is_reserved, is_reusable,
    lemma_live_handles, lemma_refilled, lemma_refilled_any, live_handles, refilled, released,
    reserved, restored, spawned, value_at, BorrowError, Pool, Record, Slot, Ticket,
    LAST_GENERATION,
};
use crate::transform::Transform;
use std::ops::{Index, IndexMut};
use vstd::prelude::*;

verus! {

/// The records of a pool of nodes, each node by its model.
pub open spec fn lift<T: Transform>(s: Seq<Record<Node<T>>>) -> Seq<Record<NodeModel<T>>> {
    Seq::new(
        s.len(),
        |i: int|
            Record {
                generation: s[i].generation,
                slot: match s[i].slot {
                    Slot::Vacant => Slot::Vacant,
                    Slot::Reserved => Slot::Reserved,
                    Slot::Occupied(n) => Slot::Occupied(n@),
                },
            },
    )
}

/// The models of a sequence of nodes.
pub open spec fn views<T: Transform>(nodes: Seq<Node<T>>) -> Seq<NodeModel<T>> {
    Seq::new(nodes.len(), |k: int| nodes[k]@)
}

/// A scene graph: nodes in a pool, linked into a hierarchy below one root.
pub struct Graph<T: Transform> {
    pool: Pool<Node<T>>,
    root: Handle,
    stack: Vec<Handle>,
}

impl<T: Transform> View for Graph<T> {
    type V = GraphModel<T>;

    closed spec fn view(&self) -> GraphModel<T> {
        GraphModel { entries: lift(self.pool@), root: self.root }
    }
}

impl<T: Transform> Graph<T> {
    /// The invariant of the storage below the graph.
    pub closed spec fn inv(&self) -> bool {
        self.pool.wf()
    }

    /// The graph's invariant: its storage is sound and its links agree.
    pub open spec fn wf(&self) -> bool {
        self.inv() && self@.wf()
    }

    /// A graph that holds nothing but its root: a visible node named
    /// `__ROOT__` with the neutral placement.
    pub fn new() -> (graph: Graph<T>)
        ensures
            graph.wf(),
            graph@ == GraphModel::<T>::initial(),
            graph@.is_tree(),
    {
        let mut pool: Pool<Node<T>> = Pool::new();
        let mut root = Node::new(T::neutral());
        root.set_name("__ROOT__");
        let root = pool.spawn(root);
        let graph = Graph { stack: Vec::new(), root, pool };
        proof {
            lemma_lift(graph.pool@);
            assert(graph@.entries =~= GraphModel::<T>::initial().entries);
            GraphModel::<T>::lemma_initial_tree();
        }
        graph
    }

    /// The handle of the root.
    pub fn get_root(&self) -> (root: Handle)
        ensures
            root == self@.root,
    {
        self.root
    }

    /// The number of slots in the graph's storage, whatever they hold.
    pub fn capacity(&self) -> (n: usize)
        ensures
            n == self@.entries.len(),
    {
        proof {
            lemma_lift(self.pool@);
        }
        self.pool.get_capacity()
    }

    /// The handle of the node in slot `index`, or the sentinel where the
    /// index is out of bounds or the slot holds no node.
    pub fn handle_from_index(&self, index: usize) -> (h: Handle)
        ensures
            index < self@.entries.len() && self@.entries[index as int].slot is Occupied ==> h
                == handle_at(self@.entries, index as int) && self@.contains(h),
            !(index < self@.entries.len() && self@.entries[index as int].slot is Occupied) ==> h
                == Handle::none(),
    {
        proof {
            lemma_lift(self.pool@);
        }
        self.pool.handle_from_index(index)
    }

    /// Whether `node_handle` refers to a node of this graph.
    pub fn is_valid_handle(&self, node_handle: Handle) -> (b: bool)
        ensures
            b == self@.contains(node_handle),
    {
        proof {
            lemma_lift(self.pool@);
        }
        self.pool.is_valid_handle(node_handle)
    }

    /// Makes `child` the last child of `parent`, after cutting it from the
    /// parent it had. The new parent must not be the child nor lie below it:
    /// that would close a cycle and part it from the root. `is_below` tells.
    pub fn link_nodes(&mut self, child: Handle, parent: Handle)
        requires
            old(self).wf(),
            old(self)@.contains(child),
            old(self)@.contains(parent),
            child != old(self)@.root,
            !old(self)@.descends_from(parent, child),
        ensures
            final(self).wf(),
            final(self)@ == old(self)@.link(child, parent),
            forall|x: Handle| #[trigger] final(self)@.contains(x) == old(self)@.contains(x),
            old(self)@.is_tree() ==> final(self)@.is_tree(),
            old(self)@.precedes(final(self)@),
    {
        proof {
            self@.lemma_link(child, parent);
            self@.lemma_link_precedes(child, parent);
            self@.lemma_link_wf(child, parent);
            if self@.is_tree() {
                self@.lemma_link_tree(child, parent);
            }
        }
        self.link_internal(child, parent);
    }

    /// Cuts `node_handle` from its parent, makes it the last child of the
    /// root and moves it to the origin of the root's frame. Its rotation and
    /// scale stay.
    pub fn unlink_node(&mut self, node_handle: Handle)
        requires
            old(self).wf(),
            old(self)@.contains(old(self)@.root),
            old(self)@.contains(node_handle),
            node_handle != old(self)@.root,
        ensures
            final(self).wf(),
            final(self)@ == old(self)@.unlink(node_handle),
            forall|x: Handle| #[trigger] final(self)@.contains(x) == old(self)@.contains(x),
            old(self)@.is_tree() ==> final(self)@.is_tree(),
            old(self)@.precedes(final(self)@),
    {
        proof {
            self@.lemma_link_precedes(node_handle, self@.root);
            self@.lemma_unlink_wf(node_handle);
            self@.lemma_link(node_handle, self@.root);
            if self@.is_tree() {
                self@.lemma_unlink_tree(node_handle);
            }
        }
        self.link_internal(node_handle, self.root);
        let ghost before = self.pool@;
        proof {
            lemma_lift(before);
        }
        let node = self.pool.borrow_mut(node_handle);
        node.local_transform_mut().reset_position();
        proof {
            lemma_lift_restored(before, node_handle.index as int, *node);
        }
    }

    /// The nodes that two handles refer to, both for writing. The handles
    /// must refer to different nodes.
    ///
    /// The graph afterwards holds what the caller left behind the
    /// references. It stays well formed if the caller left the links alone.
    pub fn get_two_mut(&mut self, nodes: (Handle, Handle)) -> (r: (&mut Node<T>, &mut Node<T>))
        requires
            old(self).wf(),
            old(self)@.contains(nodes.0),
            old(self)@.contains(nodes.1),
            nodes.0 != nodes.1,
        ensures
            r.0@ == old(self)@.node(nodes.0),
            r.1@ == old(self)@.node(nodes.1),
            final(self)@ == old(self)@.with_node(nodes.0, final(r.0)@).with_node(
                nodes.1,
                final(r.1)@,
            ),
            final(self).inv(),
            final(r.0)@.same_links(r.0@) && final(r.1)@.same_links(r.1@) ==> final(self).wf(),
    {
        let ghost before = self.pool@;
        proof {
            lemma_lift(before);
        }
        let (a, b) = self.pool.borrow_two_mut(nodes);
        proof {
            lemma_lift_restored_any::<T>();
            old(self)@.lemma_same_shape_wf();
        }
        assert(final(a)@.same_links(a@) && final(b)@.same_links(b@) ==> old(self)@.same_shape(
            old(self)@.with_node(nodes.0, final(a)@).with_node(nodes.1, final(b)@),
        ));
        (a, b)
    }

    /// The nodes that three handles refer to, all for writing, or an error
    /// where two of the handles are the same. The graph is then unchanged.
    pub fn get_three_mut(&mut self, nodes: (Handle, Handle, Handle)) -> (r: Result<
        (&mut Node<T>, &mut Node<T>, &mut Node<T>),
        BorrowError,
    >)
        requires
            old(self).wf(),
            old(self)@.contains(nodes.0),
            old(self)@.contains(nodes.1),
            old(self)@.contains(nodes.2),
        ensures
            r is Err <==> nodes.0 == nodes.1 || nodes.0 == nodes.2 || nodes.1 == nodes.2,
            r is Err ==> final(self)@ == old(self)@ && final(self).wf(),
            r is Ok ==> {
                let (a, b, c) = r->Ok_0;
                &&& a@ == old(self)@.node(nodes.0)
                &&& b@ == old(self)@.node(nodes.1)
                &&& c@ == old(self)@.node(nodes.2)
                &&& final(self)@ == old(self)@.with_node(nodes.0, final(a)@).with_node(
                    nodes.1,
                    final(b)@,
                ).with_node(nodes.2, final(c)@)
                &&& (final(a)@.same_links(a@) && final(b)@.same_links(b@) && final(c)@.same_links(
                    c@,
                ) ==> final(self).wf())
            },
            final(self).inv(),
    {
        let ghost before = self.pool@;
        proof {
            lemma_lift(before);
        }
        match self.pool.borrow_three_mut(nodes) {
            Ok((a, b, c)) => {
                proof {
                    lemma_lift_restored_any::<T>();
                    old(self)@.lemma_same_shape_wf();
                }
                assert(final(a)@.same_links(a@) && final(b)@.same_links(b@) && final(c)@.same_links(
                    c@,
                ) ==> old(self)@.same_shape(
                    old(self)@.with_node(nodes.0, final(a)@).with_node(
                        nodes.1,
                        final(b)@,
                    ).with_node(nodes.2, final(c)@),
                ));
                Ok((a, b, c))
            },
            Err(e) => Err(e),
        }
    }

    /// The nodes that four handles refer to, all for writing. The handles
    /// must refer to different nodes.
    pub fn get_four_mut(&mut self, nodes: (Handle, Handle, Handle, Handle)) -> (r: (
        &mut Node<T>,
        &mut Node<T>,
        &mut Node<T>,
        &mut Node<T>,
    ))
        requires
            old(self).wf(),
            old(self)@.contains(nodes.0),
            old(self)@.contains(nodes.1),
            old(self)@.contains(nodes.2),
            old(self)@.contains(nodes.3),
            nodes.0 != nodes.1 && nodes.0 != nodes.2 && nodes.0 != nodes.3,
            nodes.1 != nodes.2 && nodes.1 != nodes.3 && nodes.2 != nodes.3,
        ensures
            r.0@ == old(self)@.node(nodes.0),
            r.1@ == old(self)@.node(nodes.1),
            r.2@ == old(self)@.node(nodes.2),
            r.3@ == old(self)@.node(nodes.3),
            final(self)@ == old(self)@.with_node(nodes.0, final(r.0)@).with_node(
                nodes.1,
                final(r.1)@,
            ).with_node(nodes.2, final(r.2)@).with_node(nodes.3, final(r.3)@),
            final(self).inv(),
            final(r.0)@.same_links(r.0@) && final(r.1)@.same_links(r.1@) && final(r.2)@.same_links(
                r.2@,
            ) && final(r.3)@.same_links(r.3@) ==> final(self).wf(),
    {
        let ghost before = self.pool@;
        proof {
            lemma_lift(before);
        }
        let (a, b, c, d) = self.pool.borrow_four_mut(nodes);
        proof {
            lemma_lift_restored_any::<T>();
            old(self)@.lemma_same_shape_wf();
        }
        assert(final(a)@.same_links(a@) && final(b)@.same_links(b@) && final(c)@.same_links(c@)
            && final(d)@.same_links(d@) ==> old(self)@.same_shape(
            old(self)@.with_node(nodes.0, final(a)@).with_node(nodes.1, final(b)@).with_node(
                nodes.2,
                final(c)@,
            ).with_node(nodes.3, final(d)@),
        ));
        (a, b, c, d)
    }

    /// The node that `handle` refers to.
    pub fn node(&self, handle: Handle) -> (node: &Node<T>)
        requires
            self@.contains(handle),
        ensures
            node@ == self@.node(handle),
    {
        proof {
            lemma_lift(self.pool@);
        }
        self.pool.borrow(handle)
    }

    /// The node that `handle` refers to, for writing.
    ///
    /// The graph afterwards holds what the caller left behind the reference.
    /// It stays well formed if the caller left the links alone.
    pub fn node_mut(&mut self, handle: Handle) -> (node: &mut Node<T>)
        requires
            old(self).wf(),
            old(self)@.contains(handle),
        ensures
            node@ == old(self)@.node(handle),
            final(self)@ == old(self)@.with_node(handle, final(node)@),
            final(self).inv(),
            final(node)@.same_links(node@) ==> final(self).wf(),
    {
        let ghost before = self.pool@;
        proof {
            lemma_lift(before);
        }
        let node = self.pool.borrow_mut(handle);
        proof {
            lemma_lift_restored_any::<T>();
            old(self)@.lemma_same_shape_wf();
        }
        assert(final(node)@.same_links(node@) ==> old(self)@.same_shape(
            old(self)@.with_node(handle, final(node)@),
        ));
        node
    }

    /// The nodes of the graph in the order of their slots: no walk of the
    /// hierarchy.
    pub fn linear_iter(&self) -> (nodes: Vec<&Node<T>>)
        ensures
            nodes@.len() == live_handles(self@.entries).len(),
            forall|k: int|
                0 <= k < nodes@.len() ==> (#[trigger] nodes@[k])@ == self@.node(
                    live_handles(self@.entries)[k],
                ),
    {
        let nodes = self.pool.iter();
        proof {
            lemma_lift(self.pool@);
            lemma_lift_live(self.pool@);
            assert forall|k: int| 0 <= k < nodes@.len() implies (#[trigger] nodes@[k])@
                == self@.node(live_handles(self@.entries)[k]) by {
                self.pool.lemma_bounded();
                lemma_live_handles(self.pool@);
                assert(holds(self.pool@, live_handles(self.pool@)[k]));
            }
        }
        nodes
    }

    /// The nodes of the graph with their handles, in the order of their
    /// slots.
    pub fn pair_iter(&self) -> (pairs: Vec<(Handle, &Node<T>)>)
        ensures
            pairs@.len() == live_handles(self@.entries).len(),
            forall|k: int|
                0 <= k < pairs@.len() ==> (#[trigger] pairs@[k]).0 == live_handles(
                    self@.entries,
                )[k] && pairs@[k].1@ == self@.node(live_handles(self@.entries)[k]),
    {
        let pairs = self.pool.pair_iter();
        proof {
            lemma_lift(self.pool@);
            lemma_lift_live(self.pool@);
            assert forall|k: int| 0 <= k < pairs@.len() implies (#[trigger] pairs@[k]).0
                == live_handles(self@.entries)[k] && pairs@[k].1@ == self@.node(
                live_handles(self@.entries)[k],
            ) by {
                self.pool.lemma_bounded();
                lemma_live_handles(self.pool@);
                assert(holds(self.pool@, live_handles(self.pool@)[k]));
            }
        }
        pairs
    }

    /// The nodes of the graph, each for writing, in the order of their
    /// slots.
    ///
    /// The graph afterwards holds what the caller left behind the
    /// references. It stays well formed if the caller left the links alone.
    pub fn linear_iter_mut(&mut self) -> (nodes: Vec<&mut Node<T>>)
        requires
            old(self).wf(),
        ensures
            nodes@.len() == live_handles(old(self)@.entries).len(),
            forall|k: int|
                0 <= k < nodes@.len() ==> nodes@[k]@ == old(self)@.node(
                    #[trigger] live_handles(old(self)@.entries)[k],
                ),
            final(self)@ == (GraphModel {
                entries: refilled(
                    old(self)@.entries,
                    Seq::new(nodes@.len(), |k: int| final(nodes@[k])@),
                ),
                root: old(self)@.root,
            }),
            final(self).inv(),
            (forall|k: int|
                0 <= k < nodes@.len() ==> final(nodes@[k])@.same_links(
                    old(self)@.node(#[trigger] live_handles(old(self)@.entries)[k]),
                )) ==> final(self).wf(),
    {
        let ghost before = self.pool@;
        proof {
            lemma_lift(before);
            lemma_lift_refilled_any(before);
            lemma_live_handles(before);
            lemma_refilled_any(self@.entries);
            self@.lemma_same_shape_wf();
        }
        let nodes = self.pool.iter_mut();
        assert forall|k: int| 0 <= k < nodes@.len() implies nodes@[k]@ == old(self)@.node(
            #[trigger] live_handles(old(self)@.entries)[k],
        ) by {
            assert(holds(before, live_handles(before)[k]));
        }
        assert(views(Seq::new(nodes@.len(), |k: int| *final(nodes@[k]))) =~= Seq::new(
            nodes@.len(),
            |k: int| final(nodes@[k])@,
        ));
        assert((forall|k: int|
            0 <= k < nodes@.len() ==> final(nodes@[k])@.same_links(
                old(self)@.node(#[trigger] live_handles(old(self)@.entries)[k]),
            )) ==> old(self)@.same_shape(
            GraphModel {
                entries: refilled(
                    old(self)@.entries,
                    Seq::new(nodes@.len(), |k: int| final(nodes@[k])@),
                ),
                root: old(self)@.root,
            },
        )) by {
            lemma_same_shape_refilled(
                old(self)@,
                Seq::new(nodes@.len(), |k: int| final(nodes@[k])@),
            );
        }
        nodes
    }

    /// The nodes of the graph with their handles, each node for writing, in
    /// the order of their slots.
    ///
    /// The graph afterwards holds what the caller left behind the
    /// references. It stays well formed if the caller left the links alone.
    pub fn pair_iter_mut(&mut self) -> (pairs: Vec<(Handle, &mut Node<T>)>)
        requires
            old(self).wf(),
        ensures
            pairs@.len() == live_handles(old(self)@.entries).len(),
            forall|k: int|
                0 <= k < pairs@.len() ==> pairs@[k].0 == live_handles(old(self)@.entries)[k]
                    && pairs@[k].1@ == old(self)@.node(
                    #[trigger] live_handles(old(self)@.entries)[k],
                ),
            final(self)@ == (GraphModel {
                entries: refilled(
                    old(self)@.entries,
                    Seq::new(pairs@.len(), |k: int| final(pairs@[k].1)@),
                ),
                root: old(self)@.root,
            }),
            final(self).inv(),
            (forall|k: int|
                0 <= k < pairs@.len() ==> final(pairs@[k].1)@.same_links(
                    old(self)@.node(#[trigger] live_handles(old(self)@.entries)[k]),
                )) ==> final(self).wf(),
    {
        let ghost before = self.pool@;
        proof {
            lemma_lift(before);
            lemma_lift_refilled_any(before);
            lemma_live_handles(before);
            lemma_refilled_any(self@.entries);
            self@.lemma_same_shape_wf();
        }
        let pairs = self.pool.pair_iter_mut();
        assert forall|k: int| 0 <= k < pairs@.len() implies pairs@[k].0 == live_handles(
            old(self)@.entries,
        )[k] && pairs@[k].1@ == old(self)@.node(
            #[trigger] live_handles(old(self)@.entries)[k],
        ) by {
            assert(holds(before, live_handles(before)[k]));
        }
        assert(views(Seq::new(pairs@.len(), |k: int| *final(pairs@[k].1))) =~= Seq::new(
            pairs@.len(),
            |k: int| final(pairs@[k].1)@,
        ));
        assert((forall|k: int|
            0 <= k < pairs@.len() ==> final(pairs@[k].1)@.same_links(
                old(self)@.node(#[trigger] live_handles(old(self)@.entries)[k]),
            )) ==> old(self)@.same_shape(
            GraphModel {
                entries: refilled(
                    old(self)@.entries,
                    Seq::new(pairs@.len(), |k: int| final(pairs@[k].1)@),
                ),
                root: old(self)@.root,
            },
        )) by {
            lemma_same_shape_refilled(
                old(self)@,
                Seq::new(pairs@.len(), |k: int| final(pairs@[k].1)@),
            );
        }
        pairs
    }

    /// Stores `node` in the graph and returns its handle. A vacant slot is
    /// reused where there is one; the storage grows only where there is none.
    /// The node becomes the last child of the root; in a graph without a
    /// root it is left without a parent. The nodes that it lists as children
    /// are cut from their parents and become its children, in the order
    /// listed: this is how a subtree whose top was taken out of the graph is
    /// put under a new top.
    pub fn add_node(&mut self, node: Node<T>) -> (handle: Handle)
        requires
            old(self).wf(),
            forall|i: int|
                0 <= i < node@.children.len() ==> old(self)@.contains(#[trigger] node@.children[i])
                    && node@.children[i] != old(self)@.root,
        ensures
            final(self).wf(),
            can_spawn_at(old(self)@.entries, handle),
            has_vacancy(old(self)@.entries) ==> handle.index < old(self)@.entries.len(),
            final(self)@ == old(self)@.add(handle, node@),
            final(self)@.root == old(self)@.root,
            final(self)@.contains(handle),
            final(self)@.node(handle).parent == if old(self)@.contains(old(self)@.root) {
                old(self)@.root
            } else {
                Handle::none()
            },
            old(self)@.is_tree() ==> final(self)@.is_tree(),
            old(self)@.precedes(final(self)@),
    {
        let mut node = node;
        let ghost given = node@;
        let children = node.take_children();
        node.set_parent(Handle::none());
        let ghost before = self.pool@;
        let handle = self.pool.spawn(node);
        proof {
            lemma_lift(before);
            lemma_lift(self.pool@);
            lemma_lift_spawned(before, handle, node);
            old(self)@.lemma_none_absent();
            old(self)@.lemma_spawn_wf(handle, node@);
            old(self)@.lemma_placed(handle, given);
            old(self)@.lemma_add_wf(handle, given);
            old(self)@.lemma_add_precedes(handle, given);
            if old(self)@.is_tree() {
                old(self)@.lemma_add_tree(handle, given);
            }
            assert(self@.contains(handle));
        }
        if self.root.is_some() {
            self.link_internal(handle, self.root);
        }
        let ghost placed = self@;
        proof {
            assert(placed == old(self)@.placed(handle, given));
            assert forall|k: int| 0 <= k < children@.len() implies placed.contains(
                #[trigger] children@[k],
            ) && children@[k] != placed.root && children@[k] != handle by {
                assert(old(self)@.contains(given.children[k]));
            }
            placed.lemma_link_all_wf(children@, handle);
        }
        let mut i: usize = 0;
        while i < children.len()
            invariant
                self.inv(),
                i <= children@.len(),
                children@ == given.children,
                placed.wf(),
                placed.contains(handle),
                forall|k: int|
                    0 <= k < children@.len() ==> placed.contains(#[trigger] children@[k])
                        && children@[k] != placed.root,
                self@ == placed.link_all(children@.take(i as int), handle),
            decreases children@.len() - i,
        {
            let ghost front = children@.take(i as int);
            proof {
                assert forall|k: int| 0 <= k < front.len() implies placed.contains(
                    #[trigger] front[k],
                ) && front[k] != placed.root by {
                    assert(front[k] == children@[k]);
                }
                placed.lemma_link_all_wf(front, handle);
                assert(placed.contains(children@[i as int]));
            }
            self.link_internal(children[i], handle);
            i = i + 1;
            proof {
                let next = children@.take(i as int);
                assert(next.drop_last() =~= front);
                assert(next.last() == children@[i - 1]);
            }
        }
        proof {
            assert(children@.take(children@.len() as int) =~= children@);
        }
        handle
    }

    /// Takes the node that `handle` refers to out of the graph, after
    /// cutting it from its parent, and reserves its slot. The nodes below it
    /// stay in the graph and go on naming `handle` as their parent; until the
    /// node is put back nothing leads from them to the root.
    pub fn take_reserve(&mut self, handle: Handle) -> (out: (Ticket, Node<T>))
        requires
            old(self).wf(),
            old(self)@.contains(handle),
            handle != old(self)@.root,
        ensures
            final(self).wf(),
            final(self)@ == old(self)@.take(handle),
            out.0@ == handle.index,
            out.1@ == old(self)@.detach(handle).node(handle),
            final(self)@.adoptable(out.0@, out.1@),
            old(self)@.precedes(final(self)@),
    {
        proof {
            self@.lemma_take_wf(handle);
            self@.lemma_detach(handle);
        }
        self.unlink_internal(handle);
        let ghost before = self.pool@;
        proof {
            lemma_lift(before);
        }
        let out = self.pool.take_reserve(handle);
        proof {
            lemma_lift_reserved(before, handle.index as int);
        }
        out
    }

    /// Whether `ticket` is for a slot that this graph keeps reserved.
    pub fn is_reserved(&self, ticket: &Ticket) -> (b: bool)
        ensures
            b == is_reserved(self@.entries, ticket@),
    {
        proof {
            lemma_lift(self.pool@);
        }
        self.pool.is_reserved(ticket)
    }

    /// Stores `node` in the slot that `ticket` reserved and makes it the
    /// last child of the root. The handle returned is the one that the slot
    /// had when it was reserved, so the nodes that still name it as their
    /// parent are below `node` again.
    pub fn put_back(&mut self, ticket: Ticket, node: Node<T>) -> (handle: Handle)
        requires
            old(self).wf(),
            old(self)@.contains(old(self)@.root),
            old(self)@.adoptable(ticket@, node@),
        ensures
            final(self).wf(),
            handle == handle_at(old(self)@.entries, ticket@ as int),
            final(self)@ == old(self)@.put(ticket@, node@),
            final(self)@.contains(handle),
            old(self)@.precedes(final(self)@),
    {
        let ghost given = node@;
        let mut node = node;
        node.set_parent(Handle::none());
        let ghost index = ticket@;
        let ghost before = self.pool@;
        proof {
            lemma_lift(before);
            self@.lemma_put_wf(index, given);
        }
        let handle = self.pool.put_back(ticket, node);
        proof {
            lemma_lift(self.pool@);
            lemma_lift_restored(before, index as int, node);
            assert(self@.contains(handle));
            assert(self@.contains(self@.root));
            self@.lemma_link_precedes(handle, self@.root);
        }
        self.link_internal(handle, self.root);
        handle
    }

    /// Gives up the slot that `ticket` reserved: the node taken out of it
    /// will not come back, and the handle it had is stale for good. Nodes that
    /// still name that handle as their parent stay where they are, parted
    /// from the root.
    pub fn forget_ticket(&mut self, ticket: Ticket)
        requires
            old(self).wf(),
            is_reserved(old(self)@.entries, ticket@),
        ensures
            final(self).wf(),
            final(self)@ == old(self)@.forget(ticket@),
            old(self)@.is_tree() ==> final(self)@.is_tree(),
            old(self)@.precedes(final(self)@),
            final(self)@.expired(handle_at(old(self)@.entries, ticket@ as int)),
    {
        let ghost index = ticket@;
        let ghost before = self.pool@;
        proof {
            lemma_lift(before);
            self@.lemma_forget_wf(index);
            if self@.is_tree() {
                self@.lemma_forget_tree(index);
            }
        }
        self.pool.forget_ticket(ticket);
        proof {
            lemma_lift_released(before, index as int);
        }
    }

    /// Removes `node_handle` and every node below it. Their handles are
    /// stale afterwards, and the former parent no longer lists the node.
    ///
    /// Nothing outside the graph that still holds one of these handles is
    /// told.
    pub fn remove_node(&mut self, node_handle: Handle)
        requires
            old(self).wf(),
            old(self)@.contains(node_handle),
            node_handle != old(self)@.root,
        ensures
            final(self).wf(),
            final(self)@ == old(self)@.remove(node_handle),
            old(self)@.is_tree() ==> final(self)@.is_tree(),
            old(self)@.precedes(final(self)@),
            final(self)@.expired(node_handle),
    {
        self.unlink_internal(node_handle);
        let ghost cut = self@;
        let ghost mut visited: Set<int> = Set::empty();
        self.stack.clear();
        self.stack.push(node_handle);
        proof {
            old(self)@.lemma_detach_wf(node_handle);
            cut.lemma_walk_start(node_handle);
            assert(self.stack@ =~= seq![node_handle]);
        }
        while self.stack.len() > 0
            invariant
                self.inv(),
                cut.links_agree(),
                cut.contains(node_handle),
                !cut.contains(cut.node(node_handle).parent),
                cut.walk_ok(node_handle, visited, self.stack@),
                self@.root == cut.root,
                self@.entries.len() == cut.entries.len(),
                forall|i: int|
                    0 <= i < cut.entries.len() ==> #[trigger] self@.entries[i]
                        == if visited.contains(i) {
                        Record {
                            generation: (cut.entries[i].generation + 1) as u32,
                            slot: Slot::Vacant,
                        }
                    } else {
                        cut.entries[i]
                    },
            decreases cut.entries.len() - visited.len(),
        {
            let ghost waiting = self.stack@;
            let ghost before = self.pool@;
            let handle = self.stack.pop().unwrap();
            proof {
                lemma_lift(before);
                cut.lemma_walk_top(node_handle, visited, waiting);
                assert(self@.entries[handle.index as int] == cut.entries[handle.index as int]);
                assert(self@.contains(handle));
            }
            let ghost pool = self.pool;
            let ghost root = self.root;
            let node = self.pool.borrow(handle);
            let children = node.children();
            let mut i: usize = 0;
            while i < children.len()
                invariant
                    self.pool == pool,
                    self.root == root,
                    waiting.len() > 0,
                    i <= children@.len(),
                    self.stack@ == waiting.drop_last() + children@.take(i as int),
                decreases children@.len() - i,
            {
                self.stack.push(children[i]);
                i = i + 1;
                assert(self.stack@ =~= waiting.drop_last() + children@.take(i as int));
            }
            let ghost kids = children@;
            self.pool.free(handle);
            proof {
                assert(kids.take(kids.len() as int) =~= kids);
                assert(kids == cut.node(handle).children);
                cut.lemma_walk_step(node_handle, visited, waiting, kids);
                lemma_lift_released(before, handle.index as int);
                visited = visited.insert(handle.index as int);
            }
        }
        proof {
            assert(self.stack@ =~= Seq::<Handle>::empty());
            cut.lemma_walk_end(node_handle, visited);
            assert(self@.entries =~= old(self)@.remove(node_handle).entries);
            old(self)@.lemma_detach(node_handle);
            old(self)@.lemma_remove_wf(node_handle);
            old(self)@.lemma_remove_precedes(node_handle);
            if old(self)@.is_tree() {
                old(self)@.lemma_remove_tree(node_handle);
            }
        }
    }

    /// Derives the world matrix and the visibility of every node below the
    /// root from the placements and visibilities as they are now.
    ///
    /// The walk goes down from the root and takes a node only after its
    /// parent, and siblings in the order in which their parent lists them. A
    /// node's world matrix is its parent's world matrix times its own
    /// placement's matrix, in this order; the root's is the identity times
    /// the root's own. A node is visible in the world if it is visible and its
    /// parent is visible in the world.
    ///
    /// What is derived holds until a placement, a visibility or a link
    /// changes; nothing marks it out of date.
    pub fn update_hierarchical_data(&mut self)
        requires
            old(self).wf(),
            old(self)@.contains(old(self)@.root),
        ensures
            final(self).wf(),
            old(self)@.propagated(final(self)@),
            old(self)@.same_shape(final(self)@),
            old(self)@.is_tree() ==> final(self)@.is_tree(),
            old(self)@.precedes(final(self)@),
    {
        let ghost start = self@;
        let ghost mut visited: Set<int> = Set::empty();
        self.stack.clear();
        self.stack.push(self.root);
        proof {
            start.lemma_walk_start(start.root);
            start.lemma_progress_start();
            start.lemma_none_absent();
            assert(self.stack@ =~= seq![start.root]);
        }
        while self.stack.len() > 0
            invariant
                self.inv(),
                start.wf(),
                start.contains(start.root),
                start.walk_ok(start.root, visited, self.stack@),
                start.progress(self@, visited),
            decreases start.entries.len() - visited.len(),
        {
            let ghost waiting = self.stack@;
            let ghost cur = self@;
            let ghost before = self.pool@;
            let handle = self.stack.pop().unwrap();
            proof {
                lemma_lift(before);
                start.lemma_walk_top(start.root, visited, waiting);
                start.lemma_progress_step(cur, visited, waiting);
                start.lemma_none_absent();
            }
            let parent = self.pool.borrow(handle).parent();
            let (parent_transform, parent_visibility) = match self.pool.try_borrow(parent) {
                Some(node) => (node.global_transform(), node.global_visibility()),
                None => (T::identity(), true),
            };
            let node = self.pool.borrow_mut(handle);
            let local = node.local_transform().matrix();
            let visibility = parent_visibility && node.visibility();
            node.set_global(T::product(&parent_transform, &local), visibility);
            proof {
                lemma_lift_restored(before, handle.index as int, *node);
                lemma_lift(self.pool@);
                assert(self@ == cur.with_node(handle, cur.derived(handle)));
                assert(start.node(handle).same_but_globals(self@.node(handle)));
            }
            let ghost pool = self.pool;
            let ghost root = self.root;
            let children = self.pool.borrow(handle).children();
            let ghost kids = children@;
            let mut i: usize = children.len();
            while i > 0
                invariant
                    self.pool == pool,
                    self.root == root,
                    children@ == kids,
                    waiting.len() > 0,
                    i <= kids.len(),
                    self.stack@ == waiting.drop_last() + Seq::new(
                        (kids.len() - i) as nat,
                        |j: int| kids[kids.len() - 1 - j],
                    ),
                decreases i,
            {
                i = i - 1;
                self.stack.push(children[i]);
                assert(self.stack@ =~= waiting.drop_last() + Seq::new(
                    (kids.len() - i) as nat,
                    |j: int| kids[kids.len() - 1 - j],
                ));
            }
            proof {
                let pushed = Seq::new(kids.len(), |j: int| kids[kids.len() - 1 - j]);
                assert(kids == start.node(handle).children);
                assert(start.links_ok(handle));
                start.lemma_wf_agrees(start.root);
                assert forall|c: Handle| #[trigger]
                    pushed.contains(c) <==> start.node(handle).children.contains(c) by {
                    if pushed.contains(c) {
                        let j = choose|j: int| 0 <= j < pushed.len() && pushed[j] == c;
                        assert(kids[kids.len() - 1 - j] == c);
                    }
                    if kids.contains(c) {
                        let j = choose|j: int| 0 <= j < kids.len() && kids[j] == c;
                        assert(pushed[kids.len() - 1 - j] == c);
                    }
                }
                start.lemma_walk_step(start.root, visited, waiting, pushed);
                visited = visited.insert(handle.index as int);
            }
        }
        proof {
            assert(self.stack@ =~= Seq::<Handle>::empty());
            start.lemma_progress_end(self@, visited);
            if start.is_tree() {
                start.lemma_same_shape_tree(self@);
            }
        }
    }

    /// Whether `node` is a node from which parent steps lead to `top`; none,
    /// where `node` is `top`. This is the test that a caller of `link_nodes`
    /// makes of the new parent and the child.
    pub fn is_below(&self, node: Handle, top: Handle) -> (b: bool)
        requires
            self.wf(),
        ensures
            b == self@.descends_from(node, top),
    {
        proof {
            lemma_lift(self.pool@);
            self@.lemma_none_absent();
        }
        if !self.pool.is_valid_handle(node) {
            return false;
        }
        let bound: usize = self.pool.get_capacity();
        let mut at = node;
        let mut steps: usize = 0;
        assert(self@.ancestor(node, 0) == node);
        while steps < bound
            invariant
                self.wf(),
                bound == self@.entries.len(),
                steps <= bound,
                self@.contains(node),
                at == self@.ancestor(node, steps as nat),
                forall|a: nat| a < steps ==> self@.contains(#[trigger] self@.ancestor(node, a))
                    && self@.ancestor(node, a) != top,
            decreases bound - steps,
        {
            proof {
                lemma_lift(self.pool@);
                self@.lemma_none_absent();
            }
            if at == top {
                return true;
            }
            if !self.pool.is_valid_handle(at) {
                proof {
                    self@.lemma_way_ends(node, steps as nat, top);
                }
                return top.is_none();
            }
            let ghost here = at;
            at = self.pool.borrow(at).parent();
            proof {
                self@.lemma_ancestor_add(node, steps as nat, 1);
                assert(self@.ancestor(here, 1) == self@.ancestor(self@.parent_of(here), 0));
            }
            steps = steps + 1;
        }
        proof {
            lemma_lift(self.pool@);
            self@.lemma_none_absent();
        }
        if at == top {
            return true;
        }
        if !self.pool.is_valid_handle(at) {
            proof {
                self@.lemma_way_ends(node, steps as nat, top);
            }
            return top.is_none();
        }
        proof {
            // more nodes than slots: the way goes round, and `top` is not on it
            if self@.descends_from(node, top) {
                let k = choose|k: nat| self@.ancestor(node, k) == top;
                self@.lemma_way_repeats(node, (steps + 1) as nat);
                let (i, j) = choose|i: nat, j: nat|
                    #![trigger self@.ancestor(node, i), self@.ancestor(node, j)]
                    i < j < steps + 1 && self@.ancestor(node, i) == self@.ancestor(node, j);
                self@.lemma_way_cycles(node, i, j, k);
                let e = choose|e: nat|
                    e < j && #[trigger] self@.ancestor(node, e) == self@.ancestor(node, k);
                assert(self@.ancestor(node, e) != top);
            }
        }
        false
    }

    /// Whether the graph has a root and `node` is a node from which parent
    /// steps lead to it. In a tree that is every node.
    pub fn is_below_root(&self, node: Handle) -> (b: bool)
        requires
            self.wf(),
        ensures
            b == self@.below_root(node),
    {
        self.is_valid_handle(self.root) && self.is_below(node, self.root)
    }

    /// The matrix of a node's placement with its scale forced to one in each
    /// direction.
    pub fn local_transform_no_scale(&self, node: Handle) -> (m: T::Matrix)
        requires
            self@.contains(node),
        ensures
            m == part_of(self@.node(node).local_transform, Part::NoScale),
    {
        self.node(node).local_transform().matrix_no_scale()
    }

    /// The world matrix that a node would have if no node from it up to the
    /// root had a scale. It is computed on each call from the placements as
    /// they are now, in as many steps as the node is deep.
    pub fn global_transform_no_scale(&self, node: Handle) -> (m: T::Matrix)
        requires
            self.wf(),
            self@.below_root(node),
        ensures
            m == self@.composed(node, self@.depth(node), Part::NoScale),
        decreases self@.depth(node),
    {
        proof {
            self@.lemma_depth(node);
        }
        let parent = self.node(node).parent();
        if parent.is_some() {
            let above = self.global_transform_no_scale(parent);
            T::product(&above, &self.local_transform_no_scale(node))
        } else {
            self.local_transform_no_scale(node)
        }
    }

    /// The matrix built from a node's position and rotation alone.
    pub fn isometric_local_transform(&self, node: Handle) -> (m: T::Matrix)
        requires
            self@.contains(node),
        ensures
            m == part_of(self@.node(node).local_transform, Part::Isometric),
    {
        self.node(node).local_transform().isometric_matrix()
    }

    /// The world matrix that the positions and rotations alone give, from
    /// the node up to the root. It is computed on each call, in as many steps
    /// as the node is deep.
    pub fn isometric_global_transform(&self, node: Handle) -> (m: T::Matrix)
        requires
            self.wf(),
            self@.below_root(node),
        ensures
            m == self@.composed(node, self@.depth(node), Part::Isometric),
        decreases self@.depth(node),
    {
        proof {
            self@.lemma_depth(node);
        }
        let parent = self.node(node).parent();
        if parent.is_some() {
            let above = self.isometric_global_transform(parent);
            T::product(&above, &self.isometric_local_transform(node))
        } else {
            self.isometric_local_transform(node)
        }
    }

    /// The product of the scale matrices from the root down to the node. It
    /// is computed on each call, in as many steps as the node is deep.
    pub fn global_scale_matrix(&self, node: Handle) -> (m: T::Matrix)
        requires
            self.wf(),
            self@.below_root(node),
        ensures
            m == self@.composed(node, self@.depth(node), Part::Scale),
        decreases self@.depth(node),
    {
        proof {
            self@.lemma_depth(node);
        }
        let current = self.node(node);
        let local_scale_matrix = current.local_transform().scale_matrix();
        if current.parent().is_some() {
            let above = self.global_scale_matrix(current.parent());
            T::product(&above, &local_scale_matrix)
        } else {
            local_scale_matrix
        }
    }

    /// The rotation of a node in the world, read off its world matrix
    /// without scale.
    pub fn global_rotation(&self, node: Handle) -> (r: T::Rotation)
        requires
            self.wf(),
            self@.below_root(node),
        ensures
            r == T::rotation_spec(self@.composed(node, self@.depth(node), Part::NoScale)),
    {
        T::rotation(&self.global_transform_no_scale(node))
    }

    /// The rotation of a node in the world that positions and rotations
    /// alone give.
    pub fn isometric_global_rotation(&self, node: Handle) -> (r: T::Rotation)
        requires
            self.wf(),
            self@.below_root(node),
        ensures
            r == T::rotation_spec(self@.composed(node, self@.depth(node), Part::Isometric)),
    {
        T::rotation(&self.isometric_global_transform(node))
    }

    /// The rotation of a node in the world, scale left out, and its position
    /// in the world as of the last hierarchical update.
    pub fn global_rotation_position_no_scale(&self, node: Handle) -> (r: (T::Rotation, T::Vector))
        requires
            self.wf(),
            self@.below_root(node),
        ensures
            r.0 == T::rotation_spec(self@.composed(node, self@.depth(node), Part::NoScale)),
            r.1 == T::position_spec(self@.node(node).global_transform),
    {
        (self.global_rotation(node), self.node(node).global_position())
    }

    /// The isometric rotation of a node in the world and its position in the
    /// world as of the last hierarchical update.
    pub fn isometric_global_rotation_position(&self, node: Handle) -> (r: (
        T::Rotation,
        T::Vector,
    ))
        requires
            self.wf(),
            self@.below_root(node),
        ensures
            r.0 == T::rotation_spec(self@.composed(node, self@.depth(node), Part::Isometric)),
            r.1 == T::position_spec(self@.node(node).global_transform),
    {
        (self.isometric_global_rotation(node), self.node(node).global_position())
    }

    /// The scale of a node in the world: what the product of the scale
    /// matrices from the root down to it holds.
    pub fn global_scale(&self, node: Handle) -> (v: T::Vector)
        requires
            self.wf(),
            self@.below_root(node),
        ensures
            v == T::scale_spec(self@.composed(node, self@.depth(node), Part::Scale)),
    {
        let m = self.global_scale_matrix(node);
        T::scale(&m)
    }

    /// Cuts `node_handle` from its parent.
    fn unlink_internal(&mut self, node_handle: Handle)
        requires
            old(self).inv(),
            old(self)@.contains(node_handle),
        ensures
            final(self).inv(),
            final(self)@ == old(self)@.detach(node_handle),
    {
        proof {
            lemma_lift(self.pool@);
        }
        let node = self.pool.borrow_mut(node_handle);
        let parent_handle = node.parent();
        node.set_parent(Handle::none());
        proof {
            lemma_lift_restored(old(self).pool@, node_handle.index as int, *node);
        }
        if self.pool.is_valid_handle(parent_handle) {
            let ghost before = self.pool@;
            proof {
                lemma_lift(before);
            }
            let parent = self.pool.borrow_mut(parent_handle);
            parent.remove_child(node_handle);
            proof {
                lemma_lift_restored(before, parent_handle.index as int, *parent);
            }
        }
    }

    /// Cuts `child` from its parent and makes it the last child of `parent`.
    fn link_internal(&mut self, child: Handle, parent: Handle)
        requires
            old(self).inv(),
            old(self)@.contains(child),
            old(self)@.contains(parent),
        ensures
            final(self).inv(),
            final(self)@ == old(self)@.link(child, parent),
    {
        proof {
            self@.lemma_detach(child);
        }
        self.unlink_internal(child);
        let ghost before = self.pool@;
        proof {
            lemma_lift(before);
            assert(self@.contains(child) && self@.contains(parent));
        }
        let node = self.pool.borrow_mut(child);
        node.set_parent(parent);
        proof {
            lemma_lift_restored(before, child.index as int, *node);
        }
        let ghost before = self.pool@;
        proof {
            lemma_lift(before);
            assert(self@.contains(parent));
        }
        let node = self.pool.borrow_mut(parent);
        node.push_child(child);
        proof {
            lemma_lift_restored(before, parent.index as int, *node);
        }
    }
}

impl<T: Transform> Default for Graph<T> {
    /// The graph that holds nothing, not even a root: its root is the
    /// sentinel. Nodes added to it are left without a parent.
    fn default() -> (graph: Graph<T>)
        ensures
            graph.wf(),
            graph@ == GraphModel::<T>::empty(),
    {
        let graph = Graph { pool: Pool::new(), root: Handle::none(), stack: Vec::new() };
        proof {
            lemma_lift(graph.pool@);
            assert(graph@.entries =~= GraphModel::<T>::empty().entries);
        }
        graph
    }
}

impl<T: Transform> vstd::std_specs::core::IndexSpecImpl<Handle> for Graph<T> {
    open spec fn index_req(&self, index: &Handle) -> bool {
        self@.contains(*index)
    }
}

impl<T: Transform> Index<Handle> for Graph<T> {
    type Output = Node<T>;

    /// The node that `index` refers to.
    fn index(&self, index: Handle) -> (node: &Node<T>)
        ensures
            node@ == self@.node(index),
    {
        self.node(index)
    }
}

impl<T: Transform> IndexMut<Handle> for Graph<T> {
    /// The node that `index` refers to, for writing.
    fn index_mut(&mut self, index: Handle) -> (node: &mut Node<T>)
        requires
            old(self).wf(),
            old(self)@.contains(index),
        ensures
            node@ == old(self)@.node(index),
            final(self)@ == old(self)@.with_node(index, final(node)@),
            final(self).inv(),
            final(node)@.same_links(node@) ==> final(self).wf(),
    {
        self.node_mut(index)
    }
}

/// Lifting commutes with replacing a value.
proof fn lemma_lift_restored<T: Transform>(s: Seq<Record<Node<T>>>, i: int, n: Node<T>)
    requires
        0 <= i < s.len(),
    ensures
        lift(restored(s, i, n)) == restored(lift(s), i, n@),
{
    assert(lift(restored(s, i, n)) =~= restored(lift(s), i, n@));
}

/// Lifting keeps the length, the handles that refer to a value, the kinds
/// and the generations.
proof fn lemma_lift<T: Transform>(s: Seq<Record<Node<T>>>)
    ensures
        lift(s).len() == s.len(),
        forall|h: Handle| #[trigger] holds(lift(s), h) == holds(s, h),
        forall|h: Handle| holds(s, h) ==> #[trigger] value_at(lift(s), h) == value_at(s, h)@,
        forall|i: usize| #[trigger] is_reserved(lift(s), i) == is_reserved(s, i),
        forall|i: int|
            0 <= i < s.len() ==> ((#[trigger] lift(s)[i]).slot is Occupied
                <==> s[i].slot is Occupied),
        forall|i: int| 0 <= i < s.len() ==> (#[trigger] lift(s)[i]).generation == s[i].generation,
        generations_ok(s) ==> generations_ok(lift(s)),
        has_vacancy(lift(s)) == has_vacancy(s),
{
    if has_vacancy(s) {
        let i = choose|i: int| is_reusable(s, i);
        assert(is_reusable(lift(s), i));
    }
    if has_vacancy(lift(s)) {
        let i = choose|i: int| is_reusable(lift(s), i);
        assert(is_reusable(s, i));
    }
    if generations_ok(s) {
        assert forall|i: int| 0 <= i < s.len() && !(#[trigger] lift(s)[i].slot is Vacant) implies 1
            <= lift(s)[i].generation < LAST_GENERATION by {
            assert(!(s[i].slot is Vacant));
        }
    }
}

/// Lifting commutes with releasing a slot.
proof fn lemma_lift_released<T: Transform>(s: Seq<Record<Node<T>>>, i: int)
    requires
        0 <= i < s.len(),
    ensures
        lift(released(s, i)) == released(lift(s), i),
{
    assert(lift(released(s, i)) =~= released(lift(s), i));
}

/// Lifting commutes with reserving a slot.
proof fn lemma_lift_reserved<T: Transform>(s: Seq<Record<Node<T>>>, i: int)
    requires
        0 <= i < s.len(),
    ensures
        lift(reserved(s, i)) == reserved(lift(s), i),
{
    assert forall|k: int| 0 <= k < s.len() implies lift(reserved(s, i))[k] == reserved(
        lift(s),
        i,
    )[k] by {
        if k == i {
            assert(reserved(s, i)[k].slot is Reserved);
        }
    }
    assert(lift(reserved(s, i)) =~= reserved(lift(s), i));
}

/// Lifting commutes with storing a value.
proof fn lemma_lift_spawned<T: Transform>(s: Seq<Record<Node<T>>>, h: Handle, n: Node<T>)
    requires
        h.index <= s.len(),
    ensures
        lift(spawned(s, h, n)) == spawned(lift(s), h, n@),
{
    assert(lift(spawned(s, h, n)) =~= spawned(lift(s), h, n@));
}

/// What `lemma_lift_restored` states, of all arguments at once.
proof fn lemma_lift_restored_any<T: Transform>()
    ensures
        forall|s: Seq<Record<Node<T>>>, i: int, n: Node<T>|
            0 <= i < s.len() ==> #[trigger] lift(restored(s, i, n)) == restored(lift(s), i, n@),
{
    assert forall|s: Seq<Record<Node<T>>>, i: int, n: Node<T>|
        0 <= i < s.len() implies #[trigger] lift(restored(s, i, n)) == restored(
        lift(s),
        i,
        n@,
    ) by {
        lemma_lift_restored(s, i, n);
    }
}

/// Refilling a graph with nodes that have the links of those they replace
/// keeps its shape.
proof fn lemma_same_shape_refilled<T: Transform>(m: GraphModel<T>, nodes: Seq<NodeModel<T>>)
    requires
        generations_ok(m.entries),
        nodes.len() == live_handles(m.entries).len(),
    ensures
        (forall|k: int|
            0 <= k < nodes.len() ==> nodes[k].same_links(
                m.node(#[trigger] live_handles(m.entries)[k]),
            )) ==> m.same_shape(GraphModel { entries: refilled(m.entries, nodes), root: m.root }),
{
    let other = GraphModel { entries: refilled(m.entries, nodes), root: m.root };
    lemma_refilled(m.entries, nodes);
    lemma_live_handles(m.entries);
    if forall|k: int|
        0 <= k < nodes.len() ==> nodes[k].same_links(
            m.node(#[trigger] live_handles(m.entries)[k]),
        ) {
        assert forall|h: Handle| #[trigger] m.contains(h) implies m.node(h).same_links(
            other.node(h),
        ) by {
            assert(live_handles(m.entries).contains(h));
            let k = choose|k: int| 0 <= k < live_handles(m.entries).len() && live_handles(
                m.entries,
            )[k] == h;
            assert(nodes[k].same_links(m.node(live_handles(m.entries)[k])));
            assert(other.node(live_handles(m.entries)[k]) == nodes[k]);
        }
        assert forall|i: int| 0 <= i < m.entries.len() implies ((
        #[trigger] other.entries[i]).slot is Vacant <==> m.entries[i].slot is Vacant) by {}
    }
}

/// Lifting keeps the handles that refer to a value.
proof fn lemma_lift_live<T: Transform>(s: Seq<Record<Node<T>>>)
    ensures
        live_handles(lift(s)) == live_handles(s),
    decreases s.len(),
{
    if s.len() > 0 {
        lemma_lift_live(s.drop_last());
        assert(lift(s).drop_last() =~= lift(s.drop_last()));
    }
}

/// Lifting commutes with refilling.
proof fn lemma_lift_refilled<T: Transform>(s: Seq<Record<Node<T>>>, nodes: Seq<Node<T>>)
    requires
        nodes.len() == live_handles(s).len(),
    ensures
        lift(refilled(s, nodes)) == refilled(lift(s), views(nodes)),
    decreases s.len(),
{
    if s.len() > 0 {
        let front = s.drop_last();
        assert(lift(s).drop_last() =~= lift(front));
        lemma_lift_live(front);
        if s.last().slot is Occupied {
            lemma_lift_refilled(front, nodes.drop_last());
            assert(views(nodes).drop_last() =~= views(nodes.drop_last()));
        } else {
            lemma_lift_refilled(front, nodes);
        }
        assert(lift(refilled(s, nodes)) =~= refilled(lift(s), views(nodes)));
    } else {
        assert(lift(refilled(s, nodes)) =~= refilled(lift(s), views(nodes)));
    }
}

/// What `lemma_lift_refilled` states, of all nodes at once.
proof fn lemma_lift_refilled_any<T: Transform>(s: Seq<Record<Node<T>>>)
    ensures
        live_handles(lift(s)) == live_handles(s),
        forall|nodes: Seq<Node<T>>|
            nodes.len() == live_handles(s).len() ==> #[trigger] lift(refilled(s, nodes))
                == refilled(lift(s), views(nodes)),
{
    lemma_lift_live(s);
    assert forall|nodes: Seq<Node<T>>| nodes.len() == live_handles(s).len() implies #[trigger] lift(
        refilled(s, nodes),
    ) == refilled(lift(s), views(nodes)) by {
        lemma_lift_refilled(s, nodes);
    }
}

} // verus!
