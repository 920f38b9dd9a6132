//! The nodes of a scene graph.

use crate::handle::Handle;
use crate::transform::Transform;
use vstd::prelude::*;

verus! {

/// A node as the contracts see it.
pub struct NodeModel<T: Transform> {
    pub name: Seq<char>,
    /// The node that lists this one as a child, or the sentinel.
    pub parent: Handle,
    /// The nodes that this one owns, in traversal order.
    pub children: Seq<Handle>,
    /// The placement relative to the parent.
    pub local_transform: T,
    /// Whether the node itself is visible.
    pub visibility: bool,
    /// The placement in the world, as of the last hierarchical update.
    pub global_transform: T::Matrix,
    /// Whether the node and all above it were visible, as of the last
    /// hierarchical update.
    pub global_visibility: bool,
}

impl<T: Transform> NodeModel<T> {
    /// `self` and `other` differ at most in what a hierarchical update
    /// computes.
    pub open spec fn same_but_globals(self, other: Self) -> bool {
        other == (NodeModel {
            global_transform: other.global_transform,
            global_visibility: other.global_visibility,
            ..self
        })
    }

    /// `self` and `other` have the same parent and the same children.
    pub open spec fn same_links(self, other: Self) -> bool {
        self.parent == other.parent && self.children == other.children
    }
}

/// A node of a scene graph: a named placement with its links into the
/// hierarchy and the values that the last hierarchical update derived for it.
///
/// The links are written by the graph alone.
pub struct Node<T: Transform> {
    name: String,
    parent: Handle,
    children: Vec<Handle>,
    local_transform: T,
    visibility: bool,
    global_transform: T::Matrix,
    global_visibility: bool,
}

impl<T: Transform> View for Node<T> {
    type V = NodeModel<T>;

    closed spec fn view(&self) -> NodeModel<T> {
        NodeModel {
            name: self.name@,
            parent: self.parent,
            children: self.children@,
            local_transform: self.local_transform,
            visibility: self.visibility,
            global_transform: self.global_transform,
            global_visibility: self.global_visibility,
        }
    }
}

impl<T: Transform> Node<T> {
    /// A visible, unnamed node without links, placed at `local_transform`.
    pub fn new(local_transform: T) -> (node: Node<T>)
        ensures
            node@ == (NodeModel {
                name: Seq::<char>::empty(),
                parent: Handle::none(),
                children: Seq::<Handle>::empty(),
                local_transform,
                visibility: true,
                global_transform: T::identity_spec(),
                global_visibility: true,
            }),
    {
        Node {
            name: String::new(),
            parent: Handle::none(),
            children: Vec::new(),
            local_transform,
            visibility: true,
            global_transform: T::identity(),
            global_visibility: true,
        }
    }

    /// The name of the node; empty unless one was set.
    pub fn name(&self) -> (name: &str)
        ensures
            name@ == self@.name,
    {
        self.name.as_str()
    }

    /// Names the node.
    pub fn set_name(&mut self, name: &str)
        ensures
            final(self)@ == (NodeModel { name: name@, ..old(self)@ }),
    {
        self.name = name.to_owned();
    }

    /// The node that lists this one as a child, or the sentinel.
    pub fn parent(&self) -> (parent: Handle)
        ensures
            parent == self@.parent,
    {
        self.parent
    }

    /// The nodes that this one owns, in traversal order.
    pub fn children(&self) -> (children: &Vec<Handle>)
        ensures
            children@ == self@.children,
    {
        &self.children
    }

    /// The placement relative to the parent.
    pub fn local_transform(&self) -> (t: &T)
        ensures
            *t == self@.local_transform,
    {
        &self.local_transform
    }

    /// The placement, for writing. Nothing else of the node changes.
    pub fn local_transform_mut(&mut self) -> (t: &mut T)
        ensures
            *t == old(self)@.local_transform,
            final(self)@ == (NodeModel { local_transform: *final(t), ..old(self)@ }),
    {
        &mut self.local_transform
    }

    /// Whether the node itself is visible.
    pub fn visibility(&self) -> (v: bool)
        ensures
            v == self@.visibility,
    {
        self.visibility
    }

    /// Shows or hides the node itself.
    pub fn set_visibility(&mut self, visibility: bool)
        ensures
            final(self)@ == (NodeModel { visibility, ..old(self)@ }),
    {
        self.visibility = visibility;
    }

    /// The placement in the world that the last hierarchical update left.
    pub fn global_transform(&self) -> (m: T::Matrix)
        ensures
            m == self@.global_transform,
    {
        self.global_transform
    }

    /// The position in the world that the last hierarchical update left.
    pub fn global_position(&self) -> (p: T::Vector)
        ensures
            p == T::position_spec(self@.global_transform),
    {
        T::position(&self.global_transform)
    }

    /// The visibility that the last hierarchical update left.
    pub fn global_visibility(&self) -> (v: bool)
        ensures
            v == self@.global_visibility,
    {
        self.global_visibility
    }

    /// Stores what a hierarchical update derived for this node.
    pub fn set_global(&mut self, transform: T::Matrix, visibility: bool)
        ensures
            final(self)@ == (NodeModel {
                global_transform: transform,
                global_visibility: visibility,
                ..old(self)@
            }),
    {
        self.global_transform = transform;
        self.global_visibility = visibility;
    }

    /// Names `parent` as the parent.
    pub(crate) fn set_parent(&mut self, parent: Handle)
        ensures
            final(self)@ == (NodeModel { parent, ..old(self)@ }),
    {
        self.parent = parent;
    }

    /// Lists `child` as the last child.
    pub(crate) fn push_child(&mut self, child: Handle)
        ensures
            final(self)@ == (NodeModel { children: old(self)@.children.push(child), ..old(self)@ }),
    {
        self.children.push(child);
    }

    /// Takes the first entry equal to `child` out of the children, if there
    /// is one.
    pub(crate) fn remove_child(&mut self, child: Handle)
        ensures
            final(self)@ == (NodeModel {
                children: old(self)@.children.remove_value(child),
                ..old(self)@
            }),
    {
        let mut i: usize = 0;
        while i < self.children.len()
            invariant
                *self == *old(self),
                i <= self.children@.len(),
                forall|k: int| 0 <= k < i ==> self.children@[k] != child,
            decreases self.children@.len() - i,
        {
            if self.children[i] == child {
                proof {
                    self.children@.index_of_first_ensures(child);
                    let first = self.children@.index_of_first(child);
                    assert(first == Some(i as int));
                }
                self.children.remove(i);
                return ;
            }
            i = i + 1;
        }
        proof {
            self.children@.index_of_first_ensures(child);
            assert(!self.children@.contains(child));
        }
    }

    /// Empties the children and returns what they were.
    pub(crate) fn take_children(&mut self) -> (children: Vec<Handle>)
        ensures
            children@ == old(self)@.children,
            final(self)@ == (NodeModel { children: Seq::<Handle>::empty(), ..old(self)@ }),
    {
        let mut children: Vec<Handle> = Vec::new();
        std::mem::swap(&mut self.children, &mut children);
        children
    }
}

} // verus!
