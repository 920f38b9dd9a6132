//! Walks down the hierarchy, parent before child: the invariant that the
//! removal of a subtree and the hierarchical update share, and the steps of
//! the update.

use crate::handle::Handle;
use crate::model::GraphModel;
use crate::node::NodeModel;
use crate::pool::handle_at;
use crate::transform::Transform;
use vstd::prelude::*;

verus! {

impl<T: Transform> GraphModel<T> {
    /// `s` waits to be visited in a walk down from `top`: it is a node below
    /// `top` that was not visited, and its parent was, unless it is `top`.
    pub open spec fn pending(self, top: Handle, visited: Set<int>, s: Handle) -> bool {
        &&& self.contains(s)
        &&& !visited.contains(s.index as int)
        &&& self.descends_from(s, top)
        &&& (s != top ==> self.contains(self.node(s).parent) && visited.contains(
            self.node(s).parent.index as int,
        ))
    }

    /// The visited slots hold nodes below `top`, and each visited node but
    /// `top` has a visited parent.
    #[verifier::opaque]
    pub open spec fn visited_ok(self, top: Handle, visited: Set<int>) -> bool {
        &&& visited.finite()
        &&& forall|i: int| #[trigger]
            visited.contains(i) ==> 0 <= i < self.entries.len() && self.entries[i].slot is Occupied
                && self.descends_from(handle_at(self.entries, i), top)
        &&& forall|x: Handle| #[trigger]
            self.contains(x) && visited.contains(x.index as int) && x != top ==> self.contains(
                self.node(x).parent,
            ) && visited.contains(self.node(x).parent.index as int)
    }

    /// Nothing waits twice, and what waits is pending.
    #[verifier::opaque]
    pub open spec fn stack_ok(self, top: Handle, visited: Set<int>, stack: Seq<Handle>) -> bool {
        &&& stack.no_duplicates()
        &&& forall|k: int| 0 <= k < stack.len() ==> self.pending(top, visited, #[trigger] stack[k])
    }

    /// Every child of a visited node is visited or waits.
    #[verifier::opaque]
    pub open spec fn children_seen(self, visited: Set<int>, stack: Seq<Handle>) -> bool {
        forall|x: Handle, j: int|
            self.contains(x) && visited.contains(x.index as int) && 0 <= j < self.node(
                x,
            ).children.len() ==> visited.contains(
                (#[trigger] self.node(x).children[j]).index as int,
            ) || stack.contains(self.node(x).children[j])
    }

    /// The state of a walk down from `top` that visits a node only after its
    /// parent: `visited` holds the slots of the nodes visited so far, `stack`
    /// the nodes that wait.
    pub open spec fn walk_ok(self, top: Handle, visited: Set<int>, stack: Seq<Handle>) -> bool {
        &&& self.visited_ok(top, visited)
        &&& self.stack_ok(top, visited, stack)
        &&& self.children_seen(visited, stack)
        &&& (visited.contains(top.index as int) || stack.contains(top))
    }

    /// What waits on top of the stack is pending.
    pub proof fn lemma_walk_top(self, top: Handle, visited: Set<int>, stack: Seq<Handle>)
        requires
            self.walk_ok(top, visited, stack),
            stack.len() > 0,
        ensures
            self.pending(top, visited, stack.last()),
    {
        reveal(GraphModel::stack_ok);
        assert(self.pending(top, visited, stack[stack.len() - 1]));
    }

    /// A visited node other than `top` has a visited parent.
    pub proof fn lemma_walk_parent(self, top: Handle, visited: Set<int>, x: Handle)
        requires
            self.visited_ok(top, visited),
            self.contains(x),
            visited.contains(x.index as int),
            x != top,
        ensures
            self.contains(self.node(x).parent),
            visited.contains(self.node(x).parent.index as int),
    {
        reveal(GraphModel::visited_ok);
    }

    /// Parent steps from the sentinel lead nowhere.
    pub proof fn lemma_ancestor_of_none(self, k: nat)
        requires
            !self.contains(Handle::none()),
        ensures
            self.ancestor(Handle::none(), k) == Handle::none(),
        decreases k,
    {
        if k > 0 {
            self.lemma_ancestor_of_none((k - 1) as nat);
        }
    }

    /// Parent steps add up.
    pub proof fn lemma_ancestor_add(self, h: Handle, a: nat, b: nat)
        ensures
            self.ancestor(h, a + b) == self.ancestor(self.ancestor(h, a), b),
        decreases a,
    {
        if a > 0 {
            self.lemma_ancestor_add(self.parent_of(h), (a - 1) as nat, b);
            assert(self.ancestor(h, a + b) == self.ancestor(self.parent_of(h), (a + b - 1) as nat));
        }
    }

    /// Only one number of parent steps leads from a node to the root.
    pub proof fn lemma_depth_unique(self, h: Handle, a: nat, b: nat)
        requires
            self.wf(),
            self.contains(self.root),
            self.ancestor(h, a) == self.root,
            self.ancestor(h, b) == self.root,
        ensures
            a == b,
    {
        self.lemma_none_absent();
        if a < b {
            self.lemma_ancestor_add(h, a, (b - a) as nat);
            assert(self.ancestor(self.root, (b - a) as nat) == self.ancestor(
                self.parent_of(self.root),
                (b - a - 1) as nat,
            ));
            self.lemma_ancestor_of_none((b - a - 1) as nat);
        } else if b < a {
            self.lemma_ancestor_add(h, b, (a - b) as nat);
            assert(self.ancestor(self.root, (a - b) as nat) == self.ancestor(
                self.parent_of(self.root),
                (a - b - 1) as nat,
            ));
            self.lemma_ancestor_of_none((a - b - 1) as nat);
        }
    }

    /// The depth of a node below the root: none for the root, and one more
    /// than its parent's for any other, whose parent is below the root too.
    pub proof fn lemma_depth(self, h: Handle)
        requires
            self.wf(),
            self.contains(self.root),
            self.descends_from(h, self.root),
        ensures
            self.ancestor(h, self.depth(h)) == self.root,
            h == self.root <==> self.depth(h) == 0,
            h == self.root <==> self.node(h).parent.is_none(),
            h != self.root ==> self.descends_from(self.node(h).parent, self.root) && self.depth(
                self.node(h).parent,
            ) + 1 == self.depth(h),
    {
        let k = self.depth(h);
        self.lemma_none_absent();
        assert(self.links_ok(h));
        if h == self.root {
            assert(self.ancestor(h, 0) == self.root);
            self.lemma_depth_unique(h, 0, k);
        } else {
            let p = self.node(h).parent;
            assert(k > 0);
            assert(self.ancestor(h, k) == self.ancestor(self.parent_of(h), (k - 1) as nat));
            if !self.contains(p) {
                if k - 1 > 0 {
                    assert(self.ancestor(p, (k - 1) as nat) == self.ancestor(
                        self.parent_of(p),
                        (k - 2) as nat,
                    ));
                    self.lemma_ancestor_of_none((k - 2) as nat);
                }
            }
            assert(self.descends_from(p, self.root));
            self.lemma_depth_unique(p, (k - 1) as nat, self.depth(p));
        }
    }

    /// A node descends from what its parent descends from.
    pub proof fn lemma_child_descends(self, c: Handle, top: Handle)
        requires
            self.contains(c),
            self.descends_from(self.node(c).parent, top),
        ensures
            self.descends_from(c, top),
    {
        let k = choose|k: nat| self.ancestor(self.node(c).parent, k) == top;
        assert(self.ancestor(c, k + 1) == self.ancestor(self.parent_of(c), k));
    }

    /// A walk starts with its top waiting and nothing visited.
    pub proof fn lemma_walk_start(self, top: Handle)
        requires
            self.contains(top),
        ensures
            self.walk_ok(top, Set::<int>::empty(), seq![top]),
    {
        reveal(GraphModel::visited_ok);
        reveal(GraphModel::stack_ok);
        reveal(GraphModel::children_seen);
        let stack = seq![top];
        assert(self.ancestor(top, 0) == top);
        assert(stack[0] == top);
    }

    /// What holds of a child of the node on top of the stack.
    pub proof fn lemma_walk_child(
        self,
        top: Handle,
        visited: Set<int>,
        stack: Seq<Handle>,
        c: Handle,
    )
        requires
            self.links_agree(),
            !self.contains(self.node(top).parent),
            self.walk_ok(top, visited, stack),
            stack.len() > 0,
            self.node(stack.last()).children.contains(c),
        ensures
            self.owns(stack.last(), c),
            c != top,
            c.index != stack.last().index,
            !visited.contains(c.index as int),
            !stack.contains(c),
            self.pending(top, visited.insert(stack.last().index as int), c),
    {
        reveal(GraphModel::visited_ok);
        reveal(GraphModel::stack_ok);
        let s = stack.last();
        let kids = self.node(s).children;
        assert(self.pending(top, visited, stack[stack.len() - 1]));
        assert(self.agrees(s));
        let j = choose|j: int| 0 <= j < kids.len() && kids[j] == c;
        assert(self.owns(s, kids[j]));
        if visited.contains(c.index as int) {
            assert(self.contains(c));
        }
        if stack.contains(c) {
            let k = choose|k: int| 0 <= k < stack.len() && stack[k] == c;
            assert(self.pending(top, visited, stack[k]));
        }
        self.lemma_child_descends(c, top);
    }

    /// The part of a step that concerns the visited slots.
    proof fn lemma_walk_step_visited(self, top: Handle, visited: Set<int>, stack: Seq<Handle>)
        requires
            self.walk_ok(top, visited, stack),
            stack.len() > 0,
        ensures
            self.visited_ok(top, visited.insert(stack.last().index as int)),
            visited.len() < self.entries.len(),
            visited.insert(stack.last().index as int).len() == visited.len() + 1,
    {
        reveal(GraphModel::visited_ok);
        reveal(GraphModel::stack_ok);
        let s = stack.last();
        let v2 = visited.insert(s.index as int);
        assert(self.pending(top, visited, stack[stack.len() - 1]));
        vstd::set_lib::lemma_int_range(0, self.entries.len() as int);
        let all = vstd::set_lib::set_int_range(0, self.entries.len() as int);
        assert(v2.subset_of(all)) by {
            assert forall|i: int| v2.contains(i) implies all.contains(i) by {
                if i != s.index {
                    assert(visited.contains(i));
                }
            }
        }
        vstd::set_lib::lemma_len_subset(v2, all);
        assert forall|i: int| #[trigger] v2.contains(i) implies 0 <= i < self.entries.len()
            && self.entries[i].slot is Occupied && self.descends_from(
            handle_at(self.entries, i),
            top,
        ) by {
            if i == s.index {
                assert(handle_at(self.entries, i) == s);
            } else {
                assert(visited.contains(i));
            }
        }
        assert forall|x: Handle| #[trigger]
            self.contains(x) && v2.contains(x.index as int) && x != top implies self.contains(
            self.node(x).parent,
        ) && v2.contains(self.node(x).parent.index as int) by {
            if x.index == s.index {
                assert(x == s);
            }
        }
    }

    /// The part of a step that concerns the stack.
    proof fn lemma_walk_step_stack(
        self,
        top: Handle,
        visited: Set<int>,
        stack: Seq<Handle>,
        pushed: Seq<Handle>,
    )
        requires
            self.links_agree(),
            !self.contains(self.node(top).parent),
            self.walk_ok(top, visited, stack),
            stack.len() > 0,
            pushed.no_duplicates(),
            forall|c: Handle| #[trigger]
                pushed.contains(c) <==> self.node(stack.last()).children.contains(c),
        ensures
            self.stack_ok(
                top,
                visited.insert(stack.last().index as int),
                stack.drop_last() + pushed,
            ),
    {
        reveal(GraphModel::stack_ok);
        let s = stack.last();
        let rest = stack.drop_last();
        let v2 = visited.insert(s.index as int);
        let st2 = rest + pushed;
        assert forall|a: int, b: int|
            0 <= a < st2.len() && 0 <= b < st2.len() && a != b implies st2[a] != st2[b] by {
            if a < rest.len() && b < rest.len() {
                assert(stack[a] != stack[b]);
            } else if a >= rest.len() && b >= rest.len() {
                assert(pushed[a - rest.len()] != pushed[b - rest.len()]);
            } else if a < rest.len() {
                let c = pushed[b - rest.len()];
                assert(pushed.contains(c));
                self.lemma_walk_child(top, visited, stack, c);
                assert(stack[a] == rest[a]);
            } else {
                let c = pushed[a - rest.len()];
                assert(pushed.contains(c));
                self.lemma_walk_child(top, visited, stack, c);
                assert(stack[b] == rest[b]);
            }
        }
        assert forall|k: int| 0 <= k < st2.len() implies self.pending(
            top,
            v2,
            #[trigger] st2[k],
        ) by {
            if k < rest.len() {
                assert(st2[k] == stack[k]);
                assert(self.pending(top, visited, stack[k]));
                assert(stack[k] != stack[stack.len() - 1]);
                assert(self.pending(top, visited, stack[stack.len() - 1]));
                assert(stack[k].index != s.index);
            } else {
                let c = pushed[k - rest.len()];
                assert(pushed.contains(c));
                self.lemma_walk_child(top, visited, stack, c);
            }
        }
    }

    /// The part of a step that concerns the children of visited nodes.
    proof fn lemma_walk_step_children(
        self,
        top: Handle,
        visited: Set<int>,
        stack: Seq<Handle>,
        pushed: Seq<Handle>,
        x: Handle,
        j: int,
    )
        requires
            self.walk_ok(top, visited, stack),
            stack.len() > 0,
            forall|c: Handle| #[trigger]
                pushed.contains(c) <==> self.node(stack.last()).children.contains(c),
            self.contains(x),
            visited.insert(stack.last().index as int).contains(x.index as int),
            0 <= j < self.node(x).children.len(),
        ensures
            visited.insert(stack.last().index as int).contains(
                self.node(x).children[j].index as int,
            ) || (stack.drop_last() + pushed).contains(self.node(x).children[j]),
    {
        reveal(GraphModel::stack_ok);
        reveal(GraphModel::children_seen);
        let s = stack.last();
        let rest = stack.drop_last();
        let st2 = rest + pushed;
        let c = self.node(x).children[j];
        assert(self.pending(top, visited, stack[stack.len() - 1]));
        if x.index == s.index {
            assert(x == s);
            assert(self.node(s).children.contains(c));
            assert(pushed.contains(c));
            let i = choose|i: int| 0 <= i < pushed.len() && pushed[i] == c;
            assert(st2[rest.len() + i] == c);
        } else {
            assert(visited.contains(x.index as int));
            if !visited.contains(c.index as int) {
                assert(stack.contains(c));
                let k = choose|k: int| 0 <= k < stack.len() && stack[k] == c;
                if k == stack.len() - 1 {
                } else {
                    assert(st2[k] == c);
                }
            }
        }
    }

    /// One step of a walk: the node on top of the stack is visited, and its
    /// children, in any order, wait in its place.
    pub proof fn lemma_walk_step(
        self,
        top: Handle,
        visited: Set<int>,
        stack: Seq<Handle>,
        pushed: Seq<Handle>,
    )
        requires
            self.links_agree(),
            !self.contains(self.node(top).parent),
            self.walk_ok(top, visited, stack),
            stack.len() > 0,
            pushed.no_duplicates(),
            forall|c: Handle| #[trigger]
                pushed.contains(c) <==> self.node(stack.last()).children.contains(c),
        ensures
            self.walk_ok(
                top,
                visited.insert(stack.last().index as int),
                stack.drop_last() + pushed,
            ),
            visited.len() < self.entries.len(),
            visited.insert(stack.last().index as int).len() == visited.len() + 1,
    {
        let s = stack.last();
        let v2 = visited.insert(s.index as int);
        let st2 = stack.drop_last() + pushed;
        self.lemma_walk_step_visited(top, visited, stack);
        self.lemma_walk_step_stack(top, visited, stack, pushed);
        assert(self.children_seen(v2, st2)) by {
            assert forall|x: Handle, j: int|
                self.contains(x) && v2.contains(x.index as int) && 0 <= j < self.node(
                    x,
                ).children.len() implies v2.contains(
                (#[trigger] self.node(x).children[j]).index as int,
            ) || st2.contains(self.node(x).children[j]) by {
                self.lemma_walk_step_children(top, visited, stack, pushed, x, j);
            }
            reveal(GraphModel::children_seen);
        }
        assert(v2.contains(top.index as int) || st2.contains(top)) by {
            if !v2.contains(top.index as int) {
                assert(stack.contains(top));
                let k = choose|k: int| 0 <= k < stack.len() && stack[k] == top;
                assert(st2[k] == top);
            }
        }
    }

    /// Once nothing waits, every node below `top` was visited.
    pub proof fn lemma_walk_reaches(self, top: Handle, visited: Set<int>, x: Handle, k: nat)
        requires
            self.links_agree(),
            self.contains(top),
            self.walk_ok(top, visited, Seq::<Handle>::empty()),
            self.contains(x),
            self.ancestor(x, k) == top,
        ensures
            visited.contains(x.index as int),
        decreases k,
    {
        reveal(GraphModel::children_seen);
        if k == 0 {
            assert(!Seq::<Handle>::empty().contains(top));
        } else {
            let y = self.node(x).parent;
            assert(self.ancestor(x, k) == self.ancestor(self.parent_of(x), (k - 1) as nat));
            if !self.contains(y) {
                if k - 1 > 0 {
                    assert(self.ancestor(y, (k - 1) as nat) == self.ancestor(
                        self.parent_of(y),
                        (k - 2) as nat,
                    ));
                    if self.contains(Handle::none()) {
                        assert(!(self.entries[0].slot is Vacant));
                    }
                    self.lemma_ancestor_of_none((k - 2) as nat);
                }
            } else {
                self.lemma_walk_reaches(top, visited, y, (k - 1) as nat);
                assert(self.agrees(x));
                let kids = self.node(y).children;
                let j = choose|j: int| 0 <= j < kids.len() && kids[j] == x;
                assert(visited.contains(self.node(y).children[j].index as int) || Seq::<
                    Handle,
                >::empty().contains(self.node(y).children[j]));
            }
        }
    }

    /// Once nothing waits, the visited slots are exactly those of the nodes
    /// below `top`.
    pub proof fn lemma_walk_end(self, top: Handle, visited: Set<int>)
        requires
            self.links_agree(),
            self.contains(top),
            self.walk_ok(top, visited, Seq::<Handle>::empty()),
        ensures
            forall|i: int|
                0 <= i < self.entries.len() ==> (#[trigger] visited.contains(i)
                    <==> self.entries[i].slot is Occupied && self.descends_from(
                    handle_at(self.entries, i),
                    top,
                )),
    {
        assert forall|i: int| 0 <= i < self.entries.len() implies (#[trigger] visited.contains(i)
            <==> self.entries[i].slot is Occupied && self.descends_from(
            handle_at(self.entries, i),
            top,
        )) by {
            reveal(GraphModel::visited_ok);
            let x = handle_at(self.entries, i);
            if self.entries[i].slot is Occupied && self.descends_from(x, top) {
                let k = choose|k: nat| self.ancestor(x, k) == top;
                self.lemma_walk_reaches(top, visited, x, k);
            }
        }
    }

    /// The state `cur` of a hierarchical update of `self` that has visited
    /// `visited`: nothing but derived values has changed, the derived values
    /// of the visited nodes are what their parents' give, and the other
    /// nodes are as they were.
    pub open spec fn progress(self, cur: Self, visited: Set<int>) -> bool {
        &&& cur.root == self.root
        &&& cur.entries.len() == self.entries.len()
        &&& forall|i: int|
            0 <= i < self.entries.len() ==> (#[trigger] cur.entries[i]).generation
                == self.entries[i].generation
        &&& forall|i: int|
            0 <= i < self.entries.len() ==> ((#[trigger] cur.entries[i]).slot is Occupied
                <==> self.entries[i].slot is Occupied) && (cur.entries[i].slot is Reserved
                <==> self.entries[i].slot is Reserved)
        &&& forall|h: Handle| #[trigger]
            self.contains(h) ==> self.node(h).same_but_globals(cur.node(h))
        &&& forall|h: Handle| #[trigger]
            self.contains(h) && visited.contains(h.index as int) ==> cur.derived_ok(h)
        &&& forall|h: Handle| #[trigger]
            self.contains(h) && !visited.contains(h.index as int) ==> cur.node(h) == self.node(h)
    }

    /// The node `h` with the derived values that its parent's derived values
    /// and its own placement and visibility give.
    pub open spec fn derived(self, h: Handle) -> NodeModel<T> {
        let n = self.node(h);
        NodeModel {
            global_transform: T::product_spec(
                self.inherited_transform(n.parent),
                n.local_transform.matrix_spec(),
            ),
            global_visibility: self.inherited_visibility(n.parent) && n.visibility,
            ..n
        }
    }

    /// An update starts with nothing changed.
    pub proof fn lemma_progress_start(self)
        ensures
            self.progress(self, Set::<int>::empty()),
    {
    }

    /// One step of an update: the node on top of the stack gets its derived
    /// values. Its parent has them already, so they are final.
    pub proof fn lemma_progress_step(self, cur: Self, visited: Set<int>, stack: Seq<Handle>)
        requires
            self.wf(),
            self.contains(self.root),
            self.walk_ok(self.root, visited, stack),
            self.progress(cur, visited),
            stack.len() > 0,
        ensures
            cur.contains(stack.last()),
            self.progress(
                cur.with_node(stack.last(), cur.derived(stack.last())),
                visited.insert(stack.last().index as int),
            ),
    {
        let s = stack.last();
        let n = cur.derived(s);
        let next = cur.with_node(s, n);
        let v2 = visited.insert(s.index as int);
        self.lemma_walk_top(self.root, visited, stack);
        assert(self.contains(s));
        assert(self.node(s).same_but_globals(cur.node(s)));
        assert(cur.entries[s.index as int].generation == self.entries[s.index as int].generation);
        assert(cur.contains(s));
        cur.lemma_with_node(s, n);
        self.lemma_none_absent();
        assert forall|h: Handle| self.contains(h) == #[trigger] cur.contains(h) by {
            if h.index < self.entries.len() {
                assert(cur.entries[h.index as int].generation
                    == self.entries[h.index as int].generation);
            }
        }
        assert forall|h: Handle| #[trigger] self.contains(h) implies self.node(h).same_but_globals(
            next.node(h),
        ) by {
            assert(cur.contains(h));
            assert(self.node(h).same_but_globals(cur.node(h)));
        }
        assert forall|h: Handle| #[trigger]
            self.contains(h) && v2.contains(h.index as int) implies next.derived_ok(h) by {
            assert(cur.contains(h));
            assert(self.node(h).same_but_globals(cur.node(h)));
            let p = next.node(h).parent;
            assert(p == self.node(h).parent);
            if h.index == s.index {
                assert(h == s);
                if s != self.root {
                    assert(p != s);
                    assert(cur.contains(p));
                } else {
                    assert(!cur.contains(p));
                }
            } else {
                assert(visited.contains(h.index as int));
                assert(cur.derived_ok(h));
                if h != self.root {
                    self.lemma_walk_parent(self.root, visited, h);
                    assert(p != s);
                    assert(cur.contains(p));
                } else {
                    assert(!cur.contains(p));
                }
            }
        }
        assert forall|h: Handle| #[trigger]
            self.contains(h) && !v2.contains(h.index as int) implies next.node(h) == self.node(
            h,
        ) by {
            assert(cur.contains(h));
        }
    }

    /// When nothing waits the update is done.
    pub proof fn lemma_progress_end(self, cur: Self, visited: Set<int>)
        requires
            self.wf(),
            self.contains(self.root),
            self.walk_ok(self.root, visited, Seq::<Handle>::empty()),
            self.progress(cur, visited),
        ensures
            self.propagated(cur),
            self.same_shape(cur),
            cur.wf(),
    {
        self.lemma_walk_end(self.root, visited);
        assert forall|h: Handle| #[trigger]
            self.contains(h) && self.descends_from(h, self.root) implies cur.derived_ok(h) by {
            assert(handle_at(self.entries, h.index as int) == h);
            assert(visited.contains(h.index as int));
        }
        assert forall|h: Handle| #[trigger]
            self.contains(h) && !self.descends_from(h, self.root) implies cur.node(h) == self.node(
            h,
        ) by {
            assert(handle_at(self.entries, h.index as int) == h);
            assert(!visited.contains(h.index as int));
        }
        assert forall|i: int| 0 <= i < self.entries.len() implies ((
        #[trigger] cur.entries[i]).slot is Vacant <==> self.entries[i].slot is Vacant) by {}
        self.lemma_same_links_wf(cur);
    }
}

} // verus!
