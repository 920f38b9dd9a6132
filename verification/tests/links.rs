use scene2d::graph::Graph;
use scene2d::handle::Handle;
use scene2d::lattice::Placement;
use scene2d::node::Node;

fn leaf(graph: &mut Graph<Placement>, x: i64, y: i64) -> Handle {
    graph.add_node(Node::new(Placement::at(x, y)))
}

/// Every node reaches the root by parent steps, and the root has no parent.
fn is_one_tree(graph: &Graph<Placement>) -> bool {
    let root = graph.get_root();
    if graph[root].parent() != Handle::none() {
        return false;
    }
    for (handle, _) in graph.pair_iter() {
        let mut at = handle;
        let mut steps = 0;
        while at != root {
            if !graph.is_valid_handle(at) || steps > graph.capacity() {
                return false;
            }
            at = graph[at].parent();
            steps += 1;
        }
    }
    true
}

/// A node lists another exactly if that one names it as its parent, and no
/// handle is listed twice anywhere.
fn links_mirror(graph: &Graph<Placement>) -> bool {
    let pairs = graph.pair_iter();
    let mut listed: Vec<Handle> = Vec::new();
    for (a, node) in pairs.iter() {
        for child in node.children().iter() {
            if !graph.is_valid_handle(*child) || graph[*child].parent() != *a {
                return false;
            }
            if listed.contains(child) {
                return false;
            }
            listed.push(*child);
        }
    }
    for (b, node) in pairs.iter() {
        let parent = node.parent();
        if graph.is_valid_handle(parent) && !graph[parent].children().contains(b) {
            return false;
        }
    }
    true
}

#[test]
fn new_graph_holds_only_its_root() {
    let graph: Graph<Placement> = Graph::new();
    let root = graph.get_root();
    assert!(graph.is_valid_handle(root));
    assert_eq!(root, Handle::new(0, 1));
    assert_eq!(graph.capacity(), 1);
    assert_eq!(graph[root].name(), "__ROOT__");
    assert_eq!(graph[root].parent(), Handle::none());
    assert!(graph[root].children().is_empty());
    assert_eq!(*graph[root].local_transform(), Placement::at(0, 0));
    assert!(graph[root].visibility());
    assert_eq!(graph.linear_iter().len(), 1);
    assert!(is_one_tree(&graph));
    assert!(links_mirror(&graph));
}

#[test]
fn handle_from_index_is_none_out_of_bounds_or_vacant() {
    let mut graph: Graph<Placement> = Graph::new();
    let a = leaf(&mut graph, 1, 1);
    assert_eq!(graph.handle_from_index(0), graph.get_root());
    assert_eq!(graph.handle_from_index(a.index()), a);
    assert_eq!(graph.handle_from_index(2), Handle::none());
    assert_eq!(graph.handle_from_index(usize::MAX), Handle::none());
    graph.remove_node(a);
    assert_eq!(graph.handle_from_index(a.index()), Handle::none());
    assert!(!graph.is_valid_handle(Handle::none()));
}

#[test]
fn added_node_is_the_last_child_of_the_root() {
    let mut graph: Graph<Placement> = Graph::new();
    let root = graph.get_root();
    let a = leaf(&mut graph, 1, 0);
    let b = leaf(&mut graph, 2, 0);
    assert!(graph.is_valid_handle(a));
    assert!(graph.is_valid_handle(b));
    assert_ne!(a, b);
    assert_eq!(graph[a].parent(), root);
    assert_eq!(graph[b].parent(), root);
    assert_eq!(*graph[root].children(), vec![a, b]);
    assert_eq!(graph.capacity(), 3);
    assert!(is_one_tree(&graph));
    assert!(links_mirror(&graph));
}

#[test]
fn link_moves_the_child_to_the_end_of_the_new_parent() {
    let mut graph: Graph<Placement> = Graph::new();
    let root = graph.get_root();
    let a = leaf(&mut graph, 0, 0);
    let b = leaf(&mut graph, 0, 0);
    let c = leaf(&mut graph, 0, 0);
    let d = leaf(&mut graph, 0, 0);
    graph.link_nodes(c, a);
    graph.link_nodes(b, a);
    assert_eq!(*graph[root].children(), vec![a, d]);
    assert_eq!(*graph[a].children(), vec![c, b]);
    assert_eq!(graph[b].parent(), a);
    assert_eq!(graph[c].parent(), a);
    // linking again below the same parent moves the child to the end
    graph.link_nodes(c, a);
    assert_eq!(*graph[a].children(), vec![b, c]);
    // reparenting takes the child out of the old list
    graph.link_nodes(b, d);
    assert_eq!(*graph[a].children(), vec![c]);
    assert_eq!(*graph[d].children(), vec![b]);
    assert_eq!(graph[b].parent(), d);
    assert!(is_one_tree(&graph));
    assert!(links_mirror(&graph));
}

#[test]
fn tree_survives_a_sequence_of_add_link_unlink() {
    let mut graph: Graph<Placement> = Graph::new();
    let mut nodes: Vec<Handle> = Vec::new();
    for i in 0..12 {
        let h = leaf(&mut graph, i, -i);
        nodes.push(h);
        assert!(is_one_tree(&graph));
        assert!(links_mirror(&graph));
    }
    // a chain, then a comb, then everything back to the top
    for i in 1..nodes.len() {
        graph.link_nodes(nodes[i], nodes[i - 1]);
        assert!(is_one_tree(&graph));
        assert!(links_mirror(&graph));
    }
    for i in (2..nodes.len()).step_by(2) {
        graph.link_nodes(nodes[i], nodes[0]);
        assert!(is_one_tree(&graph));
        assert!(links_mirror(&graph));
    }
    for h in nodes.iter() {
        graph.unlink_node(*h);
        assert!(is_one_tree(&graph));
        assert!(links_mirror(&graph));
        assert_eq!(graph[*h].parent(), graph.get_root());
    }
    assert_eq!(graph[graph.get_root()].children().len(), nodes.len());
}

#[test]
fn is_below_tells_which_links_would_close_a_cycle() {
    let mut graph: Graph<Placement> = Graph::new();
    let root = graph.get_root();
    let a = leaf(&mut graph, 0, 0);
    let b = leaf(&mut graph, 0, 0);
    let c = leaf(&mut graph, 0, 0);
    let d = leaf(&mut graph, 0, 0);
    graph.link_nodes(b, a);
    graph.link_nodes(c, b);
    // root -> a -> b -> c, root -> d
    assert!(graph.is_below(a, a));
    assert!(graph.is_below(b, a));
    assert!(graph.is_below(c, a));
    assert!(graph.is_below(c, b));
    assert!(graph.is_below(c, root));
    assert!(!graph.is_below(a, b));
    assert!(!graph.is_below(a, c));
    assert!(!graph.is_below(d, a));
    assert!(!graph.is_below(a, d));
    assert!(!graph.is_below(root, a));
    // a handle that refers to no node is below nothing
    assert!(!graph.is_below(Handle::none(), a));
    assert!(!graph.is_below(Handle::new(c.index(), c.generation() + 1), a));
    // every way up ends at the sentinel, and at no other handle that is no node
    assert!(graph.is_below(c, Handle::none()));
    assert!(!graph.is_below(c, Handle::new(99, 1)));
    // the links that the test admits keep the tree; `a` below `c` is not among them
    for (child, parent) in [(c, a), (d, c), (b, d), (a, root)] {
        assert!(!graph.is_below(parent, child));
        graph.link_nodes(child, parent);
        assert!(is_one_tree(&graph));
        assert!(links_mirror(&graph));
    }
    assert_eq!(*graph[root].children(), vec![a]);
    assert_eq!(*graph[a].children(), vec![c]);
    assert_eq!(*graph[c].children(), vec![d]);
    assert_eq!(*graph[d].children(), vec![b]);
}

#[test]
fn default_graph_has_no_root_and_leaves_nodes_without_parent() {
    let mut graph: Graph<Placement> = Graph::default();
    assert_eq!(graph.get_root(), Handle::none());
    assert!(graph.get_root().is_none());
    assert_eq!(graph.capacity(), 0);
    assert!(graph.linear_iter().is_empty());
    assert!(!graph.is_valid_handle(graph.get_root()));

    let h = leaf(&mut graph, 1, 2);
    assert!(graph.is_valid_handle(h));
    assert_eq!(h, Handle::new(0, 1));
    assert!(graph[h].parent().is_none());
    assert!(graph[h].children().is_empty());
    assert!(graph.get_root().is_none());
    assert!(!graph.is_below_root(h));

    // nodes of a rootless graph link, and a node adopts the children it lists
    let k = leaf(&mut graph, 3, 4);
    assert!(graph[k].parent().is_none());
    graph.link_nodes(k, h);
    assert_eq!(graph[k].parent(), h);
    assert_eq!(*graph[h].children(), vec![k]);
    assert!(links_mirror(&graph));
    let (ticket, node) = graph.take_reserve(h);
    let again = graph.add_node(node);
    graph.forget_ticket(ticket);
    assert!(graph[again].parent().is_none());
    assert_eq!(*graph[again].children(), vec![k]);
    assert_eq!(graph[k].parent(), again);
    assert!(links_mirror(&graph));
    graph.remove_node(again);
    assert!(!graph.is_valid_handle(again));
    assert!(!graph.is_valid_handle(k));
    assert!(graph.linear_iter().is_empty());
}

#[test]
fn unlink_resets_the_position_and_keeps_rotation_and_scale() {
    let mut graph: Graph<Placement> = Graph::new();
    let root = graph.get_root();
    let a = leaf(&mut graph, 5, 5);
    let placed = Placement { x: 3, y: -4, turns: 3, scale_x: 2, scale_y: 7 };
    let b = graph.add_node(Node::new(placed));
    graph.link_nodes(b, a);
    graph.unlink_node(b);
    assert_eq!(graph[b].parent(), root);
    assert_eq!(*graph[root].children(), vec![a, b]);
    assert!(graph[a].children().is_empty());
    assert_eq!(
        *graph[b].local_transform(),
        Placement { x: 0, y: 0, turns: 3, scale_x: 2, scale_y: 7 }
    );
    // the node above is untouched
    assert_eq!(*graph[a].local_transform(), Placement::at(5, 5));
}

#[test]
fn unlinked_node_returns_to_the_root_at_the_origin() {
    let mut graph: Graph<Placement> = Graph::new();
    let root = graph.get_root();
    let a = leaf(&mut graph, 1, 0);
    let b = leaf(&mut graph, 0, 2);
    graph.link_nodes(b, a);

    graph.update_hierarchical_data();
    assert_eq!(graph[b].global_position(), (1, 2));

    graph.unlink_node(b);
    assert_eq!(graph[b].parent(), root);
    assert_eq!((graph[b].local_transform().x, graph[b].local_transform().y), (0, 0));

    graph.update_hierarchical_data();
    assert_eq!(graph[b].global_position(), (0, 0));
}

#[test]
fn remove_frees_the_node_and_all_below_it() {
    let mut graph: Graph<Placement> = Graph::new();
    let root = graph.get_root();
    let a = leaf(&mut graph, 0, 0);
    let b = leaf(&mut graph, 0, 0);
    let c = leaf(&mut graph, 0, 0);
    let d = leaf(&mut graph, 0, 0);
    let e = leaf(&mut graph, 0, 0);
    graph.link_nodes(b, a);
    graph.link_nodes(c, b);
    graph.link_nodes(d, b);
    // root -> a -> b -> {c, d}, root -> e
    graph.remove_node(b);
    assert!(!graph.is_valid_handle(b));
    assert!(!graph.is_valid_handle(c));
    assert!(!graph.is_valid_handle(d));
    assert!(graph.is_valid_handle(a));
    assert!(graph.is_valid_handle(e));
    assert!(graph.is_valid_handle(root));
    assert!(!graph[a].children().contains(&b));
    assert!(graph[a].children().is_empty());
    assert_eq!(*graph[root].children(), vec![a, e]);
    assert_eq!(graph.capacity(), 6);
    assert_eq!(graph.linear_iter().len(), 3);
    assert!(is_one_tree(&graph));
    assert!(links_mirror(&graph));
}

#[test]
fn removed_handles_stay_stale_when_their_slots_are_reused() {
    let mut graph: Graph<Placement> = Graph::new();
    let a = leaf(&mut graph, 0, 0);
    let b = leaf(&mut graph, 0, 0);
    graph.link_nodes(b, a);
    graph.remove_node(a);
    let c = leaf(&mut graph, 7, 7);
    let d = leaf(&mut graph, 8, 8);
    // both new nodes live in the freed slots, under the next generation
    assert_eq!(graph.capacity(), 3);
    assert!(c.index() == a.index() || c.index() == b.index());
    assert!(d.index() == a.index() || d.index() == b.index());
    assert_ne!(c.index(), d.index());
    assert_eq!(c.generation(), 2);
    assert_eq!(d.generation(), 2);
    assert!(!graph.is_valid_handle(a));
    assert!(!graph.is_valid_handle(b));
    assert!(graph.is_valid_handle(c));
    assert!(graph.is_valid_handle(d));
    assert!(is_one_tree(&graph));
    assert!(links_mirror(&graph));
}

#[test]
fn add_node_adopts_the_children_that_the_node_lists() {
    let mut graph: Graph<Placement> = Graph::new();
    let root = graph.get_root();
    let top = leaf(&mut graph, 1, 1);
    let x = leaf(&mut graph, 2, 2);
    let y = leaf(&mut graph, 3, 3);
    graph.link_nodes(x, top);
    graph.link_nodes(y, top);
    // take the top out, then add it as a new node: its children follow it
    let (ticket, node) = graph.take_reserve(top);
    assert_eq!(*node.children(), vec![x, y]);
    let again = graph.add_node(node);
    graph.forget_ticket(ticket);
    assert_ne!(again, top);
    assert!(!graph.is_valid_handle(top));
    assert_eq!(graph[again].parent(), root);
    assert_eq!(*graph[again].children(), vec![x, y]);
    assert_eq!(graph[x].parent(), again);
    assert_eq!(graph[y].parent(), again);
    assert_eq!(*graph[root].children(), vec![again]);
    assert!(is_one_tree(&graph));
    assert!(links_mirror(&graph));
}

#[test]
fn below_root_tells_who_reaches_the_root() {
    let mut graph: Graph<Placement> = Graph::new();
    let root = graph.get_root();
    let a = leaf(&mut graph, 0, 0);
    let b = leaf(&mut graph, 0, 0);
    let c = leaf(&mut graph, 0, 0);
    let d = leaf(&mut graph, 0, 0);
    graph.link_nodes(b, a);
    assert!(graph.is_below_root(root));
    assert!(graph.is_below_root(a));
    assert!(graph.is_below_root(b));
    assert!(!graph.is_below_root(Handle::none()));
    assert!(!graph.is_below_root(Handle::new(b.index(), b.generation() + 1)));
    graph.link_nodes(d, c);
    assert!(graph.is_below_root(c));
    assert!(graph.is_below_root(d));
    // what hangs from a node that was taken out is parted from the root
    let (ticket, node) = graph.take_reserve(a);
    assert!(!graph.is_below_root(a));
    assert!(!graph.is_below_root(b));
    graph.put_back(ticket, node);
    assert!(graph.is_below_root(a));
    assert!(graph.is_below_root(b));
}
