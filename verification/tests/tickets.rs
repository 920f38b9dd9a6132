use scene2d::graph::Graph;
use scene2d::handle::Handle;
use scene2d::lattice::Placement;
use scene2d::node::Node;
use scene2d::pool::BorrowError;

fn leaf(graph: &mut Graph<Placement>, x: i64, y: i64) -> Handle {
    graph.add_node(Node::new(Placement::at(x, y)))
}

#[test]
fn ticket_round_trip_keeps_the_handle_and_the_subtree() {
    let mut graph: Graph<Placement> = Graph::new();
    let root = graph.get_root();
    let a = leaf(&mut graph, 0, 0);
    let b = leaf(&mut graph, 4, 0);
    let c = leaf(&mut graph, 0, 5);
    let d = leaf(&mut graph, 6, 6);
    graph.link_nodes(b, a);
    graph.link_nodes(c, b);
    graph.link_nodes(d, b);

    let (ticket, node) = graph.take_reserve(b);
    assert_eq!(ticket.index(), b.index());
    assert!(graph.is_reserved(&ticket));
    assert!(!graph.is_valid_handle(b));
    assert_eq!(node.parent(), Handle::none());
    assert_eq!(*node.children(), vec![c, d]);
    assert!(graph[a].children().is_empty());
    // the children stay, still naming the handle
    assert!(graph.is_valid_handle(c));
    assert_eq!(graph[c].parent(), b);
    assert_eq!(graph[d].parent(), b);

    let back = graph.put_back(ticket, node);
    assert_eq!(back, b);
    assert!(graph.is_valid_handle(b));
    assert_eq!(graph[b].parent(), root);
    assert_eq!(*graph[root].children(), vec![a, b]);
    assert_eq!(*graph[b].children(), vec![c, d]);
    assert_eq!(graph[c].parent(), b);
    assert_eq!(graph[d].parent(), b);
    assert_eq!(*graph[b].local_transform(), Placement::at(4, 0));
    assert_eq!(*graph[c].local_transform(), Placement::at(0, 5));

    graph.update_hierarchical_data();
    assert_eq!(graph[c].global_position(), (4, 5));
    assert_eq!(graph[d].global_position(), (10, 6));
}

#[test]
fn reserved_slot_is_not_handed_out() {
    let mut graph: Graph<Placement> = Graph::new();
    let a = leaf(&mut graph, 0, 0);
    let (ticket, node) = graph.take_reserve(a);
    let b = leaf(&mut graph, 1, 1);
    let c = leaf(&mut graph, 2, 2);
    assert_ne!(b.index(), a.index());
    assert_ne!(c.index(), a.index());
    assert_eq!(graph.handle_from_index(a.index()), Handle::none());
    let back = graph.put_back(ticket, node);
    assert_eq!(back, a);
    assert_eq!(graph.handle_from_index(a.index()), a);
}

#[test]
fn forgotten_ticket_makes_the_handle_stale_for_good() {
    let mut graph: Graph<Placement> = Graph::new();
    let a = leaf(&mut graph, 0, 0);
    let (ticket, _node) = graph.take_reserve(a);
    graph.forget_ticket(ticket);
    assert!(!graph.is_valid_handle(a));
    let b = leaf(&mut graph, 1, 1);
    assert_eq!(b.index(), a.index());
    assert_eq!(b.generation(), a.generation() + 1);
    assert!(!graph.is_valid_handle(a));
    assert!(graph.is_valid_handle(b));
    assert_eq!(graph.capacity(), 2);
}

#[test]
fn two_nodes_are_borrowed_at_once() {
    let mut graph: Graph<Placement> = Graph::new();
    let a = leaf(&mut graph, 1, 2);
    let b = leaf(&mut graph, 3, 4);
    {
        let (na, nb) = graph.get_two_mut((b, a));
        assert_eq!(*na.local_transform(), Placement::at(3, 4));
        assert_eq!(*nb.local_transform(), Placement::at(1, 2));
        let swap = *na.local_transform();
        *na.local_transform_mut() = *nb.local_transform();
        *nb.local_transform_mut() = swap;
    }
    assert_eq!(*graph[a].local_transform(), Placement::at(3, 4));
    assert_eq!(*graph[b].local_transform(), Placement::at(1, 2));
}

#[test]
fn three_nodes_are_borrowed_in_any_order() {
    let mut graph: Graph<Placement> = Graph::new();
    let a = leaf(&mut graph, 1, 0);
    let b = leaf(&mut graph, 2, 0);
    let c = leaf(&mut graph, 3, 0);
    let orders = [(a, b, c), (a, c, b), (b, a, c), (b, c, a), (c, a, b), (c, b, a)];
    for (p, q, r) in orders {
        match graph.get_three_mut((p, q, r)) {
            Ok((np, nq, nr)) => {
                assert_eq!(np.local_transform().x as usize, p.index());
                assert_eq!(nq.local_transform().x as usize, q.index());
                assert_eq!(nr.local_transform().x as usize, r.index());
                np.set_visibility(false);
                nq.set_visibility(false);
                nr.set_visibility(false);
            }
            Err(_) => panic!("distinct handles"),
        }
    }
    assert!(!graph[a].visibility() && !graph[b].visibility() && !graph[c].visibility());
}

#[test]
fn three_way_borrow_reports_overlap() {
    let mut graph: Graph<Placement> = Graph::new();
    let h = leaf(&mut graph, 1, 0);
    let k = leaf(&mut graph, 2, 0);
    assert!(matches!(graph.get_three_mut((h, h, k)), Err(BorrowError::Overlap)));
    assert!(matches!(graph.get_three_mut((h, k, h)), Err(BorrowError::Overlap)));
    assert!(matches!(graph.get_three_mut((k, h, h)), Err(BorrowError::Overlap)));
    assert!(matches!(graph.get_three_mut((h, h, h)), Err(BorrowError::Overlap)));
    // the graph is as it was
    assert_eq!(*graph[h].local_transform(), Placement::at(1, 0));
    assert_eq!(*graph[k].local_transform(), Placement::at(2, 0));
    assert!(graph.get_three_mut((h, k, graph.get_root())).is_ok());
}

#[test]
fn four_nodes_are_borrowed_in_any_order() {
    let mut graph: Graph<Placement> = Graph::new();
    let hs = [
        leaf(&mut graph, 1, 0),
        leaf(&mut graph, 2, 0),
        leaf(&mut graph, 3, 0),
        leaf(&mut graph, 4, 0),
    ];
    let mut seen = 0;
    for i in 0..4 {
        for j in 0..4 {
            for k in 0..4 {
                for l in 0..4 {
                    let distinct = i != j && i != k && i != l && j != k && j != l && k != l;
                    if !distinct {
                        continue;
                    }
                    let (a, b, c, d) = graph.get_four_mut((hs[i], hs[j], hs[k], hs[l]));
                    assert_eq!(a.local_transform().x as usize, hs[i].index());
                    assert_eq!(b.local_transform().x as usize, hs[j].index());
                    assert_eq!(c.local_transform().x as usize, hs[k].index());
                    assert_eq!(d.local_transform().x as usize, hs[l].index());
                    a.local_transform_mut().y += 1;
                    d.local_transform_mut().y += 1;
                    seen += 1;
                }
            }
        }
    }
    assert_eq!(seen, 24);
    for h in hs {
        assert_eq!(graph[h].local_transform().y, 12);
    }
}

#[test]
fn index_reads_and_writes_a_node() {
    let mut graph: Graph<Placement> = Graph::new();
    let a = leaf(&mut graph, 1, 2);
    graph[a].set_name("hull");
    graph[a].set_visibility(false);
    graph[a].local_transform_mut().turns = 2;
    assert_eq!(graph[a].name(), "hull");
    assert!(!graph[a].visibility());
    assert_eq!(graph[a].local_transform().turns, 2);
    assert_eq!(graph.node(a).name(), "hull");
    graph.node_mut(a).set_name("keel");
    assert_eq!(graph[a].name(), "keel");
}

#[test]
fn iteration_goes_by_slot_and_skips_what_is_empty() {
    let mut graph: Graph<Placement> = Graph::new();
    let root = graph.get_root();
    let a = leaf(&mut graph, 10, 0);
    let b = leaf(&mut graph, 20, 0);
    let c = leaf(&mut graph, 30, 0);
    graph.link_nodes(c, a);
    graph.remove_node(b);
    let handles: Vec<Handle> = graph.pair_iter().iter().map(|p| p.0).collect();
    assert_eq!(handles, vec![root, a, c]);
    let xs: Vec<i64> = graph.linear_iter().iter().map(|n| n.local_transform().x).collect();
    assert_eq!(xs, vec![0, 10, 30]);
    for (handle, node) in graph.pair_iter() {
        assert_eq!(graph[handle].local_transform(), node.local_transform());
    }
}

#[test]
fn mutable_iteration_writes_through() {
    let mut graph: Graph<Placement> = Graph::new();
    let root = graph.get_root();
    let a = leaf(&mut graph, 10, 0);
    let b = leaf(&mut graph, 20, 0);
    let c = leaf(&mut graph, 30, 0);
    graph.remove_node(b);
    for node in graph.linear_iter_mut() {
        node.local_transform_mut().y = 1;
    }
    for (handle, node) in graph.pair_iter_mut() {
        node.local_transform_mut().x += handle.index() as i64;
    }
    assert_eq!(*graph[root].local_transform(), Placement::at(0, 1));
    assert_eq!(*graph[a].local_transform(), Placement::at(11, 1));
    assert_eq!(*graph[c].local_transform(), Placement::at(33, 1));
    assert_eq!(graph.linear_iter_mut().len(), 3);
    assert_eq!(graph.pair_iter_mut().len(), 3);
}
