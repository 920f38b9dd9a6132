use scene2d::graph::Graph;
use scene2d::handle::Handle;
use scene2d::lattice::{Affine, Placement};
use scene2d::node::Node;
use scene2d::transform::Transform;

fn place(graph: &mut Graph<Placement>, p: Placement) -> Handle {
    graph.add_node(Node::new(p))
}

#[test]
fn world_matrix_is_parent_times_child() {
    let mut graph: Graph<Placement> = Graph::new();
    let ta = Placement { x: 3, y: 1, turns: 1, scale_x: 2, scale_y: 1 };
    let tb = Placement { x: 5, y: 0, turns: 0, scale_x: 1, scale_y: 3 };
    let a = place(&mut graph, ta);
    let b = place(&mut graph, tb);
    graph.link_nodes(b, a);
    graph.update_hierarchical_data();

    let ma = ta.matrix();
    let mb = tb.matrix();
    let right = Placement::product(&ma, &mb);
    let wrong = Placement::product(&mb, &ma);
    assert_ne!(right, wrong);
    assert_eq!(graph[a].global_transform(), ma);
    assert_eq!(graph[b].global_transform(), right);
    // by hand: a quarter turn with scale (2, 1), then the shift (3, 1)
    assert_eq!(ma, Affine { a: 0, b: -1, c: 2, d: 0, tx: 3, ty: 1 });
    assert_eq!(mb, Affine { a: 1, b: 0, c: 0, d: 3, tx: 5, ty: 0 });
    assert_eq!(right, Affine { a: 0, b: -3, c: 2, d: 0, tx: 3, ty: 11 });
    assert_eq!(graph[graph.get_root()].global_transform(), Placement::identity());
}

#[test]
fn update_composes_down_a_long_chain() {
    let mut graph: Graph<Placement> = Graph::new();
    let mut above = graph.get_root();
    let mut expected = Placement::identity();
    expected = Placement::product(&expected, &Placement::neutral().matrix());
    let mut chain: Vec<(Handle, Affine)> = Vec::new();
    for i in 0..40u8 {
        let p = Placement { x: i as i64, y: 1, turns: i, scale_x: 1 + (i % 3) as i64, scale_y: 1 };
        let h = place(&mut graph, p);
        graph.link_nodes(h, above);
        expected = Placement::product(&expected, &p.matrix());
        chain.push((h, expected));
        above = h;
    }
    graph.update_hierarchical_data();
    for (h, m) in chain {
        assert_eq!(graph[h].global_transform(), m);
    }
}

#[test]
fn update_is_idempotent() {
    let mut graph: Graph<Placement> = Graph::new();
    let a = place(&mut graph, Placement { x: 1, y: 2, turns: 3, scale_x: 4, scale_y: 5 });
    let b = place(&mut graph, Placement { x: -1, y: 7, turns: 1, scale_x: 1, scale_y: 2 });
    graph.link_nodes(b, a);
    graph.update_hierarchical_data();
    let first: Vec<Affine> = graph.linear_iter().iter().map(|n| n.global_transform()).collect();
    graph.update_hierarchical_data();
    let second: Vec<Affine> = graph.linear_iter().iter().map(|n| n.global_transform()).collect();
    assert_eq!(first, second);
}

#[test]
fn derived_values_are_stale_until_the_next_update() {
    let mut graph: Graph<Placement> = Graph::new();
    let a = place(&mut graph, Placement::at(1, 1));
    graph.update_hierarchical_data();
    graph[a].local_transform_mut().x = 9;
    assert_eq!(graph[a].global_position(), (1, 1));
    graph.update_hierarchical_data();
    assert_eq!(graph[a].global_position(), (9, 1));
}

#[test]
fn hidden_ancestor_hides_all_below_it() {
    let mut graph: Graph<Placement> = Graph::new();
    let a = place(&mut graph, Placement::at(0, 0));
    let b = place(&mut graph, Placement::at(0, 0));
    let c = place(&mut graph, Placement::at(0, 0));
    let d = place(&mut graph, Placement::at(0, 0));
    graph.link_nodes(b, a);
    graph.link_nodes(c, b);
    graph[a].set_visibility(false);
    graph.update_hierarchical_data();
    assert!(graph[b].visibility() && graph[c].visibility());
    assert!(!graph[a].global_visibility());
    assert!(!graph[b].global_visibility());
    assert!(!graph[c].global_visibility());
    assert!(graph[d].global_visibility());
    assert!(graph[graph.get_root()].global_visibility());

    graph[a].set_visibility(true);
    graph[c].set_visibility(false);
    graph.update_hierarchical_data();
    assert!(graph[a].global_visibility());
    assert!(graph[b].global_visibility());
    assert!(!graph[c].global_visibility());
}

#[test]
fn hidden_root_hides_everything() {
    let mut graph: Graph<Placement> = Graph::new();
    let root = graph.get_root();
    let a = place(&mut graph, Placement::at(0, 0));
    graph[root].set_visibility(false);
    graph.update_hierarchical_data();
    assert!(!graph[root].global_visibility());
    assert!(!graph[a].global_visibility());
}

#[test]
fn update_leaves_nodes_alone_that_hang_from_a_reserved_slot() {
    let mut graph: Graph<Placement> = Graph::new();
    let a = place(&mut graph, Placement::at(1, 0));
    let b = place(&mut graph, Placement::at(0, 2));
    graph.link_nodes(b, a);
    graph.update_hierarchical_data();
    let (ticket, node) = graph.take_reserve(a);
    graph[b].local_transform_mut().y = 50;
    graph.update_hierarchical_data();
    // `b` is not below the root now: what was derived for it stays
    assert_eq!(graph[b].global_position(), (1, 2));
    graph.put_back(ticket, node);
    graph.update_hierarchical_data();
    assert_eq!(graph[b].global_position(), (1, 50));
}

#[test]
fn queries_compose_the_named_part_from_the_root_down() {
    let mut graph: Graph<Placement> = Graph::new();
    let ta = Placement { x: 3, y: 1, turns: 1, scale_x: 2, scale_y: 5 };
    let tb = Placement { x: 5, y: 0, turns: 2, scale_x: 7, scale_y: 3 };
    let a = place(&mut graph, ta);
    let b = place(&mut graph, tb);
    graph.link_nodes(b, a);
    let root = Placement::neutral();

    assert_eq!(graph.local_transform_no_scale(b), tb.matrix_no_scale());
    assert_eq!(
        graph.local_transform_no_scale(b),
        Affine { a: -1, b: 0, c: 0, d: -1, tx: 5, ty: 0 }
    );
    assert_eq!(
        graph.isometric_local_transform(a),
        Affine { a: 0, b: -1, c: 1, d: 0, tx: 3, ty: 1 }
    );

    let no_scale = Placement::product(
        &Placement::product(&root.matrix_no_scale(), &ta.matrix_no_scale()),
        &tb.matrix_no_scale(),
    );
    assert_eq!(graph.global_transform_no_scale(b), no_scale);
    assert_eq!(no_scale, Affine { a: 0, b: 1, c: -1, d: 0, tx: 3, ty: 6 });

    let isometric = Placement::product(
        &Placement::product(&root.isometric_matrix(), &ta.isometric_matrix()),
        &tb.isometric_matrix(),
    );
    assert_eq!(graph.isometric_global_transform(b), isometric);

    let scale = graph.global_scale_matrix(b);
    assert_eq!(scale, Affine { a: 14, b: 0, c: 0, d: 15, tx: 0, ty: 0 });
    assert_eq!(graph.global_scale_matrix(graph.get_root()), Placement::identity());
    assert_eq!(graph.global_transform_no_scale(a), ta.matrix_no_scale());
}

#[test]
fn queries_read_rotation_position_and_scale_off_the_matrices() {
    let mut graph: Graph<Placement> = Graph::new();
    let ta = Placement { x: 3, y: 1, turns: 1, scale_x: 2, scale_y: 5 };
    let tb = Placement { x: 5, y: 0, turns: 2, scale_x: 7, scale_y: 3 };
    let a = place(&mut graph, ta);
    let b = place(&mut graph, tb);
    graph.link_nodes(b, a);
    graph.update_hierarchical_data();

    // one quarter turn at `a`, two more at `b`
    assert_eq!(graph.global_rotation(a), 1);
    assert_eq!(graph.global_rotation(b), 3);
    assert_eq!(graph.isometric_global_rotation(b), 3);
    assert_eq!(graph.global_rotation(graph.get_root()), 0);
    assert_eq!(graph.global_scale(a), (2, 5));
    assert_eq!(graph.global_scale(b), (14, 15));
    // a * b sends the origin to a(5, 0) = (0, 10) + (3, 1)
    assert_eq!(graph[b].global_position(), (3, 11));
    assert_eq!(graph.global_rotation_position_no_scale(b), (3, (3, 11)));
    assert_eq!(graph.isometric_global_rotation_position(b), (3, (3, 11)));
    assert_eq!(graph.isometric_global_rotation_position(a), (1, (3, 1)));
}

#[test]
fn lattice_reads_the_quarter_off_a_matrix() {
    for turns in 0..8u8 {
        let m = Placement { x: 9, y: -9, turns, scale_x: 1, scale_y: 1 }.matrix();
        assert_eq!(Placement::rotation(&m), turns % 4);
        assert_eq!(Placement::position(&m), (9, -9));
    }
    let scaled = Placement { x: 0, y: 0, turns: 0, scale_x: 4, scale_y: -6 }.scale_matrix();
    assert_eq!(Placement::scale(&scaled), (4, -6));
    let flat = Affine { a: 0, b: 0, c: 0, d: 0, tx: 0, ty: 0 };
    assert_eq!(Placement::rotation(&flat), 0);
}
