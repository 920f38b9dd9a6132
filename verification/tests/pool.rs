use scene2d::handle::Handle;
use scene2d::lattice::{Affine, Placement};
use scene2d::node::Node;
use scene2d::pool::{BorrowError, Pool};
use scene2d::transform::Transform;

#[test]
fn none_handle_refers_to_nothing() {
    let none = Handle::none();
    assert!(none.is_none());
    assert!(!none.is_some());
    assert_eq!(none, Handle::new(0, 0));
    let h = Handle::new(0, 1);
    assert!(h.is_some());
    assert_ne!(h, none);
    assert_eq!((h.index(), h.generation()), (0, 1));
    assert_ne!(Handle::new(3, 1), Handle::new(3, 2));
}

#[test]
fn pool_spawns_frees_and_reuses() {
    let mut pool: Pool<u32> = Pool::new();
    assert_eq!(pool.get_capacity(), 0);
    let a = pool.spawn(10);
    let b = pool.spawn(20);
    assert_eq!(a, Handle::new(0, 1));
    assert_eq!(b, Handle::new(1, 1));
    assert_eq!(*pool.borrow(a), 10);
    assert_eq!(pool.try_borrow(b), Some(&20));
    assert_eq!(pool.free(a), 10);
    assert!(!pool.is_valid_handle(a));
    assert_eq!(pool.try_borrow(a), None);
    assert_eq!(pool.try_borrow(Handle::none()), None);
    assert_eq!(pool.try_borrow(Handle::new(9, 1)), None);
    let c = pool.spawn(30);
    assert_eq!(c, Handle::new(0, 2));
    assert!(!pool.is_valid_handle(a));
    assert_eq!(*pool.borrow(c), 30);
    *pool.borrow_mut(c) += 1;
    assert_eq!(*pool.borrow(c), 31);
    assert_eq!(pool.get_capacity(), 2);
    assert_eq!(pool.handle_from_index(0), c);
    assert_eq!(pool.handle_from_index(2), Handle::none());
}

#[test]
fn pool_reuses_the_slot_freed_last() {
    let mut pool: Pool<u8> = Pool::new();
    let a = pool.spawn(1);
    let b = pool.spawn(2);
    let c = pool.spawn(3);
    pool.free(a);
    pool.free(c);
    pool.free(b);
    assert_eq!(pool.spawn(4).index(), b.index());
    assert_eq!(pool.spawn(5).index(), c.index());
    assert_eq!(pool.spawn(6).index(), a.index());
    assert_eq!(pool.spawn(7).index(), 3);
}

#[test]
fn pool_tickets_reserve_a_slot() {
    let mut pool: Pool<String> = Pool::new();
    let a = pool.spawn(String::from("a"));
    let (ticket, value) = pool.take_reserve(a);
    assert_eq!(value, "a");
    assert_eq!(ticket.index(), 0);
    assert!(pool.is_reserved(&ticket));
    assert!(!pool.is_valid_handle(a));
    assert_eq!(pool.spawn(String::from("b")).index(), 1);
    assert_eq!(pool.put_back(ticket, String::from("c")), a);
    assert_eq!(pool.borrow(a), "c");

    let (ticket, _) = pool.take_reserve(a);
    pool.forget_ticket(ticket);
    assert!(!pool.is_valid_handle(a));
    assert_eq!(pool.spawn(String::from("d")), Handle::new(0, 2));
}

#[test]
fn pool_borrows_several_values_at_once() {
    let mut pool: Pool<i32> = Pool::new();
    let hs = [pool.spawn(0), pool.spawn(1), pool.spawn(2), pool.spawn(3)];
    {
        let (x, y) = pool.borrow_two_mut((hs[3], hs[0]));
        assert_eq!((*x, *y), (3, 0));
        *x += 10;
        *y += 20;
    }
    assert_eq!((*pool.borrow(hs[3]), *pool.borrow(hs[0])), (13, 20));
    assert_eq!(pool.borrow_three_mut((hs[1], hs[2], hs[1])).err(), Some(BorrowError::Overlap));
    {
        let (x, y, z) = pool.borrow_three_mut((hs[2], hs[0], hs[1])).unwrap();
        assert_eq!((*x, *y, *z), (2, 20, 1));
        *z = 7;
    }
    {
        let (w, x, y, z) = pool.borrow_four_mut((hs[1], hs[3], hs[0], hs[2]));
        assert_eq!((*w, *x, *y, *z), (7, 13, 20, 2));
        *w = 0;
        *z = 0;
    }
    let all: Vec<i32> = pool.iter().into_iter().copied().collect();
    assert_eq!(all, vec![20, 0, 0, 13]);
}

#[test]
fn pool_iterates_in_slot_order() {
    let mut pool: Pool<char> = Pool::new();
    let a = pool.spawn('a');
    let b = pool.spawn('b');
    let c = pool.spawn('c');
    pool.free(b);
    let pairs: Vec<(Handle, char)> = pool.pair_iter().into_iter().map(|(h, v)| (h, *v)).collect();
    assert_eq!(pairs, vec![(a, 'a'), (c, 'c')]);
    for v in pool.iter_mut() {
        *v = v.to_ascii_uppercase();
    }
    for (h, v) in pool.pair_iter_mut() {
        if h == c {
            *v = 'z';
        }
    }
    let all: Vec<char> = pool.iter().into_iter().copied().collect();
    assert_eq!(all, vec!['A', 'z']);
}

#[test]
fn node_starts_visible_and_unlinked() {
    let mut node: Node<Placement> = Node::new(Placement::at(2, 3));
    assert_eq!(node.name(), "");
    assert_eq!(node.parent(), Handle::none());
    assert!(node.children().is_empty());
    assert!(node.visibility());
    assert!(node.global_visibility());
    assert_eq!(node.global_transform(), Placement::identity());
    node.set_name("mast");
    node.set_visibility(false);
    node.set_global(Placement::at(1, 1).matrix(), false);
    assert_eq!(node.name(), "mast");
    assert!(!node.visibility());
    assert!(!node.global_visibility());
    assert_eq!(node.global_position(), (1, 1));
}

#[test]
fn lattice_product_applies_the_right_factor_first() {
    let shift = Placement::at(10, 0).matrix();
    let turn = Placement { x: 0, y: 0, turns: 1, scale_x: 1, scale_y: 1 }.matrix();
    // turn after shift sends the origin to (0, 10); shift after turn to (10, 0)
    assert_eq!(Placement::position(&Placement::product(&turn, &shift)), (0, 10));
    assert_eq!(Placement::position(&Placement::product(&shift, &turn)), (10, 0));
    let id = Placement::identity();
    assert_eq!(id, Affine { a: 1, b: 0, c: 0, d: 1, tx: 0, ty: 0 });
    assert_eq!(Placement::product(&id, &turn), turn);
    assert_eq!(Placement::product(&turn, &id), turn);
    assert_eq!(Placement::neutral().matrix(), id);
}

#[test]
fn lattice_quarter_turns_repeat_after_four() {
    let m = |turns: u8| Placement { x: 0, y: 0, turns, scale_x: 2, scale_y: 3 }.matrix();
    assert_eq!(m(0), Affine { a: 2, b: 0, c: 0, d: 3, tx: 0, ty: 0 });
    assert_eq!(m(1), Affine { a: 0, b: -3, c: 2, d: 0, tx: 0, ty: 0 });
    assert_eq!(m(2), Affine { a: -2, b: 0, c: 0, d: -3, tx: 0, ty: 0 });
    assert_eq!(m(3), Affine { a: 0, b: 3, c: -2, d: 0, tx: 0, ty: 0 });
    assert_eq!(m(4), m(0));
    assert_eq!(m(255), m(3));
    let half = Placement::product(&m(1), &m(1));
    let four = Placement::product(&half, &half);
    assert_eq!((four.b, four.c), (0, 0));
}

#[test]
fn lattice_arithmetic_wraps() {
    let big = Placement { x: i64::MAX, y: 0, turns: 0, scale_x: i64::MAX, scale_y: 1 }.matrix();
    let twice = Placement::product(&big, &big);
    assert_eq!(twice.a, i64::MAX.wrapping_mul(i64::MAX));
    assert_eq!(twice.tx, i64::MAX.wrapping_mul(i64::MAX).wrapping_add(i64::MAX));
}

#[test]
fn lattice_parts_of_a_placement() {
    let mut p = Placement { x: 4, y: 5, turns: 1, scale_x: 2, scale_y: 3 };
    assert_eq!(p.matrix_no_scale(), Affine { a: 0, b: -1, c: 1, d: 0, tx: 4, ty: 5 });
    assert_eq!(p.isometric_matrix(), Affine { a: 0, b: -1, c: 1, d: 0, tx: 4, ty: 5 });
    assert_eq!(p.scale_matrix(), Affine { a: 2, b: 0, c: 0, d: 3, tx: 0, ty: 0 });
    p.reset_position();
    assert_eq!(p, Placement { x: 0, y: 0, turns: 1, scale_x: 2, scale_y: 3 });
}
