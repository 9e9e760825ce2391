use astar_grid::astar::AStar;
use astar_grid::node::{Node, NodeType};

fn place(a: &mut AStar, x: usize, y: usize) {
    a.handle_input(false, Some((x, y)));
}

fn run(a: &mut AStar, max_ticks: usize) {
    let mut t: usize = 0;
    while t < max_ticks && !a.is_done() && !a.is_exhausted() {
        a.path_find();
        t += 1;
    }
}

fn role(a: &AStar, x: usize, y: usize) -> NodeType {
    *a.node(x, y).get_type()
}

fn path_cells(a: &AStar) -> Vec<(usize, usize)> {
    let mut v = Vec::new();
    for y in 0..40 {
        for x in 0..40 {
            if role(a, x, y) == NodeType::Path {
                v.push((x, y));
            }
        }
    }
    v
}

#[test]
fn neighbors_corner_edge_interior() {
    let a = AStar::new();
    assert_eq!(a.find_neighbors((0, 0)), vec![(1, 0), (0, 1)]);
    assert_eq!(a.find_neighbors((39, 39)), vec![(38, 39), (39, 38)]);
    assert_eq!(a.find_neighbors((5, 0)), vec![(4, 0), (6, 0), (5, 1)]);
    assert_eq!(a.find_neighbors((0, 7)), vec![(1, 7), (0, 6), (0, 8)]);
    assert_eq!(a.find_neighbors((5, 5)), vec![(4, 5), (6, 5), (5, 4), (5, 6)]);
}

#[test]
fn neighbors_in_bounds_and_exclude_self() {
    let a = AStar::new();
    for y in 0..40 {
        for x in 0..40 {
            let n = a.find_neighbors((x, y));
            let border = (x == 0 || x == 39) as usize + (y == 0 || y == 39) as usize;
            assert_eq!(n.len(), 4 - border);
            for &(nx, ny) in &n {
                assert!(nx < 40 && ny < 40);
                assert_ne!((nx, ny), (x, y));
                assert_eq!(nx.abs_diff(x) + ny.abs_diff(y), 1);
            }
        }
    }
}

#[test]
fn straight_line_path() {
    let mut a = AStar::new();
    place(&mut a, 0, 0);
    place(&mut a, 2, 0);
    a.handle_input(true, None);
    run(&mut a, 10_000);
    assert!(a.is_done());
    assert_eq!(role(&a, 0, 0), NodeType::Start);
    assert_eq!(role(&a, 1, 0), NodeType::Path);
    assert_eq!(role(&a, 2, 0), NodeType::End);
    assert_eq!(path_cells(&a), vec![(1, 0)]);
    assert_eq!(a.node(0, 0).get_g(), 0);
    assert_eq!(a.node(1, 0).get_g(), 1);
    assert_eq!(a.node(2, 0).get_g(), 2);
    assert_eq!(a.node(2, 0).parent, Some((1, 0)));
    assert_eq!(a.node(1, 0).parent, Some((0, 0)));
    assert_eq!(a.node(0, 0).parent, None);
}

#[test]
fn wall_with_gap_routes_through_gap() {
    let mut a = AStar::new();
    place(&mut a, 0, 0);
    place(&mut a, 2, 2);
    for y in 0..40 {
        if y != 2 {
            place(&mut a, 1, y);
            assert_eq!(role(&a, 1, y), NodeType::Wall);
        }
    }
    a.handle_input(true, None);
    run(&mut a, 10_000);
    assert!(a.is_done());
    assert_eq!(role(&a, 1, 2), NodeType::Path);
    let mut chain = Vec::new();
    let mut cur = a.node(2, 2).parent;
    while let Some(c) = cur {
        chain.push(c);
        cur = a.node(c.0, c.1).parent;
        assert!(chain.len() <= 1600);
    }
    assert!(chain.contains(&(1, 2)));
    assert_eq!(*chain.last().unwrap(), (0, 0));
    assert_eq!(a.node(2, 2).get_g(), 4);
}

#[test]
fn enclosed_end_exhausts() {
    let mut a = AStar::new();
    place(&mut a, 0, 0);
    place(&mut a, 5, 5);
    place(&mut a, 4, 5);
    place(&mut a, 6, 5);
    place(&mut a, 5, 4);
    place(&mut a, 5, 6);
    a.handle_input(true, None);
    let mut t: usize = 0;
    while t < 5_000 && !a.is_exhausted() {
        a.path_find();
        assert!(!a.is_done());
        assert!(path_cells(&a).is_empty());
        t += 1;
    }
    assert!(a.is_exhausted());
    assert!(!a.is_done());
    assert!(path_cells(&a).is_empty());
    assert_eq!(role(&a, 5, 5), NodeType::End);
    a.path_find();
    assert!(a.is_exhausted());
    assert!(path_cells(&a).is_empty());
}

#[test]
fn placement_rules() {
    let mut a = AStar::new();
    place(&mut a, 0, 0);
    assert_eq!(role(&a, 0, 0), NodeType::Start);
    place(&mut a, 1, 1);
    assert_eq!(role(&a, 1, 1), NodeType::End);
    place(&mut a, 2, 2);
    assert_eq!(role(&a, 2, 2), NodeType::Wall);
    place(&mut a, 2, 2);
    assert_eq!(role(&a, 2, 2), NodeType::Wall);
    place(&mut a, 0, 0);
    assert_eq!(role(&a, 0, 0), NodeType::Start);
    place(&mut a, 1, 1);
    assert_eq!(role(&a, 1, 1), NodeType::End);
}

#[test]
fn search_request_needs_start_and_end() {
    let mut a = AStar::new();
    a.handle_input(true, None);
    place(&mut a, 3, 3);
    a.path_find();
    assert_eq!(role(&a, 3, 3), NodeType::Start);
    assert_eq!(role(&a, 4, 3), NodeType::Empty);
    place(&mut a, 6, 3);
    a.path_find();
    assert_eq!(role(&a, 4, 3), NodeType::Empty);
    a.handle_input(true, None);
    a.path_find();
    assert_eq!(role(&a, 4, 3), NodeType::Explored);
}

#[test]
fn parent_chains_end_at_start() {
    let mut a = AStar::new();
    place(&mut a, 3, 17);
    place(&mut a, 30, 22);
    for y in 5..35 {
        place(&mut a, 15, y);
    }
    a.handle_input(true, None);
    run(&mut a, 10_000);
    assert!(a.is_done());
    for y in 0..40 {
        for x in 0..40 {
            let r = role(&a, x, y);
            if r == NodeType::Explored || r == NodeType::Expanded || r == NodeType::Path {
                let mut hops: usize = 0;
                let mut cur = (x, y);
                while let Some(p) = a.node(cur.0, cur.1).parent {
                    assert_eq!(a.node(cur.0, cur.1).get_g(), a.node(p.0, p.1).get_g() + 1);
                    cur = p;
                    hops += 1;
                    assert!(hops <= 1600);
                }
                assert_eq!(cur, (3, 17));
                assert_eq!(a.node(cur.0, cur.1).get_g(), 0);
            }
        }
    }
}

#[test]
fn steps_after_done_change_nothing() {
    let mut a = AStar::new();
    place(&mut a, 10, 10);
    place(&mut a, 14, 12);
    a.handle_input(true, None);
    run(&mut a, 10_000);
    assert!(a.is_done());
    let before: Vec<NodeType> = (0..1600).map(|i| role(&a, i % 40, i / 40)).collect();
    for _ in 0..20 {
        a.path_find();
    }
    let after: Vec<NodeType> = (0..1600).map(|i| role(&a, i % 40, i / 40)).collect();
    assert_eq!(before, after);
    assert!(a.is_done());
}

#[test]
fn identical_runs_give_identical_paths() {
    let build = || {
        let mut a = AStar::new();
        place(&mut a, 2, 3);
        place(&mut a, 25, 30);
        for x in 0..30 {
            place(&mut a, x, 12);
        }
        a.handle_input(true, None);
        run(&mut a, 10_000);
        a
    };
    let a = build();
    let b = build();
    assert!(a.is_done() && b.is_done());
    assert!(!path_cells(&a).is_empty());
    assert_eq!(path_cells(&a), path_cells(&b));
}

#[test]
fn ties_broken_by_smaller_coordinates() {
    let mut a = AStar::new();
    place(&mut a, 5, 5);
    place(&mut a, 7, 7);
    a.handle_input(true, None);
    a.path_find();
    assert_eq!(a.node(6, 5).get_f(), 4);
    assert_eq!(a.node(5, 6).get_f(), 4);
    assert_eq!(a.node(4, 5).get_f(), 6);
    a.path_find();
    assert_eq!(role(&a, 5, 6), NodeType::Expanded);
    assert_eq!(role(&a, 6, 5), NodeType::Explored);
}

#[test]
fn node_distance_and_costs() {
    let a = Node::new(3, 4);
    let b = Node::new(10, 1);
    assert_eq!(a.distance(&b), 10);
    assert_eq!(b.distance(&a), 10);
    assert_eq!(a.get_g(), 6400);
    assert_eq!(a.get_f(), 12800);
    let mut s = Node::new(0, 0);
    s.set_start();
    assert_eq!(s.get_g(), 0);
    let mut c = Node::new(1, 0);
    c.set_parent(&s);
    assert_eq!(c.parent, Some((0, 0)));
    assert_eq!(c.get_g(), 1);
    c.h = 5;
    assert_eq!(c.get_f(), 6);
    let mut d = Node::new(2, 0);
    d.set_parent(&c);
    assert_eq!(d.get_g(), 2);
}

#[test]
fn node_roles_colors_and_shape() {
    let mut n = Node::new(2, 3);
    assert_eq!(*n.get_type(), NodeType::Empty);
    assert_eq!(n.color(), (255, 255, 255));
    n.set_wall();
    assert_eq!(n.color(), (0, 0, 0));
    n.set_start();
    assert_eq!(n.color(), (0, 0, 255));
    n.set_end();
    assert_eq!(n.color(), (255, 255, 0));
    n.set_expanded();
    assert_eq!(n.color(), (0, 255, 0));
    n.set_explored();
    assert_eq!(n.color(), (255, 0, 0));
    n.set_path();
    assert_eq!(*n.get_type(), NodeType::Path);
    assert_eq!(n.color(), (255, 115, 0));
    assert_eq!(n.shape(), (40, 60, 20, 20));
}
