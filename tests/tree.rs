use gravsim::quadrant::Quadrant;
use gravsim::simulation::{build_tree, Frame};
use gravsim::tree::{Accuracy, Aggregate, MassData, Node};

const G: f64 = 1e-4;

fn pt(x: i64, y: i64, mass: u64) -> MassData {
    MassData { x, y, mass }
}

fn frame() -> Frame {
    Frame { origin_x: -2500, origin_y: -2500, scale: 5000 }
}

/// Sums the softened force on `target` from a list of aggregates.
fn force(cut: &[Aggregate], target: MassData, softening: f64) -> (f64, f64) {
    let mut fx = 0.0;
    let mut fy = 0.0;
    for a in cut {
        let m = a.mass as f64;
        let dx = a.moment_x as f64 / m - target.x as f64;
        let dy = a.moment_y as f64 / m - target.y as f64;
        let dist = (softening + dx * dx + dy * dy).sqrt();
        fx += dx / dist.powi(3) * m;
        fy += dy / dist.powi(3) * m;
    }
    (G * target.mass as f64 * fx, G * target.mass as f64 * fy)
}

/// Checks that every aggregate below `n` lies in its node's square.
fn check_containment(n: &Node) -> u64 {
    let (ox, oy) = n.origin();
    let s = n.scale() as i128;
    let a = n.aggregate();
    if a.mass > 0 {
        let m = a.mass as i128;
        assert!(a.moment_x >= ox as i128 * m && a.moment_x < (ox as i128 + s) * m);
        assert!(a.moment_y >= oy as i128 * m && a.moment_y < (oy as i128 + s) * m);
    }
    let mut below = 0;
    let mut any = false;
    for q in [Quadrant::NorthWest, Quadrant::NorthEast, Quadrant::SouthWest, Quadrant::SouthEast] {
        if let Some(c) = n.child_at(q) {
            any = true;
            let (cx, cy) = c.origin();
            assert!(cx >= ox && cy >= oy);
            assert!(cx as i128 + c.scale() as i128 <= ox as i128 + s);
            assert!(cy as i128 + c.scale() as i128 <= oy as i128 + s);
            below += check_containment(c);
        }
    }
    if any {
        assert_eq!(below, a.mass);
    }
    a.mass
}

#[test]
fn new_root_is_empty_leaf() {
    let n = Node::new_root(-8, -8, 16);
    assert!(n.is_leaf());
    assert_eq!(n.mass(), 0);
    assert_eq!(n.origin(), (-8, -8));
    assert_eq!(n.scale(), 16);
}

#[test]
fn contains_is_half_open() {
    let n = Node::new_root(0, 0, 10);
    assert!(n.contains(0, 0));
    assert!(n.contains(9, 9));
    assert!(!n.contains(10, 0));
    assert!(!n.contains(0, 10));
    assert!(!n.contains(-1, 5));
}

#[test]
fn first_insert_stays_leaf() {
    let mut n = Node::new_root(0, 0, 16);
    n.insert(pt(3, 4, 7));
    assert!(n.is_leaf());
    assert_eq!(n.aggregate(), Aggregate { mass: 7, moment_x: 21, moment_y: 28 });
}

#[test]
fn zero_mass_insert_is_ignored() {
    let mut n = Node::new_root(0, 0, 16);
    n.insert(pt(3, 4, 0));
    assert_eq!(n.mass(), 0);
    n.insert(pt(3, 4, 2));
    n.insert(pt(9, 9, 0));
    assert!(n.is_leaf());
    assert_eq!(n.mass(), 2);
}

#[test]
fn second_insert_splits() {
    let mut n = Node::new_root(0, 0, 16);
    n.insert(pt(1, 1, 2));
    n.insert(pt(12, 13, 3));
    assert!(!n.is_leaf());
    assert_eq!(n.aggregate(), Aggregate { mass: 5, moment_x: 2 + 36, moment_y: 2 + 39 });
    let nw = n.child_at(Quadrant::NorthWest).unwrap();
    let se = n.child_at(Quadrant::SouthEast).unwrap();
    assert!(n.child_at(Quadrant::NorthEast).is_none());
    assert_eq!(nw.origin(), (0, 0));
    assert_eq!(se.origin(), (8, 8));
    assert_eq!(se.scale(), 8);
    assert_eq!(nw.mass(), 2);
    assert_eq!(se.mass(), 3);
}

#[test]
fn coincident_points_merge() {
    let mut n = Node::new_root(0, 0, 16);
    n.insert(pt(5, 5, 1));
    n.insert(pt(5, 5, 4));
    assert!(n.is_leaf());
    assert_eq!(n.aggregate(), Aggregate { mass: 5, moment_x: 25, moment_y: 25 });
}

#[test]
fn close_points_split_down_to_unit_cells() {
    let mut n = Node::new_root(0, 0, 16);
    n.insert(pt(7, 7, 1));
    n.insert(pt(8, 8, 1));
    n.insert(pt(7, 8, 1));
    assert_eq!(n.mass(), 3);
    assert_eq!(check_containment(&n), 3);
}

#[test]
fn odd_scale_children_cover_square() {
    let mut n = Node::new_root(0, 0, 5);
    n.insert(pt(2, 2, 1));
    n.insert(pt(3, 0, 1));
    n.insert(pt(4, 4, 1));
    n.insert(pt(0, 4, 1));
    assert_eq!(n.child_at(Quadrant::NorthWest).unwrap().origin(), (0, 0));
    assert_eq!(n.child_at(Quadrant::NorthWest).unwrap().scale(), 3);
    assert_eq!(n.child_at(Quadrant::NorthEast).unwrap().origin(), (2, 0));
    assert_eq!(check_containment(&n), 4);
}

#[test]
fn new_child_covers_its_quarter() {
    let root = Node::new_root(0, 0, 16);
    let c = Node::new_child(&root, Quadrant::SouthWest, pt(2, 12, 5));
    assert_eq!(c.origin(), (0, 8));
    assert_eq!(c.scale(), 8);
    assert!(c.is_leaf());
    assert_eq!(c.aggregate(), Aggregate { mass: 5, moment_x: 10, moment_y: 60 });
}

#[test]
fn containment_holds_in_every_node() {
    let mut points = Vec::new();
    let mut seed: i64 = 17;
    for i in 0..200 {
        seed = (seed * 1103515245 + 12345) % 2147483648;
        let x = seed % 5000 - 2500;
        seed = (seed * 1103515245 + 12345) % 2147483648;
        let y = seed % 5000 - 2500;
        points.push(pt(x, y, 1 + (i % 7) as u64));
    }
    let tree = build_tree(frame(), &points);
    let total: u64 = points.iter().map(|p| p.mass).sum();
    assert_eq!(check_containment(&tree), total);
}

#[test]
fn mass_conservation_any_order() {
    let points = vec![pt(10, 20, 3), pt(-400, 7, 5), pt(1000, -1000, 2), pt(11, 20, 9), pt(0, 0, 1)];
    let mut reversed = points.clone();
    reversed.reverse();
    let a = build_tree(frame(), &points);
    let b = build_tree(frame(), &reversed);
    assert_eq!(a.mass(), 20);
    assert_eq!(b.mass(), 20);
}

#[test]
fn centroid_is_weighted_average_any_order() {
    let points = vec![pt(10, 20, 3), pt(-400, 7, 5), pt(1000, -1000, 2), pt(11, 20, 9)];
    let mut rotated = points.clone();
    rotated.rotate_left(2);
    let a = build_tree(frame(), &points).aggregate();
    let b = build_tree(frame(), &rotated).aggregate();
    let mx: i128 = 30 - 2000 + 2000 + 99;
    let my: i128 = 60 + 35 - 2000 + 180;
    assert_eq!(a, Aggregate { mass: 19, moment_x: mx, moment_y: my });
    assert_eq!(a, b);
}

#[test]
fn single_body_tree_is_leaf_and_attracts() {
    let source = pt(100, 0, 50);
    let tree = build_tree(frame(), &vec![source]);
    assert!(tree.is_leaf());
    assert_eq!(tree.aggregate(), Aggregate { mass: 50, moment_x: 5000, moment_y: 0 });
    let target = pt(-900, 0, 2);
    let acc = Accuracy { theta_num: 5, theta_den: 4, softening: 0 };
    let cut = tree.interactions(target.x, target.y, acc);
    assert_eq!(cut.len(), 1);
    let (fx, fy) = force(&cut, target, 0.05);
    let expected = G * 50.0 * 2.0 / (1000.0 * 1000.0);
    assert!(fx > 0.0);
    assert!(fy.abs() < 1e-12);
    assert!((fx - expected).abs() / expected < 1e-6);
}

#[test]
fn theta_trade_off_stays_accurate() {
    let mut points = Vec::new();
    for i in 0..6 {
        for j in 0..6 {
            points.push(pt(1500 + 10 * i, 1500 + 10 * j, 3));
            points.push(pt(-1500 + 12 * i, -1400 + 9 * j, 2));
        }
    }
    let target = pt(-2400, 2400, 1);
    points.push(target);
    let tree = build_tree(frame(), &points);
    let exact = tree.interactions(-2400, 2400, Accuracy { theta_num: 0, theta_den: 1, softening: 0 });
    let approx = tree.interactions(-2400, 2400, Accuracy { theta_num: 6, theta_den: 5, softening: 0 });
    assert!(approx.len() < exact.len());
    let (ex, ey) = force(&exact, target, 0.05);
    let (ax, ay) = force(&approx, target, 0.05);
    let mag = (ex * ex + ey * ey).sqrt();
    let err = ((ex - ax).powi(2) + (ey - ay).powi(2)).sqrt();
    assert!(err / mag < 0.05);
}

#[test]
fn zero_theta_visits_every_leaf() {
    let points = vec![pt(1, 1, 1), pt(100, 100, 2), pt(-100, 50, 3), pt(1000, -2000, 4)];
    let tree = build_tree(frame(), &points);
    let cut = tree.interactions(0, 0, Accuracy { theta_num: 0, theta_den: 1, softening: 0 });
    assert_eq!(cut.len(), 4);
    let total: u64 = cut.iter().map(|a| a.mass).sum();
    assert_eq!(total, 10);
}

#[test]
fn cut_counts_every_point_once() {
    let points = vec![pt(1, 1, 1), pt(2, 1, 2), pt(-2000, 50, 3), pt(1000, -2000, 4), pt(3, 3, 5)];
    let tree = build_tree(frame(), &points);
    let cut = tree.interactions(-2400, 2400, Accuracy { theta_num: 5, theta_den: 4, softening: 200 });
    let total: u64 = cut.iter().map(|a| a.mass).sum();
    assert_eq!(total, 15);
    assert!(cut.len() < 5);
    let mx: i128 = cut.iter().map(|a| a.moment_x).sum();
    let my: i128 = cut.iter().map(|a| a.moment_y).sum();
    let root = tree.aggregate();
    assert_eq!((mx, my), (root.moment_x, root.moment_y));
}

#[test]
fn two_points_in_a_four_wide_root() {
    let mut n = Node::new_root(0, 0, 4);
    n.insert(pt(1, 1, 1));
    n.insert(pt(3, 3, 1));
    assert!(!n.is_leaf());
    assert_eq!(n.aggregate(), Aggregate { mass: 2, moment_x: 4, moment_y: 4 });
    let nw = n.child_at(Quadrant::NorthWest).unwrap();
    let se = n.child_at(Quadrant::SouthEast).unwrap();
    assert!(n.child_at(Quadrant::NorthEast).is_none());
    assert!(n.child_at(Quadrant::SouthWest).is_none());
    assert!(nw.is_leaf() && se.is_leaf());
    assert_eq!((nw.origin(), nw.scale()), ((0, 0), 2));
    assert_eq!((se.origin(), se.scale()), ((2, 2), 2));
    assert_eq!(nw.aggregate(), Aggregate { mass: 1, moment_x: 1, moment_y: 1 });
    assert_eq!(se.aggregate(), Aggregate { mass: 1, moment_x: 3, moment_y: 3 });
}

#[test]
fn split_hands_merged_occupant_down() {
    let mut n = Node::new_root(0, 0, 8);
    n.insert(pt(1, 2, 2));
    n.insert(pt(1, 2, 3));
    n.insert(pt(6, 6, 1));
    let nw = n.child_at(Quadrant::NorthWest).unwrap();
    assert!(nw.is_leaf());
    assert_eq!(nw.aggregate(), Aggregate { mass: 5, moment_x: 5, moment_y: 10 });
    assert_eq!(n.child_at(Quadrant::SouthEast).unwrap().mass(), 1);
}
