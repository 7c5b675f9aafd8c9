use gravsim::simulation::{build_tree, Frame};
use gravsim::tree::{Accuracy, Aggregate, MassData};

fn frame() -> Frame {
    Frame { origin_x: -750, origin_y: -750, scale: 1500 }
}

#[test]
fn frame_contains_half_open() {
    let f = frame();
    assert!(f.contains(-750, -750));
    assert!(f.contains(749, 749));
    assert!(!f.contains(750, 0));
    assert!(!f.contains(0, -751));
}

#[test]
fn empty_step_stays_empty() {
    let bodies: Vec<MassData> = Vec::new();
    for _ in 0..10 {
        let tree = build_tree(frame(), &bodies);
        assert_eq!(tree.mass(), 0);
        assert!(tree.is_leaf());
        let cut = tree.interactions(0, 0, Accuracy { theta_num: 6, theta_den: 5, softening: 1 });
        assert!(cut.is_empty());
    }
}

#[test]
fn out_of_bounds_body_is_excluded() {
    let inside = vec![
        MassData { x: 10, y: 10, mass: 4 },
        MassData { x: -300, y: 200, mass: 6 },
        MassData { x: 0, y: 0, mass: 1 },
    ];
    let mut with_outside = inside.clone();
    with_outside.insert(1, MassData { x: 5000, y: 0, mass: 1000 });
    with_outside.push(MassData { x: 750, y: 750, mass: 7 });
    let a = build_tree(frame(), &inside);
    let b = build_tree(frame(), &with_outside);
    assert_eq!(a.aggregate(), b.aggregate());
    assert_eq!(a.aggregate(), Aggregate { mass: 11, moment_x: 40 - 1800, moment_y: 40 + 1200 });
    let acc = Accuracy { theta_num: 6, theta_den: 5, softening: 1 };
    assert_eq!(a.interactions(0, 0, acc), b.interactions(0, 0, acc));
}

#[test]
fn two_body_orbit_keeps_separation() {
    const RES: f64 = 1024.0;
    const G: f64 = 1.0;
    let f = Frame { origin_x: -2500 * 1024, origin_y: -2500 * 1024, scale: 5000 * 1024 };
    let acc = Accuracy { theta_num: 6, theta_den: 5, softening: (0.05 * RES * RES) as u64 };
    let m = 1000.0f64;
    let d = 100.0f64;
    let v = (G * m / (4.0 * d)).sqrt();
    let mut pos = [(d, 0.0), (-d, 0.0)];
    let mut vel = [(0.0, v), (0.0, -v)];
    for _ in 0..500 {
        let points: Vec<MassData> = pos
            .iter()
            .map(|&(x, y)| MassData { x: (x * RES).round() as i64, y: (y * RES).round() as i64, mass: m as u64 })
            .collect();
        let tree = build_tree(f, &points);
        for i in 0..2 {
            let cut = tree.interactions(points[i].x, points[i].y, acc);
            let (mut fx, mut fy) = (0.0, 0.0);
            for a in &cut {
                let am = a.mass as f64;
                let dx = (a.moment_x as f64 / am - points[i].x as f64) / RES;
                let dy = (a.moment_y as f64 / am - points[i].y as f64) / RES;
                let dist = (0.05 + dx * dx + dy * dy).sqrt();
                fx += G * m * am * dx / dist.powi(3);
                fy += G * m * am * dy / dist.powi(3);
            }
            vel[i].0 += fx / m;
            vel[i].1 += fy / m;
            pos[i].0 += vel[i].0;
            pos[i].1 += vel[i].1;
        }
        let sep = ((pos[0].0 - pos[1].0).powi(2) + (pos[0].1 - pos[1].1).powi(2)).sqrt();
        assert!((sep - 2.0 * d).abs() < 0.05 * 2.0 * d);
    }
}
