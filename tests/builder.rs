use chainshot::builder::{build_chain, plan_chain, ChainError, ChainParams};
use chainshot::geometry::{distance_sq, integer_sqrt, Point, Vector};

fn p(x: i32, y: i32) -> Point {
    Point { x, y }
}

fn params(half_length: u32) -> ChainParams {
    ChainParams { half_length, thickness: 5 }
}

#[test]
fn hundred_units_at_twenty_make_five_links() {
    let b = build_chain(p(0, 0), p(100, 0), params(10)).unwrap();
    assert_eq!(b.spacing, 20);
    assert_eq!(b.links.len(), 5);
    let offsets: Vec<u64> = b.links.iter().map(|l| l.offset).collect();
    assert_eq!(offsets, vec![0, 20, 40, 60, 80]);
    // along +x the offset is the x coordinate
    let xs: Vec<f64> = b
        .links
        .iter()
        .map(|l| b.anchor.x as f64 + l.offset as f64 * b.direction.x as f64 / 100.0)
        .collect();
    assert_eq!(xs, vec![0.0, 20.0, 40.0, 60.0, 80.0]);
    assert_eq!(b.joints.len(), 4);
    assert_eq!(b.direction, Vector { x: 100, y: 0 });
    assert_eq!(b.anchor, p(0, 0));
    assert_eq!(b.thickness, 5);
}

#[test]
fn link_count_is_floor_of_distance_over_spacing() {
    // distance 50, spacing 20
    let b = build_chain(p(0, 0), p(30, 40), params(10)).unwrap();
    assert_eq!(b.links.len(), 2);
    assert_eq!(b.joints.len(), 1);
    // distance 119, spacing 20
    let b = build_chain(p(5, 5), p(124, 5), params(10)).unwrap();
    assert_eq!(b.links.len(), 5);
    assert_eq!(b.joints.len(), 4);
    // distance 120, spacing 20
    let b = build_chain(p(0, 0), p(0, -120), params(10)).unwrap();
    assert_eq!(b.links.len(), 6);
    assert_eq!(b.joints.len(), 5);
    assert_eq!(b.direction, Vector { x: 0, y: -120 });
}

#[test]
fn short_distance_gives_one_link_at_anchor() {
    let b = build_chain(p(7, -3), p(17, -3), params(10)).unwrap();
    assert_eq!(b.links.len(), 1);
    assert_eq!(b.links[0].offset, 0);
    assert_eq!(b.links[0].index, 0);
    assert!(b.links[0].is_root);
    assert!(b.joints.is_empty());
    assert_eq!(b.anchor, p(7, -3));
}

#[test]
fn several_links_start_at_anchor_and_end_near_target() {
    let b = build_chain(p(-50, 10), p(-50, 149), params(10)).unwrap();
    let n = b.links.len();
    assert_eq!(n, 6);
    assert_eq!(b.links[0].offset, 0);
    for i in 1..n {
        assert_eq!(b.links[i].offset, b.links[i - 1].offset + 20);
        assert!(!b.links[i].is_root);
        assert_eq!(b.links[i].index, i as u64);
    }
    let last = b.links[n - 1].offset;
    assert_eq!(last, 100);
    // the target is 139 away: at least one and less than two spacings on
    assert!(last + 20 <= 139 && 139 < last + 40);
}

#[test]
fn exact_multiple_ends_one_spacing_before_target() {
    let b = build_chain(p(0, 0), p(60, 80), params(25)).unwrap();
    assert_eq!(b.links.len(), 2);
    assert_eq!(b.links[1].offset + 50, 100);
}

#[test]
fn joints_bind_neighbours_end_to_end() {
    let b = build_chain(p(0, 0), p(100, 0), params(10)).unwrap();
    for (j, joint) in b.joints.iter().enumerate() {
        assert_eq!(joint.link_a, j as u64);
        assert_eq!(joint.link_b, j as u64 + 1);
        assert_ne!(joint.link_a, joint.link_b);
        assert_eq!(joint.anchor_a, Vector { x: 10, y: 0 });
        assert_eq!(joint.anchor_b, Vector { x: -10, y: 0 });
    }
    for k in 0..b.links.len() as u64 {
        let touching = b.joints.iter().filter(|j| j.link_a == k || j.link_b == k).count();
        assert!(touching <= 2);
    }
}

#[test]
fn coincident_points_give_one_link() {
    let b = build_chain(p(42, 42), p(42, 42), params(10)).unwrap();
    assert_eq!(b.links.len(), 1);
    assert_eq!(b.links[0].offset, 0);
    assert!(b.links[0].is_root);
    assert!(b.joints.is_empty());
    assert_eq!(b.direction, Vector { x: 0, y: 0 });
}

#[test]
fn zero_spacing_is_refused() {
    let r = build_chain(p(0, 0), p(100, 0), params(0));
    assert_eq!(r.unwrap_err(), ChainError::ZeroSpacing);
}

#[test]
fn extreme_coordinates_do_not_overflow() {
    let b = build_chain(p(i32::MIN, i32::MIN), p(i32::MAX, i32::MAX), params(u32::MAX)).unwrap();
    assert_eq!(b.links.len(), 1);
    assert_eq!(b.direction, Vector { x: u32::MAX as i64, y: u32::MAX as i64 });
    let b = build_chain(p(-1_000_000, 0), p(1_000_000, 0), params(1000)).unwrap();
    assert_eq!(b.links.len(), 1000);
    assert_eq!(b.joints.len(), 999);
    assert_eq!(b.links[999].offset, 1_998_000);
}

#[test]
fn squared_distance_and_square_root() {
    assert_eq!(distance_sq(p(1, 2), p(4, 6)), 25);
    assert_eq!(distance_sq(p(i32::MIN, 0), p(i32::MAX, 0)), (u32::MAX as u128) * (u32::MAX as u128));
    assert_eq!(integer_sqrt(0), 0);
    assert_eq!(integer_sqrt(24), 4);
    assert_eq!(integer_sqrt(25), 5);
    assert_eq!(integer_sqrt(26), 5);
    let big = 2 * (u32::MAX as u128) * (u32::MAX as u128);
    let r = integer_sqrt(big) as u128;
    assert!(r * r <= big && big < (r + 1) * (r + 1));
}

#[test]
fn plan_needs_both_ends() {
    assert!(plan_chain(None, Some(p(100, 0)), params(10)).is_none());
    assert!(plan_chain(Some(p(0, 0)), None, params(10)).is_none());
    assert!(plan_chain(None, None, params(10)).is_none());
    assert!(plan_chain(Some(p(0, 0)), Some(p(100, 0)), params(0)).is_none());
    let b = plan_chain(Some(p(0, 0)), Some(p(100, 0)), params(10)).unwrap();
    assert_eq!(b.links.len(), 5);
    assert_eq!(b.joints.len(), 4);
}
