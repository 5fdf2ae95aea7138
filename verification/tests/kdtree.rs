use elite_shield_tester::kdtree::{KDTreeNode, KdTreeError};

fn build(points: Vec<Vec<i64>>) -> Box<KDTreeNode> {
    KDTreeNode::from_points(points).unwrap().unwrap()
}

#[test]
fn test_kdtree() {
    let item_list: Vec<Vec<i64>> = vec![
        // (foo, bar, baz); baz is the identity coordinate, foo and bar the
        // spatial axes compared by the strict dominance rule.
        vec![10, 20, 10],
        vec![10, 20, 30],
        vec![30, 20, 10],
        vec![30, 10, 30],
        vec![10, 30, 20],
        vec![30, 10, 20],
        vec![20, 30, 10],
    ];
    // (20,30) strictly beats (10,20) on both spatial axes, and nothing
    // strictly beats any of the other spatial positions.
    let eliminations = [0, 1];

    let tree = build(item_list.clone());
    for (i, item) in item_list.iter().enumerate() {
        assert_eq!(eliminations.contains(&i), tree.dominates(item), "point {}", i);
    }
}

#[test]
fn query_above_every_potency_is_not_dominated() {
    let tree = build(vec![vec![0, 0, 7], vec![1, 1, 8]]);
    assert!(!tree.dominates(&vec![2, 2, 0]));
}

#[test]
fn query_beaten_on_both_axes_is_dominated() {
    let tree = build(vec![vec![0, 0, 7], vec![1, 1, 8]]);
    assert!(tree.dominates(&vec![-1, -1, 0]));
}

#[test]
fn indexed_point_is_not_its_own_dominator() {
    let tree = build(vec![vec![3, 4, 9]]);
    assert!(!tree.dominates(&vec![3, 4, 9]));
}

#[test]
fn spatial_tie_is_not_domination() {
    // Two points equal on the spatial axes: neither strictly beats the other.
    let tree = build(vec![vec![3, 4, 1], vec![3, 4, 2]]);
    assert!(!tree.dominates(&vec![3, 4, 1]));
    assert!(!tree.dominates(&vec![3, 4, 2]));
}

#[test]
fn build_is_order_invariant() {
    let base: Vec<Vec<i64>> = vec![
        vec![10, 20, 1],
        vec![10, 20, 2],
        vec![30, 10, 3],
        vec![20, 30, 4],
        vec![0, 0, 5],
        vec![30, 30, 6],
        vec![5, 25, 7],
    ];
    let mut reordered = base.clone();
    reordered.reverse();
    reordered.swap(0, 3);
    let t1 = build(base.clone());
    let t2 = build(reordered);
    let mut queries: Vec<Vec<i64>> = base.clone();
    for x in [-5i64, 0, 5, 10, 15, 20, 25, 30, 35] {
        for y in [-5i64, 0, 5, 10, 15, 20, 25, 30, 35] {
            queries.push(vec![x, y, 99]);
        }
    }
    for q in &queries {
        assert_eq!(t1.dominates(q), t2.dominates(q), "query {:?}", q);
    }
}

#[test]
fn four_spatial_axes_cycle() {
    // Five coordinates: four spatial axes plus the identity.
    let tree = build(vec![
        vec![1, 2, 3, 4, 0],
        vec![5, 6, 7, 8, 1],
        vec![2, 2, 2, 2, 2],
    ]);
    assert!(tree.dominates(&vec![0, 0, 0, 0, 9]));
    assert!(tree.dominates(&vec![4, 5, 6, 7, 9]));
    assert!(!tree.dominates(&vec![5, 6, 7, 8, 9]));
    assert!(!tree.dominates(&vec![9, 0, 0, 0, 9]));
}

#[test]
fn empty_point_list_builds_no_tree() {
    assert!(KDTreeNode::from_points(Vec::new()).unwrap().is_none());
}

#[test]
fn too_small_dimension_is_rejected() {
    let r = KDTreeNode::from_points(vec![vec![1]]);
    assert_eq!(r.err(), Some(KdTreeError::DimensionTooSmall));
}

#[test]
fn mismatched_dimensions_are_rejected() {
    let r = KDTreeNode::from_points(vec![vec![1, 2, 3], vec![1, 2]]);
    assert_eq!(r.err(), Some(KdTreeError::MismatchedDimensions));
}

#[test]
fn dims_reports_point_dimension() {
    let tree = build(vec![vec![1, 2, 3]]);
    assert_eq!(tree.dims(), 3);
}
