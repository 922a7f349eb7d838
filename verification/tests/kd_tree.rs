use kdtree::distance::squared_euclidean;
use kdtree::ErrorKind;
use kdtree::KdTree;

static POINT_A: ([i64; 2], usize) = ([0, 0], 0);
static POINT_B: ([i64; 2], usize) = ([1, 1], 1);
static POINT_C: ([i64; 2], usize) = ([2, 2], 2);
static POINT_D: ([i64; 2], usize) = ([3, 3], 3);

#[test]
fn kd_tree_it_works() {
    let dimensions = 2;
    let capacity_per_node = 2;
    let mut kd_tree = KdTree::with_capacity(dimensions, capacity_per_node);
    kd_tree.add(&POINT_A.0, &POINT_A.1).unwrap();
    kd_tree.add(&POINT_B.0, &POINT_B.1).unwrap();
    kd_tree.add(&POINT_C.0, &POINT_C.1).unwrap();
    kd_tree.add(&POINT_D.0, &POINT_D.1).unwrap();
    assert_eq!(kd_tree.size(), 4);
    assert_eq!(kd_tree.nearest(&POINT_A.0, 0, &squared_euclidean).unwrap(), vec![]);
    assert_eq!(kd_tree.nearest(&POINT_A.0, 1, &squared_euclidean).unwrap(), vec![(0, &&0)]);
    assert_eq!(
        kd_tree.nearest(&POINT_A.0, 2, &squared_euclidean).unwrap(),
        vec![(0, &&0), (2, &&1)]
    );
    assert_eq!(
        kd_tree.nearest(&POINT_A.0, 3, &squared_euclidean).unwrap(),
        vec![(0, &&0), (2, &&1), (8, &&2)]
    );
    assert_eq!(
        kd_tree.nearest(&POINT_A.0, 4, &squared_euclidean).unwrap(),
        vec![(0, &&0), (2, &&1), (8, &&2), (18, &&3)]
    );
    assert_eq!(
        kd_tree.nearest(&POINT_A.0, 5, &squared_euclidean).unwrap(),
        vec![(0, &&0), (2, &&1), (8, &&2), (18, &&3)]
    );
    assert_eq!(
        kd_tree.nearest(&POINT_B.0, 4, &squared_euclidean).unwrap(),
        vec![(0, &&1), (2, &&0), (2, &&2), (8, &&3)]
    );
}

#[test]
fn kd_tree_handles_zero_capacity() {
    let mut kd_tree = KdTree::with_capacity(2, 0);
    assert_eq!(kd_tree.add(&POINT_A.0, &POINT_A.1), Err(ErrorKind::ZeroCapacity));
    assert_eq!(kd_tree.nearest(&POINT_A.0, 1, &squared_euclidean).unwrap(), vec![]);
}

#[test]
fn kd_tree_handles_wrong_dimension() {
    let point = ([0i64], 0i64);
    let mut kd_tree = KdTree::with_capacity(2, 1);
    assert_eq!(kd_tree.add(&point.0, &point.1), Err(ErrorKind::WrongDimension));
    assert_eq!(kd_tree.nearest(&point.0, 1, &squared_euclidean), Err(ErrorKind::WrongDimension));
}

#[test]
fn kd_tree_handles_non_finite_coordinate() {
    let point_a = ([i64::MIN, i64::MIN], 0i64);
    let point_b = ([i64::MAX, i64::MAX], 0i64);
    let mut kd_tree = KdTree::with_capacity(2, 1);
    assert_eq!(kd_tree.add(&point_a.0, &point_a.1), Err(ErrorKind::NonFiniteCoordinate));
    assert_eq!(kd_tree.add(&point_b.0, &point_b.1), Err(ErrorKind::NonFiniteCoordinate));
    assert_eq!(
        kd_tree.nearest(&point_a.0, 1, &squared_euclidean),
        Err(ErrorKind::NonFiniteCoordinate)
    );
    assert_eq!(
        kd_tree.nearest(&point_b.0, 1, &squared_euclidean),
        Err(ErrorKind::NonFiniteCoordinate)
    );
}

#[test]
fn kd_tree_handles_singularity() {
    let mut kd_tree = KdTree::with_capacity(2, 1);
    kd_tree.add(&POINT_A.0, &POINT_A.1).unwrap();
    kd_tree.add(&POINT_A.0, &POINT_A.1).unwrap();
    kd_tree.add(&POINT_A.0, &POINT_A.1).unwrap();
    kd_tree.add(&POINT_B.0, &POINT_B.1).unwrap();
    kd_tree.add(&POINT_B.0, &POINT_B.1).unwrap();
    kd_tree.add(&POINT_B.0, &POINT_B.1).unwrap();
    kd_tree.add(&POINT_C.0, &POINT_C.1).unwrap();
    kd_tree.add(&POINT_C.0, &POINT_C.1).unwrap();
    kd_tree.add(&POINT_C.0, &POINT_C.1).unwrap();
    assert_eq!(kd_tree.size(), 9);
}
