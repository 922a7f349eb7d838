use kdtree::distance::squared_euclidean;
use kdtree::kdtree::NearestIter;
use kdtree::{ErrorKind, KdTree};
use std::ops::Drop;
use std::sync::{Arc, Mutex};

const POINT_A: ([i64; 2], usize) = ([0, 0], 0);
const POINT_B: ([i64; 2], usize) = ([1, 1], 1);
const POINT_C: ([i64; 2], usize) = ([2, 2], 2);
const POINT_D: ([i64; 2], usize) = ([3, 3], 3);

fn basic_tree() -> KdTree<usize> {
    let mut tree = KdTree::with_capacity(2, 2);
    for &(coords, value) in &[POINT_A, POINT_B, POINT_C, POINT_D] {
        tree.add(&coords, value).unwrap();
    }
    tree
}

fn assert_ordered_usize(results: Vec<(i64, &usize)>, expected: &[(i64, usize)]) {
    assert_eq!(results.into_iter().map(|(d, v)| (d, *v)).collect::<Vec<_>>(), expected);
}

fn drain<'a, T, F: Fn(&[i64], &[i64]) -> i64>(mut iter: NearestIter<'a, T, F>) -> Vec<(i64, &'a T)> {
    let mut items = Vec::new();
    while let Some(item) = iter.next() {
        items.push(item);
    }
    items
}

struct Test(Arc<Mutex<i32>>);

impl PartialEq<Test> for Test {
    fn eq(&self, other: &Test) -> bool {
        *self.0.lock().unwrap() == *other.0.lock().unwrap()
    }
}

impl Drop for Test {
    fn drop(&mut self) {
        let mut drop_counter = self.0.lock().unwrap();
        *drop_counter += 1;
    }
}

#[test]
fn feature_nearest_nearest_queries_match_expected() {
    let tree = basic_tree();
    assert_eq!(tree.size(), 4);

    assert_ordered_usize(tree.nearest(&POINT_A.0, 0, &squared_euclidean).unwrap(), &[]);
    assert_ordered_usize(tree.nearest(&POINT_A.0, 1, &squared_euclidean).unwrap(), &[(0, 0)]);
    assert_ordered_usize(tree.nearest(&POINT_A.0, 2, &squared_euclidean).unwrap(), &[(0, 0), (2, 1)]);
    assert_ordered_usize(
        tree.nearest(&POINT_A.0, 3, &squared_euclidean).unwrap(),
        &[(0, 0), (2, 1), (8, 2)],
    );
    assert_ordered_usize(
        tree.nearest(&POINT_A.0, 4, &squared_euclidean).unwrap(),
        &[(0, 0), (2, 1), (8, 2), (18, 3)],
    );
    assert_ordered_usize(
        tree.nearest(&POINT_A.0, 5, &squared_euclidean).unwrap(),
        &[(0, 0), (2, 1), (8, 2), (18, 3)],
    );
    assert_ordered_usize(
        tree.nearest(&POINT_B.0, 4, &squared_euclidean).unwrap(),
        &[(0, 1), (2, 0), (2, 2), (8, 3)],
    );
}

#[test]
fn feature_nearest_iter_nearest_matches_batch() {
    let tree = basic_tree();
    let collected = drain(tree.iter_nearest(&POINT_A.0, &squared_euclidean).unwrap());
    assert_ordered_usize(collected, &[(0, 0), (2, 1), (8, 2), (18, 3)]);
}

#[test]
fn feature_nearest_iter_nearest_mut_applies_updates() {
    let mut tree = basic_tree();
    let (dist, value) = tree
        .iter_nearest_mut(&POINT_A.0, &squared_euclidean)
        .unwrap()
        .next()
        .unwrap();
    assert_eq!(dist, 0);
    *value = 10;

    let collected = drain(tree.iter_nearest(&POINT_A.0, &squared_euclidean).unwrap());
    assert_ordered_usize(collected, &[(0, 10), (2, 1), (8, 2), (18, 3)]);
}

#[test]
fn feature_nearest_nearest_supports_vec_points() {
    let dimensions = 2;
    let capacity_per_node = 2;
    let mut tree = KdTree::with_capacity(dimensions, capacity_per_node);

    tree.add(&vec![0; 2], 0).unwrap();
    tree.add(&vec![1; 2], 1).unwrap();
    tree.add(&vec![2; 2], 2).unwrap();
    tree.add(&vec![3; 2], 3).unwrap();

    assert_ordered_usize(tree.nearest(&POINT_A.0, 0, &squared_euclidean).unwrap(), &[]);
    assert_ordered_usize(tree.nearest(&POINT_A.0, 1, &squared_euclidean).unwrap(), &[(0, 0)]);
    assert_ordered_usize(tree.nearest(&POINT_A.0, 2, &squared_euclidean).unwrap(), &[(0, 0), (2, 1)]);
    assert_ordered_usize(
        tree.nearest(&POINT_A.0, 3, &squared_euclidean).unwrap(),
        &[(0, 0), (2, 1), (8, 2)],
    );
    assert_ordered_usize(
        tree.nearest(&POINT_A.0, 4, &squared_euclidean).unwrap(),
        &[(0, 0), (2, 1), (8, 2), (18, 3)],
    );
    assert_ordered_usize(
        tree.nearest(&POINT_A.0, 5, &squared_euclidean).unwrap(),
        &[(0, 0), (2, 1), (8, 2), (18, 3)],
    );
    assert_ordered_usize(
        tree.nearest(&POINT_B.0, 4, &squared_euclidean).unwrap(),
        &[(0, 1), (2, 0), (2, 2), (8, 3)],
    );
}

#[test]
fn feature_nearest_handles_zero_capacity() {
    let mut tree = KdTree::with_capacity(2, 0);
    assert_eq!(tree.add(&POINT_A.0, POINT_A.1), Err(ErrorKind::ZeroCapacity));
    assert_ordered_usize(tree.nearest(&POINT_A.0, 1, &squared_euclidean).unwrap(), &[]);
}

#[test]
fn feature_nearest_handles_wrong_dimension() {
    let point = ([0i64], 0i64);
    let mut tree = KdTree::with_capacity(2, 1);

    assert_eq!(tree.add(&point.0, point.1), Err(ErrorKind::WrongDimension));
    assert_eq!(tree.nearest(&point.0, 1, &squared_euclidean), Err(ErrorKind::WrongDimension));
}

#[test]
fn feature_nearest_handles_non_finite_coordinate() {
    let point_a = ([i64::MIN, i64::MIN], 0i64);
    let point_b = ([i64::MAX, i64::MAX], 0i64);
    let mut tree = KdTree::with_capacity(2, 1);

    assert_eq!(tree.add(&point_a.0, point_a.1), Err(ErrorKind::NonFiniteCoordinate));
    assert_eq!(tree.add(&point_b.0, point_b.1), Err(ErrorKind::NonFiniteCoordinate));
    assert_eq!(
        tree.nearest(&point_a.0, 1, &squared_euclidean),
        Err(ErrorKind::NonFiniteCoordinate)
    );
    assert_eq!(
        tree.nearest(&point_b.0, 1, &squared_euclidean),
        Err(ErrorKind::NonFiniteCoordinate)
    );
}

#[test]
fn feature_nearest_handles_singularity() {
    let mut tree = KdTree::with_capacity(2, 1);
    tree.add(&POINT_A.0, POINT_A.1).unwrap();
    tree.add(&POINT_A.0, POINT_A.1).unwrap();
    tree.add(&POINT_A.0, POINT_A.1).unwrap();
    tree.add(&POINT_B.0, POINT_B.1).unwrap();
    tree.add(&POINT_B.0, POINT_B.1).unwrap();
    tree.add(&POINT_B.0, POINT_B.1).unwrap();
    tree.add(&POINT_C.0, POINT_C.1).unwrap();
    tree.add(&POINT_C.0, POINT_C.1).unwrap();
    tree.add(&POINT_C.0, POINT_C.1).unwrap();
    assert_eq!(tree.size(), 9);
}

#[test]
fn feature_nearest_handles_pending_order() {
    let item1 = ([0i64], 1);
    let item2 = ([100i64], 2);
    let item3 = ([45i64], 3);
    let item4 = ([55i64], 4);

    let mut tree = KdTree::with_capacity(1, 2);
    tree.add(&item1.0, item1.1).unwrap();
    tree.add(&item2.0, item2.1).unwrap();
    tree.add(&item3.0, item3.1).unwrap();
    tree.add(&item4.0, item4.1).unwrap();

    assert_ordered_usize(
        tree.nearest(&[51], 2, &squared_euclidean).unwrap(),
        &[(16, 4), (36, 3)],
    );
    assert_ordered_usize(
        tree.nearest(&[51], 4, &squared_euclidean).unwrap(),
        &[(16, 4), (36, 3), (2401, 2), (2601, 1)],
    );
    assert_ordered_usize(
        tree.nearest(&[49], 2, &squared_euclidean).unwrap(),
        &[(16, 3), (36, 4)],
    );
    assert_ordered_usize(
        tree.nearest(&[49], 4, &squared_euclidean).unwrap(),
        &[(16, 3), (36, 4), (2401, 1), (2601, 2)],
    );

    let collected = drain(tree.iter_nearest(&[49], &squared_euclidean).unwrap());
    assert_ordered_usize(collected, &[(16, 3), (36, 4), (2401, 1), (2601, 2)]);
    let collected = drain(tree.iter_nearest(&[51], &squared_euclidean).unwrap());
    assert_ordered_usize(collected, &[(16, 4), (36, 3), (2401, 2), (2601, 1)]);
}

#[test]
fn feature_nearest_handles_drops_correctly() {
    let drop_counter = Arc::new(Mutex::new(0));

    let item1 = ([0i64, 0], Test(drop_counter.clone()));
    let item2 = ([1i64, 1], Test(drop_counter.clone()));
    let item3 = ([2i64, 2], Test(drop_counter.clone()));
    let item4 = ([3i64, 3], Test(drop_counter.clone()));

    {
        let mut tree = KdTree::with_capacity(2, 1);

        tree.add(&item1.0, item1.1).unwrap();
        tree.add(&item2.0, item2.1).unwrap();
        tree.add(&item3.0, item3.1).unwrap();
        tree.add(&item4.0, item4.1).unwrap();

        assert_eq!(*drop_counter.lock().unwrap(), 0);
    }

    assert_eq!(*drop_counter.lock().unwrap(), 4);
}

#[test]
fn feature_nearest_handles_remove_correctly() {
    let item1 = ([0i64], 1);
    let item2 = ([100i64], 2);
    let item3 = ([45i64], 3);
    let item4 = ([55i64], 4);

    let mut tree = KdTree::with_capacity(1, 2);
    tree.add(&item1.0, item1.1).unwrap();
    tree.add(&item2.0, item2.1).unwrap();
    tree.add(&item3.0, item3.1).unwrap();
    tree.add(&item4.0, item4.1).unwrap();

    let num_removed = tree.remove(&item3.0, &item3.1).unwrap();
    assert_eq!(tree.size(), 3);
    assert_eq!(num_removed, 1);
    assert_ordered_usize(
        tree.nearest(&[51], 2, &squared_euclidean).unwrap(),
        &[(16, 4), (2401, 2)],
    );
}

#[test]
fn feature_nearest_handles_remove_multiple_match() {
    let item1 = ([0i64], 1);
    let item2 = ([0i64], 1);
    let item3 = ([100i64], 2);
    let item4 = ([45i64], 3);

    let mut tree = KdTree::with_capacity(1, 2);
    tree.add(&item1.0, item1.1).unwrap();
    tree.add(&item2.0, item2.1).unwrap();
    tree.add(&item3.0, item3.1).unwrap();
    tree.add(&item4.0, item4.1).unwrap();

    assert_eq!(tree.size(), 4);
    let num_removed = tree.remove(&[0], &1).unwrap();
    assert_eq!(tree.size(), 2);
    assert_eq!(num_removed, 2);
    assert_ordered_usize(tree.nearest(&[45], 1, &squared_euclidean).unwrap(), &[(0, 3)]);
}

#[test]
fn feature_nearest_handles_remove_no_match() {
    let item1 = ([0i64], 1);
    let item2 = ([100i64], 2);
    let item3 = ([45i64], 3);
    let item4 = ([55i64], 4);

    let mut tree = KdTree::with_capacity(1, 2);
    tree.add(&item1.0, item1.1).unwrap();
    tree.add(&item2.0, item2.1).unwrap();
    tree.add(&item3.0, item3.1).unwrap();
    tree.add(&item4.0, item4.1).unwrap();

    let num_removed = tree.remove(&[1], &2).unwrap();
    assert_eq!(tree.size(), 4);
    assert_eq!(num_removed, 0);
    assert_ordered_usize(
        tree.nearest(&[51], 2, &squared_euclidean).unwrap(),
        &[(16, 4), (36, 3)],
    );
}

#[test]
fn feature_nearest_handles_remove_overlapping_points() {
    let a = ([0i64, 0], 0);
    let b = ([0i64, 0], 1);
    let mut tree = KdTree::new(2);

    tree.add(&a.0, a.1).unwrap();
    tree.add(&b.0, b.1).unwrap();

    let num_removed = tree.remove(&[0, 0], &1).unwrap();
    assert_eq!(tree.size(), 1);
    assert_eq!(num_removed, 1);
    assert_ordered_usize(tree.nearest(&[0, 0], 1, &squared_euclidean).unwrap(), &[(0, 0)]);
}
