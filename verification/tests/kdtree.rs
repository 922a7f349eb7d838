use kdtree::distance::squared_euclidean;
use kdtree::kdtree::NearestIter;
use kdtree::ErrorKind;
use kdtree::KdTree;
use std::ops::Drop;
use std::sync::{Arc, Mutex};

struct Test(Arc<Mutex<i32>>);

impl PartialEq<Test> for Test {
    fn eq(&self, other: &Test) -> bool {
        *self.0.lock().unwrap() == *other.0.lock().unwrap()
    }
}

impl Drop for Test {
    fn drop(&mut self) {
        let mut drop_counter = self.0.lock().unwrap();
        *drop_counter += 1;
    }
}

static POINT_A: ([i64; 2], usize) = ([0, 0], 0);
static POINT_B: ([i64; 2], usize) = ([1, 1], 1);
static POINT_C: ([i64; 2], usize) = ([2, 2], 2);
static POINT_D: ([i64; 2], usize) = ([3, 3], 3);

fn drain<'a, T, F: Fn(&[i64], &[i64]) -> i64>(mut iter: NearestIter<'a, T, F>) -> Vec<(i64, &'a T)> {
    let mut items = Vec::new();
    while let Some(item) = iter.next() {
        items.push(item);
    }
    items
}

#[test]
fn kdtree_it_works() {
    let dimensions = 2;
    let capacity_per_node = 2;
    let mut kdtree = KdTree::with_capacity(dimensions, capacity_per_node);

    kdtree.add(&POINT_A.0, POINT_A.1).unwrap();
    kdtree.add(&POINT_B.0, POINT_B.1).unwrap();
    kdtree.add(&POINT_C.0, POINT_C.1).unwrap();
    kdtree.add(&POINT_D.0, POINT_D.1).unwrap();

    assert_eq!(kdtree.size(), 4);
    assert_eq!(kdtree.nearest(&POINT_A.0, 0, &squared_euclidean).unwrap(), vec![]);
    assert_eq!(kdtree.nearest(&POINT_A.0, 1, &squared_euclidean).unwrap(), vec![(0, &0)]);
    assert_eq!(kdtree.nearest(&POINT_A.0, 2, &squared_euclidean).unwrap(), vec![(0, &0), (2, &1)]);
    assert_eq!(
        kdtree.nearest(&POINT_A.0, 3, &squared_euclidean).unwrap(),
        vec![(0, &0), (2, &1), (8, &2)]
    );
    assert_eq!(
        kdtree.nearest(&POINT_A.0, 4, &squared_euclidean).unwrap(),
        vec![(0, &0), (2, &1), (8, &2), (18, &3)]
    );
    assert_eq!(
        kdtree.nearest(&POINT_A.0, 5, &squared_euclidean).unwrap(),
        vec![(0, &0), (2, &1), (8, &2), (18, &3)]
    );
    assert_eq!(
        kdtree.nearest(&POINT_B.0, 4, &squared_euclidean).unwrap(),
        vec![(0, &1), (2, &0), (2, &2), (8, &3)]
    );

    assert_eq!(kdtree.within(&POINT_A.0, 0, &squared_euclidean).unwrap(), vec![(0, &0)]);
    assert_eq!(kdtree.within(&POINT_B.0, 1, &squared_euclidean).unwrap(), vec![(0, &1)]);
    assert_eq!(
        kdtree.within(&POINT_B.0, 2, &squared_euclidean).unwrap(),
        vec![(0, &1), (2, &2), (2, &0)]
    );

    let unsorted1 = kdtree.within_unsorted(&POINT_A.0, 0, &squared_euclidean).unwrap();
    let ans1 = [(0, &0)];
    assert_eq!(unsorted1.len(), ans1.len());
    assert_eq!(kdtree.within_count(&POINT_A.0, 0, &squared_euclidean).unwrap(), ans1.len());
    for item in unsorted1 {
        assert!(ans1.contains(&item));
    }

    let unsorted2 = kdtree.within_unsorted(&POINT_B.0, 1, &squared_euclidean).unwrap();
    let ans2 = [(0, &1)];
    assert_eq!(unsorted2.len(), ans2.len());
    assert_eq!(kdtree.within_count(&POINT_B.0, 1, &squared_euclidean).unwrap(), ans2.len());
    for item in unsorted2 {
        assert!(ans2.contains(&item));
    }

    let unsorted3 = kdtree.within_unsorted(&POINT_B.0, 2, &squared_euclidean).unwrap();
    let ans3 = [(0, &1), (2, &2), (2, &0)];
    assert_eq!(unsorted3.len(), ans3.len());
    assert_eq!(kdtree.within_count(&POINT_B.0, 2, &squared_euclidean).unwrap(), ans3.len());
    for item in unsorted3 {
        assert!(ans3.contains(&item));
    }

    assert_eq!(
        drain(kdtree.iter_nearest(&POINT_A.0, &squared_euclidean).unwrap()),
        vec![(0, &0), (2, &1), (8, &2), (18, &3)]
    );

    let iter = kdtree
        .iter_nearest_mut(&POINT_A.0, &squared_euclidean)
        .unwrap()
        .next()
        .unwrap();
    *iter.1 = 10;

    assert_eq!(
        drain(kdtree.iter_nearest(&POINT_A.0, &squared_euclidean).unwrap()),
        vec![(0, &10), (2, &1), (8, &2), (18, &3)]
    );
}

#[test]
fn it_works_with_vec() {
    let dimensions = 2;
    let capacity_per_node = 2;
    let mut kdtree = KdTree::with_capacity(dimensions, capacity_per_node);

    kdtree.add(&vec![0; 2], 0).unwrap();
    kdtree.add(&vec![1; 2], 1).unwrap();
    kdtree.add(&vec![2; 2], 2).unwrap();
    kdtree.add(&vec![3; 2], 3).unwrap();

    assert_eq!(kdtree.size(), 4);
    assert_eq!(kdtree.nearest(&POINT_A.0, 0, &squared_euclidean).unwrap(), vec![]);
    assert_eq!(kdtree.nearest(&POINT_A.0, 1, &squared_euclidean).unwrap(), vec![(0, &0)]);
    assert_eq!(kdtree.nearest(&POINT_A.0, 2, &squared_euclidean).unwrap(), vec![(0, &0), (2, &1)]);
    assert_eq!(
        kdtree.nearest(&POINT_A.0, 3, &squared_euclidean).unwrap(),
        vec![(0, &0), (2, &1), (8, &2)]
    );
    assert_eq!(
        kdtree.nearest(&POINT_A.0, 4, &squared_euclidean).unwrap(),
        vec![(0, &0), (2, &1), (8, &2), (18, &3)]
    );
    assert_eq!(
        kdtree.nearest(&POINT_A.0, 5, &squared_euclidean).unwrap(),
        vec![(0, &0), (2, &1), (8, &2), (18, &3)]
    );
    assert_eq!(
        kdtree.nearest(&POINT_B.0, 4, &squared_euclidean).unwrap(),
        vec![(0, &1), (2, &0), (2, &2), (8, &3)]
    );
}

#[test]
fn kdtree_handles_zero_capacity() {
    let mut kdtree = KdTree::with_capacity(2, 0);

    assert_eq!(kdtree.add(&POINT_A.0, POINT_A.1), Err(ErrorKind::ZeroCapacity));
    assert_eq!(kdtree.nearest(&POINT_A.0, 1, &squared_euclidean).unwrap(), vec![]);
}

#[test]
fn kdtree_handles_wrong_dimension() {
    let point = ([0i64], 0i64);
    let mut kdtree = KdTree::with_capacity(2, 1);

    assert_eq!(kdtree.add(&point.0, point.1), Err(ErrorKind::WrongDimension));
    assert_eq!(kdtree.nearest(&point.0, 1, &squared_euclidean), Err(ErrorKind::WrongDimension));
}

#[test]
fn kdtree_handles_non_finite_coordinate() {
    let point_a = ([i64::MIN, i64::MIN], 0i64);
    let point_b = ([i64::MAX, i64::MAX], 0i64);
    let mut kdtree = KdTree::with_capacity(2, 1);

    assert_eq!(kdtree.add(&point_a.0, point_a.1), Err(ErrorKind::NonFiniteCoordinate));
    assert_eq!(kdtree.add(&point_b.0, point_b.1), Err(ErrorKind::NonFiniteCoordinate));
    assert_eq!(
        kdtree.nearest(&point_a.0, 1, &squared_euclidean),
        Err(ErrorKind::NonFiniteCoordinate)
    );
    assert_eq!(
        kdtree.nearest(&point_b.0, 1, &squared_euclidean),
        Err(ErrorKind::NonFiniteCoordinate)
    );
}

#[test]
fn handles_overflowed_distances() {
    let point_a = ([4_000_000_000_000_000_000i64, 4_000_000_000_000_000_000], 1i64);
    let point_b = ([4_000_000_000_000_000_001i64, 4_000_000_000_000_000_001], 2i64);
    let query_point = ([0i64, 0], 0i64);

    let mut kdtree = KdTree::with_capacity(2, 2);
    kdtree.add(&point_a.0, point_a.1).unwrap();
    kdtree.add(&point_b.0, point_b.1).unwrap();

    let results = kdtree.nearest(&query_point.0, 2, &squared_euclidean).unwrap();
    assert_eq!(results.len(), 2);

    let values: Vec<_> = results.iter().map(|&(_, &v)| v).collect();
    assert!(values.contains(&1));
    assert!(values.contains(&2));
}

#[test]
fn kdtree_handles_singularity() {
    let mut kdtree = KdTree::with_capacity(2, 1);
    kdtree.add(&POINT_A.0, POINT_A.1).unwrap();
    kdtree.add(&POINT_A.0, POINT_A.1).unwrap();
    kdtree.add(&POINT_A.0, POINT_A.1).unwrap();
    kdtree.add(&POINT_B.0, POINT_B.1).unwrap();
    kdtree.add(&POINT_B.0, POINT_B.1).unwrap();
    kdtree.add(&POINT_B.0, POINT_B.1).unwrap();
    kdtree.add(&POINT_C.0, POINT_C.1).unwrap();
    kdtree.add(&POINT_C.0, POINT_C.1).unwrap();
    kdtree.add(&POINT_C.0, POINT_C.1).unwrap();
    assert_eq!(kdtree.size(), 9);
}

#[test]
fn kdtree_handles_pending_order() {
    let item1 = ([0i64], 1);
    let item2 = ([100i64], 2);
    let item3 = ([45i64], 3);
    let item4 = ([55i64], 4);

    let dimensions = 1;
    let capacity_per_node = 2;
    let mut kdtree = KdTree::with_capacity(dimensions, capacity_per_node);

    kdtree.add(&item1.0, item1.1).unwrap();
    kdtree.add(&item2.0, item2.1).unwrap();
    kdtree.add(&item3.0, item3.1).unwrap();
    kdtree.add(&item4.0, item4.1).unwrap();
    assert_eq!(
        kdtree.nearest(&[51], 2, &squared_euclidean).unwrap(),
        vec![(16, &4), (36, &3)]
    );
    assert_eq!(
        kdtree.nearest(&[51], 4, &squared_euclidean).unwrap(),
        vec![(16, &4), (36, &3), (2401, &2), (2601, &1)]
    );
    assert_eq!(
        kdtree.nearest(&[49], 2, &squared_euclidean).unwrap(),
        vec![(16, &3), (36, &4)]
    );
    assert_eq!(
        kdtree.nearest(&[49], 4, &squared_euclidean).unwrap(),
        vec![(16, &3), (36, &4), (2401, &1), (2601, &2)]
    );

    assert_eq!(
        drain(kdtree.iter_nearest(&[49], &squared_euclidean).unwrap()),
        vec![(16, &3), (36, &4), (2401, &1), (2601, &2)]
    );
    assert_eq!(
        drain(kdtree.iter_nearest(&[51], &squared_euclidean).unwrap()),
        vec![(16, &4), (36, &3), (2401, &2), (2601, &1)]
    );

    assert_eq!(kdtree.within(&[50], 1, &squared_euclidean).unwrap(), vec![]);
    assert_eq!(
        kdtree.within(&[50], 25, &squared_euclidean).unwrap(),
        vec![(25, &3), (25, &4)]
    );
    assert_eq!(
        kdtree.within(&[50], 30, &squared_euclidean).unwrap(),
        vec![(25, &3), (25, &4)]
    );
    assert_eq!(kdtree.within(&[55], 5, &squared_euclidean).unwrap(), vec![(0, &4)]);
    assert_eq!(kdtree.within(&[56], 5, &squared_euclidean).unwrap(), vec![(1, &4)]);
}

#[test]
fn kdtree_handles_drops_correctly() {
    let drop_counter = Arc::new(Mutex::new(0));

    let item1 = ([0i64, 0], Test(drop_counter.clone()));
    let item2 = ([1i64, 1], Test(drop_counter.clone()));
    let item3 = ([2i64, 2], Test(drop_counter.clone()));
    let item4 = ([3i64, 3], Test(drop_counter.clone()));

    {
        let dimensions = 2;
        let capacity_per_node = 1;
        let mut kdtree = KdTree::with_capacity(dimensions, capacity_per_node);

        kdtree.add(&item1.0, item1.1).unwrap();
        kdtree.add(&item2.0, item2.1).unwrap();
        kdtree.add(&item3.0, item3.1).unwrap();
        kdtree.add(&item4.0, item4.1).unwrap();

        assert_eq!(*drop_counter.lock().unwrap(), 0);
    }

    assert_eq!(*drop_counter.lock().unwrap(), 4);
}

#[test]
fn kdtree_handles_remove_correctly() {
    let item1 = ([0i64], 1);
    let item2 = ([100i64], 2);
    let item3 = ([45i64], 3);
    let item4 = ([55i64], 4);

    let dimensions = 1;
    let capacity_per_node = 2;
    let mut kdtree = KdTree::with_capacity(dimensions, capacity_per_node);

    kdtree.add(&item1.0, item1.1).unwrap();
    kdtree.add(&item2.0, item2.1).unwrap();
    kdtree.add(&item3.0, item3.1).unwrap();
    kdtree.add(&item4.0, item4.1).unwrap();

    let num_removed = kdtree.remove(&item3.0, &item3.1).unwrap();
    assert_eq!(kdtree.size(), 3);
    assert_eq!(num_removed, 1);
    assert_eq!(
        kdtree.nearest(&[51], 2, &squared_euclidean).unwrap(),
        vec![(16, &4), (2401, &2)]
    );
}

#[test]
fn kdtree_handles_remove_multiple_match() {
    let item1 = ([0i64], 1);
    let item2 = ([0i64], 1);
    let item3 = ([100i64], 2);
    let item4 = ([45i64], 3);

    let dimensions = 1;
    let capacity_per_node = 2;
    let mut kdtree = KdTree::with_capacity(dimensions, capacity_per_node);

    kdtree.add(&item1.0, item1.1).unwrap();
    kdtree.add(&item2.0, item2.1).unwrap();
    kdtree.add(&item3.0, item3.1).unwrap();
    kdtree.add(&item4.0, item4.1).unwrap();

    assert_eq!(kdtree.size(), 4);
    let num_removed = kdtree.remove(&[0], &1).unwrap();
    assert_eq!(kdtree.size(), 2);
    assert_eq!(num_removed, 2);
    assert_eq!(kdtree.nearest(&[45], 1, &squared_euclidean).unwrap(), vec![(0, &3)]);
}

#[test]
fn kdtree_handles_remove_no_match() {
    let item1 = ([0i64], 1);
    let item2 = ([100i64], 2);
    let item3 = ([45i64], 3);
    let item4 = ([55i64], 4);

    let dimensions = 1;
    let capacity_per_node = 2;
    let mut kdtree = KdTree::with_capacity(dimensions, capacity_per_node);

    kdtree.add(&item1.0, item1.1).unwrap();
    kdtree.add(&item2.0, item2.1).unwrap();
    kdtree.add(&item3.0, item3.1).unwrap();
    kdtree.add(&item4.0, item4.1).unwrap();

    let num_removed = kdtree.remove(&[1], &2).unwrap();
    assert_eq!(kdtree.size(), 4);
    assert_eq!(num_removed, 0);
    assert_eq!(
        kdtree.nearest(&[51], 2, &squared_euclidean).unwrap(),
        vec![(16, &4), (36, &3)]
    );
}

#[test]
fn kdtree_handles_remove_overlapping_points() {
    let a = ([0i64, 0], 0);
    let b = ([0i64, 0], 1);
    let mut kdtree = KdTree::new(2);

    kdtree.add(&a.0, a.1).unwrap();
    kdtree.add(&b.0, b.1).unwrap();

    let num_removed = kdtree.remove(&[0, 0], &1).unwrap();
    assert_eq!(kdtree.size(), 1);
    assert_eq!(num_removed, 1);
    assert_eq!(kdtree.nearest(&[0, 0], 1, &squared_euclidean).unwrap(), vec![(0, &0)]);
}
