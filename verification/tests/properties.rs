use kdtree::distance::squared_euclidean;
use kdtree::heap::RankedHeap;
use kdtree::heap_element::HeapElement;
use kdtree::kdtree::belongs_in_left;
use kdtree::kdtree::same_coordinates;
use kdtree::util::{distance_to_space, in_bounding_box, widen};
use kdtree::{ErrorKind, KdTree};
use std::cmp::Ordering;

struct ByDistance(i64, usize);

impl PartialEq for ByDistance {
    fn eq(&self, other: &Self) -> bool {
        self.0 == other.0
    }
}

impl Eq for ByDistance {}

impl PartialOrd for ByDistance {
    fn partial_cmp(&self, other: &Self) -> Option<Ordering> {
        Some(self.cmp(other))
    }
}

impl Ord for ByDistance {
    fn cmp(&self, other: &Self) -> Ordering {
        self.0.cmp(&other.0)
    }
}

fn draw(seed: &mut u64, span: i64) -> i64 {
    *seed = seed.wrapping_mul(6364136223846793005).wrapping_add(1442695040888963407);
    ((*seed >> 33) as i64 % (2 * span + 1)) - span
}

fn cloud(count: usize, dims: usize, span: i64, seed: u64) -> Vec<(Vec<i64>, usize)> {
    let mut seed = seed;
    let mut points = Vec::new();
    for id in 0..count {
        let mut p = Vec::new();
        for _ in 0..dims {
            p.push(draw(&mut seed, span));
        }
        points.push((p, id));
    }
    points
}

fn grown(points: &[(Vec<i64>, usize)], dims: usize, capacity: usize) -> KdTree<usize> {
    let mut tree = KdTree::with_capacity(dims, capacity);
    for (p, id) in points {
        tree.add(p, *id).unwrap();
    }
    tree
}

fn scan(points: &[(Vec<i64>, usize)], q: &[i64]) -> Vec<i64> {
    let mut all: Vec<i64> = points.iter().map(|(p, _)| squared_euclidean(q, p)).collect();
    all.sort();
    all
}

#[test]
fn size_counts_the_points_taken_in() {
    let points = cloud(200, 3, 50, 11);
    let mut tree = KdTree::with_capacity(3, 4);
    let mut taken = 0;
    for (i, (p, id)) in points.iter().enumerate() {
        if i % 7 == 3 {
            assert_eq!(tree.add(&p[..2], *id), Err(ErrorKind::WrongDimension));
        } else if i % 11 == 5 {
            assert_eq!(tree.add(&[p[0], i64::MAX, p[2]], *id), Err(ErrorKind::NonFiniteCoordinate));
        } else {
            assert_eq!(tree.add(p, *id), Ok(()));
            taken += 1;
        }
        assert_eq!(tree.size(), taken);
    }
}

#[test]
fn a_leaf_holds_its_capacity_and_splits_on_the_next_point() {
    for capacity in 1..9usize {
        let points = cloud(capacity + 1, 2, 1_000_000, 100 + capacity as u64);
        let mut tree = KdTree::with_capacity(2, capacity);
        assert!(tree.is_leaf());
        for (p, id) in &points[..capacity] {
            tree.add(p, *id).unwrap();
            assert!(tree.is_leaf());
        }
        let (p, id) = &points[capacity];
        tree.add(p, *id).unwrap();
        assert!(!tree.is_leaf());
        assert_eq!(tree.size(), capacity + 1);
    }
}

#[test]
fn a_leaf_of_one_repeated_point_never_splits() {
    let mut tree = KdTree::with_capacity(2, 2);
    for id in 0..10 {
        tree.add(&[5, -5], id).unwrap();
        assert!(tree.is_leaf());
    }
    assert_eq!(tree.size(), 10);
    tree.add(&[5, -4], 10).unwrap();
    assert!(!tree.is_leaf());
    assert_eq!(tree.size(), 11);
    let found = tree.nearest(&[5, -5], 11, &squared_euclidean).unwrap();
    assert_eq!(found.len(), 11);
    assert_eq!(found[9].0, 0);
    assert_eq!(found[10], (1, &10));
}

#[test]
fn a_stem_stays_a_stem_when_it_is_emptied() {
    let mut tree = KdTree::with_capacity(1, 1);
    tree.add(&[0], 0).unwrap();
    tree.add(&[10], 1).unwrap();
    assert!(!tree.is_leaf());
    assert_eq!(tree.remove(&[0], &0), Ok(1));
    assert_eq!(tree.remove(&[10], &1), Ok(1));
    assert_eq!(tree.size(), 0);
    assert!(!tree.is_leaf());
    assert_eq!(tree.nearest(&[3], 2, &squared_euclidean).unwrap(), vec![]);
    tree.add(&[4], 2).unwrap();
    assert_eq!(tree.nearest(&[3], 2, &squared_euclidean).unwrap(), vec![(1, &2)]);
}

#[test]
fn nearest_agrees_with_a_linear_scan() {
    for (dims, capacity, seed) in [(1usize, 1usize, 1u64), (2, 2, 2), (3, 4, 3), (4, 16, 4)] {
        let points = cloud(60, dims, 20, seed);
        let tree = grown(&points, dims, capacity);
        let queries = cloud(12, dims, 30, seed + 1000);
        for (q, _) in &queries {
            let all = scan(&points, q);
            for k in 0..=points.len() + 1 {
                let found = tree.nearest(q, k, &squared_euclidean).unwrap();
                let distances: Vec<i64> = found.iter().map(|(d, _)| *d).collect();
                let expected: Vec<i64> = all.iter().take(k).cloned().collect();
                assert_eq!(distances, expected);
                for (d, id) in &found {
                    assert_eq!(*d, squared_euclidean(q, &points[**id].0));
                }
                let mut ids: Vec<usize> = found.iter().map(|(_, id)| **id).collect();
                ids.sort();
                ids.dedup();
                assert_eq!(ids.len(), found.len());
            }
        }
    }
}

#[test]
fn nearest_within_radius_agrees_with_a_linear_scan() {
    let points = cloud(80, 2, 15, 21);
    let tree = grown(&points, 2, 3);
    for (q, _) in &cloud(10, 2, 20, 22) {
        let all = scan(&points, q);
        for radius in [-1i64, 0, 1, 5, 40, 400, i64::MAX] {
            for k in [0usize, 1, 3, 10, 80, 81] {
                let found = tree.nearest_within_radius(q, k, Some(radius), &squared_euclidean).unwrap();
                let distances: Vec<i64> = found.iter().map(|(d, _)| *d).collect();
                let expected: Vec<i64> = all.iter().filter(|d| **d <= radius).take(k).cloned().collect();
                assert_eq!(distances, expected);
            }
        }
    }
}

#[test]
fn within_agrees_with_a_linear_scan() {
    let points = cloud(70, 3, 10, 31);
    let tree = grown(&points, 3, 2);
    for (q, _) in &cloud(10, 3, 12, 32) {
        for radius in [-5i64, 0, 3, 30, 120, 10_000] {
            let mut expected: Vec<(i64, usize)> = points
                .iter()
                .map(|(p, id)| (squared_euclidean(q, p), *id))
                .filter(|(d, _)| *d <= radius)
                .collect();
            expected.sort();

            let sorted = tree.within(q, radius, &squared_euclidean).unwrap();
            for pair in sorted.windows(2) {
                assert!(pair[0].0 <= pair[1].0);
            }
            let mut found: Vec<(i64, usize)> = sorted.iter().map(|(d, id)| (*d, **id)).collect();
            found.sort();
            assert_eq!(found, expected);

            let mut loose: Vec<(i64, usize)> = tree
                .within_unsorted(q, radius, &squared_euclidean)
                .unwrap()
                .iter()
                .map(|(d, id)| (*d, **id))
                .collect();
            loose.sort();
            assert_eq!(loose, expected);

            assert_eq!(tree.within_count(q, radius, &squared_euclidean).unwrap(), expected.len());
        }
    }
}

#[test]
fn bounding_box_agrees_with_a_linear_scan() {
    let mut points = Vec::new();
    for i in 0..12i64 {
        for j in 0..12i64 {
            points.push((vec![3 * i, 5 * j - 20], points.len()));
        }
    }
    let tree = grown(&points, 2, 4);
    for (lo, hi) in [
        (vec![0, -20], vec![33, 35]),
        (vec![4, -3], vec![17, 12]),
        (vec![6, 0], vec![6, 0]),
        (vec![7, 1], vec![8, 4]),
        (vec![10, 10], vec![2, 2]),
        (vec![-100, -100], vec![-50, 100]),
    ] {
        let mut expected: Vec<usize> = points
            .iter()
            .filter(|(p, _)| (0..2).all(|d| lo[d] <= p[d] && p[d] <= hi[d]))
            .map(|(_, id)| *id)
            .collect();
        expected.sort();
        let mut found: Vec<usize> = tree.bounding_box(&lo, &hi).unwrap().into_iter().cloned().collect();
        found.sort();
        assert_eq!(found, expected);
    }
}

#[test]
fn bounding_box_walks_by_the_planes_as_they_route_now() {
    let mut tree = KdTree::with_capacity(1, 2);
    tree.add(&[0], 'a').unwrap();
    tree.add(&[1], 'b').unwrap();
    tree.add(&[1], 'c').unwrap();
    assert!(!tree.is_leaf());
    assert_eq!(tree.bounding_box(&[0], &[0]).unwrap(), vec![&'a']);
    tree.add(&[-5], 'd').unwrap();
    assert_eq!(tree.bounding_box(&[-5], &[-1]).unwrap(), vec![&'d']);
    assert_eq!(tree.bounding_box(&[0], &[0]).unwrap().len(), 0);
    assert_eq!(tree.bounding_box(&[-1], &[0]).unwrap(), vec![&'a']);
    assert_eq!(tree.nearest(&[0], 1, &squared_euclidean).unwrap(), vec![(0, &'a')]);
}

#[test]
fn bounding_box_checks_the_lower_corner_first() {
    let tree: KdTree<u8> = KdTree::new(2);
    assert_eq!(tree.bounding_box(&[0], &[0, i64::MAX]), Err(ErrorKind::WrongDimension));
    assert_eq!(tree.bounding_box(&[0, i64::MIN], &[0]), Err(ErrorKind::NonFiniteCoordinate));
    assert_eq!(tree.bounding_box(&[0, 0], &[0]), Err(ErrorKind::WrongDimension));
    assert_eq!(tree.bounding_box(&[0, 0], &[0, i64::MAX]), Err(ErrorKind::NonFiniteCoordinate));
    assert_eq!(tree.bounding_box(&[0, 0], &[1, 1]), Ok(vec![]));
}

#[test]
fn removal_takes_out_every_match_and_nothing_else() {
    let mut points = cloud(90, 2, 4, 41);
    for (i, entry) in points.iter_mut().enumerate() {
        entry.1 = i % 3;
    }
    let mut tree = grown(&points, 2, 3);
    let target = points[17].clone();
    let matches = points.iter().filter(|e| **e == target).count();
    assert!(matches >= 1);
    let before = tree.size();
    assert_eq!(tree.remove(&target.0, &target.1), Ok(matches));
    assert_eq!(tree.size(), before - matches);

    let left: Vec<&(Vec<i64>, usize)> = points.iter().filter(|e| **e != target).collect();
    let mut expected: Vec<(i64, usize)> = left.iter().map(|(p, id)| (squared_euclidean(&target.0, p), *id)).collect();
    expected.sort();
    let mut found: Vec<(i64, usize)> = tree
        .nearest(&target.0, before, &squared_euclidean)
        .unwrap()
        .iter()
        .map(|(d, id)| (*d, **id))
        .collect();
    found.sort();
    assert_eq!(found, expected);
    let at_target = tree.bounding_box(&target.0, &target.0).unwrap();
    assert!(at_target.iter().all(|id| **id != target.1));

    assert_eq!(tree.remove(&target.0, &target.1), Ok(0));
    assert_eq!(tree.remove(&[1000, 1000], &0), Ok(0));
    assert_eq!(tree.size(), before - matches);
    assert_eq!(tree.remove(&[0], &0), Err(ErrorKind::WrongDimension));
    assert_eq!(tree.remove(&[0, i64::MIN], &0), Err(ErrorKind::NonFiniteCoordinate));
    assert_eq!(tree.size(), before - matches);
}

#[test]
fn zero_capacity_comes_before_the_other_refusals() {
    let mut tree: KdTree<u8> = KdTree::with_capacity(2, 0);
    assert_eq!(tree.add(&[0], 0), Err(ErrorKind::ZeroCapacity));
    assert_eq!(tree.add(&[i64::MAX, 0], 0), Err(ErrorKind::ZeroCapacity));
    assert_eq!(tree.add(&[0, 0], 0), Err(ErrorKind::ZeroCapacity));
    assert_eq!(tree.size(), 0);
    assert_eq!(tree.nearest(&[0], 1, &squared_euclidean), Err(ErrorKind::WrongDimension));
    assert_eq!(tree.within(&[0, 0], 10, &squared_euclidean), Ok(vec![]));
    assert_eq!(tree.within_count(&[0, 0], 10, &squared_euclidean), Ok(0));
}

#[test]
fn wrong_dimension_comes_before_an_infinite_coordinate() {
    let mut tree: KdTree<u8> = KdTree::with_capacity(2, 4);
    assert_eq!(tree.add(&[i64::MAX], 0), Err(ErrorKind::WrongDimension));
    assert_eq!(tree.add(&[i64::MIN, 0, 0], 0), Err(ErrorKind::WrongDimension));
    assert_eq!(tree.add(&[0, i64::MIN], 0), Err(ErrorKind::NonFiniteCoordinate));
    assert_eq!(tree.add(&[i64::MAX - 1, i64::MIN + 1], 0), Ok(()));
    assert_eq!(tree.nearest(&[i64::MAX], 1, &squared_euclidean), Err(ErrorKind::WrongDimension));
    assert_eq!(tree.within(&[i64::MAX, 0, 0], 1, &squared_euclidean), Err(ErrorKind::WrongDimension));
    assert_eq!(tree.within_unsorted(&[0, i64::MAX], 1, &squared_euclidean), Err(ErrorKind::NonFiniteCoordinate));
    assert_eq!(tree.within_count(&[i64::MIN], 1, &squared_euclidean), Err(ErrorKind::WrongDimension));
    assert!(tree.iter_nearest(&[i64::MIN], &squared_euclidean).is_err());
    assert!(tree.iter_nearest_within_radius(&[0, i64::MIN], None, &squared_euclidean).is_err());
    assert!(tree.iter_nearest_mut(&[0], &squared_euclidean).is_err());
    assert!(tree.iter_nearest_within_radius_mut(&[i64::MAX, 0], Some(3), &squared_euclidean).is_err());
    assert_eq!(tree.size(), 1);
}

#[test]
fn four_points_on_a_diagonal() {
    let mut tree = KdTree::with_capacity(2, 2);
    tree.add(&[0, 0], 0).unwrap();
    tree.add(&[1, 1], 1).unwrap();
    tree.add(&[2, 2], 2).unwrap();
    tree.add(&[3, 3], 3).unwrap();
    assert_eq!(
        tree.nearest(&[0, 0], 4, &squared_euclidean).unwrap(),
        vec![(0, &0), (2, &1), (8, &2), (18, &3)]
    );
    let mut near: Vec<(i64, i32)> = tree
        .within(&[1, 1], 2, &squared_euclidean)
        .unwrap()
        .iter()
        .map(|(d, id)| (*d, **id))
        .collect();
    near.sort();
    assert_eq!(near, vec![(0, 1), (2, 0), (2, 2)]);
    let mut boxed: Vec<i32> = tree.bounding_box(&[0, 0], &[1, 1]).unwrap().into_iter().cloned().collect();
    boxed.sort();
    assert_eq!(boxed, vec![0, 1]);
}

#[test]
fn the_same_query_has_the_same_answer() {
    let points = cloud(50, 2, 6, 51);
    let tree = grown(&points, 2, 2);
    for (q, _) in &cloud(8, 2, 8, 52) {
        let first = tree.nearest(q, 7, &squared_euclidean).unwrap();
        let second = tree.nearest(q, 7, &squared_euclidean).unwrap();
        assert_eq!(first, second);
        assert_eq!(
            tree.within(q, 20, &squared_euclidean).unwrap(),
            tree.within(q, 20, &squared_euclidean).unwrap()
        );
        assert_eq!(
            tree.within_count(q, 20, &squared_euclidean).unwrap(),
            tree.within_count(q, 20, &squared_euclidean).unwrap()
        );
        assert_eq!(tree.bounding_box(&[-3, -3], q).unwrap(), tree.bounding_box(&[-3, -3], q).unwrap());
        assert_eq!(tree.size(), 50);
    }
}

#[test]
fn lazy_search_hands_out_the_scan_in_order() {
    let points = cloud(40, 2, 9, 61);
    let tree = grown(&points, 2, 3);
    for (q, _) in &cloud(6, 2, 9, 62) {
        let all = scan(&points, q);
        let mut iter = tree.iter_nearest(q, &squared_euclidean).unwrap();
        let mut seen = Vec::new();
        while let Some((d, id)) = iter.next() {
            assert_eq!(d, squared_euclidean(q, &points[*id].0));
            seen.push(d);
        }
        assert_eq!(seen, all);
        assert!(iter.next().is_none());

        let mut bounded = tree.iter_nearest_within_radius(q, Some(25), &squared_euclidean).unwrap();
        let mut seen = Vec::new();
        while let Some((d, _)) = bounded.next() {
            seen.push(d);
        }
        let expected: Vec<i64> = all.iter().filter(|d| **d <= 25).cloned().collect();
        assert_eq!(seen, expected);
    }
}

#[test]
fn lazy_search_opens_each_payload_once() {
    let points = cloud(30, 2, 5, 71);
    let mut tree = grown(&points, 2, 2);
    let q = [1i64, -1];
    let all = scan(&points, &q);
    {
        let mut iter = tree.iter_nearest_mut(&q, &squared_euclidean).unwrap();
        let mut seen = Vec::new();
        while let Some((d, id)) = iter.next() {
            seen.push(d);
            *id += 1000;
        }
        assert_eq!(seen, all);
    }
    let found = tree.nearest(&q, 30, &squared_euclidean).unwrap();
    assert_eq!(found.len(), 30);
    for (d, id) in found {
        assert!(*id >= 1000 && *id < 1030);
        assert_eq!(d, squared_euclidean(&q, &points[*id - 1000].0));
    }
    {
        let mut iter = tree.iter_nearest_within_radius_mut(&q, Some(4), &squared_euclidean).unwrap();
        while let Some((d, id)) = iter.next() {
            assert!(d <= 4);
            *id += 1000;
        }
    }
    for (d, id) in tree.nearest(&q, 30, &squared_euclidean).unwrap() {
        assert_eq!(*id >= 2000, d <= 4);
    }
    assert_eq!(tree.size(), 30);
}

#[test]
fn queries_on_an_empty_tree_find_nothing() {
    let mut tree: KdTree<u8> = KdTree::new(3);
    assert!(tree.is_leaf());
    assert_eq!(tree.size(), 0);
    assert_eq!(tree.nearest(&[0, 0, 0], 3, &squared_euclidean), Ok(vec![]));
    assert_eq!(tree.nearest_within_radius(&[0, 0, 0], 3, None, &squared_euclidean), Ok(vec![]));
    assert_eq!(tree.within(&[0, 0, 0], i64::MAX, &squared_euclidean), Ok(vec![]));
    assert_eq!(tree.within_unsorted(&[0, 0, 0], i64::MAX, &squared_euclidean), Ok(vec![]));
    assert_eq!(tree.within_count(&[0, 0, 0], i64::MAX, &squared_euclidean), Ok(0));
    assert_eq!(tree.bounding_box(&[-1, -1, -1], &[1, 1, 1]), Ok(vec![]));
    assert_eq!(tree.remove(&[0, 0, 0], &0), Ok(0));
    assert!(tree.iter_nearest(&[0, 0, 0], &squared_euclidean).unwrap().next().is_none());
    assert!(tree.iter_nearest_mut(&[0, 0, 0], &squared_euclidean).unwrap().next().is_none());
}

#[test]
fn a_new_tree_has_leaves_of_sixteen() {
    let mut tree = KdTree::new(1);
    for i in 0..16 {
        tree.add(&[i], i).unwrap();
    }
    assert!(tree.is_leaf());
    tree.add(&[16], 16).unwrap();
    assert!(!tree.is_leaf());
}

#[test]
fn the_widest_axis_is_cut_in_the_middle() {
    let mut tree = KdTree::with_capacity(2, 2);
    tree.add(&[0, 0], 'a').unwrap();
    tree.add(&[4, 9], 'b').unwrap();
    tree.add(&[1, 5], 'c').unwrap();
    assert!(!tree.is_leaf());
    let count = std::cell::Cell::new(0);
    let counted = |a: &[i64], b: &[i64]| {
        count.set(count.get() + 1);
        squared_euclidean(a, b)
    };
    assert_eq!(tree.nearest(&[0, 4], 1, &counted).unwrap(), vec![(2, &'c')]);
    assert_eq!(count.get(), 3);
    count.set(0);
    assert_eq!(tree.nearest(&[0, 3], 1, &counted).unwrap(), vec![(5, &'c')]);
    assert_eq!(count.get(), 4);
    count.set(0);
    assert_eq!(tree.nearest(&[4, 8], 1, &counted).unwrap(), vec![(1, &'b')]);
    assert_eq!(count.get(), 3);
}

#[test]
fn a_plane_on_the_low_side_of_the_box_keeps_that_side_on_the_left() {
    let mut tree = KdTree::with_capacity(1, 2);
    tree.add(&[7], 0).unwrap();
    tree.add(&[8], 1).unwrap();
    tree.add(&[7], 2).unwrap();
    tree.add(&[8], 3).unwrap();
    tree.add(&[7], 4).unwrap();
    assert_eq!(tree.size(), 5);
    let found = tree.nearest(&[7], 5, &squared_euclidean).unwrap();
    let distances: Vec<i64> = found.iter().map(|(d, _)| *d).collect();
    assert_eq!(distances, vec![0, 0, 0, 1, 1]);
    let mut low: Vec<i32> = tree.bounding_box(&[7], &[7]).unwrap().into_iter().cloned().collect();
    low.sort();
    assert_eq!(low, vec![0, 2, 4]);
    let mut high: Vec<i32> = tree.bounding_box(&[8], &[8]).unwrap().into_iter().cloned().collect();
    high.sort();
    assert_eq!(high, vec![1, 3]);
}

#[test]
fn squared_euclidean_sums_the_squared_differences() {
    assert_eq!(squared_euclidean(&[], &[]), 0);
    assert_eq!(squared_euclidean(&[0, 0], &[0, 0]), 0);
    assert_eq!(squared_euclidean(&[0, 0], &[1, 1]), 2);
    assert_eq!(squared_euclidean(&[0, 0], &[1, 0]), 1);
    assert_eq!(squared_euclidean(&[-3, 4, 1], &[0, 0, 1]), 25);
    assert_eq!(squared_euclidean(&[5, -7], &[-2, 1]), 49 + 64);
    assert_eq!(squared_euclidean(&[3_037_000_499], &[0]), 9_223_372_030_926_249_001);
}

#[test]
fn squared_euclidean_stops_at_the_largest_value() {
    assert_eq!(squared_euclidean(&[3_037_000_500], &[0]), i64::MAX);
    assert_eq!(squared_euclidean(&[i64::MAX], &[i64::MIN]), i64::MAX);
    assert_eq!(squared_euclidean(&[i64::MIN], &[i64::MAX]), i64::MAX);
    assert_eq!(squared_euclidean(&[3_037_000_499, 3_037_000_499], &[0, 0]), i64::MAX);
    assert_eq!(squared_euclidean(&[3_037_000_499, 2_000], &[0, 0]), 9_223_372_030_930_249_001);
    assert_eq!(squared_euclidean(&[i64::MAX, 1, 2], &[0, 1, 2]), i64::MAX);
    assert_eq!(squared_euclidean(&[1, i64::MAX, 2], &[1, 0, 1]), i64::MAX);
}

#[test]
fn distance_to_space_goes_to_the_nearest_side() {
    assert_eq!(distance_to_space(&[5, 5], &[0, 0], &[3, 9], &squared_euclidean), 4);
    assert_eq!(distance_to_space(&[-1, 12], &[0, 0], &[3, 9], &squared_euclidean), 1 + 9);
    assert_eq!(distance_to_space(&[1, 2], &[0, 0], &[3, 9], &squared_euclidean), 0);
    assert_eq!(
        distance_to_space(&[0, 0], &[i64::MAX, i64::MAX], &[i64::MIN, i64::MIN], &squared_euclidean),
        i64::MAX
    );
    let manhattan = |a: &[i64], b: &[i64]| a.iter().zip(b).map(|(x, y)| (x - y).abs()).sum::<i64>();
    assert_eq!(distance_to_space(&[-4, 20], &[0, 0], &[3, 9], &manhattan), 4 + 11);
}

#[test]
fn a_box_takes_its_sides_in() {
    assert!(in_bounding_box(&[0, 5], &[0, 0], &[3, 5]));
    assert!(in_bounding_box(&[3, 0], &[0, 0], &[3, 5]));
    assert!(!in_bounding_box(&[4, 0], &[0, 0], &[3, 5]));
    assert!(!in_bounding_box(&[1, -1], &[0, 0], &[3, 5]));
    assert!(!in_bounding_box(&[1, 1], &[2, 2], &[0, 0]));
    assert!(in_bounding_box(&[], &[], &[]));
}

#[test]
fn a_box_widens_to_take_a_point_in() {
    let mut lo = vec![i64::MAX, i64::MAX, 0];
    let mut hi = vec![i64::MIN, i64::MIN, 0];
    widen(&mut lo, &mut hi, &[3, -4, 0]);
    assert_eq!(lo, vec![3, -4, 0]);
    assert_eq!(hi, vec![3, -4, 0]);
    widen(&mut lo, &mut hi, &[5, -9, 0]);
    assert_eq!(lo, vec![3, -9, 0]);
    assert_eq!(hi, vec![5, -4, 0]);
    widen(&mut lo, &mut hi, &[4, -5, 0]);
    assert_eq!(lo, vec![3, -9, 0]);
    assert_eq!(hi, vec![5, -4, 0]);
}

#[test]
fn coordinates_are_the_same_one_by_one() {
    assert!(same_coordinates(&[1, 2, 3], &[1, 2, 3]));
    assert!(!same_coordinates(&[1, 2, 3], &[1, 2, 4]));
    assert!(!same_coordinates(&[1, 2], &[1, 2, 3]));
    assert!(same_coordinates(&[], &[]));
}

#[test]
fn every_refusal_has_its_words() {
    assert_eq!(ErrorKind::WrongDimension.message(), "wrong dimension");
    assert_eq!(ErrorKind::NonFiniteCoordinate.message(), "non-finite coordinate");
    assert_eq!(ErrorKind::ZeroCapacity.message(), "zero capacity");
    assert_ne!(ErrorKind::WrongDimension, ErrorKind::ZeroCapacity);
}

#[test]
fn elements_rank_by_distance_alone() {
    let near = HeapElement { distance: 1, element: "far away" };
    let far = HeapElement { distance: 2, element: "close by" };
    let twin = HeapElement { distance: 1, element: "another" };
    assert_eq!(near.cmp(&far), Ordering::Less);
    assert_eq!(far.cmp(&near), Ordering::Greater);
    assert_eq!(near.cmp(&twin), Ordering::Equal);
    assert_eq!(near.partial_cmp(&far), Some(Ordering::Less));
    assert!(near < far);
    assert!(far > twin);
    assert!(near <= twin && near >= twin);
    assert!(near == twin);
    assert!(near != far);
    let pair: (i64, &str) = far.into();
    assert_eq!(pair, (2, "close by"));
}

#[test]
fn a_heap_gives_up_the_farthest_first() {
    let mut heap = RankedHeap::new();
    assert!(heap.is_empty());
    assert!(heap.peek().is_none());
    assert!(heap.pop().is_none());
    for (i, d) in [5i64, -3, 9, 0, 9, 2, i64::MIN, i64::MAX, 7].iter().enumerate() {
        heap.push(HeapElement { distance: *d, element: i });
        assert_eq!(heap.len(), i + 1);
    }
    assert_eq!(heap.peek().unwrap().distance, i64::MAX);
    let mut out = Vec::new();
    while let Some(top) = heap.pop() {
        out.push(top.distance);
    }
    assert_eq!(out, vec![i64::MAX, 9, 9, 7, 5, 2, 0, -3, i64::MIN]);
    assert!(heap.is_empty());
}

#[test]
fn a_heap_sorts_from_the_nearest() {
    let mut heap = RankedHeap::new();
    let mut seed = 5u64;
    let mut distances = Vec::new();
    for i in 0..100usize {
        let d = draw(&mut seed, 40);
        distances.push(d);
        heap.push(HeapElement { distance: d, element: i });
    }
    let held = heap.into_vec();
    assert_eq!(held.len(), 100);
    for (i, item) in held.iter().enumerate() {
        assert_eq!(distances[item.element], item.distance);
        if i > 0 {
            assert!(item.distance <= held[(i - 1) / 2].distance);
        }
    }
    let mut heap = RankedHeap::new();
    for (i, d) in distances.iter().enumerate() {
        heap.push(HeapElement { distance: *d, element: i });
    }
    let sorted: Vec<i64> = heap.into_sorted_vec().iter().map(|e| e.distance).collect();
    distances.sort();
    assert_eq!(sorted, distances);
}

#[test]
fn a_copy_is_a_tree_of_its_own() {
    let points = cloud(25, 2, 5, 81);
    let original = grown(&points, 2, 2);
    let mut copy = original.clone();
    assert_eq!(copy.size(), 25);
    assert_eq!(copy.is_leaf(), original.is_leaf());
    assert_eq!(
        copy.nearest(&[0, 0], 25, &squared_euclidean).unwrap(),
        original.nearest(&[0, 0], 25, &squared_euclidean).unwrap()
    );
    copy.remove(&points[0].0, &points[0].1).unwrap();
    copy.add(&[100, 100], 99).unwrap();
    assert_eq!(original.size(), 25);
    assert_eq!(original.within_count(&[100, 100], 0, &squared_euclidean), Ok(0));
    assert_eq!(copy.within_count(&[100, 100], 0, &squared_euclidean), Ok(1));
}

#[test]
fn an_unlimited_radius_reaches_the_farthest_point() {
    let mut tree = KdTree::with_capacity(1, 1);
    tree.add(&[i64::MIN + 1], 'l').unwrap();
    tree.add(&[i64::MAX - 1], 'h').unwrap();
    tree.add(&[0], 'z').unwrap();
    assert_eq!(
        tree.nearest(&[1], 3, &squared_euclidean).unwrap(),
        vec![(1, &'z'), (i64::MAX, &'h'), (i64::MAX, &'l')]
    );
    assert_eq!(tree.nearest_within_radius(&[1], 3, None, &squared_euclidean).unwrap().len(), 3);
    assert_eq!(tree.within_count(&[1], i64::MAX, &squared_euclidean), Ok(3));
    assert_eq!(tree.within_count(&[1], i64::MAX - 1, &squared_euclidean), Ok(1));
    assert_eq!(tree.within_count(&[1], -1, &squared_euclidean), Ok(0));
}

#[test]
fn the_records_are_the_points_taken_in() {
    let mut tree = KdTree::with_capacity(2, 4);
    assert!(tree.records().is_empty());
    tree.add(&[3, 1], 'a').unwrap();
    tree.add(&[-2, 7], 'b').unwrap();
    tree.add(&[3, 1], 'c').unwrap();
    assert_eq!(tree.records(), vec![(&[3i64, 1][..], &'a'), (&[-2i64, 7][..], &'b'), (&[3i64, 1][..], &'c')]);

    let points = cloud(100, 3, 30, 91);
    let mut tree = grown(&points, 3, 3);
    let mut listed: Vec<(Vec<i64>, usize)> = tree.records().into_iter().map(|(p, id)| (p.to_vec(), *id)).collect();
    listed.sort();
    let mut expected = points.clone();
    expected.sort();
    assert_eq!(listed, expected);

    tree.remove(&points[5].0, &points[5].1).unwrap();
    expected.retain(|e| *e != points[5]);
    let mut listed: Vec<(Vec<i64>, usize)> = tree.records().into_iter().map(|(p, id)| (p.to_vec(), *id)).collect();
    listed.sort();
    assert_eq!(listed, expected);
    assert_eq!(tree.records().len(), tree.size());
}

#[test]
fn a_plane_routes_its_own_value_left_only_on_the_low_side_of_the_box() {
    assert!(belongs_in_left(0, 5, 4));
    assert!(!belongs_in_left(0, 5, 5));
    assert!(!belongs_in_left(0, 5, 6));
    assert!(belongs_in_left(5, 5, 4));
    assert!(belongs_in_left(5, 5, 5));
    assert!(!belongs_in_left(5, 5, 6));
    assert!(belongs_in_left(i64::MAX, 0, -1));
    assert!(!belongs_in_left(i64::MAX, 0, 0));
}

#[test]
fn routing_stops_being_strict_when_a_box_grows_below_a_plane_on_its_low_side() {
    let mut tree = KdTree::with_capacity(1, 2);
    assert!(tree.is_strictly_routed());
    tree.add(&[0], 'a').unwrap();
    tree.add(&[1], 'b').unwrap();
    tree.add(&[1], 'c').unwrap();
    assert!(!tree.is_leaf());
    assert!(tree.is_strictly_routed());
    tree.add(&[-5], 'd').unwrap();
    assert!(!tree.is_strictly_routed());
    assert_eq!(tree.remove(&[-5], &'d').unwrap(), 1);
    assert!(!tree.is_strictly_routed());
}

#[test]
fn a_strictly_routed_tree_answers_a_box_as_a_linear_scan_does() {
    let mut strict = 0;
    for seed in 1..40u64 {
        let points = cloud(40, 2, 6, seed);
        let tree = grown(&points, 2, 3);
        if !tree.is_strictly_routed() {
            continue;
        }
        strict += 1;
        for (lo, hi) in [(vec![-6, -6], vec![6, 6]), (vec![-2, -1], vec![3, 4]), (vec![0, 0], vec![0, 0])] {
            let mut expected: Vec<usize> = points
                .iter()
                .filter(|(p, _)| (0..2).all(|d| lo[d] <= p[d] && p[d] <= hi[d]))
                .map(|(_, id)| *id)
                .collect();
            expected.sort();
            let mut found: Vec<usize> = tree.bounding_box(&lo, &hi).unwrap().into_iter().cloned().collect();
            found.sort();
            assert_eq!(found, expected);
        }
    }
    assert!(strict > 0);
}

#[test]
fn what_is_written_through_the_lazy_search_stays_where_it_was_written() {
    let points = cloud(25, 2, 4, 5);
    let mut tree = grown(&points, 2, 2);
    let q = [0i64, 0];
    let first = {
        let mut iter = tree.iter_nearest_mut(&q, &squared_euclidean).unwrap();
        let (d, id) = iter.next().unwrap();
        let was = *id;
        *id = 777;
        (d, was)
    };
    let found = tree.nearest(&q, 25, &squared_euclidean).unwrap();
    assert_eq!(found.len(), 25);
    assert_eq!(found.iter().filter(|(_, id)| **id == 777).count(), 1);
    let mut others: Vec<usize> = found.iter().map(|(_, id)| **id).filter(|id| *id != 777).collect();
    others.sort();
    let expected: Vec<usize> = (0..25).filter(|id| *id != first.1).collect();
    assert_eq!(others, expected);
    let written = found.iter().find(|(_, id)| **id == 777).unwrap();
    assert_eq!(written.0, first.0);
    assert_eq!(written.0, squared_euclidean(&q, &points[first.1].0));
}

#[test]
fn nearest_without_a_radius_is_as_long_as_asked_whatever_the_distance() {
    let points = cloud(37, 3, 9, 11);
    let tree = grown(&points, 3, 4);
    let odd = |a: &[i64], b: &[i64]| -> i64 { (a[0] - b[0]) * (b[1] - a[2]) - b[2] };
    for k in [0usize, 1, 5, 36, 37, 38, 100] {
        let found = tree.nearest(&[1, -2, 3], k, &odd).unwrap();
        assert_eq!(found.len(), k.min(37));
        assert!(found.windows(2).all(|w| w[0].0 <= w[1].0));
        let again = tree.nearest_within_radius(&[1, -2, 3], k, None, &odd).unwrap();
        assert_eq!(again, found);
    }
}

#[test]
fn the_heap_moves_its_elements_step_by_step() {
    let mut heap = RankedHeap::new();
    for (distance, element) in [(3, 'a'), (1, 'b'), (4, 'c'), (1, 'd'), (5, 'e')] {
        heap.push(HeapElement { distance, element });
    }
    let top = heap.pop().unwrap();
    assert_eq!((top.distance, top.element), (5, 'e'));
    let held: Vec<(i64, char)> = heap.into_vec().into_iter().map(|x| (x.distance, x.element)).collect();
    assert_eq!(held, vec![(4, 'c'), (1, 'd'), (3, 'a'), (1, 'b')]);
    let mut heap = RankedHeap::new();
    for (distance, element) in [(3, 'a'), (1, 'b'), (4, 'c'), (1, 'd'), (5, 'e')] {
        heap.push(HeapElement { distance, element });
    }
    let sorted: Vec<(i64, char)> = heap.into_sorted_vec().into_iter().map(|x| (x.distance, x.element)).collect();
    assert_eq!(sorted, vec![(1, 'b'), (1, 'd'), (3, 'a'), (4, 'c'), (5, 'e')]);
}

#[test]
fn the_heap_agrees_with_the_heap_of_the_standard_library() {
    let mut seed = 99u64;
    let mut ours = RankedHeap::new();
    let mut theirs = std::collections::BinaryHeap::new();
    for id in 0..200usize {
        let d = draw(&mut seed, 6);
        if d < -3 {
            let a = ours.pop().map(|x| (x.distance, x.element));
            let b = theirs.pop().map(|x: ByDistance| (x.0, x.1));
            assert_eq!(a, b);
        } else {
            ours.push(HeapElement { distance: d, element: id });
            theirs.push(ByDistance(d, id));
        }
    }
    let a: Vec<(i64, usize)> = ours.into_sorted_vec().into_iter().map(|x| (x.distance, x.element)).collect();
    let b: Vec<(i64, usize)> = theirs.into_sorted_vec().into_iter().map(|x| (x.0, x.1)).collect();
    assert_eq!(a, b);
}

#[test]
fn a_split_deals_the_bucket_out_from_the_front_with_the_last_in_its_place() {
    let mut tree = KdTree::with_capacity(1, 3);
    tree.add(&[5], 'a').unwrap();
    tree.add(&[1], 'b').unwrap();
    tree.add(&[9], 'c').unwrap();
    assert!(tree.is_leaf());
    tree.add(&[3], 'd').unwrap();
    assert!(!tree.is_leaf());
    let held: Vec<(i64, char)> = tree.records().into_iter().map(|(p, c)| (p[0], *c)).collect();
    assert_eq!(held, vec![(3, 'd'), (1, 'b'), (5, 'a'), (9, 'c')]);
}

#[test]
fn a_distance_that_is_no_lower_bound_on_boxes_may_hide_the_nearest() {
    let mut tree = KdTree::with_capacity(1, 1);
    tree.add(&[0], 'a').unwrap();
    tree.add(&[60], 'b').unwrap();
    tree.add(&[100], 'c').unwrap();
    let odd = |q: &[i64], p: &[i64]| -> i64 {
        if p[0] == 100 {
            0
        } else {
            (q[0] - p[0]) * (q[0] - p[0]) + 1
        }
    };
    assert_eq!(tree.nearest(&[0], 1, &odd).unwrap(), vec![(1, &'a')]);
    assert_eq!(tree.nearest(&[0], 3, &odd).unwrap(), vec![(0, &'c'), (1, &'a'), (3601, &'b')]);
}
