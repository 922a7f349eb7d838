use kdtree::distance::squared_euclidean;
use kdtree::KdTree;

const POINT_A: ([i64; 2], usize) = ([0, 0], 0);
const POINT_B: ([i64; 2], usize) = ([1, 1], 1);
const POINT_C: ([i64; 2], usize) = ([2, 2], 2);
const POINT_D: ([i64; 2], usize) = ([3, 3], 3);

fn basic_tree() -> KdTree<usize> {
    let mut tree = KdTree::with_capacity(2, 2);
    for &(coords, value) in &[POINT_A, POINT_B, POINT_C, POINT_D] {
        tree.add(&coords, value).unwrap();
    }
    tree
}

fn assert_unordered_usize(results: Vec<(i64, &usize)>, expected: &[(i64, usize)]) {
    let mut actual = results.into_iter().map(|(d, v)| (d, *v)).collect::<Vec<_>>();
    let mut expected_vec = expected.to_vec();
    actual.sort_by(|a, b| a.0.partial_cmp(&b.0).unwrap().then_with(|| a.1.cmp(&b.1)));
    expected_vec.sort_by(|a, b| a.0.partial_cmp(&b.0).unwrap().then_with(|| a.1.cmp(&b.1)));
    assert_eq!(actual, expected_vec);
}

#[test]
fn feature_within_within_queries_match_expected() {
    let tree = basic_tree();

    assert_unordered_usize(tree.within(&POINT_A.0, 0, &squared_euclidean).unwrap(), &[(0, 0)]);
    assert_unordered_usize(tree.within(&POINT_B.0, 1, &squared_euclidean).unwrap(), &[(0, 1)]);
    assert_unordered_usize(
        tree.within(&POINT_B.0, 2, &squared_euclidean).unwrap(),
        &[(0, 1), (2, 2), (2, 0)],
    );

    assert_eq!(tree.within_count(&POINT_A.0, 0, &squared_euclidean).unwrap(), 1);
    assert_eq!(tree.within_count(&POINT_B.0, 1, &squared_euclidean).unwrap(), 1);
    assert_eq!(tree.within_count(&POINT_B.0, 2, &squared_euclidean).unwrap(), 3);
}

#[test]
fn feature_within_within_handles_pending_order_tree() {
    let item1 = ([0i64], 1);
    let item2 = ([100i64], 2);
    let item3 = ([45i64], 3);
    let item4 = ([55i64], 4);

    let mut tree = KdTree::with_capacity(1, 2);
    tree.add(&item1.0, item1.1).unwrap();
    tree.add(&item2.0, item2.1).unwrap();
    tree.add(&item3.0, item3.1).unwrap();
    tree.add(&item4.0, item4.1).unwrap();

    assert_unordered_usize(
        tree.within(&[50], 25, &squared_euclidean).unwrap(),
        &[(25, 3), (25, 4)],
    );
    assert_unordered_usize(
        tree.within(&[50], 30, &squared_euclidean).unwrap(),
        &[(25, 3), (25, 4)],
    );
    assert_unordered_usize(tree.within(&[55], 5, &squared_euclidean).unwrap(), &[(0, 4)]);
    assert_unordered_usize(tree.within(&[56], 5, &squared_euclidean).unwrap(), &[(1, 4)]);
}
