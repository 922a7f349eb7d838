use kdtree::distance::squared_euclidean;
use kdtree::util::distance_to_space;
use kdtree::KdTree;

fn scattered(seed: &mut u64) -> ([i64; 2], i32) {
    let mut draw = || {
        *seed = seed.wrapping_mul(6364136223846793005).wrapping_add(1442695040888963407);
        (*seed >> 11) as i64 % 1_000_000_007
    };
    let x = draw();
    let y = draw();
    let data = draw() as i32;
    ([x, y], data)
}

#[test]
fn it_holds_onto_capacity_before_splitting() {
    let mut seed = 20_240_607u64;
    let mut tree: KdTree<i32> = KdTree::new(2);
    let capacity = 2_usize.pow(4);
    for _ in 0..capacity {
        let (pos, data) = scattered(&mut seed);
        tree.add(&pos, data).unwrap();
    }
    assert_eq!(tree.size(), capacity);
    assert!(tree.is_leaf());
    {
        let (pos, data) = scattered(&mut seed);
        tree.add(&pos, data).unwrap();
    }
    assert_eq!(tree.size(), capacity + 1);
    assert!(!tree.is_leaf());
}

#[test]
fn kdtree_test_normal_distance_to_space() {
    let dis = distance_to_space(&[0, 0], &[1, 1], &[2, 2], &squared_euclidean);
    assert_eq!(dis, 2);
}

#[test]
fn kdtree_test_distance_outside_inf() {
    let dis = distance_to_space(&[0, 0], &[1, 1], &[i64::MAX, i64::MAX], &squared_euclidean);
    assert_eq!(dis, 2);
}

#[test]
fn kdtree_test_distance_inside_inf() {
    let dis = distance_to_space(
        &[2, 2],
        &[i64::MIN, i64::MIN],
        &[i64::MAX, i64::MAX],
        &squared_euclidean,
    );
    assert_eq!(dis, 0);
}

#[test]
fn kdtree_test_distance_inside_normal() {
    let dis = distance_to_space(&[2, 2], &[0, 0], &[3, 3], &squared_euclidean);
    assert_eq!(dis, 0);
}

#[test]
fn kdtree_distance_to_half_space() {
    let dis = distance_to_space(
        &[-2, 0],
        &[0, i64::MIN],
        &[i64::MAX, i64::MAX],
        &squared_euclidean,
    );
    assert_eq!(dis, 4);
}

#[test]
fn test_in_bounding_box_via_bounding_box() {
    let mut tree: KdTree<i32> = KdTree::new(2);
    tree.add(&[10, 10], 1).unwrap();
    tree.add(&[5, 5], 2).unwrap();
    tree.add(&[20, 20], 3).unwrap();

    let result = tree.bounding_box(&[0, 0], &[15, 15]).unwrap();
    assert_eq!(result.len(), 2);

    let result = tree.bounding_box(&[10, 10], &[10, 10]).unwrap();
    assert_eq!(result.len(), 1);

    let result = tree.bounding_box(&[25, 25], &[30, 30]).unwrap();
    assert_eq!(result.len(), 0);
}
