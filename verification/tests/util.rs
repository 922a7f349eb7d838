use kdtree::distance::squared_euclidean;
use kdtree::util::distance_to_space;

#[test]
fn util_test_normal_distance_to_space() {
    let dis = distance_to_space(&[0, 0], &[1, 1], &[2, 2], &squared_euclidean);
    assert_eq!(dis, 2);
}

#[test]
fn util_test_distance_outside_inf() {
    let dis = distance_to_space(&[0, 0], &[1, 1], &[i64::MAX, i64::MAX], &squared_euclidean);
    assert_eq!(dis, 2);
}

#[test]
fn util_test_distance_inside_inf() {
    let dis = distance_to_space(
        &[2, 2],
        &[i64::MIN, i64::MIN],
        &[i64::MAX, i64::MAX],
        &squared_euclidean,
    );
    assert_eq!(dis, 0);
}

#[test]
fn util_test_distance_inside_normal() {
    let dis = distance_to_space(&[2, 2], &[0, 0], &[3, 3], &squared_euclidean);
    assert_eq!(dis, 0);
}

#[test]
fn util_distance_to_half_space() {
    let dis = distance_to_space(
        &[-2, 0],
        &[0, i64::MIN],
        &[i64::MAX, i64::MAX],
        &squared_euclidean,
    );
    assert_eq!(dis, 4);
}
