use clustering::mathfuncs::{
    cumsum, floor_div, isqrt, l2, mean_of_vec_arr, silhouette_score, square, squared1d, INFINITE,
    ONE,
};
use clustering::matrix::Matrix;
use clustering::utility::{argwhere, max, max_int, MAX_INT_FLOOR, NOT_FOUND};

#[test]
fn isqrt_rounds_down() {
    assert_eq!(isqrt(0), 0);
    assert_eq!(isqrt(1), 1);
    assert_eq!(isqrt(2), 1);
    assert_eq!(isqrt(3), 1);
    assert_eq!(isqrt(4), 2);
    assert_eq!(isqrt(24), 4);
    assert_eq!(isqrt(25), 5);
    assert_eq!(isqrt(26), 5);
    assert_eq!(isqrt((1u128 << 64) - 1), (1u64 << 32) - 1);
    assert_eq!(isqrt(1u128 << 64), 1u64 << 32);
    assert_eq!(isqrt(u128::MAX), u64::MAX);
}

#[test]
fn isqrt_brackets_every_small_number() {
    for s in 0..5000u128 {
        let r = isqrt(s) as u128;
        assert!(r * r <= s && s < (r + 1) * (r + 1));
    }
}

#[test]
fn l2_is_half_the_root_rounded_down() {
    assert_eq!(l2(&vec![0, 0], &vec![6, 8], false), 5);
    assert_eq!(l2(&vec![6, 8], &vec![0, 0], false), 5);
    assert_eq!(l2(&vec![0], &vec![3], false), 1);
    assert_eq!(l2(&vec![0], &vec![1], false), 0);
    assert_eq!(l2(&vec![7, -2, 5], &vec![7, -2, 5], false), 0);
    assert_eq!(l2(&vec![], &vec![], false), 0);
    assert_eq!(l2(&vec![i32::MIN], &vec![i32::MAX], false), 2147483647);
}

#[test]
fn l2_is_not_the_euclidean_distance() {
    // the points are ten apart; the distance is five
    assert_eq!(l2(&vec![0, 0], &vec![10 * ONE, 0], false), (5 * ONE) as u64);
}

#[test]
fn l2_with_grad_is_zero() {
    assert_eq!(l2(&vec![0, 0], &vec![6, 8], true), 0);
}

#[test]
fn l2_stays_below_infinite() {
    let far = l2(&vec![i32::MIN, i32::MIN], &vec![i32::MAX, i32::MAX], false);
    assert!(far < INFINITE);
    assert_eq!(far, 3037000499);
}

#[test]
fn square_of_extremes() {
    assert_eq!(square(0), 0);
    assert_eq!(square(-3), 9);
    assert_eq!(square(i32::MAX), 4611686014132420609);
    assert_eq!(square(i32::MIN), 1u64 << 62);
}

#[test]
fn squared1d_squares_each_item() {
    assert_eq!(squared1d(vec![-3, 4, 0]), vec![9, 16, 0]);
    assert_eq!(squared1d(vec![0xffff_ffff, -0xffff_ffff]), vec![18446744065119617025; 2]);
    assert_eq!(squared1d(vec![]), Vec::<u64>::new());
}

#[test]
fn cumsum_is_the_running_sum() {
    let mut x = vec![1, 2, 3, 4];
    cumsum(&mut x);
    assert_eq!(x, vec![1, 3, 6, 10]);
    let mut empty: Vec<u64> = vec![];
    cumsum(&mut empty);
    assert!(empty.is_empty());
    let mut wide = vec![u64::MAX - 1, 1];
    cumsum(&mut wide);
    assert_eq!(wide, vec![u64::MAX - 1, u64::MAX]);
}

#[test]
fn floor_div_rounds_towards_minus_infinity() {
    assert_eq!(floor_div(7, 2), 3);
    assert_eq!(floor_div(-7, 2), -4);
    assert_eq!(floor_div(-8, 2), -4);
    assert_eq!(floor_div(-1, 5), -1);
    assert_eq!(floor_div(0, 5), 0);
    assert_eq!(floor_div(i128::MAX, 1), i128::MAX);
    assert_eq!(floor_div(i128::MIN + 1, 1), i128::MIN + 1);
}

#[test]
fn mean_of_vec_arr_rounds_each_coordinate_down() {
    assert_eq!(mean_of_vec_arr(&vec![vec![1, -1], vec![2, -2]]), vec![1, -2]);
    assert_eq!(mean_of_vec_arr(&vec![vec![5, 7, 9]]), vec![5, 7, 9]);
    assert_eq!(
        mean_of_vec_arr(&vec![vec![i32::MAX], vec![i32::MAX], vec![i32::MAX]]),
        vec![i32::MAX]
    );
    assert_eq!(mean_of_vec_arr(&vec![vec![i32::MIN], vec![i32::MIN]]), vec![i32::MIN]);
}

#[test]
fn max_of_distances() {
    assert_eq!(max(vec![3, 9, 2]), 9);
    assert_eq!(max(vec![]), 0);
    assert_eq!(max(vec![INFINITE, 4]), INFINITE);
}

#[test]
fn max_int_starts_from_its_floor() {
    assert_eq!(max_int(vec![3, -1, 7, 2]), 7);
    assert_eq!(max_int(vec![]), -i32::MAX);
    assert_eq!(max_int(vec![]), MAX_INT_FLOOR);
    assert_eq!(max_int(vec![i32::MIN]), -i32::MAX);
    assert_eq!(max_int(vec![-5, -9]), -5);
}

#[test]
fn argwhere_finds_the_first() {
    assert_eq!(argwhere(vec![4, 5, 6, 5], 5), 1);
    assert_eq!(argwhere(vec![4, 5, 6], 9), usize::MAX);
    assert_eq!(argwhere(vec![], 0), NOT_FOUND);
}

#[test]
fn silhouette_score_is_the_mean_of_the_point_scores() {
    let points = Matrix::from_rows(&vec![vec![0], vec![10]]).unwrap();
    let centroids = Matrix::from_rows(&vec![vec![0], vec![8]]).unwrap();
    // point 0: own distance 0, other 4: score one.
    // point 1: own distance 1, other 5: score four fifths.
    let expected = (ONE + (4 * ONE) / 5) / 2;
    assert_eq!(silhouette_score(&points, &vec![0, 1], &centroids), expected);
    assert_eq!(expected, 58982);
}

#[test]
fn silhouette_score_is_zero_for_one_centroid() {
    let points = Matrix::from_rows(&vec![vec![0, 0], vec![10, 4]]).unwrap();
    let centroids = Matrix::from_rows(&vec![vec![5, 2]]).unwrap();
    assert_eq!(silhouette_score(&points, &vec![0, 0], &centroids), 0);
}

#[test]
fn silhouette_score_is_zero_where_every_distance_is_zero() {
    let points = Matrix::from_rows(&vec![vec![3], vec![3]]).unwrap();
    let centroids = Matrix::from_rows(&vec![vec![3], vec![3]]).unwrap();
    assert_eq!(silhouette_score(&points, &vec![0, 1], &centroids), 0);
}

#[test]
fn silhouette_score_is_zero_for_a_point_nearer_to_another_centroid() {
    // own distance 5, other 1: the larger is the own one, nothing is gained
    let points = Matrix::from_rows(&vec![vec![10]]).unwrap();
    let centroids = Matrix::from_rows(&vec![vec![0], vec![8]]).unwrap();
    assert_eq!(silhouette_score(&points, &vec![0], &centroids), 0);
}

#[test]
fn silhouette_score_of_no_points_is_zero() {
    let none: Vec<Vec<i32>> = vec![];
    let points = Matrix::from_rows(&none).unwrap();
    let centroids = Matrix::from_rows(&none).unwrap();
    assert_eq!(silhouette_score(&points, &vec![], &centroids), 0);
}
