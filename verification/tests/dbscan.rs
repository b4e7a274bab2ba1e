use clustering::dbscan::{DBScan, DEFAULT_EPSILON, DEFAULT_MIN_POINTS};
use clustering::error::ClusterError;
use clustering::mathfuncs::ONE;
use clustering::matrix::Matrix;

fn line(xs: &[i32]) -> Matrix {
    let rows: Vec<Vec<i32>> = xs.iter().map(|x| vec![*x]).collect();
    Matrix::from_rows(&rows).unwrap()
}

fn engine(data: &Matrix, min_points: usize, epsilon: u64) -> DBScan {
    let mut model = DBScan::new(data);
    model.set_min_points(min_points);
    model.set_epsilon(epsilon);
    model
}

#[test]
fn a_new_scan_has_the_defaults() {
    let data = line(&[1, 2, 3]);
    let model = DBScan::new(&data);
    assert_eq!(model.min_points, 10);
    assert_eq!(model.min_points, DEFAULT_MIN_POINTS);
    assert_eq!(model.epsilon, DEFAULT_EPSILON);
    assert_eq!(model.epsilon, (3 * ONE as u64) / 10);
    assert!(model.is_visited.is_empty());
    assert!(model.is_in_cluster.is_empty());
    assert!(model.is_noise.is_empty());
    assert_eq!(model.partitions, vec![0, 0, 0]);
    assert_eq!(model.current_clusters, 1);
}

#[test]
fn the_radius_is_measured_in_halved_distances() {
    // the points are two apart, their distance is one
    let data = line(&[0, 2]);
    let mut model = engine(&data, 1, 1);
    assert_eq!(model.fit_predict(&data), Ok(vec![1, 1]));
    let mut model = engine(&data, 1, 0);
    assert_eq!(model.fit_predict(&data), Ok(vec![0, 0]));
}

#[test]
fn a_cluster_starts_only_above_the_count() {
    // a pair of neighbours: two points each, counting themselves
    let data = line(&[0, 2]);
    assert_eq!(engine(&data, 2, 1).fit_predict(&data), Ok(vec![0, 0]));
    assert_eq!(engine(&data, 1, 1).fit_predict(&data), Ok(vec![1, 1]));
}

#[test]
fn a_cluster_goes_on_through_points_at_the_count() {
    // neighbourhoods: 0 {0,2}; 2 {0,2,4}; 4 {2,4,6}; 6 {4,6}; 20 {20}
    // with a count of two, 6 does not start a cluster, but reached from 4
    // it is taken in and would pass the cluster on
    let data = line(&[0, 2, 4, 6, 20]);
    let mut model = engine(&data, 2, 1);
    assert_eq!(model.fit_predict(&data), Ok(vec![1, 1, 1, 1, 0]));
    assert_eq!(model.current_clusters, 2);
}

#[test]
fn a_cluster_does_not_go_on_through_points_below_the_count() {
    // within the radius of one lie points up to three apart
    // neighbourhoods: 0, 1, 2 {0,1,2,3}; 3 {0,1,2,3,6}; 6 {3,6,9}; 9 {6,9}
    let data = line(&[0, 1, 2, 3, 6, 9]);
    // count four: the cluster starts at 3 and takes in 6, which has three
    // neighbours only and does not pass it on to 9
    assert_eq!(engine(&data, 4, 1).fit_predict(&data), Ok(vec![1, 1, 1, 1, 1, 0]));
    // count three: 6 passes it on
    assert_eq!(engine(&data, 3, 1).fit_predict(&data), Ok(vec![1, 1, 1, 1, 1, 1]));
}

#[test]
fn a_point_passed_over_is_taken_in_later() {
    // 0 has too few neighbours to start a cluster and is passed over; the
    // cluster that starts at 2 takes it in
    let data = line(&[0, 2, 4, 40, 42, 100]);
    let mut model = engine(&data, 2, 1);
    assert_eq!(model.fit_predict(&data), Ok(vec![1, 1, 1, 0, 0, 0]));
    assert_eq!(model.current_clusters, 2);
    assert!(model.is_in_cluster.contains(&1));
    assert!(model.is_in_cluster.contains(&2));
    // taken in, but looked at before: it does not count as having a cluster
    assert!(!model.is_in_cluster.contains(&0));
    let mut noise: Vec<usize> = model.is_noise.iter().copied().collect();
    noise.sort();
    assert_eq!(noise, vec![0, 3, 4, 5]);
}

#[test]
fn a_point_between_two_clusters_goes_to_the_later_one() {
    // 0 has three neighbours and is passed over; the cluster of -3 takes it
    // in, and then the cluster of 3 does
    let data = line(&[0, -3, -4, -5, 3, 4, 5]);
    let mut model = engine(&data, 3, 1);
    assert_eq!(model.fit_predict(&data), Ok(vec![2, 1, 1, 1, 2, 2, 2]));
    assert!(!model.is_in_cluster.contains(&0));
}

#[test]
fn clusters_are_numbered_in_the_order_of_their_seeds() {
    let data = line(&[100, 102, 104, 0, 2, 4, 50]);
    let mut model = engine(&data, 2, 1);
    assert_eq!(model.fit_predict(&data), Ok(vec![1, 1, 1, 2, 2, 2, 0]));
    assert_eq!(model.current_clusters, 3);
}

#[test]
fn every_point_is_looked_at() {
    let data = line(&[0, 2, 4, 40, 42, 100, 7, 9, 11, 13]);
    for count in 0..5 {
        for radius in 0..4 {
            let mut model = engine(&data, count, radius);
            let labels = model.fit_predict(&data).unwrap();
            assert_eq!(labels.len(), 10);
            assert_eq!(model.is_visited.len(), 10);
            for point in 0..10 {
                assert!(model.is_visited.contains(&point));
            }
            assert!(labels.iter().all(|label| 0 <= *label && *label < model.current_clusters));
            for point in &model.is_in_cluster {
                assert!(labels[*point] > 0);
                assert!(!model.is_noise.contains(point));
            }
            for point in 0..10 {
                // what no cluster took in was noise at its turn
                assert!(labels[point] != 0 || model.is_noise.contains(&point));
            }
            assert_eq!(labels, model.partitions);
        }
    }
}

#[test]
fn a_second_fit_starts_over() {
    let data = line(&[0, 2, 4, 40, 42, 100]);
    let mut model = engine(&data, 2, 1);
    let first = model.fit_predict(&data).unwrap();
    assert_eq!(model.fit_predict(&data).unwrap(), first);
    let other = line(&[0, 50]);
    assert_eq!(model.fit_predict(&other), Ok(vec![0, 0]));
    assert_eq!(model.is_visited.len(), 2);
    assert!(model.is_in_cluster.is_empty());
    assert_eq!(model.is_noise.len(), 2);
}

#[test]
fn a_single_point_is_noise_or_a_cluster_of_its_own() {
    let data = line(&[5]);
    assert_eq!(engine(&data, 1, 0).fit_predict(&data), Ok(vec![0]));
    assert_eq!(engine(&data, 0, 0).fit_predict(&data), Ok(vec![1]));
    let mut model = DBScan::new(&data);
    assert_eq!(model.fit_predict(&data), Ok(vec![0]));
    assert_eq!(model.is_visited.len(), 1);
}

#[test]
fn with_no_count_every_point_is_in_a_cluster() {
    let data = line(&[0, 10, 20]);
    assert_eq!(engine(&data, 0, 0).fit_predict(&data), Ok(vec![1, 2, 3]));
    assert_eq!(engine(&data, 0, 5).fit_predict(&data), Ok(vec![1, 1, 1]));
}

#[test]
fn equal_points_are_neighbours_at_radius_zero() {
    let data = Matrix::from_rows(&vec![vec![3, 3], vec![3, 3], vec![3, 3], vec![9, 9]]).unwrap();
    assert_eq!(engine(&data, 2, 0).fit_predict(&data), Ok(vec![1, 1, 1, 0]));
}

#[test]
fn a_scan_refuses_no_points_and_no_coordinates() {
    let none: Vec<Vec<i32>> = vec![];
    let empty = Matrix::from_rows(&none).unwrap();
    let mut model = DBScan::new(&empty);
    assert_eq!(model.fit_predict(&empty), Err(ClusterError::EmptyInput));
    let rows: Vec<Vec<i32>> = vec![vec![], vec![]];
    let flat = Matrix::from_rows(&rows).unwrap();
    let mut model = DBScan::new(&flat);
    assert_eq!(model.fit_predict(&flat), Err(ClusterError::ZeroDimensions));
    assert_eq!(model.partitions, vec![0, 0]);
}

// The scan written down as a recursion: a cluster grows from point to point.
struct Recursion {
    min_points: usize,
    epsilon: u64,
    visited: Vec<bool>,
    in_cluster: Vec<bool>,
    labels: Vec<i32>,
    current: i32,
}

impl Recursion {
    fn neighbours(&self, rows: &[Vec<i32>], index: usize) -> Vec<usize> {
        (0..rows.len())
            .filter(|other| {
                clustering::mathfuncs::l2(&rows[index], &rows[*other], false) <= self.epsilon
            })
            .collect()
    }

    fn expand(&mut self, rows: &[Vec<i32>], index: usize) {
        self.labels[index] = self.current;
        if !self.visited[index] {
            self.visited[index] = true;
            self.in_cluster[index] = true;
            let found = self.neighbours(rows, index);
            if found.len() >= self.min_points {
                for point in found {
                    if !self.in_cluster[point] {
                        self.expand(rows, point);
                    }
                }
            }
        }
    }

    fn scan(rows: &[Vec<i32>], min_points: usize, epsilon: u64) -> Recursion {
        let n = rows.len();
        let mut state = Recursion {
            min_points,
            epsilon,
            visited: vec![false; n],
            in_cluster: vec![false; n],
            labels: vec![0; n],
            current: 1,
        };
        for i in 0..n {
            if state.visited[i] {
                continue;
            }
            state.visited[i] = true;
            let found = state.neighbours(rows, i);
            if found.len() <= state.min_points {
                continue;
            }
            state.labels[i] = state.current;
            state.in_cluster[i] = true;
            for point in found {
                if !state.in_cluster[point] {
                    state.expand(rows, point);
                }
            }
            state.current += 1;
        }
        state
    }
}

#[test]
fn the_scan_agrees_with_its_recursive_form() {
    let mut seed: u64 = 17;
    for round in 0..60 {
        let count = 5 + round % 40;
        let mut rows = Vec::new();
        for _ in 0..count {
            let mut row = Vec::new();
            for _ in 0..2 {
                seed = seed.wrapping_mul(6364136223846793005).wrapping_add(1442695040888963407);
                row.push(((seed >> 33) % 60) as i32);
            }
            rows.push(row);
        }
        let data = Matrix::from_rows(&rows).unwrap();
        for min_points in [0, 1, 2, 3, 5] {
            for epsilon in [0, 1, 2, 4, 7] {
                let expected = Recursion::scan(&rows, min_points, epsilon);
                let mut model = engine(&data, min_points, epsilon);
                let labels = model.fit_predict(&data).unwrap();
                assert_eq!(labels, expected.labels);
                assert_eq!(model.current_clusters, expected.current);
                for point in 0..count {
                    assert_eq!(model.is_in_cluster.contains(&point), expected.in_cluster[point]);
                    assert!(model.is_visited.contains(&point));
                }
            }
        }
    }
}
