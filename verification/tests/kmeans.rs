use clustering::error::ClusterError;
use clustering::lloyd::{Kmeans, DEFAULT_ACCEPT};
use clustering::mathfuncs::{silhouette_score, ONE};
use clustering::matrix::Matrix;

fn scattered(count: usize, seed: u64) -> Matrix {
    let mut state = seed;
    let mut rows = Vec::new();
    for _ in 0..count {
        let mut row = Vec::new();
        for _ in 0..3 {
            state = state.wrapping_mul(6364136223846793005).wrapping_add(1442695040888963407);
            row.push(((state >> 40) as i32 % (20 * ONE)) - 10 * ONE);
        }
        rows.push(row);
    }
    Matrix::from_rows(&rows).unwrap()
}

#[test]
fn a_new_engine_has_the_defaults() {
    let data = scattered(7, 1);
    let model = Kmeans::new(&data, 3).unwrap();
    assert_eq!(model.centers, 3);
    assert_eq!(model.max_centers, 10);
    assert_eq!(model.accept, DEFAULT_ACCEPT);
    assert_eq!(model.accept, 45875);
    assert_eq!(model.initializer, "kmeans++");
    assert_eq!(model.max_iter, 100);
    assert_eq!(model.retries, 10);
    assert_eq!(model.seed, None);
    assert_eq!(model.partition, vec![0; 7]);
    assert_eq!(model.centroids.to_rows(), vec![vec![0, 0, 0]; 3]);
}

#[test]
fn the_setters_set_one_thing_each() {
    let data = scattered(4, 1);
    let mut model = Kmeans::new(&data, 2).unwrap();
    model.config_silhouette(123);
    model.set_initializer("random_choice");
    model.set_fitting_time(17, 3);
    model.set_max_centers(6);
    model.set_seed(99);
    assert_eq!(model.accept, 123);
    assert_eq!(model.initializer, "random_choice");
    assert_eq!(model.max_iter, 17);
    assert_eq!(model.retries, 3);
    assert_eq!(model.max_centers, 6);
    assert_eq!(model.seed, Some(99));
    assert_eq!(model.centers, 2);
}

#[test]
fn a_negative_count_is_refused() {
    let data = scattered(4, 1);
    assert!(matches!(Kmeans::new(&data, -1), Err(ClusterError::InvalidCenters)));
    let mut model = Kmeans::new(&data, 2).unwrap();
    model.centers = -3;
    assert_eq!(model.fit_predict(&data), Err(ClusterError::InvalidCenters));
}

#[test]
fn no_points_are_refused() {
    let none: Vec<Vec<i32>> = vec![];
    let empty = Matrix::from_rows(&none).unwrap();
    let mut model = Kmeans::new(&empty, 2).unwrap();
    assert_eq!(model.fit_predict(&empty), Err(ClusterError::EmptyInput));
}

#[test]
fn points_without_coordinates_are_refused() {
    let rows: Vec<Vec<i32>> = vec![vec![], vec![]];
    let data = Matrix::from_rows(&rows).unwrap();
    let mut model = Kmeans::new(&data, 2).unwrap();
    assert_eq!(model.fit_predict(&data), Err(ClusterError::ZeroDimensions));
}

#[test]
fn a_refused_fit_leaves_the_engine_alone() {
    let data = scattered(5, 3);
    let mut model = Kmeans::new(&data, 2).unwrap();
    model.set_seed(4);
    model.fit_predict(&data).unwrap();
    let labels = model.partition.clone();
    let centroids = model.centroids.to_rows();
    let none: Vec<Vec<i32>> = vec![];
    let empty = Matrix::from_rows(&none).unwrap();
    assert_eq!(model.fit_predict(&empty), Err(ClusterError::EmptyInput));
    assert_eq!(model.partition, labels);
    assert_eq!(model.centroids.to_rows(), centroids);
}

#[test]
fn one_cluster_ends_at_the_mean() {
    let data = Matrix::from_rows(&vec![vec![1, 1], vec![3, 1], vec![5, 7]]).unwrap();
    for initializer in ["kmeans++", "random_choice"] {
        for seed in 0..8 {
            let mut model = Kmeans::new(&data, 1).unwrap();
            model.set_initializer(initializer);
            model.set_seed(seed);
            assert_eq!(model.fit_predict(&data), Ok(vec![0, 0, 0]));
            assert_eq!(model.centroids.to_rows(), vec![vec![3, 3]]);
            assert_eq!(model.partition, vec![0, 0, 0]);
        }
    }
}

#[test]
fn the_mean_is_rounded_down() {
    let data = Matrix::from_rows(&vec![vec![-1, 4], vec![-2, 5]]).unwrap();
    let mut model = Kmeans::new(&data, 1).unwrap();
    model.set_seed(0);
    model.fit_predict(&data).unwrap();
    assert_eq!(model.centroids.to_rows(), vec![vec![-2, 4]]);
}

#[test]
fn labels_lie_below_the_count() {
    let data = scattered(60, 11);
    for seed in 0..6 {
        for initializer in ["kmeans++", "random_choice"] {
            let mut model = Kmeans::new(&data, 3).unwrap();
            model.set_initializer(initializer);
            model.set_fitting_time(20, 3);
            model.set_seed(seed);
            let labels = model.fit_predict(&data).unwrap();
            assert_eq!(labels.len(), 60);
            assert!(labels.iter().all(|label| 0 <= *label && *label < 3));
            assert_eq!(model.centroids.nrows(), 3);
            assert_eq!(model.centroids.ncols(), 3);
            assert_eq!(labels, model.partition);
        }
    }
}

#[test]
fn the_same_seed_gives_the_same_fit() {
    let data = scattered(50, 5);
    for initializer in ["kmeans++", "random_choice"] {
        let mut first = Kmeans::new(&data, 4).unwrap();
        first.set_initializer(initializer);
        first.set_seed(12345);
        let mut second = Kmeans::new(&data, 4).unwrap();
        second.set_initializer(initializer);
        second.set_seed(12345);
        let labels = first.fit_predict(&data).unwrap();
        assert_eq!(second.fit_predict(&data).unwrap(), labels);
        assert_eq!(first.centroids.to_rows(), second.centroids.to_rows());
        // a second fit of the same engine does not depend on the first
        assert_eq!(first.fit_predict(&data).unwrap(), labels);
        assert_eq!(first.fit_predict_seeded(&data, 12345).unwrap(), labels);
    }
}

#[test]
fn the_seed_matters() {
    let data = scattered(50, 5);
    let mut fits = Vec::new();
    for seed in 0..16 {
        let mut model = Kmeans::new(&data, 4).unwrap();
        model.set_initializer("random_choice");
        model.set_fitting_time(0, 1);
        model.set_seed(seed);
        model.fit_predict(&data).unwrap();
        fits.push(model.centroids.to_rows());
    }
    assert!(fits.iter().any(|fit| *fit != fits[0]));
}

#[test]
fn every_draw_stays_within_the_rows() {
    let data = scattered(9, 2);
    let rows = data.to_rows();
    for seed in [u64::MAX, u64::MAX - 1, 1u64 << 63, 10_000_000_000_000_000_000] {
        for initializer in ["kmeans++", "random_choice"] {
            let mut model = Kmeans::new(&data, 4).unwrap();
            model.set_initializer(initializer);
            model.set_fitting_time(0, 1);
            model.set_seed(seed);
            model.fit_predict(&data).unwrap();
            let zero = vec![0, 0, 0];
            for centroid in model.centroids.to_rows() {
                assert!(rows.contains(&centroid) || centroid == zero);
            }
        }
    }
}

#[test]
fn without_rounds_a_run_keeps_its_first_centroids() {
    let data = scattered(10, 8);
    let rows = data.to_rows();
    let mut model = Kmeans::new(&data, 3).unwrap();
    model.set_initializer("random_choice");
    model.set_fitting_time(0, 2);
    model.set_seed(1);
    assert_eq!(model.fit_predict(&data), Ok(vec![0; 10]));
    for centroid in model.centroids.to_rows() {
        assert!(rows.contains(&centroid));
    }
}

#[test]
fn without_runs_nothing_is_fitted() {
    let data = scattered(10, 8);
    let mut model = Kmeans::new(&data, 3).unwrap();
    model.set_fitting_time(100, 0);
    model.set_seed(1);
    assert_eq!(model.fit_predict(&data), Ok(vec![0; 10]));
    assert_eq!(model.centroids.to_rows(), vec![vec![0, 0, 0]; 3]);
    model.set_fitting_time(100, -4);
    assert_eq!(model.fit_predict(&data), Ok(vec![0; 10]));
}

#[test]
fn a_single_point_gets_a_single_label() {
    let data = Matrix::from_rows(&vec![vec![3 * ONE, -ONE]]).unwrap();
    let mut model = Kmeans::new(&data, 1).unwrap();
    model.set_seed(5);
    assert_eq!(model.fit_predict(&data), Ok(vec![0]));
    assert_eq!(model.centroids.to_rows(), vec![vec![3 * ONE, -ONE]]);
}

#[test]
fn more_clusters_than_points_do_no_harm() {
    let data = Matrix::from_rows(&vec![vec![ONE, ONE], vec![5 * ONE, 5 * ONE]]).unwrap();
    for initializer in ["kmeans++", "random_choice"] {
        for seed in 0..10 {
            let mut model = Kmeans::new(&data, 5).unwrap();
            model.set_initializer(initializer);
            model.set_seed(seed);
            let labels = model.fit_predict(&data).unwrap();
            assert_eq!(labels.len(), 2);
            assert!(labels.iter().all(|label| 0 <= *label && *label < 5));
            assert_eq!(model.centroids.nrows(), 5);
        }
    }
}

#[test]
fn of_equally_near_centroids_the_last_wins() {
    // one point drawn twice: two centroids at the same place
    let data = Matrix::from_rows(&vec![vec![4 * ONE, 2 * ONE]]).unwrap();
    let mut model = Kmeans::new(&data, 2).unwrap();
    model.set_initializer("random_choice");
    model.set_seed(3);
    assert_eq!(model.fit_predict(&data), Ok(vec![1]));
    assert_eq!(model.centroids.to_rows(), vec![vec![4 * ONE, 2 * ONE]; 2]);
}

#[test]
fn weighted_seeding_leaves_a_row_zero_when_no_point_is_left() {
    // the only point is the first centroid; nothing has weight for the second
    let data = Matrix::from_rows(&vec![vec![ONE, ONE]]).unwrap();
    let mut model = Kmeans::new(&data, 2).unwrap();
    model.set_seed(3);
    assert_eq!(model.fit_predict(&data), Ok(vec![0]));
    assert_eq!(model.centroids.to_rows(), vec![vec![ONE, ONE], vec![0, 0]]);
}

#[test]
fn weighted_seeding_never_takes_a_point_twice() {
    // two points far apart: the second centroid is the other point, or none
    let data = Matrix::from_rows(&vec![vec![0, 7], vec![1000 * ONE, 7]]).unwrap();
    for seed in 0..20 {
        let mut model = Kmeans::new(&data, 2).unwrap();
        model.set_fitting_time(0, 1);
        model.set_seed(seed);
        model.fit_predict(&data).unwrap();
        let centroids = model.centroids.to_rows();
        assert_ne!(centroids[0], centroids[1]);
        assert!(centroids[1] == vec![0, 0] || data.to_rows().contains(&centroids[1]));
    }
}

#[test]
fn an_empty_cluster_keeps_its_centroid() {
    // both centroids start at the point of row 0 or row 1; with equal points
    // the last centroid takes every point and the first one stays
    let data = Matrix::from_rows(&vec![vec![6, 6], vec![6, 6], vec![6, 6]]).unwrap();
    let mut model = Kmeans::new(&data, 2).unwrap();
    model.set_initializer("random_choice");
    model.set_seed(1);
    assert_eq!(model.fit_predict(&data), Ok(vec![1, 1, 1]));
    assert_eq!(model.centroids.to_rows(), vec![vec![6, 6], vec![6, 6]]);
}

#[test]
fn a_run_from_the_origin_makes_a_round_all_the_same() {
    // the first centroids are all zero; the points are labelled nevertheless
    let data = Matrix::from_rows(&vec![vec![0, 0], vec![0, 0]]).unwrap();
    let mut model = Kmeans::new(&data, 2).unwrap();
    model.set_initializer("random_choice");
    model.set_seed(1);
    assert_eq!(model.fit_predict(&data), Ok(vec![1, 1]));
    assert_eq!(model.centroids.to_rows(), vec![vec![0, 0], vec![0, 0]]);
}

#[test]
fn one_round_is_one_round() {
    // from the centroid 1 or 9 one round leads to the mean, 5
    let data = Matrix::from_rows(&vec![vec![1], vec![9]]).unwrap();
    let mut model = Kmeans::new(&data, 1).unwrap();
    model.set_fitting_time(1, 1);
    model.set_seed(1);
    assert_eq!(model.fit_predict(&data), Ok(vec![0, 0]));
    assert_eq!(model.centroids.to_rows(), vec![vec![5]]);
}

#[test]
fn a_search_tries_the_counts_from_two() {
    let data = scattered(40, 21);
    let mut model = Kmeans::new(&data, 0).unwrap();
    model.set_max_centers(5);
    model.set_fitting_time(30, 2);
    model.set_seed(77);
    let labels = model.fit_predict(&data).unwrap();
    let found = model.centroids.nrows();
    assert!(2 <= found && found < 5);
    assert_eq!(labels.len(), 40);
    assert!(labels.iter().all(|label| 0 <= *label && (*label as usize) < found));
    assert_eq!(model.centers, 0);
}

#[test]
fn a_search_that_accepts_anything_stops_at_two() {
    let data = scattered(40, 21);
    let mut model = Kmeans::new(&data, 0).unwrap();
    model.config_silhouette(-1);
    model.set_fitting_time(30, 1);
    model.set_seed(77);
    model.fit_predict(&data).unwrap();
    assert_eq!(model.centroids.nrows(), 2);
}

#[test]
fn a_search_with_no_count_to_try_fits_nothing() {
    let data = scattered(6, 21);
    let mut model = Kmeans::new(&data, 0).unwrap();
    model.set_max_centers(2);
    model.set_seed(77);
    assert_eq!(model.fit_predict(&data), Ok(vec![0; 6]));
    assert_eq!(model.centroids.nrows(), 0);
    assert_eq!(model.centroids.ncols(), 3);
}

#[test]
fn a_search_is_reproducible() {
    let data = scattered(40, 21);
    let mut first = Kmeans::new(&data, 0).unwrap();
    first.set_max_centers(6);
    first.set_seed(5);
    let mut second = Kmeans::new(&data, 0).unwrap();
    second.set_max_centers(6);
    second.set_seed(5);
    assert_eq!(first.fit_predict(&data), second.fit_predict(&data));
    assert_eq!(first.centroids.to_rows(), second.centroids.to_rows());
}

#[test]
fn without_a_seed_a_fit_still_labels_every_point() {
    let data = scattered(30, 4);
    let mut model = Kmeans::new(&data, 3).unwrap();
    let labels = model.fit_predict(&data).unwrap();
    assert_eq!(labels.len(), 30);
    assert!(labels.iter().all(|label| 0 <= *label && *label < 3));
    assert_eq!(model.seed, None);
}

#[test]
fn an_unknown_initializer_draws_rows() {
    let data = scattered(12, 9);
    let mut named = Kmeans::new(&data, 3).unwrap();
    named.set_initializer("random_choice");
    named.set_seed(31);
    let mut other = Kmeans::new(&data, 3).unwrap();
    other.set_initializer("anything else");
    other.set_seed(31);
    assert_eq!(named.fit_predict(&data), other.fit_predict(&data));
    assert_eq!(named.centroids.to_rows(), other.centroids.to_rows());
}

#[test]
fn the_best_run_is_kept() {
    // two pairs of points: the split into the pairs scores highest
    let data = Matrix::from_rows(&vec![
        vec![0, 0],
        vec![2 * ONE, 0],
        vec![100 * ONE, 0],
        vec![102 * ONE, 0],
    ])
    .unwrap();
    for seed in 0..10 {
        let mut model = Kmeans::new(&data, 2).unwrap();
        model.set_initializer("random_choice");
        model.set_fitting_time(100, 20);
        model.set_seed(seed);
        let labels = model.fit_predict(&data).unwrap();
        assert_eq!(labels[0], labels[1]);
        assert_eq!(labels[2], labels[3]);
        assert_ne!(labels[0], labels[2]);
    }
}

fn second_centroid_is_drawn(gap: i32, seed: u64) -> bool {
    let data = Matrix::from_rows(&vec![vec![0, 5], vec![gap, 5]]).unwrap();
    let mut model = Kmeans::new(&data, 2).unwrap();
    model.set_fitting_time(0, 1);
    model.set_seed(seed);
    model.fit_predict(&data).unwrap();
    let centroids = model.centroids.to_rows();
    assert!(data.to_rows().contains(&centroids[0]));
    if centroids[1] == vec![0, 0] {
        false
    } else {
        assert!(data.to_rows().contains(&centroids[1]));
        assert_ne!(centroids[0], centroids[1]);
        true
    }
}

#[test]
fn the_weight_is_the_distance_over_the_number_of_points() {
    // two points: the weight of the one not drawn first is half its distance,
    // which is a quarter of the gap; the threshold lies below one
    for seed in 0..40 {
        // a weight of one or more always passes the threshold
        assert!(second_centroid_is_drawn(4 * ONE, seed));
        assert!(second_centroid_is_drawn(40 * ONE, seed));
        // a weight of nothing never does
        assert!(!second_centroid_is_drawn(3, seed));
        assert!(!second_centroid_is_drawn(0, seed));
    }
    // a weight of a half passes about every other threshold
    let drawn = (0..400).filter(|seed| second_centroid_is_drawn(2 * ONE, *seed)).count();
    assert!(120 < drawn && drawn < 280);
    // a weight of a tenth passes about one in ten
    let drawn = (0..400).filter(|seed| second_centroid_is_drawn((2 * ONE) / 5, *seed)).count();
    assert!(10 < drawn && drawn < 90);
}

#[test]
fn rows_are_drawn_evenly() {
    let data = Matrix::from_rows(&vec![vec![1], vec![2], vec![3], vec![4]]).unwrap();
    let mut counts = [0; 4];
    for seed in 0..400 {
        let mut model = Kmeans::new(&data, 1).unwrap();
        model.set_initializer("random_choice");
        model.set_fitting_time(0, 1);
        model.set_seed(seed);
        model.fit_predict(&data).unwrap();
        counts[(model.centroids.get(0, 0) - 1) as usize] += 1;
    }
    assert!(counts.iter().all(|count| 50 < *count && *count < 150));
}

#[test]
fn a_search_ends_with_the_first_run_that_is_accepted() {
    let data = scattered(40, 21);
    // a search that accepts anything makes one run, whatever the number of runs
    let mut once = Kmeans::new(&data, 0).unwrap();
    once.config_silhouette(-1);
    once.set_fitting_time(30, 1);
    once.set_seed(8);
    let mut often = Kmeans::new(&data, 0).unwrap();
    often.config_silhouette(-1);
    often.set_fitting_time(30, 9);
    often.set_seed(8);
    assert_eq!(once.fit_predict(&data), often.fit_predict(&data));
    assert_eq!(once.centroids.to_rows(), often.centroids.to_rows());
    assert_eq!(often.centroids.nrows(), 2);
}

#[test]
fn a_search_that_accepts_nothing_keeps_the_best_of_all_counts() {
    let data = scattered(30, 3);
    let fit = |centers: i32| {
        let mut model = Kmeans::new(&data, centers).unwrap();
        // no score lies above one
        model.config_silhouette(ONE);
        model.set_max_centers(5);
        model.set_fitting_time(50, 4);
        model.set_seed(2);
        let labels = model.fit_predict(&data).unwrap();
        (silhouette_score(&data, &labels, &model.centroids), model.centroids.nrows())
    };
    let (searched, found) = fit(0);
    assert!(2 <= found && found < 5);
    // the search begins with the runs of a fit at two clusters
    let (at_two, _) = fit(2);
    assert!(searched >= at_two);
    // and it scores no lower than the count it found
    let (at_found, _) = fit(found as i32);
    assert!(searched <= ONE);
    assert!(at_found <= ONE);
}
