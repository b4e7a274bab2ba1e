use clustering::agglomerative::{get_partitions, AggloClusterer};
use clustering::dbscan::DBScan;
use clustering::flat::AgglomerativeCluster;
use clustering::lloyd::Kmeans;
use clustering::mathfuncs::ONE;
use clustering::matrix::Matrix;

fn next_uniform(state: &mut u64) -> f64 {
    *state = state.wrapping_mul(6364136223846793005).wrapping_add(1442695040888963407);
    (*state >> 11) as f64 / (1u64 << 53) as f64
}

// near enough to a normal deviate: mean zero, variance one
fn next_normal(state: &mut u64) -> f64 {
    let mut sum = 0.0;
    for _ in 0..12 {
        sum += next_uniform(state);
    }
    sum - 6.0
}

fn to_fixed(x: f64) -> i32 {
    (x * ONE as f64).round() as i32
}

fn four_clouds() -> Matrix {
    let mut state: u64 = 2024;
    let centers = [(0.0, 0.0), (10.0, 0.0), (0.0, 10.0), (10.0, 10.0)];
    let mut rows = Vec::new();
    for (cx, cy) in centers {
        for _ in 0..100 {
            let x = cx + next_normal(&mut state);
            let y = cy + next_normal(&mut state);
            rows.push(vec![to_fixed(x), to_fixed(y)]);
        }
    }
    Matrix::from_rows(&rows).unwrap()
}

fn one_label_per_cloud(labels: &[i32]) -> bool {
    let mut seen = Vec::new();
    for cloud in 0..4 {
        let first = labels[cloud * 100];
        if labels[cloud * 100..(cloud + 1) * 100].iter().any(|l| *l != first) {
            return false;
        }
        if seen.contains(&first) {
            return false;
        }
        seen.push(first);
    }
    true
}

#[test]
fn kmeans_recovers_four_clouds() {
    let data = four_clouds();
    for seed in 0..5 {
        for initializer in ["kmeans++", "random_choice"] {
            let mut model = Kmeans::new(&data, 4).unwrap();
            model.set_initializer(initializer);
            model.set_fitting_time(100, 5);
            model.set_seed(seed);
            let labels = model.fit_predict(&data).unwrap();
            assert_eq!(labels.len(), 400);
            assert!(one_label_per_cloud(&labels));
            // every centroid lies within its cloud
            let centroids = model.centroids.to_rows();
            for cloud in 0..4 {
                let centroid = &centroids[labels[cloud * 100] as usize];
                let cx = if cloud % 2 == 1 { 10 * ONE } else { 0 };
                let cy = if cloud / 2 == 1 { 10 * ONE } else { 0 };
                assert!((centroid[0] - cx).abs() < ONE);
                assert!((centroid[1] - cy).abs() < ONE);
            }
        }
    }
}

#[test]
fn dbscan_recovers_four_clouds() {
    let data = four_clouds();
    let mut model = DBScan::new(&data);
    model.set_min_points(5);
    // half the distance between two clouds, which the halved metric gives as five
    model.set_epsilon((5 * ONE as u64) / 2);
    let labels = model.fit_predict(&data).unwrap();
    assert!(labels.iter().all(|label| *label != 0));
    assert!(one_label_per_cloud(&labels));
    assert_eq!(model.current_clusters, 5);
    assert_eq!(model.is_visited.len(), 400);
}

#[test]
fn the_tree_cut_in_four_recovers_four_clouds() {
    let data = four_clouds();
    let mut model = AggloClusterer::new();
    model.fit(&data).unwrap();
    let clusters = model.retrieve_clusters(4).unwrap();
    assert_eq!(clusters.len(), 4);
    for cluster in &clusters {
        assert_eq!(cluster.members().len(), 100);
        let cloud = cluster.members()[0] / 100;
        assert!(cluster.members().iter().all(|member| member / 100 == cloud));
    }
    let labels = get_partitions(&clusters, &data).unwrap();
    assert!(one_label_per_cloud(&labels));
    let whole = model.retrieve_clusters(1).unwrap();
    let mut members = whole[0].members().clone();
    members.sort();
    assert_eq!(members, (0..400).collect::<Vec<usize>>());
}

#[test]
fn the_flat_engine_recovers_three_clouds() {
    let mut state: u64 = 7;
    let mut rows = Vec::new();
    for (cx, cy) in [(0.0, 0.0), (10.0, 0.0), (0.0, 10.0)] {
        for _ in 0..30 {
            rows.push(vec![
                to_fixed(cx + next_normal(&mut state)),
                to_fixed(cy + next_normal(&mut state)),
            ]);
        }
    }
    let data = Matrix::from_rows(&rows).unwrap();
    let mut model = AgglomerativeCluster::new(&data, 3);
    let labels = model.fit_predict(&data).unwrap();
    for cloud in 0..3 {
        let first = labels[cloud * 30];
        assert!(labels[cloud * 30..(cloud + 1) * 30].iter().all(|label| *label == first));
    }
    assert_ne!(labels[0], labels[30]);
    assert_ne!(labels[0], labels[60]);
    assert_ne!(labels[30], labels[60]);
}

#[test]
fn dbscan_tells_a_dense_cluster_from_noise() {
    let mut state: u64 = 99;
    let mut rows = Vec::new();
    // fifty points scattered over a square of a hundred by a hundred, none
    // of them near the middle
    while rows.len() < 50 {
        let x = 100.0 * next_uniform(&mut state);
        let y = 100.0 * next_uniform(&mut state);
        if (x - 50.0).abs() > 5.0 || (y - 50.0).abs() > 5.0 {
            rows.push(vec![to_fixed(x), to_fixed(y)]);
        }
    }
    // twenty points packed around the middle
    for _ in 0..20 {
        let x = 50.0 + next_uniform(&mut state) - 0.5;
        let y = 50.0 + next_uniform(&mut state) - 0.5;
        rows.push(vec![to_fixed(x), to_fixed(y)]);
    }
    let data = Matrix::from_rows(&rows).unwrap();
    let mut model = DBScan::new(&data);
    model.set_min_points(10);
    model.set_epsilon(ONE as u64);
    let labels = model.fit_predict(&data).unwrap();
    assert_eq!(labels.len(), 70);
    assert!(labels[..50].iter().all(|label| *label == 0));
    assert!(labels[50..].iter().all(|label| *label == 1));
    assert_eq!(model.current_clusters, 2);
}
