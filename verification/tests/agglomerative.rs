use clustering::agglomerative::{get_partitions, AggloClusterer, Cluster};
use clustering::error::ClusterError;
use clustering::flat::AgglomerativeCluster;
use clustering::matrix::Matrix;
use std::rc::Rc;

fn line(xs: &[i32]) -> Matrix {
    let rows: Vec<Vec<i32>> = xs.iter().map(|x| vec![*x]).collect();
    Matrix::from_rows(&rows).unwrap()
}

fn fitted(data: &Matrix) -> AggloClusterer {
    let mut model = AggloClusterer::new();
    model.fit(data).unwrap();
    model
}

fn member_lists(clusters: &[Rc<Cluster>]) -> Vec<Vec<usize>> {
    clusters.iter().map(|cluster| cluster.members().clone()).collect()
}

#[test]
fn a_new_engine_has_no_tree() {
    let model = AggloClusterer::new();
    assert!(model.head.is_none());
    assert_eq!(model.retrieve_clusters(3).unwrap().len(), 0);
    assert_eq!(model.retrieve_clusters(1).unwrap().len(), 0);
}

#[test]
fn the_nearest_means_are_merged_first() {
    // 10 and 11 first; then 0 joins them (means 0 and 10); then 30
    let data = line(&[0, 10, 11, 30]);
    let model = fitted(&data);
    let head = model.head.clone().unwrap();
    assert_eq!(head.index(), 3);
    assert_eq!(head.members(), &vec![0, 1, 2, 3]);
    assert_eq!(head.center(), &vec![51]);
    let (first, second) = head.children().unwrap();
    assert_eq!(first.index(), 2);
    assert_eq!(first.members(), &vec![0, 1, 2]);
    assert_eq!(first.center(), &vec![21]);
    assert_eq!(second.index(), 0);
    assert_eq!(second.members(), &vec![3]);
    assert!(second.children().is_none());
    let (left, right) = first.children().unwrap();
    assert_eq!(left.members(), &vec![0]);
    assert_eq!(right.index(), 1);
    assert_eq!(right.members(), &vec![1, 2]);
}

#[test]
fn the_merged_node_takes_the_place_of_the_first() {
    // 20 and 21 merge first and stand at position 1; then 0 and 2 merge
    let data = line(&[0, 20, 2, 21]);
    let model = fitted(&data);
    let head = model.head.clone().unwrap();
    // members of the first node come first
    assert_eq!(head.members(), &vec![0, 2, 1, 3]);
    let (first, second) = head.children().unwrap();
    assert_eq!(first.members(), &vec![0, 2]);
    assert_eq!(first.index(), 2);
    assert_eq!(second.members(), &vec![1, 3]);
    assert_eq!(second.index(), 1);
}

#[test]
fn of_equally_near_pairs_the_first_in_row_order_is_merged() {
    // every pair of neighbours is as near as any other
    let data = line(&[0, 10, 20, 30]);
    let model = fitted(&data);
    let clusters = model.retrieve_clusters(3).unwrap();
    let mut lists = member_lists(&clusters);
    lists.sort();
    assert_eq!(lists, vec![vec![0, 1], vec![2], vec![3]]);
}

#[test]
fn means_are_rounded_down_before_they_are_compared() {
    // the mean of 0 and 3 is 1: it is as near to 5 (distance 2) as 9 is
    let data = line(&[0, 3, 5, 9]);
    let model = fitted(&data);
    // first merge: 0 and 3 (distance 1); 3 and 5 are as near, but read later
    let two = model.retrieve_clusters(2).unwrap();
    let mut lists = member_lists(&two);
    lists.sort();
    assert_eq!(lists, vec![vec![0, 1, 2], vec![3]]);
}

#[test]
fn one_cluster_is_the_root() {
    let data = line(&[5, 1, 9, 3, 7]);
    let model = fitted(&data);
    let clusters = model.retrieve_clusters(1).unwrap();
    assert_eq!(clusters.len(), 1);
    let mut members = clusters[0].members().clone();
    assert_eq!(clusters[0].index(), 4);
    members.sort();
    assert_eq!(members, vec![0, 1, 2, 3, 4]);
}

#[test]
fn no_cluster_is_an_empty_list() {
    let data = line(&[5, 1, 9]);
    let model = fitted(&data);
    assert_eq!(model.retrieve_clusters(0).unwrap().len(), 0);
}

#[test]
fn a_cut_undoes_the_latest_merges() {
    let data = line(&[0, 10, 11, 30]);
    let model = fitted(&data);
    let two = model.retrieve_clusters(2).unwrap();
    assert_eq!(member_lists(&two), vec![vec![0, 1, 2], vec![3]]);
    let three = model.retrieve_clusters(3).unwrap();
    // descending by merge index; leaves stay in the order they came in
    assert_eq!(member_lists(&three), vec![vec![1, 2], vec![3], vec![0]]);
    let four = model.retrieve_clusters(4).unwrap();
    assert_eq!(member_lists(&four), vec![vec![3], vec![0], vec![1], vec![2]]);
    assert!(four.iter().all(|leaf| leaf.index() == 0));
}

#[test]
fn every_cut_parts_the_points() {
    let data = Matrix::from_rows(&vec![
        vec![0, 0],
        vec![5, 1],
        vec![-3, 8],
        vec![40, 40],
        vec![41, 43],
        vec![-20, 7],
        vec![5, 2],
        vec![0, 1],
        vec![39, 41],
    ])
    .unwrap();
    let model = fitted(&data);
    for count in 1..=9 {
        let clusters = model.retrieve_clusters(count).unwrap();
        assert_eq!(clusters.len(), count);
        let mut all: Vec<usize> = Vec::new();
        for cluster in &clusters {
            all.extend(cluster.members().iter());
        }
        all.sort();
        assert_eq!(all, (0..9).collect::<Vec<usize>>());
        let labels = get_partitions(&clusters, &data).unwrap();
        assert_eq!(labels.len(), 9);
        for (point, label) in labels.iter().enumerate() {
            assert!(clusters[*label as usize].members().contains(&point));
        }
        for pair in clusters.windows(2) {
            assert!(pair[0].index() >= pair[1].index());
        }
    }
}

#[test]
fn more_clusters_than_points_are_refused() {
    let data = line(&[0, 10, 11, 30]);
    let model = fitted(&data);
    assert!(matches!(model.retrieve_clusters(5), Err(ClusterError::TooManyClusters)));
    assert!(matches!(model.retrieve_clusters(usize::MAX), Err(ClusterError::TooManyClusters)));
}

#[test]
fn a_single_point_is_a_single_cluster() {
    let data = line(&[7]);
    let model = fitted(&data);
    let head = model.head.clone().unwrap();
    assert_eq!(head.index(), 0);
    assert!(head.children().is_none());
    assert_eq!(head.center(), &vec![7]);
    let clusters = model.retrieve_clusters(1).unwrap();
    assert_eq!(member_lists(&clusters), vec![vec![0]]);
    assert_eq!(get_partitions(&clusters, &data), Ok(vec![0]));
    assert!(matches!(model.retrieve_clusters(2), Err(ClusterError::TooManyClusters)));
}

#[test]
fn a_tree_is_not_built_of_nothing() {
    let none: Vec<Vec<i32>> = vec![];
    let empty = Matrix::from_rows(&none).unwrap();
    let mut model = AggloClusterer::new();
    assert_eq!(model.fit(&empty), Err(ClusterError::EmptyInput));
    assert!(model.head.is_none());
    let rows: Vec<Vec<i32>> = vec![vec![], vec![]];
    let flat = Matrix::from_rows(&rows).unwrap();
    assert_eq!(model.fit(&flat), Err(ClusterError::ZeroDimensions));
    assert!(model.head.is_none());
    // a refused fit keeps the tree of the fit before
    let data = line(&[1, 2]);
    model.fit(&data).unwrap();
    assert_eq!(model.fit(&empty), Err(ClusterError::EmptyInput));
    assert_eq!(model.head.clone().unwrap().members(), &vec![0, 1]);
}

#[test]
fn labels_are_positions_in_the_list() {
    let data = line(&[0, 10, 11, 30]);
    let model = fitted(&data);
    let three = model.retrieve_clusters(3).unwrap();
    assert_eq!(get_partitions(&three, &data), Ok(vec![2, 0, 0, 1]));
    let two = model.retrieve_clusters(2).unwrap();
    assert_eq!(get_partitions(&two, &data), Ok(vec![0, 0, 0, 1]));
}

#[test]
fn a_point_in_no_cluster_is_an_error() {
    let data = line(&[0, 10, 11, 30]);
    let model = fitted(&data);
    let mut three = model.retrieve_clusters(3).unwrap();
    three.remove(1);
    assert_eq!(get_partitions(&three, &data), Err(ClusterError::UnassignedPoint));
    assert_eq!(get_partitions(&Vec::new(), &data), Err(ClusterError::UnassignedPoint));
    let none: Vec<Vec<i32>> = vec![];
    let empty = Matrix::from_rows(&none).unwrap();
    assert_eq!(get_partitions(&Vec::new(), &empty), Ok(vec![]));
}

#[test]
fn a_point_in_two_clusters_goes_to_the_first() {
    let data = line(&[0, 10, 11, 30]);
    let model = fitted(&data);
    let head = model.head.clone().unwrap();
    let mut list = model.retrieve_clusters(2).unwrap();
    list.push(head);
    assert_eq!(get_partitions(&list, &data), Ok(vec![0, 0, 0, 1]));
    list.reverse();
    assert_eq!(get_partitions(&list, &data), Ok(vec![0, 0, 0, 0]));
}

#[test]
fn the_flat_engine_starts_with_one_cluster_per_point() {
    let data = line(&[0, 10, 11, 30]);
    let model = AgglomerativeCluster::new(&data, 2);
    assert_eq!(model.centers, 2);
    assert_eq!(model.clusters, vec![vec![vec![0]], vec![vec![10]], vec![vec![11]], vec![vec![30]]]);
}

#[test]
fn the_flat_engine_joins_down_to_the_count() {
    let data = line(&[0, 10, 11, 30]);
    let mut model = AgglomerativeCluster::new(&data, 2);
    assert_eq!(model.fit_predict(&data), Ok(vec![0, 0, 0, 1]));
    assert_eq!(model.clusters, vec![vec![vec![0], vec![10], vec![11]], vec![vec![30]]]);
    let mut model = AgglomerativeCluster::new(&data, 3);
    assert_eq!(model.fit_predict(&data), Ok(vec![0, 1, 1, 2]));
    let mut model = AgglomerativeCluster::new(&data, 1);
    assert_eq!(model.fit_predict(&data), Ok(vec![0, 0, 0, 0]));
    assert_eq!(model.clusters.len(), 1);
}

#[test]
fn the_flat_engine_joins_nothing_when_the_count_is_met() {
    let data = line(&[0, 10, 11]);
    let mut model = AgglomerativeCluster::new(&data, 3);
    assert_eq!(model.fit_predict(&data), Ok(vec![0, 1, 2]));
    let mut model = AgglomerativeCluster::new(&data, 50);
    assert_eq!(model.fit_predict(&data), Ok(vec![0, 1, 2]));
}

#[test]
fn the_flat_engine_labels_by_coordinates() {
    // the two points at 5 cannot be told apart: both get the later cluster
    let data = line(&[5, 100, 5, 200]);
    let mut model = AgglomerativeCluster::new(&data, 4);
    assert_eq!(model.fit_predict(&data), Ok(vec![2, 1, 2, 3]));
}

#[test]
fn the_flat_engine_agrees_with_the_tree() {
    let data = Matrix::from_rows(&vec![
        vec![0, 0],
        vec![50, 10],
        vec![-30, 80],
        vec![400, 400],
        vec![410, 430],
        vec![-200, 70],
        vec![52, 20],
        vec![3, 10],
        vec![390, 410],
    ])
    .unwrap();
    let tree = fitted(&data);
    for count in 1..=9 {
        let clusters = tree.retrieve_clusters(count).unwrap();
        let by_tree = get_partitions(&clusters, &data).unwrap();
        let mut flat = AgglomerativeCluster::new(&data, count);
        let by_flat = flat.fit_predict(&data).unwrap();
        // the same groups, whatever they are called
        for a in 0..9 {
            for b in 0..9 {
                assert_eq!(by_tree[a] == by_tree[b], by_flat[a] == by_flat[b]);
            }
        }
    }
}

#[test]
fn the_flat_engine_refuses_what_it_cannot_cluster() {
    let data = line(&[0, 10]);
    let mut model = AgglomerativeCluster::new(&data, 0);
    assert_eq!(model.fit_predict(&data), Err(ClusterError::InvalidCenters));
    assert_eq!(model.clusters.len(), 2);
    let none: Vec<Vec<i32>> = vec![];
    let empty = Matrix::from_rows(&none).unwrap();
    let mut model = AgglomerativeCluster::new(&empty, 2);
    assert!(model.clusters.is_empty());
    assert_eq!(model.fit_predict(&empty), Err(ClusterError::EmptyInput));
    let rows: Vec<Vec<i32>> = vec![vec![], vec![]];
    let flat = Matrix::from_rows(&rows).unwrap();
    let mut model = AgglomerativeCluster::new(&flat, 1);
    assert_eq!(model.fit_predict(&flat), Err(ClusterError::ZeroDimensions));
}

#[test]
fn the_flat_engine_puts_a_single_point_in_a_single_cluster() {
    let data = line(&[9]);
    let mut model = AgglomerativeCluster::new(&data, 1);
    assert_eq!(model.fit_predict(&data), Ok(vec![0]));
}

// The merges written down plainly: lists of members, sums of coordinates.
fn merged_members(rows: &[Vec<i32>]) -> Vec<usize> {
    let mut live: Vec<(Vec<usize>, Vec<i128>)> = rows
        .iter()
        .enumerate()
        .map(|(i, row)| (vec![i], row.iter().map(|v| *v as i128).collect()))
        .collect();
    while live.len() > 1 {
        let means: Vec<Vec<i32>> = live
            .iter()
            .map(|(members, sums)| {
                sums.iter().map(|s| s.div_euclid(members.len() as i128) as i32).collect()
            })
            .collect();
        let mut best = (0, 0);
        let mut least = u64::MAX;
        for i in 0..live.len() - 1 {
            for j in i + 1..live.len() {
                let gap = clustering::mathfuncs::l2(&means[i], &means[j], false);
                if gap < least {
                    least = gap;
                    best = (i, j);
                }
            }
        }
        let (gone_members, gone_sums) = live.remove(best.1);
        let (members, sums) = &mut live[best.0];
        members.extend(gone_members);
        for (sum, more) in sums.iter_mut().zip(gone_sums) {
            *sum += more;
        }
    }
    live.remove(0).0
}

#[test]
fn the_tree_lists_its_members_in_the_order_of_the_merges() {
    let mut seed: u64 = 5;
    for round in 0..40 {
        let count = 1 + round % 25;
        let mut rows = Vec::new();
        for _ in 0..count {
            let mut row = Vec::new();
            for _ in 0..3 {
                seed = seed.wrapping_mul(6364136223846793005).wrapping_add(1442695040888963407);
                row.push(((seed >> 33) % 200) as i32 - 100);
            }
            rows.push(row);
        }
        let data = Matrix::from_rows(&rows).unwrap();
        let model = fitted(&data);
        let head = model.head.clone().unwrap();
        assert_eq!(head.members(), &merged_members(&rows));
        assert_eq!(head.index(), count - 1);
        for c in 0..3 {
            let sum: i128 = rows.iter().map(|row| row[c] as i128).sum();
            assert_eq!(head.center()[c], sum);
        }
    }
}
