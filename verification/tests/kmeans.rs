use kmeans2d::centroid::Centroid;
use kmeans2d::kmeans::{
    assign_clusters, compute_new_centroids, converged, get_k_close_centroid, get_k_random_points,
    kmeans, select_k_distinct_indices, KmeansError,
};
use kmeans2d::point::Point;

fn centroids_of(points: &[Point]) -> Vec<Centroid> {
    let mut cs = Vec::new();
    for p in points {
        cs.push(Centroid::from_point(p));
    }
    cs
}

#[test]
fn test_get_k_close_centroid() {
    // coordinates in tenth-units: (0.0, 0.0), (2.0, 2.0), (-2.0, -2.0)
    let points = centroids_of(&[Point::new(0, 0), Point::new(20, 20), Point::new(-20, -20)]);

    assert_eq!(get_k_close_centroid(&Point::new(1, 1), &points), 0);
    // (1.0, 1.0) is equally far from the first two: the lower index wins
    assert_eq!(get_k_close_centroid(&Point::new(10, 10), &points), 0);
    assert_eq!(get_k_close_centroid(&Point::new(11, 11), &points), 1);
    assert_eq!(get_k_close_centroid(&Point::new(-11, -11), &points), 2);
}

#[test]
fn test_compute_new_centroids() {
    // (7.0, 9.0), (9.0, 2.0), (-2.0, -6.3), (4.0, 6.0) in tenth-units
    let points = vec![
        Point::new(70, 90),
        Point::new(90, 20),
        Point::new(-20, -63),
        Point::new(40, 60),
    ];
    let centroids = compute_new_centroids(2, &points, &vec![0, 0, 1, 1]).unwrap();
    assert_eq!(
        centroids,
        vec![Centroid::new(160, 110, 2), Centroid::new(20, -3, 2)]
    );
    // the means are exactly (8.0, 5.5) and (1.0, -0.15)
    assert!(centroids[0].same_value(&Centroid::new(80, 55, 1)));
    assert!(centroids[1].same_value(&Centroid::new(40, -6, 4)));
}

#[test]
fn test_converged() {
    let points_a = centroids_of(&[
        Point::new(70, 90),
        Point::new(90, 20),
        Point::new(-20, -63),
        Point::new(40, 60),
    ]);
    let points_b = centroids_of(&[
        Point::new(70, 90),
        Point::new(90, 20),
        Point::new(-20, -63),
        Point::new(40, 60),
    ]);
    let points_c = centroids_of(&[
        Point::new(70, 90),
        Point::new(90, -21),
        Point::new(-20, -63),
        Point::new(40, 60),
    ]);

    assert_eq!(converged(&points_a, &points_b), true);
    assert_ne!(converged(&points_a, &points_c), true);
}

#[test]
fn test_converged_order_independent() {
    let current = centroids_of(&[Point::new(1, 1), Point::new(2, 2)]);
    let permuted = centroids_of(&[Point::new(2, 2), Point::new(1, 1)]);
    let other = centroids_of(&[Point::new(1, 1), Point::new(3, 3)]);
    assert!(converged(&current, &permuted));
    assert!(converged(&permuted, &current));
    assert!(!converged(&current, &other));
}

#[test]
fn test_converged_compares_values_not_representations() {
    // (30, 30) over 3 members and (10, 10) over 1 member are the same mean
    let current = vec![Centroid::new(30, 30, 3)];
    let candidate = vec![Centroid::new(10, 10, 1)];
    assert!(converged(&current, &candidate));
    assert!(!converged(&current, &vec![Centroid::new(10, 11, 1)]));
}

#[test]
fn test_tie_break_lowest_index() {
    // point (0,0), centroids at (-1,0) and (1,0): equal distance, cluster 0
    let centroids = centroids_of(&[Point::new(-1, 0), Point::new(1, 0)]);
    assert_eq!(get_k_close_centroid(&Point::new(0, 0), &centroids), 0);
}

#[test]
fn test_assign_clusters() {
    let centroids = centroids_of(&[Point::new(0, 0), Point::new(100, 100)]);
    let points = vec![
        Point::new(10, 0),
        Point::new(90, 100),
        Point::new(50, 50),
    ];
    let mut assigned: Vec<usize> = vec![0; points.len()];
    assign_clusters(&centroids, &points, &mut assigned);
    // (5.0, 5.0) is equally far from both centroids: the lower index wins
    assert_eq!(assigned, vec![0, 1, 0]);
}

#[test]
fn test_compute_new_centroids_empty_cluster() {
    let points = vec![Point::new(1, 1), Point::new(2, 2)];
    let r = compute_new_centroids(2, &points, &vec![0, 0]);
    assert_eq!(r, Err(KmeansError::EmptyCluster));
}

#[test]
fn test_select_k_distinct_indices() {
    let sel = select_k_distinct_indices(10, 3);
    assert_eq!(sel.len(), 3);
    for i in 0..sel.len() {
        assert!(sel[i] < 10);
        for j in 0..i {
            assert_ne!(sel[j], sel[i]);
        }
    }
    // drawing all of 0..5 without replacement yields a permutation
    let mut all = select_k_distinct_indices(5, 5);
    all.sort();
    assert_eq!(all, vec![0, 1, 2, 3, 4]);
}

#[test]
fn test_get_k_random_points() {
    let points = vec![
        Point::new(0, 0),
        Point::new(10, 10),
        Point::new(20, 20),
        Point::new(30, 30),
    ];
    let starts = get_k_random_points(&points, 2);
    assert_eq!(starts.len(), 2);
    for c in &starts {
        assert_eq!(c.count, 1);
        assert!(points.contains(&Point::new(c.sum_x, c.sum_y)));
    }
    // distinct positions of pairwise-distinct points give distinct values
    assert_ne!(starts[0], starts[1]);
}

#[test]
fn test_kmeans_invalid_cluster_count() {
    let points = vec![Point::new(0, 0), Point::new(10, 10), Point::new(20, 20)];
    assert_eq!(kmeans(points.clone(), 0), Err(KmeansError::InvalidClusterCount));
    assert_eq!(kmeans(points, 4), Err(KmeansError::InvalidClusterCount));
}

#[test]
fn test_kmeans_three_separated_clusters() {
    // three well-separated one-point clusters: whatever the draw, every
    // point is its own nearest centroid, so the first candidate equals the
    // start set and the loop converges immediately on the exact means
    let points = vec![Point::new(0, 0), Point::new(1000, 1000), Point::new(-1000, 500)];
    let (iterations, centroids) = kmeans(points.clone(), 3).unwrap();
    assert_eq!(iterations, 0);
    assert_eq!(centroids.len(), 3);
    for p in &points {
        let target = Centroid::from_point(p);
        assert!(centroids.iter().any(|c| c.same_value(&target)));
    }
}

#[test]
fn test_kmeans_single_cluster_exact_mean() {
    // k = 1: whatever point the initializer draws, the first candidate is
    // the exact mean of all points, and the second pass reproduces it
    let points = vec![Point::new(0, 0), Point::new(10, 0), Point::new(20, 30)];
    let (iterations, centroids) = kmeans(points, 1).unwrap();
    assert_eq!(iterations, 1);
    assert_eq!(centroids, vec![Centroid::new(30, 30, 3)]);
}

#[test]
fn test_rerun_on_converged_state_is_fixed_point() {
    let points = vec![Point::new(0, 0), Point::new(10, 0), Point::new(20, 30)];
    let current = vec![Centroid::new(30, 30, 3)];
    let mut assigned: Vec<usize> = vec![0; points.len()];
    assign_clusters(&current, &points, &mut assigned);
    let again = compute_new_centroids(1, &points, &assigned).unwrap();
    assert_eq!(again, current);
}
