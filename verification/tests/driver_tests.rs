use kmeans::assignment::{assign_points, clear_all, place_assignments};
use kmeans::cluster::Cluster;
use kmeans::config::{check_parameters, ConfigError};
use kmeans::driver::{
    cluster_points, initial_clusters, refine, try_cluster_points, Driver, Phase,
};
use kmeans::pass::{collect_pass, has_converged, iterate, recompute_centroids, EPSILON};
use kmeans::point::Point;
use rand::rngs::StdRng;
use rand::SeedableRng;

fn two_blobs() -> Vec<Point> {
    vec![
        Point { x: 0, y: 0 },
        Point { x: 100, y: 100 },
        Point { x: 2, y: 0 },
        Point { x: 102, y: 100 },
        Point { x: 0, y: 2 },
        Point { x: 100, y: 102 },
        Point { x: 2, y: 2 },
        Point { x: 102, y: 102 },
    ]
}

fn start_at<'a>(centroids: &[(i32, i32)]) -> Vec<Cluster<'a>> {
    centroids
        .iter()
        .map(|c| Cluster { centroid: Point { x: c.0, y: c.1 }, points: Vec::new() })
        .collect()
}

fn centroids_of(clusters: &Vec<Cluster>) -> Vec<Point> {
    clusters.iter().map(|c| c.centroid).collect()
}

fn members_of(clusters: &Vec<Cluster>) -> Vec<Vec<Point>> {
    clusters.iter().map(|c| c.points.iter().map(|p| **p).collect()).collect()
}

fn blobs(seed: u64, centers: &[(i32, i32)], per_blob: usize, spread: i32) -> Vec<Point> {
    let mut rng = StdRng::seed_from_u64(seed);
    let mut points = Vec::new();
    for _ in 0..per_blob {
        for c in centers.iter() {
            points.push(Point::new_random_within_range(
                &mut rng,
                c.0 - spread,
                c.0 + spread,
                c.1 - spread,
                c.1 + spread,
            ));
        }
    }
    points
}

#[test]
fn the_threshold_is_met_only_when_nothing_moved() {
    assert_eq!(EPSILON, 0);
    assert!(has_converged(0));
    assert!(!has_converged(1));
    assert!(!has_converged(u128::MAX));
}

#[test]
fn check_parameters_accepts_what_the_loop_can_run_with() {
    assert_eq!(check_parameters(1, 1, 0, 0, 0, 0), Ok(()));
    assert_eq!(check_parameters(3, 4, -5, 5, -5, 5), Ok(()));
    assert_eq!(check_parameters(usize::MAX, usize::MAX, i32::MIN, i32::MAX, i32::MIN, i32::MAX), Ok(()));
}

#[test]
fn check_parameters_refuses_zero_clusters() {
    assert_eq!(check_parameters(0, 4, -5, 5, -5, 5), Err(ConfigError::NoClusters));
    assert_eq!(check_parameters(0, 0, 5, -5, 5, -5), Err(ConfigError::NoClusters));
}

#[test]
fn check_parameters_refuses_zero_workers() {
    assert_eq!(check_parameters(3, 0, -5, 5, -5, 5), Err(ConfigError::NoThreads));
    assert_eq!(check_parameters(3, 0, 5, -5, -5, 5), Err(ConfigError::NoThreads));
}

#[test]
fn check_parameters_refuses_an_empty_box() {
    assert_eq!(check_parameters(3, 4, 5, -5, -5, 5), Err(ConfigError::EmptyRegion));
    assert_eq!(check_parameters(3, 4, -5, 5, 1, 0), Err(ConfigError::EmptyRegion));
}

#[test]
fn try_cluster_points_refuses_before_any_work() {
    let points = two_blobs();
    let mut rng = StdRng::seed_from_u64(5);
    let mut untouched = StdRng::seed_from_u64(5);
    let refused = try_cluster_points(&mut rng, &points, 0, -5, 5, -5, 5, 4, 10);
    assert_eq!(refused.err(), Some(ConfigError::NoClusters));
    let refused = try_cluster_points(&mut rng, &points, 2, -5, 5, -5, 5, 0, 10);
    assert_eq!(refused.err(), Some(ConfigError::NoThreads));
    let refused = try_cluster_points(&mut rng, &points, 2, 5, -5, -5, 5, 4, 10);
    assert_eq!(refused.err(), Some(ConfigError::EmptyRegion));
    // nothing was drawn from the generator
    assert_eq!(
        Point::new_random_within_range(&mut rng, 0, 1000, 0, 1000),
        Point::new_random_within_range(&mut untouched, 0, 1000, 0, 1000)
    );
}

#[test]
fn try_cluster_points_runs_on_good_parameters() {
    let points = two_blobs();
    let mut rng = StdRng::seed_from_u64(5);
    let out = try_cluster_points(&mut rng, &points, 2, 0, 102, 0, 102, 4, 100);
    let out = out.ok().unwrap();
    assert_eq!(out.clusters.len(), 2);
    assert!(out.iterations >= 1 && out.iterations <= 100);
    let total: usize = out.clusters.iter().map(|c| c.points.len()).sum();
    assert_eq!(total, points.len());
}

#[test]
fn initial_clusters_are_empty_and_inside_the_box() {
    let mut rng = StdRng::seed_from_u64(21);
    let clusters = initial_clusters(&mut rng, 64, -5, 5, 7, 9);
    assert_eq!(clusters.len(), 64);
    for cluster in clusters.iter() {
        assert!(cluster.points.is_empty());
        assert!(-5 <= cluster.centroid.x && cluster.centroid.x <= 5);
        assert!(7 <= cluster.centroid.y && cluster.centroid.y <= 9);
    }
    let distinct: std::collections::BTreeSet<(i32, i32)> =
        clusters.iter().map(|c| (c.centroid.x, c.centroid.y)).collect();
    assert!(distinct.len() > 1);
}

#[test]
fn initial_clusters_of_none() {
    let mut rng = StdRng::seed_from_u64(21);
    assert!(initial_clusters(&mut rng, 0, -5, 5, -5, 5).is_empty());
}

#[test]
fn recompute_centroids_sums_the_moves() {
    let a = Point { x: 1, y: 1 };
    let b = Point { x: -1, y: -1 };
    let c = Point { x: 10, y: 0 };
    let mut clusters = vec![
        Cluster { centroid: Point { x: 3, y: 4 }, points: vec![&a, &b] },
        Cluster { centroid: Point { x: 50, y: 50 }, points: Vec::new() },
        Cluster { centroid: Point { x: 7, y: 4 }, points: vec![&c] },
    ];
    // 25 for the first, 0 for the empty one, 9 + 16 for the third
    assert_eq!(recompute_centroids(&mut clusters), 50);
    assert_eq!(
        centroids_of(&clusters),
        vec![Point { x: 0, y: 0 }, Point { x: 50, y: 50 }, Point { x: 10, y: 0 }]
    );
    assert_eq!(members_of(&clusters), vec![vec![a, b], vec![], vec![c]]);
    assert_eq!(recompute_centroids(&mut clusters), 0);
}

#[test]
fn recompute_centroids_of_no_clusters() {
    let mut clusters: Vec<Cluster> = Vec::new();
    assert_eq!(recompute_centroids(&mut clusters), 0);
}

#[test]
fn one_pass_assigns_then_moves() {
    let points = two_blobs();
    let mut clusters = start_at(&[(10, 10), (90, 90)]);
    // (10,10) -> (1,1): 81 + 81; (90,90) -> (101,101): 121 + 121
    assert_eq!(iterate(&points, &mut clusters, 3), 404);
    assert_eq!(centroids_of(&clusters), vec![Point { x: 1, y: 1 }, Point { x: 101, y: 101 }]);
    assert_eq!(
        members_of(&clusters),
        vec![
            vec![points[0], points[2], points[4], points[6]],
            vec![points[1], points[3], points[5], points[7]],
        ]
    );
    assert_eq!(iterate(&points, &mut clusters, 3), 0);
    assert_eq!(centroids_of(&clusters), vec![Point { x: 1, y: 1 }, Point { x: 101, y: 101 }]);
}

#[test]
fn one_pass_replaces_the_old_members() {
    let points = two_blobs();
    let stale = Point { x: 7777, y: 7777 };
    let mut clusters = start_at(&[(10, 10), (90, 90)]);
    clusters[0].points.push(&stale);
    clusters[1].points.push(&stale);
    iterate(&points, &mut clusters, 1);
    assert_eq!(
        members_of(&clusters),
        vec![
            vec![points[0], points[2], points[4], points[6]],
            vec![points[1], points[3], points[5], points[7]],
        ]
    );
}

#[test]
fn one_pass_leaves_a_far_cluster_empty_and_in_place() {
    let points = two_blobs();
    let mut clusters = start_at(&[(10, 10), (90, 90), (-5000, 5000)]);
    assert_eq!(iterate(&points, &mut clusters, 2), 404);
    assert!(clusters[2].points.is_empty());
    assert_eq!(clusters[2].centroid, Point { x: -5000, y: 5000 });
}

#[test]
fn one_pass_partitions_the_points() {
    let points = blobs(8, &[(0, 0), (300, 0), (0, 300), (300, 300)], 25, 40);
    let mut rng = StdRng::seed_from_u64(13);
    let mut clusters = initial_clusters(&mut rng, 6, -40, 340, -40, 340);
    for _ in 0..5 {
        iterate(&points, &mut clusters, 4);
        let total: usize = clusters.iter().map(|c| c.points.len()).sum();
        assert_eq!(total, points.len());
        for point in points.iter() {
            let holders: usize = clusters
                .iter()
                .map(|c| c.points.iter().filter(|m| std::ptr::eq(**m, point)).count())
                .sum();
            assert_eq!(holders, 1);
        }
    }
}

#[test]
fn collect_pass_replaces_the_members_and_moves_the_centroids() {
    let points = two_blobs();
    let stale = Point { x: 7777, y: 7777 };
    let mut clusters = start_at(&[(10, 10), (90, 90), (40, 40)]);
    clusters[2].points.push(&stale);
    let arrivals = vec![(&points[1], 1), (&points[0], 0), (&points[3], 1), (&points[2], 0)];
    // (10,10) -> (1,0): 81 + 100; (90,90) -> (101,100): 121 + 100
    assert_eq!(collect_pass(&mut clusters, &arrivals), 402);
    assert_eq!(
        centroids_of(&clusters),
        vec![Point { x: 1, y: 0 }, Point { x: 101, y: 100 }, Point { x: 40, y: 40 }]
    );
    assert_eq!(
        members_of(&clusters),
        vec![vec![points[0], points[2]], vec![points[1], points[3]], vec![]]
    );
}

#[test]
fn collect_pass_of_nothing_empties_every_cluster() {
    let points = two_blobs();
    let mut clusters = start_at(&[(10, 10), (90, 90)]);
    clusters[0].points.push(&points[0]);
    assert_eq!(collect_pass(&mut clusters, &Vec::new()), 0);
    assert_eq!(centroids_of(&clusters), vec![Point { x: 10, y: 10 }, Point { x: 90, y: 90 }]);
    assert!(clusters.iter().all(|c| c.points.is_empty()));
}

#[test]
fn a_new_driver_is_assigning_unless_no_pass_is_allowed() {
    let driver = Driver::new(start_at(&[(10, 10), (90, 90)]), 5);
    assert_eq!(driver.phase(), Phase::Assigning);
    assert_eq!(driver.iterations, 0);
    assert_eq!(driver.max_iterations, 5);
    assert_eq!(driver.change, u128::MAX);
    assert_eq!(centroids_of(&driver.clusters), vec![Point { x: 10, y: 10 }, Point { x: 90, y: 90 }]);
    let capped = Driver::new(start_at(&[(10, 10), (90, 90)]), 0);
    assert_eq!(capped.phase(), Phase::IterationLimit);
}

#[test]
fn the_driver_converges_when_a_pass_moves_nothing() {
    let points = two_blobs();
    let mut driver = Driver::new(start_at(&[(10, 10), (90, 90)]), 5);
    let arrivals = assign_points(&points, &driver.clusters, 2);
    driver.absorb(&arrivals);
    assert_eq!(driver.change, 404);
    assert_eq!(driver.iterations, 1);
    assert_eq!(driver.phase(), Phase::Assigning);
    let mut arrivals = assign_points(&points, &driver.clusters, 2);
    arrivals.reverse();
    driver.absorb(&arrivals);
    assert_eq!(driver.change, 0);
    assert_eq!(driver.iterations, 2);
    assert_eq!(driver.phase(), Phase::Converged);
    let out = driver.finish();
    assert!(out.converged);
    assert_eq!(out.iterations, 2);
    assert_eq!(centroids_of(&out.clusters), vec![Point { x: 1, y: 1 }, Point { x: 101, y: 101 }]);
    assert_eq!(
        members_of(&out.clusters),
        vec![
            vec![points[6], points[4], points[2], points[0]],
            vec![points[7], points[5], points[3], points[1]],
        ]
    );
}

#[test]
fn the_driver_stops_at_the_limit() {
    let points = two_blobs();
    let mut driver = Driver::new(start_at(&[(10, 10), (90, 90)]), 1);
    let arrivals = assign_points(&points, &driver.clusters, 2);
    driver.absorb(&arrivals);
    assert_eq!(driver.phase(), Phase::IterationLimit);
    let out = driver.finish();
    assert!(!out.converged);
    assert_eq!(out.iterations, 1);
}

#[test]
fn a_converged_driver_is_converged_even_at_the_limit() {
    let points = two_blobs();
    let mut driver = Driver::new(start_at(&[(1, 1), (101, 101)]), 1);
    let arrivals = assign_points(&points, &driver.clusters, 2);
    driver.absorb(&arrivals);
    assert_eq!(driver.phase(), Phase::Converged);
    assert!(driver.finish().converged);
}

#[test]
fn refine_stops_after_the_first_pass_that_moves_nothing() {
    let points = two_blobs();
    let out = refine(&points, start_at(&[(10, 10), (90, 90)]), 4, 100);
    assert!(out.converged);
    assert_eq!(out.iterations, 2);
    assert_eq!(centroids_of(&out.clusters), vec![Point { x: 1, y: 1 }, Point { x: 101, y: 101 }]);
    assert_eq!(
        members_of(&out.clusters),
        vec![
            vec![points[0], points[2], points[4], points[6]],
            vec![points[1], points[3], points[5], points[7]],
        ]
    );
}

#[test]
fn refine_from_settled_centroids_takes_one_pass() {
    let points = two_blobs();
    let out = refine(&points, start_at(&[(1, 1), (101, 101)]), 4, 100);
    assert!(out.converged);
    assert_eq!(out.iterations, 1);
    assert_eq!(centroids_of(&out.clusters), vec![Point { x: 1, y: 1 }, Point { x: 101, y: 101 }]);
}

#[test]
fn refine_reports_when_the_cap_is_reached() {
    let points = two_blobs();
    let out = refine(&points, start_at(&[(10, 10), (90, 90)]), 4, 1);
    assert!(!out.converged);
    assert_eq!(out.iterations, 1);
    assert_eq!(centroids_of(&out.clusters), vec![Point { x: 1, y: 1 }, Point { x: 101, y: 101 }]);
}

#[test]
fn refine_with_the_cap_at_the_settling_pass_converges() {
    let points = two_blobs();
    let out = refine(&points, start_at(&[(10, 10), (90, 90)]), 4, 2);
    assert!(out.converged);
    assert_eq!(out.iterations, 2);
}

#[test]
fn refine_with_no_passes_allowed_hands_the_clusters_back() {
    let points = two_blobs();
    let mut start = start_at(&[(10, 10), (90, 90)]);
    start[1].points.push(&points[0]);
    let out = refine(&points, start, 4, 0);
    assert!(!out.converged);
    assert_eq!(out.iterations, 0);
    assert_eq!(centroids_of(&out.clusters), vec![Point { x: 10, y: 10 }, Point { x: 90, y: 90 }]);
    assert_eq!(members_of(&out.clusters), vec![vec![], vec![points[0]]]);
}

#[test]
fn refine_of_no_points_settles_at_once() {
    let points: Vec<Point> = Vec::new();
    let out = refine(&points, start_at(&[(10, 10), (90, 90)]), 4, 100);
    assert!(out.converged);
    assert_eq!(out.iterations, 1);
    assert_eq!(centroids_of(&out.clusters), vec![Point { x: 10, y: 10 }, Point { x: 90, y: 90 }]);
    assert!(out.clusters.iter().all(|c| c.points.is_empty()));
}

#[test]
fn a_pass_over_identical_centroids_fills_only_the_first() {
    let points = two_blobs();
    let out = refine(&points, start_at(&[(50, 50), (50, 50)]), 2, 1);
    assert!(!out.converged);
    assert_eq!(out.iterations, 1);
    assert_eq!(out.clusters[0].points.len(), points.len());
    assert!(out.clusters[1].points.is_empty());
    assert_eq!(out.clusters[0].centroid, Point { x: 51, y: 51 });
    assert_eq!(out.clusters[1].centroid, Point { x: 50, y: 50 });
}

#[test]
fn refine_from_identical_centroids_parts_them() {
    let points = two_blobs();
    let out = refine(&points, start_at(&[(50, 50), (50, 50)]), 2, 100);
    // pass 1 moves the first to (51, 51); pass 2 leaves it the far blob and
    // gives the near one to the second; pass 3 moves nothing
    assert!(out.converged);
    assert_eq!(out.iterations, 3);
    assert_eq!(centroids_of(&out.clusters), vec![Point { x: 101, y: 101 }, Point { x: 1, y: 1 }]);
    assert_eq!(
        members_of(&out.clusters),
        vec![
            vec![points[1], points[3], points[5], points[7]],
            vec![points[0], points[2], points[4], points[6]],
        ]
    );
}

#[test]
fn refine_does_not_depend_on_the_number_of_workers() {
    let points = blobs(17, &[(0, 0), (500, 0), (0, 500)], 40, 60);
    let start = [(100, 100), (250, 250), (400, 50), (-30, 480)];
    let with_one = refine(&points, start_at(&start), 1, 200);
    for t in [4usize, 16] {
        let out = refine(&points, start_at(&start), t, 200);
        assert_eq!(out.iterations, with_one.iterations);
        assert_eq!(out.converged, with_one.converged);
        assert_eq!(centroids_of(&out.clusters), centroids_of(&with_one.clusters));
        assert_eq!(members_of(&out.clusters), members_of(&with_one.clusters));
    }
}

#[test]
fn cluster_points_does_not_depend_on_the_number_of_workers() {
    let points = blobs(23, &[(-400, -400), (400, -400), (0, 400)], 50, 80);
    let mut rng = StdRng::seed_from_u64(1234);
    let with_one = cluster_points(&mut rng, &points, 3, -500, 500, -500, 500, 1, 500);
    for t in [4usize, 16] {
        let mut rng = StdRng::seed_from_u64(1234);
        let out = cluster_points(&mut rng, &points, 3, -500, 500, -500, 500, t, 500);
        assert_eq!(out.iterations, with_one.iterations);
        assert_eq!(out.converged, with_one.converged);
        assert_eq!(centroids_of(&out.clusters), centroids_of(&with_one.clusters));
        assert_eq!(members_of(&out.clusters), members_of(&with_one.clusters));
    }
}

#[test]
fn cluster_points_gives_as_many_clusters_as_asked_for() {
    let points = two_blobs();
    for k in 1..8usize {
        let mut rng = StdRng::seed_from_u64(k as u64);
        let out = cluster_points(&mut rng, &points, k, 0, 102, 0, 102, 4, 100);
        assert_eq!(out.clusters.len(), k);
        let total: usize = out.clusters.iter().map(|c| c.points.len()).sum();
        assert_eq!(total, points.len());
    }
}

#[test]
fn cluster_points_with_no_passes_allowed_returns_the_seeds() {
    let points = two_blobs();
    let mut rng = StdRng::seed_from_u64(77);
    let mut same = StdRng::seed_from_u64(77);
    let out = cluster_points(&mut rng, &points, 5, -9, 9, -9, 9, 4, 0);
    let seeds = initial_clusters(&mut same, 5, -9, 9, -9, 9);
    assert_eq!(out.iterations, 0);
    assert!(!out.converged);
    assert_eq!(centroids_of(&out.clusters), centroids_of(&seeds));
    assert!(out.clusters.iter().all(|c| c.points.is_empty()));
}

#[test]
fn cluster_points_with_one_cluster_finds_the_mean_of_all() {
    let points = two_blobs();
    let mut rng = StdRng::seed_from_u64(2);
    let out = cluster_points(&mut rng, &points, 1, 0, 102, 0, 102, 4, 100);
    assert!(out.converged);
    assert!(out.iterations <= 2);
    assert_eq!(out.clusters[0].centroid, Point { x: 51, y: 51 });
    assert_eq!(out.clusters[0].points.len(), 8);
}

#[test]
fn separated_blobs_settle_within_a_few_passes() {
    let centers = [(0, 0), (1000, 0), (0, 1000)];
    let points = blobs(31, &centers, 60, 50);
    let mut clusters = start_at(&[(40, -30), (960, 45), (-20, 1030)]);
    let mut changes: Vec<u128> = Vec::new();
    for _ in 0..10 {
        let change = iterate(&points, &mut clusters, 4);
        changes.push(change);
        if has_converged(change) {
            break;
        }
    }
    assert!(has_converged(*changes.last().unwrap()));
    assert!(changes.len() <= 3);
    for pair in changes.windows(2) {
        assert!(pair[1] <= pair[0]);
    }
    for (cluster, center) in clusters.iter().zip(centers.iter()) {
        assert_eq!(cluster.points.len(), 60);
        assert!((cluster.centroid.x - center.0).abs() <= 50);
        assert!((cluster.centroid.y - center.1).abs() <= 50);
    }
}

#[test]
fn separated_blobs_settle_from_random_seeds() {
    let centers = [(0, 0), (1000, 0), (0, 1000), (1000, 1000)];
    let points = blobs(41, &centers, 40, 30);
    for seed in 0..20u64 {
        let mut rng = StdRng::seed_from_u64(seed);
        let out = cluster_points(&mut rng, &points, 4, -30, 1030, -30, 1030, 4, 1000);
        assert!(out.converged);
        assert!(out.iterations >= 1 && out.iterations <= 1000);
        let total: usize = out.clusters.iter().map(|c| c.points.len()).sum();
        assert_eq!(total, points.len());
    }
}

#[test]
fn arrival_order_does_not_change_the_centroids() {
    let points = blobs(53, &[(0, 0), (200, 200)], 30, 90);
    let mut in_order = start_at(&[(20, 20), (150, 150), (90, 110)]);
    let mut shuffled = start_at(&[(20, 20), (150, 150), (90, 110)]);
    let decisions = assign_points(&points, &in_order, 4);
    let mut arrivals = decisions.clone();
    arrivals.reverse();
    arrivals.rotate_left(7);
    clear_all(&mut in_order);
    clear_all(&mut shuffled);
    place_assignments(&mut in_order, &decisions);
    place_assignments(&mut shuffled, &arrivals);
    assert_eq!(recompute_centroids(&mut in_order), recompute_centroids(&mut shuffled));
    assert_eq!(centroids_of(&in_order), centroids_of(&shuffled));
    for (a, b) in in_order.iter().zip(shuffled.iter()) {
        assert_eq!(a.points.len(), b.points.len());
    }
}
