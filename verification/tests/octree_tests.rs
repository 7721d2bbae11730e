use boids::geom::Point;
use boids::octree::Octree;
use boids::params::SteeringParameters;
use boids::vehicle::{build_index, AgentState};
use rand::Rng;

fn p(x: i64, y: i64, z: i64) -> Point {
    Point { x, y, z }
}

fn world_root<T>(tree: &mut Octree<T>, extent: i64) {
    tree.create_root(p(0, 0, 0), p(-extent, -extent, -extent), p(extent, extent, extent));
}

#[test]
fn empty_index_answers_empty() {
    let mut tree: Octree<i32> = Octree::new(100);
    world_root(&mut tree, 50_000);
    let neighbors = tree.find_neighbors(&p(10, 20, 30));
    assert!(neighbors.is_empty());
}

#[test]
fn neighbors_are_inserted_slots_in_order() {
    let mut tree: Octree<i32> = Octree::new(10);
    world_root(&mut tree, 50_000);
    let s0 = tree.insert(p(5, 5, 5), 100);
    let s1 = tree.insert(p(6, 5, 5), 200);
    let s2 = tree.insert(p(5, 6, 5), 300);
    assert_eq!((s0, s1, s2), (0, 1, 2));
    let neighbors = tree.find_neighbors(&p(5, 5, 5));
    assert_eq!(neighbors, vec![0, 1, 2]);
    assert_eq!(*tree.payload(neighbors[0]), 100);
    assert_eq!(*tree.payload(neighbors[1]), 200);
    assert_eq!(*tree.payload(neighbors[2]), 300);
    // every returned reference points at a previously inserted pair
    for s in &neighbors {
        assert!(*s < tree.points.len());
    }
}

#[test]
fn coincident_points_all_come_back() {
    // Splitting cannot separate identical points: however deep the tree
    // grows, one query at their position returns every one of them.
    let n = 23usize;
    let mut tree: Octree<usize> = Octree::new(2);
    world_root(&mut tree, 50_000);
    for i in 0..n {
        tree.insert(p(777, -333, 12_000), i);
    }
    let mut neighbors = tree.find_neighbors(&p(777, -333, 12_000));
    neighbors.sort();
    assert_eq!(neighbors.len(), n);
    for (i, s) in neighbors.iter().enumerate() {
        assert_eq!(*tree.payload(*s), i);
    }
}

#[test]
fn leaf_within_capacity_after_quiet_insertion() {
    let mut tree: Octree<i32> = Octree::new(4);
    world_root(&mut tree, 50_000);
    // four well-spread points: no leaf ever passes its capacity
    tree.insert(p(10_000, 10_000, 10_000), 0);
    tree.insert(p(-10_000, 10_000, 10_000), 1);
    tree.insert(p(10_000, -10_000, 10_000), 2);
    tree.insert(p(10_000, 10_000, -10_000), 3);
    for node in &tree.nodes {
        if node.children.is_empty() {
            assert!(node.points.len() <= 4);
        }
    }
}

#[test]
fn subdivision_leaves_eight_children_and_no_points() {
    let mut tree: Octree<i32> = Octree::new(2);
    world_root(&mut tree, 50_000);
    tree.insert(p(1000, 1000, 1000), 0);
    tree.insert(p(-1000, 1000, 1000), 1);
    tree.insert(p(1000, -1000, 1000), 2);
    // the third insertion pushed the root past capacity
    let root = tree.root.unwrap();
    assert_eq!(tree.nodes[root].children.len(), 8);
    assert_eq!(tree.nodes[root].points.len(), 0);
    assert_eq!(tree.nodes.len(), 9);
}

#[test]
fn capacity_of_one_builds_a_deep_tree() {
    let mut tree: Octree<i32> = Octree::new(1);
    world_root(&mut tree, 50_000);
    tree.insert(p(11_000, 12_000, 13_000), 0);
    tree.insert(p(-9_000, 8_000, -7_000), 1);
    tree.insert(p(3_000, -2_000, 1_000), 2);
    let a = tree.find_neighbors(&p(11_000, 12_000, 13_000));
    assert!(a.contains(&0));
}

#[test]
fn bulk_insertion_keeps_leaves_bounded_and_loses_nothing() {
    // Fifty thousand points drawn uniformly from the cube [-50, 50]^3 (in
    // thousandths: +-50_000), capacity 100: on inspection every leaf holds
    // at most 100 points and the leaves together hold all fifty thousand.
    let mut tree: Octree<usize> = Octree::new(100);
    world_root(&mut tree, 50_000);
    let mut rng = rand::thread_rng();
    let n = 50_000usize;
    for i in 0..n {
        let q = p(
            rng.gen_range(-50_000..=50_000),
            rng.gen_range(-50_000..=50_000),
            rng.gen_range(-50_000..=50_000),
        );
        tree.insert(q, i);
    }
    let mut total = 0usize;
    for node in &tree.nodes {
        if node.children.is_empty() {
            assert!(node.points.len() <= 100);
            total += node.points.len();
        } else {
            assert_eq!(node.points.len(), 0);
        }
    }
    assert_eq!(total, n);
}

#[test]
fn rebuilding_from_one_snapshot_is_idempotent() {
    let mut params = SteeringParameters::default();
    params.octree_size = 3;
    let mut rng = rand::thread_rng();
    let mut snap = Vec::new();
    for _ in 0..500 {
        snap.push(AgentState {
            position: p(
                rng.gen_range(-1_000_000..=1_000_000),
                rng.gen_range(-1_000_000..=1_000_000),
                rng.gen_range(-900_000..=900_000),
            ),
            velocity: p(0, 0, 0),
        });
    }
    let a = build_index(&snap, &params);
    let b = build_index(&snap, &params);
    assert_eq!(a.root, b.root);
    assert_eq!(a.max_points, b.max_points);
    assert_eq!(a.nodes.len(), b.nodes.len());
    assert_eq!(a.points.len(), b.points.len());
    for (na, nb) in a.nodes.iter().zip(b.nodes.iter()) {
        assert_eq!(na.bounds, nb.bounds);
        assert_eq!(na.points, nb.points);
        assert_eq!(na.children, nb.children);
    }
    for (pa, pb) in a.points.iter().zip(b.points.iter()) {
        assert_eq!(pa.point, pb.point);
        assert_eq!(pa.data, pb.data);
    }
}

#[test]
fn geometry_box_test_matches_bounds() {
    let mut tree: Octree<i32> = Octree::new(8);
    world_root(&mut tree, 1_000);
    let root = tree.root.unwrap();
    assert!(Octree::<i32>::is_point_in_bounds(&tree.nodes[root], &p(0, 0, 0)));
    assert!(Octree::<i32>::is_point_in_bounds(&tree.nodes[root], &p(1_000, -1_000, 500)));
    assert!(!Octree::<i32>::is_point_in_bounds(&tree.nodes[root], &p(1_001, 0, 0)));
}

#[test]
fn routing_goes_to_nearest_center_not_containing_box() {
    // After one split of a root spanning [-1000, 1000]^3, a point just on
    // the positive side of every axis belongs to the all-positive octant;
    // a query from there sees exactly the points routed that way.
    let mut tree: Octree<i32> = Octree::new(1);
    world_root(&mut tree, 1_000);
    tree.insert(p(900, 900, 900), 7);
    tree.insert(p(-900, -900, -900), 8);
    let near_positive = tree.find_neighbors(&p(800, 800, 800));
    assert_eq!(near_positive.len(), 1);
    assert_eq!(*tree.payload(near_positive[0]), 7);
    let near_negative = tree.find_neighbors(&p(-800, -800, -800));
    assert_eq!(near_negative.len(), 1);
    assert_eq!(*tree.payload(near_negative[0]), 8);
}
