use tri_bvh::primitives::aabb::AABB;
use tri_bvh::primitives::triangle::TriangleCPU;
use tri_bvh::process::bvh::{BuildError, NodeRun, BVH};
use tri_bvh::process::tree::BVHNode;

/// A right triangle in the plane z = `z`, with legs of length `s` from (x, y).
fn flat(x: i32, y: i32, z: i32, s: i32, tag: u32) -> TriangleCPU {
    TriangleCPU::new(tag, tag, tag, [x, y, z], [x + s, y, z], [x, y + s, z], tag)
}

fn first_indices(prims: &Vec<TriangleCPU>) -> Vec<u32> {
    TriangleCPU::to_buffer_vec(prims).iter().map(|t| t.indices()[0]).collect()
}

fn records(nodes: &Vec<BVHNode>) -> Vec<([i32; 4], [i32; 4], i32, i32, i32)> {
    nodes.iter().map(|n| (n.aabb.min, n.aabb.max, n.left, n.right, n.triangle)).collect()
}

/// Walks the subtree at `index`, checks every box on the way, and returns
/// the primitives of its leaves from left to right.
fn check_subtree(nodes: &Vec<BVHNode>, prims: &Vec<TriangleCPU>, index: i32) -> Vec<i32> {
    let node = nodes[index as usize];
    if node.triangle != -1 {
        assert_eq!(node.left, -1);
        assert_eq!(node.right, -1);
        assert_eq!(node.aabb, prims[node.triangle as usize].bounding_box());
        vec![node.triangle]
    } else {
        let mut leaves = check_subtree(nodes, prims, node.left);
        leaves.extend(check_subtree(nodes, prims, node.right));
        let joined = nodes[node.left as usize].aabb.union(&nodes[node.right as usize].aabb);
        assert_eq!(node.aabb, joined);
        leaves
    }
}

fn scattered(n: usize) -> Vec<TriangleCPU> {
    (0..n)
        .map(|i| {
            let x = ((i * 7919) % 211) as i32 - 100;
            let y = ((i * 104729) % 97) as i32 - 48;
            let z = ((i * 31) % 53) as i32;
            flat(x, y, z, 1 + (i % 4) as i32, i as u32)
        })
        .collect()
}

fn thirteen_input() -> Vec<TriangleCPU> {
    vec![
        TriangleCPU::new(0, 1, 2, [-9, -31, 0], [-4, -36, -4], [-6, -35, 0], 0),
        TriangleCPU::new(3, 4, 5, [24, -43, 14], [22, -48, 10], [25, -42, 10], 1),
        TriangleCPU::new(6, 7, 8, [-20, -39, 20], [-19, -44, 24], [-24, -41, 25], 2),
        TriangleCPU::new(9, 10, 11, [30, 24, -43], [34, 28, -42], [25, 22, -48], 3),
        TriangleCPU::new(12, 13, 14, [21, -33, -13], [22, -36, -10], [17, -29, -14], 0),
        TriangleCPU::new(15, 16, 17, [21, 37, -27], [17, 41, -23], [26, 35, -27], 1),
        TriangleCPU::new(18, 19, 20, [-38, 20, 41], [-42, 24, 36], [-34, 18, 43], 2),
        TriangleCPU::new(21, 22, 23, [37, 18, 4], [37, 20, 8], [39, 18, 3], 3),
        TriangleCPU::new(24, 25, 26, [-19, -27, 39], [-21, -31, 43], [-20, -24, 41], 0),
        TriangleCPU::new(27, 28, 29, [-7, 43, 7], [-8, 47, 3], [-11, 46, 8], 1),
        TriangleCPU::new(30, 31, 32, [-29, 46, -7], [-32, 48, -6], [-34, 51, -11], 2),
        TriangleCPU::new(33, 34, 35, [47, 21, 23], [47, 21, 23], [51, 23, 27], 3),
        TriangleCPU::new(36, 37, 38, [8, -42, -39], [7, -40, -34], [4, -47, -40], 0),
    ]
}

fn thirteen_final_order() -> Vec<u32> {
    vec![36, 0, 12, 6, 24, 3, 30, 27, 18, 9, 15, 21, 33]
}

fn thirteen_built() -> Vec<([i32; 4], [i32; 4], i32, i32, i32)> {
    vec![
        ([4, -47, -40, 0], [8, -40, -34, 0], -1, -1, 0),
        ([-9, -36, -4, 0], [-4, -31, 0, 0], -1, -1, 1),
        ([17, -36, -14, 0], [22, -29, -10, 0], -1, -1, 2),
        ([-9, -36, -14, 0], [22, -29, 0, 0], 1, 2, -1),
        ([-9, -47, -40, 0], [22, -29, 0, 0], 0, 3, -1),
        ([-24, -44, 20, 0], [-19, -39, 25, 0], -1, -1, 3),
        ([-21, -31, 39, 0], [-19, -24, 43, 0], -1, -1, 4),
        ([22, -48, 10, 0], [25, -42, 14, 0], -1, -1, 5),
        ([-21, -48, 10, 0], [25, -24, 43, 0], 6, 7, -1),
        ([-24, -48, 10, 0], [25, -24, 43, 0], 5, 8, -1),
        ([-24, -48, -40, 0], [25, -24, 43, 0], 4, 9, -1),
        ([-34, 46, -11, 0], [-29, 51, -6, 0], -1, -1, 6),
        ([-11, 43, 3, 0], [-7, 47, 8, 0], -1, -1, 7),
        ([-42, 18, 36, 0], [-34, 24, 43, 0], -1, -1, 8),
        ([-42, 18, 3, 0], [-7, 47, 43, 0], 12, 13, -1),
        ([-42, 18, -11, 0], [-7, 51, 43, 0], 11, 14, -1),
        ([25, 22, -48, 0], [34, 28, -42, 0], -1, -1, 9),
        ([17, 35, -27, 0], [26, 41, -23, 0], -1, -1, 10),
        ([17, 22, -48, 0], [34, 41, -23, 0], 16, 17, -1),
        ([37, 18, 3, 0], [39, 20, 8, 0], -1, -1, 11),
        ([47, 21, 23, 0], [51, 23, 27, 0], -1, -1, 12),
        ([37, 18, 3, 0], [51, 23, 27, 0], 19, 20, -1),
        ([17, 18, -48, 0], [51, 41, 27, 0], 18, 21, -1),
        ([-42, 18, -48, 0], [51, 51, 43, 0], 15, 22, -1),
        ([-42, -48, -48, 0], [51, 51, 43, 0], 10, 23, -1),
    ]
}


const ROOT13: i32 = 24;

fn thirty_input() -> Vec<TriangleCPU> {
    vec![
        TriangleCPU::new(0, 1, 2, [7, 21, 49], [9, 23, 52], [11, 19, 46], 0),
        TriangleCPU::new(3, 4, 5, [15, 10, 30], [19, 7, 26], [17, 9, 27], 1),
        TriangleCPU::new(6, 7, 8, [-39, 18, 38], [-34, 13, 42], [-38, 20, 43], 2),
        TriangleCPU::new(9, 10, 11, [44, 28, 33], [41, 32, 28], [47, 24, 28], 3),
        TriangleCPU::new(12, 13, 14, [-46, -26, -20], [-42, -31, -18], [-46, -24, -16], 0),
        TriangleCPU::new(15, 16, 17, [-25, 16, -21], [-20, 15, -19], [-30, 21, -25], 1),
        TriangleCPU::new(18, 19, 20, [8, 33, -15], [9, 36, -19], [7, 33, -17], 2),
        TriangleCPU::new(21, 22, 23, [15, -14, -47], [11, -10, -51], [16, -18, -48], 3),
        TriangleCPU::new(24, 25, 26, [-1, -42, -48], [4, -47, -50], [-3, -47, -46], 0),
        TriangleCPU::new(27, 28, 29, [-2, 40, 0], [-1, 36, 4], [3, 38, 5], 1),
        TriangleCPU::new(30, 31, 32, [-16, -7, -39], [-17, -7, -44], [-15, -11, -42], 2),
        TriangleCPU::new(33, 34, 35, [-19, 40, -38], [-24, 35, -36], [-17, 37, -33], 3),
        TriangleCPU::new(36, 37, 38, [21, -26, 7], [24, -28, 4], [22, -21, 8], 0),
        TriangleCPU::new(39, 40, 41, [-36, 0, 3], [-38, -5, 2], [-32, -1, -2], 1),
        TriangleCPU::new(42, 43, 44, [-24, -27, 0], [-20, -22, 4], [-28, -32, -3], 2),
        TriangleCPU::new(45, 46, 47, [-23, 6, -17], [-28, 10, -17], [-24, 7, -21], 3),
        TriangleCPU::new(48, 49, 50, [-41, -39, -24], [-37, -34, -26], [-46, -35, -24], 0),
        TriangleCPU::new(51, 52, 53, [-3, 29, 8], [-6, 33, 10], [1, 26, 9], 1),
        TriangleCPU::new(54, 55, 56, [-27, 30, -31], [-28, 28, -27], [-29, 28, -34], 2),
        TriangleCPU::new(57, 58, 59, [44, 30, 20], [42, 35, 21], [46, 34, 16], 3),
        TriangleCPU::new(60, 61, 62, [3, -44, -37], [-1, -49, -34], [2, -46, -36], 0),
        TriangleCPU::new(63, 64, 65, [-18, 3, 26], [-16, 2, 29], [-21, -1, 23], 1),
        TriangleCPU::new(66, 67, 68, [-21, 11, 21], [-16, 15, 25], [-25, 10, 19], 2),
        TriangleCPU::new(69, 70, 71, [-24, 45, -48], [-28, 44, -47], [-22, 43, -53], 3),
        TriangleCPU::new(72, 73, 74, [-45, -28, -14], [-45, -25, -10], [-48, -32, -14], 0),
        TriangleCPU::new(75, 76, 77, [-33, 7, -8], [-28, 10, -4], [-36, 11, -13], 1),
        TriangleCPU::new(78, 79, 80, [-48, 10, -5], [-49, 5, -10], [-44, 15, -9], 2),
        TriangleCPU::new(81, 82, 83, [11, -42, 43], [10, -42, 40], [7, -46, 45], 3),
        TriangleCPU::new(84, 85, 86, [19, -3, 44], [14, -6, 44], [19, -7, 49], 0),
        TriangleCPU::new(87, 88, 89, [10, -41, 3], [5, -39, 7], [5, -37, 8], 1),
    ]
}

fn thirty_final_order() -> Vec<u32> {
    vec![48, 72, 12, 39, 24, 21, 30, 60, 42, 15, 54, 78, 75, 69, 33, 45, 18, 27, 87, 36, 81, 84, 66, 6, 63, 51, 3, 0, 57, 9]
}

fn thirty_built() -> Vec<([i32; 4], [i32; 4], i32, i32, i32)> {
    vec![
        ([-46, -39, -26, 0], [-37, -34, -24, 0], -1, -1, 0),
        ([-48, -32, -14, 0], [-45, -25, -10, 0], -1, -1, 1),
        ([-48, -39, -26, 0], [-37, -25, -10, 0], 0, 1, -1),
        ([-46, -31, -20, 0], [-42, -24, -16, 0], -1, -1, 2),
        ([-38, -5, -2, 0], [-32, 0, 3, 0], -1, -1, 3),
        ([-46, -31, -20, 0], [-32, 0, 3, 0], 3, 4, -1),
        ([-48, -39, -26, 0], [-32, 0, 3, 0], 2, 5, -1),
        ([-3, -47, -50, 0], [4, -42, -46, 0], -1, -1, 4),
        ([11, -18, -51, 0], [16, -10, -47, 0], -1, -1, 5),
        ([-3, -47, -51, 0], [16, -10, -46, 0], 7, 8, -1),
        ([-17, -11, -44, 0], [-15, -7, -39, 0], -1, -1, 6),
        ([-1, -49, -37, 0], [3, -44, -34, 0], -1, -1, 7),
        ([-28, -32, -3, 0], [-20, -22, 4, 0], -1, -1, 8),
        ([-28, -49, -37, 0], [3, -22, 4, 0], 11, 12, -1),
        ([-28, -49, -44, 0], [3, -7, 4, 0], 10, 13, -1),
        ([-28, -49, -51, 0], [16, -7, 4, 0], 9, 14, -1),
        ([-48, -49, -51, 0], [16, 0, 4, 0], 6, 15, -1),
        ([-30, 15, -25, 0], [-20, 21, -19, 0], -1, -1, 9),
        ([-29, 28, -34, 0], [-27, 30, -27, 0], -1, -1, 10),
        ([-30, 15, -34, 0], [-20, 30, -19, 0], 17, 18, -1),
        ([-49, 5, -10, 0], [-44, 15, -5, 0], -1, -1, 11),
        ([-36, 7, -13, 0], [-28, 11, -4, 0], -1, -1, 12),
        ([-49, 5, -13, 0], [-28, 15, -4, 0], 20, 21, -1),
        ([-49, 5, -34, 0], [-20, 30, -4, 0], 19, 22, -1),
        ([-28, 43, -53, 0], [-22, 45, -47, 0], -1, -1, 13),
        ([-24, 35, -38, 0], [-17, 40, -33, 0], -1, -1, 14),
        ([-28, 35, -53, 0], [-17, 45, -33, 0], 24, 25, -1),
        ([-28, 6, -21, 0], [-23, 10, -17, 0], -1, -1, 15),
        ([7, 33, -19, 0], [9, 36, -15, 0], -1, -1, 16),
        ([-2, 36, 0, 0], [3, 40, 5, 0], -1, -1, 17),
        ([-2, 33, -19, 0], [9, 40, 5, 0], 28, 29, -1),
        ([-28, 6, -21, 0], [9, 40, 5, 0], 27, 30, -1),
        ([-28, 6, -53, 0], [9, 45, 5, 0], 26, 31, -1),
        ([-49, 5, -53, 0], [9, 45, 5, 0], 23, 32, -1),
        ([-49, -49, -53, 0], [16, 45, 5, 0], 16, 33, -1),
        ([5, -41, 3, 0], [10, -37, 8, 0], -1, -1, 18),
        ([21, -28, 4, 0], [24, -21, 8, 0], -1, -1, 19),
        ([5, -41, 3, 0], [24, -21, 8, 0], 35, 36, -1),
        ([7, -46, 40, 0], [11, -42, 45, 0], -1, -1, 20),
        ([14, -7, 44, 0], [19, -3, 49, 0], -1, -1, 21),
        ([7, -46, 40, 0], [19, -3, 49, 0], 38, 39, -1),
        ([5, -46, 3, 0], [24, -3, 49, 0], 37, 40, -1),
        ([-25, 10, 19, 0], [-16, 15, 25, 0], -1, -1, 22),
        ([-39, 13, 38, 0], [-34, 20, 43, 0], -1, -1, 23),
        ([-39, 10, 19, 0], [-16, 20, 43, 0], 42, 43, -1),
        ([-21, -1, 23, 0], [-16, 3, 29, 0], -1, -1, 24),
        ([-6, 26, 8, 0], [1, 33, 10, 0], -1, -1, 25),
        ([-21, -1, 8, 0], [1, 33, 29, 0], 45, 46, -1),
        ([-39, -1, 8, 0], [1, 33, 43, 0], 44, 47, -1),
        ([15, 7, 26, 0], [19, 10, 30, 0], -1, -1, 26),
        ([7, 19, 46, 0], [11, 23, 52, 0], -1, -1, 27),
        ([7, 7, 26, 0], [19, 23, 52, 0], 49, 50, -1),
        ([42, 30, 16, 0], [46, 35, 21, 0], -1, -1, 28),
        ([41, 24, 28, 0], [47, 32, 33, 0], -1, -1, 29),
        ([41, 24, 16, 0], [47, 35, 33, 0], 52, 53, -1),
        ([7, 7, 16, 0], [47, 35, 52, 0], 51, 54, -1),
        ([-39, -1, 8, 0], [47, 35, 52, 0], 48, 55, -1),
        ([-39, -46, 3, 0], [47, 35, 52, 0], 41, 56, -1),
        ([-49, -49, -53, 0], [47, 45, 52, 0], 34, 57, -1),
    ]
}


const ROOT30: i32 = 58;

#[test]
fn empty_input_is_refused() {
    let mut prims: Vec<TriangleCPU> = Vec::new();
    assert!(matches!(BVH::new(&mut prims, 0), Err(BuildError::EmptyInput)));
    assert!(prims.is_empty());
}

#[test]
fn single_primitive_is_one_leaf() {
    let mut prims = vec![flat(1, 2, 3, 2, 9)];
    let bvh = BVH::new(&mut prims, 0).unwrap();
    assert_eq!(bvh.root(), 0);
    assert_eq!(
        records(bvh.nodes()),
        vec![([1, 2, 3, 0], [3, 4, 3, 0], -1, -1, 0)]
    );
    assert_eq!(first_indices(&prims), vec![9]);
}

#[test]
fn two_primitives_are_two_leaves_under_a_root() {
    let mut prims = vec![flat(10, 0, 0, 1, 1), flat(0, 0, 0, 1, 0)];
    let bvh = BVH::new(&mut prims, 0).unwrap();
    assert_eq!(first_indices(&prims), vec![0, 1]);
    assert_eq!(bvh.root(), 2);
    assert_eq!(
        records(bvh.nodes()),
        vec![
            ([0, 0, 0, 0], [1, 1, 0, 0], -1, -1, 0),
            ([10, 0, 0, 0], [11, 1, 0, 0], -1, -1, 1),
            ([0, 0, 0, 0], [11, 1, 0, 0], 0, 1, -1),
        ]
    );
}

#[test]
fn four_triangles_spread_along_x() {
    let mut prims =
        vec![flat(16, 8, 0, 3, 2), flat(0, 0, 0, 3, 0), flat(24, 12, 0, 3, 3), flat(8, 4, 0, 3, 1)];
    let bvh = BVH::new(&mut prims, 0).unwrap();
    // Ordered along x, whatever the order they came in.
    assert_eq!(first_indices(&prims), vec![0, 1, 2, 3]);
    let nodes = bvh.nodes();
    let root = nodes[bvh.root() as usize];
    assert_eq!(root.aabb, AABB::new([0, 0, 0, 0], [27, 15, 0, 0]));
    // The root is cut between the second and the third triangle: three
    // times the x centroids are 3, 27 | 51, 75.
    let left = check_subtree(nodes, &prims, root.left);
    let right = check_subtree(nodes, &prims, root.right);
    assert_eq!(left, vec![0, 1]);
    assert_eq!(right, vec![2, 3]);
    let last_left = prims[1].centroid()[0];
    let first_right = prims[2].centroid()[0];
    assert_eq!((last_left, first_right), (27, 51));
    assert!(3 < last_left && last_left < first_right && first_right < 75);
    assert_eq!(
        records(nodes),
        vec![
            ([0, 0, 0, 0], [3, 3, 0, 0], -1, -1, 0),
            ([8, 4, 0, 0], [11, 7, 0, 0], -1, -1, 1),
            ([0, 0, 0, 0], [11, 7, 0, 0], 0, 1, -1),
            ([16, 8, 0, 0], [19, 11, 0, 0], -1, -1, 2),
            ([24, 12, 0, 0], [27, 15, 0, 0], -1, -1, 3),
            ([16, 8, 0, 0], [27, 15, 0, 0], 3, 4, -1),
            ([0, 0, 0, 0], [27, 15, 0, 0], 2, 5, -1),
        ]
    );
}

#[test]
fn thirteen_primitives_node_by_node() {
    let mut prims = thirteen_input();
    let bvh = BVH::new(&mut prims, 0).unwrap();
    assert_eq!(bvh.root(), ROOT13);
    assert_eq!(first_indices(&prims), thirteen_final_order());
    assert_eq!(records(bvh.nodes()), thirteen_built());
}

#[test]
fn thirty_primitives_node_by_node() {
    let mut prims = thirty_input();
    let bvh = BVH::new(&mut prims, 0).unwrap();
    assert_eq!(bvh.root(), ROOT30);
    assert_eq!(first_indices(&prims), thirty_final_order());
    assert_eq!(records(bvh.nodes()), thirty_built());
}

#[test]
fn leaves_and_internal_nodes_are_counted() {
    for n in [1usize, 2, 3, 5, 12, 13, 24, 100, 257] {
        let mut prims = scattered(n);
        let bvh = BVH::new(&mut prims, 0).unwrap();
        let nodes = bvh.nodes();
        assert_eq!(nodes.len(), 2 * n - 1);
        assert_eq!(bvh.root() as usize, 2 * n - 2);
        assert_eq!(nodes.iter().filter(|node| node.triangle != -1).count(), n);
        assert_eq!(nodes.iter().filter(|node| node.triangle == -1).count(), n - 1);
    }
}

#[test]
fn every_primitive_is_in_exactly_one_leaf() {
    let mut prims = scattered(100);
    let bvh = BVH::new(&mut prims, 0).unwrap();
    let leaves = check_subtree(bvh.nodes(), &prims, bvh.root());
    assert_eq!(leaves, (0..100).collect::<Vec<i32>>());
}

#[test]
fn boxes_are_joined_from_the_leaves_up() {
    let mut prims = scattered(257);
    let input = prims.clone();
    let bvh = BVH::new(&mut prims, 0).unwrap();
    check_subtree(bvh.nodes(), &prims, bvh.root());
    let root = bvh.nodes()[bvh.root() as usize];
    assert_eq!(root.aabb, AABB::bounding_box_for_slice(&prims, 0, 257));
    assert_eq!(root.aabb, AABB::bounding_box_for_slice(&input, 0, 257));
}

#[test]
fn primitives_are_reordered_not_changed() {
    let mut prims = scattered(64);
    let bvh = BVH::new(&mut prims, 0);
    assert!(bvh.is_ok());
    let mut seen = first_indices(&prims);
    seen.sort();
    assert_eq!(seen, (0..64).collect::<Vec<u32>>());
    for p in &prims {
        let i = first_indices(&vec![*p])[0] as usize;
        let unmoved = scattered(64)[i];
        assert_eq!(p.bounding_box(), unmoved.bounding_box());
        assert_eq!(p.centroid(), unmoved.centroid());
        assert_eq!(p.bbox_surface_area(), unmoved.bbox_surface_area());
    }
}

#[test]
fn two_builds_agree() {
    let mut first = scattered(200);
    let mut second = scattered(200);
    let a = BVH::new(&mut first, 1).unwrap();
    let b = BVH::new(&mut second, 2).unwrap();
    assert_eq!(a.root(), b.root());
    assert_eq!(a.nodes(), b.nodes());
    assert_eq!(first_indices(&first), first_indices(&second));
}

#[test]
fn equal_primitives_build_a_balanced_tree() {
    let mut prims: Vec<TriangleCPU> = (0..8).map(|i| flat(0, 0, 0, 1, i)).collect();
    let bvh = BVH::new(&mut prims, 0).unwrap();
    // Nothing tells the primitives apart: they stay in order and every
    // range is cut at its midpoint.
    assert_eq!(first_indices(&prims), (0..8).collect::<Vec<u32>>());
    let nodes = bvh.nodes();
    let root = nodes[bvh.root() as usize];
    assert_eq!(check_subtree(nodes, &prims, root.left), vec![0, 1, 2, 3]);
    assert_eq!(check_subtree(nodes, &prims, root.right), vec![4, 5, 6, 7]);
}

#[test]
fn runs_of_four_triangles() {
    let mut prims =
        vec![flat(16, 8, 0, 3, 2), flat(0, 0, 0, 3, 0), flat(24, 12, 0, 3, 3), flat(8, 4, 0, 3, 1)];
    let bvh = BVH::new(&mut prims, 0).unwrap();
    let run = |node, start, end, axis, split| NodeRun { node, start, end, axis, split };
    assert_eq!(
        bvh.node_runs(&prims).unwrap(),
        vec![
            run(0, 0, 1, 0, 0),
            run(1, 1, 2, 0, 0),
            run(2, 0, 2, 0, 1),
            run(3, 2, 3, 0, 0),
            run(4, 3, 4, 0, 0),
            run(5, 2, 4, 0, 3),
            run(6, 0, 4, 0, 2),
        ]
    );
}

#[test]
fn runs_name_the_axis_of_each_run() {
    // Two columns far apart along x, each spread along y.
    let mut prims = vec![
        flat(0, 0, 0, 1, 0),
        flat(1000, 50, 0, 1, 1),
        flat(0, 90, 0, 1, 2),
        flat(1000, 10, 0, 1, 3),
    ];
    let mut bvh = BVH::new(&mut prims, 0).unwrap();
    bvh.reorder_nodes();
    let runs = bvh.node_runs(&prims).unwrap();
    let root = runs[6];
    assert_eq!((root.node, root.start, root.end, root.axis, root.split), (0, 0, 4, 0, 2));
    let left = runs[2];
    assert_eq!((left.node, left.start, left.end, left.axis, left.split), (1, 0, 2, 1, 1));
    let right = runs[5];
    assert_eq!((right.node, right.start, right.end, right.axis, right.split), (4, 2, 4, 1, 3));
}

#[test]
fn runs_need_the_primitives_of_the_tree() {
    let mut prims = scattered(10);
    let bvh = BVH::new(&mut prims, 0).unwrap();
    assert_eq!(bvh.node_runs(&prims).unwrap().len(), 19);
    assert!(bvh.node_runs(&scattered(9)).is_none());
    assert!(bvh.node_runs(&Vec::new()).is_none());
    assert_eq!(bvh.node_runs(&scattered(11)).unwrap().len(), 19);
}
