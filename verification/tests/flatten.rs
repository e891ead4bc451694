use tri_bvh::primitives::triangle::TriangleCPU;
use tri_bvh::process::bvh::BVH;
use tri_bvh::process::tree::BVHNode;

fn flat(x: i32, y: i32, z: i32, s: i32, tag: u32) -> TriangleCPU {
    TriangleCPU::new(tag, tag, tag, [x, y, z], [x + s, y, z], [x, y + s, z], tag)
}

fn scattered(n: usize) -> Vec<TriangleCPU> {
    (0..n)
        .map(|i| {
            let x = ((i * 7919) % 211) as i32 - 100;
            let y = ((i * 104729) % 97) as i32 - 48;
            let z = ((i * 31) % 53) as i32;
            flat(x, y, z, 1 + (i % 4) as i32, i as u32)
        })
        .collect()
}

fn records(nodes: &Vec<BVHNode>) -> Vec<([i32; 4], [i32; 4], i32, i32, i32)> {
    nodes.iter().map(|n| (n.aabb.min, n.aabb.max, n.left, n.right, n.triangle)).collect()
}

/// Every leaf below `index` with the boxes of its ancestors, root first.
fn leaf_paths(
    nodes: &Vec<BVHNode>,
    index: i32,
    above: &mut Vec<([i32; 4], [i32; 4], bool)>,
    out: &mut Vec<(i32, Vec<([i32; 4], [i32; 4], bool)>)>,
) {
    let node = nodes[index as usize];
    if node.triangle != -1 {
        out.push((node.triangle, above.clone()));
    } else {
        above.push((node.aabb.min, node.aabb.max, false));
        leaf_paths(nodes, node.left, above, out);
        above.pop();
        above.push((node.aabb.min, node.aabb.max, true));
        leaf_paths(nodes, node.right, above, out);
        above.pop();
    }
}

fn paths(bvh: &BVH) -> Vec<(i32, Vec<([i32; 4], [i32; 4], bool)>)> {
    let mut out = Vec::new();
    leaf_paths(bvh.nodes(), bvh.root(), &mut Vec::new(), &mut out);
    out
}

/// The array indices in the order in which a walk from `index` visits them.
fn walk(nodes: &Vec<BVHNode>, index: i32, out: &mut Vec<i32>) {
    out.push(index);
    let node = nodes[index as usize];
    if node.triangle == -1 {
        walk(nodes, node.left, out);
        walk(nodes, node.right, out);
    }
}

/// Number of nodes in the subtree at `index`.
fn size(nodes: &Vec<BVHNode>, index: i32) -> i32 {
    let node = nodes[index as usize];
    if node.triangle != -1 {
        1
    } else {
        1 + size(nodes, node.left) + size(nodes, node.right)
    }
}

fn thirteen_input() -> Vec<TriangleCPU> {
    vec![
        TriangleCPU::new(0, 1, 2, [-9, -31, 0], [-4, -36, -4], [-6, -35, 0], 0),
        TriangleCPU::new(3, 4, 5, [24, -43, 14], [22, -48, 10], [25, -42, 10], 1),
        TriangleCPU::new(6, 7, 8, [-20, -39, 20], [-19, -44, 24], [-24, -41, 25], 2),
        TriangleCPU::new(9, 10, 11, [30, 24, -43], [34, 28, -42], [25, 22, -48], 3),
        TriangleCPU::new(12, 13, 14, [21, -33, -13], [22, -36, -10], [17, -29, -14], 0),
        TriangleCPU::new(15, 16, 17, [21, 37, -27], [17, 41, -23], [26, 35, -27], 1),
        TriangleCPU::new(18, 19, 20, [-38, 20, 41], [-42, 24, 36], [-34, 18, 43], 2),
        TriangleCPU::new(21, 22, 23, [37, 18, 4], [37, 20, 8], [39, 18, 3], 3),
        TriangleCPU::new(24, 25, 26, [-19, -27, 39], [-21, -31, 43], [-20, -24, 41], 0),
        TriangleCPU::new(27, 28, 29, [-7, 43, 7], [-8, 47, 3], [-11, 46, 8], 1),
        TriangleCPU::new(30, 31, 32, [-29, 46, -7], [-32, 48, -6], [-34, 51, -11], 2),
        TriangleCPU::new(33, 34, 35, [47, 21, 23], [47, 21, 23], [51, 23, 27], 3),
        TriangleCPU::new(36, 37, 38, [8, -42, -39], [7, -40, -34], [4, -47, -40], 0),
    ]
}



fn thirteen_flat() -> Vec<([i32; 4], [i32; 4], i32, i32, i32)> {
    vec![
        ([-42, -48, -48, 0], [51, 51, 43, 0], 1, 12, -1),
        ([-24, -48, -40, 0], [25, -24, 43, 0], 2, 7, -1),
        ([-9, -47, -40, 0], [22, -29, 0, 0], 3, 4, -1),
        ([4, -47, -40, 0], [8, -40, -34, 0], -1, -1, 0),
        ([-9, -36, -14, 0], [22, -29, 0, 0], 5, 6, -1),
        ([-9, -36, -4, 0], [-4, -31, 0, 0], -1, -1, 1),
        ([17, -36, -14, 0], [22, -29, -10, 0], -1, -1, 2),
        ([-24, -48, 10, 0], [25, -24, 43, 0], 8, 9, -1),
        ([-24, -44, 20, 0], [-19, -39, 25, 0], -1, -1, 3),
        ([-21, -48, 10, 0], [25, -24, 43, 0], 10, 11, -1),
        ([-21, -31, 39, 0], [-19, -24, 43, 0], -1, -1, 4),
        ([22, -48, 10, 0], [25, -42, 14, 0], -1, -1, 5),
        ([-42, 18, -48, 0], [51, 51, 43, 0], 13, 18, -1),
        ([-42, 18, -11, 0], [-7, 51, 43, 0], 14, 15, -1),
        ([-34, 46, -11, 0], [-29, 51, -6, 0], -1, -1, 6),
        ([-42, 18, 3, 0], [-7, 47, 43, 0], 16, 17, -1),
        ([-11, 43, 3, 0], [-7, 47, 8, 0], -1, -1, 7),
        ([-42, 18, 36, 0], [-34, 24, 43, 0], -1, -1, 8),
        ([17, 18, -48, 0], [51, 41, 27, 0], 19, 22, -1),
        ([17, 22, -48, 0], [34, 41, -23, 0], 20, 21, -1),
        ([25, 22, -48, 0], [34, 28, -42, 0], -1, -1, 9),
        ([17, 35, -27, 0], [26, 41, -23, 0], -1, -1, 10),
        ([37, 18, 3, 0], [51, 23, 27, 0], 23, 24, -1),
        ([37, 18, 3, 0], [39, 20, 8, 0], -1, -1, 11),
        ([47, 21, 23, 0], [51, 23, 27, 0], -1, -1, 12),
    ]
}

fn thirty_input() -> Vec<TriangleCPU> {
    vec![
        TriangleCPU::new(0, 1, 2, [7, 21, 49], [9, 23, 52], [11, 19, 46], 0),
        TriangleCPU::new(3, 4, 5, [15, 10, 30], [19, 7, 26], [17, 9, 27], 1),
        TriangleCPU::new(6, 7, 8, [-39, 18, 38], [-34, 13, 42], [-38, 20, 43], 2),
        TriangleCPU::new(9, 10, 11, [44, 28, 33], [41, 32, 28], [47, 24, 28], 3),
        TriangleCPU::new(12, 13, 14, [-46, -26, -20], [-42, -31, -18], [-46, -24, -16], 0),
        TriangleCPU::new(15, 16, 17, [-25, 16, -21], [-20, 15, -19], [-30, 21, -25], 1),
        TriangleCPU::new(18, 19, 20, [8, 33, -15], [9, 36, -19], [7, 33, -17], 2),
        TriangleCPU::new(21, 22, 23, [15, -14, -47], [11, -10, -51], [16, -18, -48], 3),
        TriangleCPU::new(24, 25, 26, [-1, -42, -48], [4, -47, -50], [-3, -47, -46], 0),
        TriangleCPU::new(27, 28, 29, [-2, 40, 0], [-1, 36, 4], [3, 38, 5], 1),
        TriangleCPU::new(30, 31, 32, [-16, -7, -39], [-17, -7, -44], [-15, -11, -42], 2),
        TriangleCPU::new(33, 34, 35, [-19, 40, -38], [-24, 35, -36], [-17, 37, -33], 3),
        TriangleCPU::new(36, 37, 38, [21, -26, 7], [24, -28, 4], [22, -21, 8], 0),
        TriangleCPU::new(39, 40, 41, [-36, 0, 3], [-38, -5, 2], [-32, -1, -2], 1),
        TriangleCPU::new(42, 43, 44, [-24, -27, 0], [-20, -22, 4], [-28, -32, -3], 2),
        TriangleCPU::new(45, 46, 47, [-23, 6, -17], [-28, 10, -17], [-24, 7, -21], 3),
        TriangleCPU::new(48, 49, 50, [-41, -39, -24], [-37, -34, -26], [-46, -35, -24], 0),
        TriangleCPU::new(51, 52, 53, [-3, 29, 8], [-6, 33, 10], [1, 26, 9], 1),
        TriangleCPU::new(54, 55, 56, [-27, 30, -31], [-28, 28, -27], [-29, 28, -34], 2),
        TriangleCPU::new(57, 58, 59, [44, 30, 20], [42, 35, 21], [46, 34, 16], 3),
        TriangleCPU::new(60, 61, 62, [3, -44, -37], [-1, -49, -34], [2, -46, -36], 0),
        TriangleCPU::new(63, 64, 65, [-18, 3, 26], [-16, 2, 29], [-21, -1, 23], 1),
        TriangleCPU::new(66, 67, 68, [-21, 11, 21], [-16, 15, 25], [-25, 10, 19], 2),
        TriangleCPU::new(69, 70, 71, [-24, 45, -48], [-28, 44, -47], [-22, 43, -53], 3),
        TriangleCPU::new(72, 73, 74, [-45, -28, -14], [-45, -25, -10], [-48, -32, -14], 0),
        TriangleCPU::new(75, 76, 77, [-33, 7, -8], [-28, 10, -4], [-36, 11, -13], 1),
        TriangleCPU::new(78, 79, 80, [-48, 10, -5], [-49, 5, -10], [-44, 15, -9], 2),
        TriangleCPU::new(81, 82, 83, [11, -42, 43], [10, -42, 40], [7, -46, 45], 3),
        TriangleCPU::new(84, 85, 86, [19, -3, 44], [14, -6, 44], [19, -7, 49], 0),
        TriangleCPU::new(87, 88, 89, [10, -41, 3], [5, -39, 7], [5, -37, 8], 1),
    ]
}



fn thirty_flat() -> Vec<([i32; 4], [i32; 4], i32, i32, i32)> {
    vec![
        ([-49, -49, -53, 0], [47, 45, 52, 0], 1, 36, -1),
        ([-49, -49, -53, 0], [16, 45, 5, 0], 2, 19, -1),
        ([-48, -49, -51, 0], [16, 0, 4, 0], 3, 10, -1),
        ([-48, -39, -26, 0], [-32, 0, 3, 0], 4, 7, -1),
        ([-48, -39, -26, 0], [-37, -25, -10, 0], 5, 6, -1),
        ([-46, -39, -26, 0], [-37, -34, -24, 0], -1, -1, 0),
        ([-48, -32, -14, 0], [-45, -25, -10, 0], -1, -1, 1),
        ([-46, -31, -20, 0], [-32, 0, 3, 0], 8, 9, -1),
        ([-46, -31, -20, 0], [-42, -24, -16, 0], -1, -1, 2),
        ([-38, -5, -2, 0], [-32, 0, 3, 0], -1, -1, 3),
        ([-28, -49, -51, 0], [16, -7, 4, 0], 11, 14, -1),
        ([-3, -47, -51, 0], [16, -10, -46, 0], 12, 13, -1),
        ([-3, -47, -50, 0], [4, -42, -46, 0], -1, -1, 4),
        ([11, -18, -51, 0], [16, -10, -47, 0], -1, -1, 5),
        ([-28, -49, -44, 0], [3, -7, 4, 0], 15, 16, -1),
        ([-17, -11, -44, 0], [-15, -7, -39, 0], -1, -1, 6),
        ([-28, -49, -37, 0], [3, -22, 4, 0], 17, 18, -1),
        ([-1, -49, -37, 0], [3, -44, -34, 0], -1, -1, 7),
        ([-28, -32, -3, 0], [-20, -22, 4, 0], -1, -1, 8),
        ([-49, 5, -53, 0], [9, 45, 5, 0], 20, 27, -1),
        ([-49, 5, -34, 0], [-20, 30, -4, 0], 21, 24, -1),
        ([-30, 15, -34, 0], [-20, 30, -19, 0], 22, 23, -1),
        ([-30, 15, -25, 0], [-20, 21, -19, 0], -1, -1, 9),
        ([-29, 28, -34, 0], [-27, 30, -27, 0], -1, -1, 10),
        ([-49, 5, -13, 0], [-28, 15, -4, 0], 25, 26, -1),
        ([-49, 5, -10, 0], [-44, 15, -5, 0], -1, -1, 11),
        ([-36, 7, -13, 0], [-28, 11, -4, 0], -1, -1, 12),
        ([-28, 6, -53, 0], [9, 45, 5, 0], 28, 31, -1),
        ([-28, 35, -53, 0], [-17, 45, -33, 0], 29, 30, -1),
        ([-28, 43, -53, 0], [-22, 45, -47, 0], -1, -1, 13),
        ([-24, 35, -38, 0], [-17, 40, -33, 0], -1, -1, 14),
        ([-28, 6, -21, 0], [9, 40, 5, 0], 32, 33, -1),
        ([-28, 6, -21, 0], [-23, 10, -17, 0], -1, -1, 15),
        ([-2, 33, -19, 0], [9, 40, 5, 0], 34, 35, -1),
        ([7, 33, -19, 0], [9, 36, -15, 0], -1, -1, 16),
        ([-2, 36, 0, 0], [3, 40, 5, 0], -1, -1, 17),
        ([-39, -46, 3, 0], [47, 35, 52, 0], 37, 44, -1),
        ([5, -46, 3, 0], [24, -3, 49, 0], 38, 41, -1),
        ([5, -41, 3, 0], [24, -21, 8, 0], 39, 40, -1),
        ([5, -41, 3, 0], [10, -37, 8, 0], -1, -1, 18),
        ([21, -28, 4, 0], [24, -21, 8, 0], -1, -1, 19),
        ([7, -46, 40, 0], [19, -3, 49, 0], 42, 43, -1),
        ([7, -46, 40, 0], [11, -42, 45, 0], -1, -1, 20),
        ([14, -7, 44, 0], [19, -3, 49, 0], -1, -1, 21),
        ([-39, -1, 8, 0], [47, 35, 52, 0], 45, 52, -1),
        ([-39, -1, 8, 0], [1, 33, 43, 0], 46, 49, -1),
        ([-39, 10, 19, 0], [-16, 20, 43, 0], 47, 48, -1),
        ([-25, 10, 19, 0], [-16, 15, 25, 0], -1, -1, 22),
        ([-39, 13, 38, 0], [-34, 20, 43, 0], -1, -1, 23),
        ([-21, -1, 8, 0], [1, 33, 29, 0], 50, 51, -1),
        ([-21, -1, 23, 0], [-16, 3, 29, 0], -1, -1, 24),
        ([-6, 26, 8, 0], [1, 33, 10, 0], -1, -1, 25),
        ([7, 7, 16, 0], [47, 35, 52, 0], 53, 56, -1),
        ([7, 7, 26, 0], [19, 23, 52, 0], 54, 55, -1),
        ([15, 7, 26, 0], [19, 10, 30, 0], -1, -1, 26),
        ([7, 19, 46, 0], [11, 23, 52, 0], -1, -1, 27),
        ([41, 24, 16, 0], [47, 35, 33, 0], 57, 58, -1),
        ([42, 30, 16, 0], [46, 35, 21, 0], -1, -1, 28),
        ([41, 24, 28, 0], [47, 32, 33, 0], -1, -1, 29),
    ]
}

#[test]
fn flatten_single_leaf() {
    let mut prims = vec![flat(1, 2, 3, 2, 9)];
    let mut bvh = BVH::new(&mut prims, 0).unwrap();
    bvh.reorder_nodes();
    assert_eq!(bvh.root(), 0);
    assert_eq!(records(bvh.nodes()), vec![([1, 2, 3, 0], [3, 4, 3, 0], -1, -1, 0)]);
}

#[test]
fn flatten_four_triangles() {
    let mut prims =
        vec![flat(16, 8, 0, 3, 2), flat(0, 0, 0, 3, 0), flat(24, 12, 0, 3, 3), flat(8, 4, 0, 3, 1)];
    let mut bvh = BVH::new(&mut prims, 0).unwrap();
    assert_eq!(bvh.root(), 6);
    bvh.reorder_nodes();
    assert_eq!(bvh.root(), 0);
    assert_eq!(
        records(bvh.nodes()),
        vec![
            ([0, 0, 0, 0], [27, 15, 0, 0], 1, 4, -1),
            ([0, 0, 0, 0], [11, 7, 0, 0], 2, 3, -1),
            ([0, 0, 0, 0], [3, 3, 0, 0], -1, -1, 0),
            ([8, 4, 0, 0], [11, 7, 0, 0], -1, -1, 1),
            ([16, 8, 0, 0], [27, 15, 0, 0], 5, 6, -1),
            ([16, 8, 0, 0], [19, 11, 0, 0], -1, -1, 2),
            ([24, 12, 0, 0], [27, 15, 0, 0], -1, -1, 3),
        ]
    );
}

#[test]
fn flatten_thirteen_node_by_node() {
    let mut prims = thirteen_input();
    let mut bvh = BVH::new(&mut prims, 0).unwrap();
    bvh.reorder_nodes();
    assert_eq!(bvh.root(), 0);
    assert_eq!(records(bvh.nodes()), thirteen_flat());
}

#[test]
fn flatten_thirty_node_by_node() {
    let mut prims = thirty_input();
    let mut bvh = BVH::new(&mut prims, 0).unwrap();
    bvh.reorder_nodes();
    assert_eq!(bvh.root(), 0);
    assert_eq!(records(bvh.nodes()), thirty_flat());
}

#[test]
fn flatten_twice_is_flatten_once() {
    for n in [1usize, 2, 7, 13, 100] {
        let mut prims = scattered(n);
        let mut bvh = BVH::new(&mut prims, 0).unwrap();
        bvh.reorder_nodes();
        let once = bvh.clone();
        bvh.reorder_nodes();
        assert_eq!(bvh.root(), once.root());
        assert_eq!(bvh.nodes(), once.nodes());
    }
}

#[test]
fn flatten_keeps_leaves_and_ancestors() {
    for n in [1usize, 2, 7, 13, 100] {
        let mut prims = scattered(n);
        let mut bvh = BVH::new(&mut prims, 0).unwrap();
        let before = paths(&bvh);
        bvh.reorder_nodes();
        assert_eq!(paths(&bvh), before);
        assert_eq!(bvh.nodes().len(), 2 * n - 1);
    }
}

#[test]
fn flatten_walk_visits_indices_in_order() {
    let mut prims = scattered(100);
    let mut bvh = BVH::new(&mut prims, 0).unwrap();
    let mut before = Vec::new();
    walk(bvh.nodes(), bvh.root(), &mut before);
    assert_ne!(before, (0..199).collect::<Vec<i32>>());
    bvh.reorder_nodes();
    let mut after = Vec::new();
    walk(bvh.nodes(), bvh.root(), &mut after);
    assert_eq!(after, (0..199).collect::<Vec<i32>>());
}

#[test]
fn flatten_puts_subtrees_side_by_side() {
    let mut prims = scattered(100);
    let mut bvh = BVH::new(&mut prims, 0).unwrap();
    bvh.reorder_nodes();
    let nodes = bvh.nodes();
    for (i, node) in nodes.iter().enumerate() {
        if node.triangle == -1 {
            assert_eq!(node.left, i as i32 + 1);
            assert_eq!(node.right, node.left + size(nodes, node.left));
        }
    }
}
