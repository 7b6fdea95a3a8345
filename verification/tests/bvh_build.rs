use wgsl_toy::geometry::Triangle;
use wgsl_toy::node::Node;
use wgsl_toy::traversal::{traverse_bvh, TraversalStats};
use wgsl_toy::tree::{Mesh, Tree};

fn f(bits: u32) -> f32 {
    f32::from_bits(bits)
}

fn v4(x: f32, y: f32, z: f32) -> [u32; 4] {
    [x.to_bits(), y.to_bits(), z.to_bits(), 1.0f32.to_bits()]
}

fn xyz(p: [u32; 4]) -> [f32; 3] {
    [f(p[0]), f(p[1]), f(p[2])]
}

fn sub(a: [f32; 3], b: [f32; 3]) -> [f32; 3] {
    [a[0] - b[0], a[1] - b[1], a[2] - b[2]]
}

fn cross(a: [f32; 3], b: [f32; 3]) -> [f32; 3] {
    [a[1] * b[2] - a[2] * b[1], a[2] * b[0] - a[0] * b[2], a[0] * b[1] - a[1] * b[0]]
}

fn dot(a: [f32; 3], b: [f32; 3]) -> f32 {
    a[0] * b[0] + a[1] * b[1] + a[2] * b[2]
}

fn normalize(a: [f32; 3]) -> [f32; 3] {
    let l = dot(a, a).sqrt();
    [a[0] / l, a[1] / l, a[2] / l]
}

fn bits3(a: [f32; 3]) -> [u32; 3] {
    [a[0].to_bits(), a[1].to_bits(), a[2].to_bits()]
}

/// The centroid sum of three positions, as the mesh loader computes it.
fn centroid_sum(a: [u32; 4], b: [u32; 4], c: [u32; 4]) -> [u32; 3] {
    let (a, b, c) = (xyz(a), xyz(b), xyz(c));
    bits3([a[0] + b[0] + c[0], a[1] + b[1] + c[1], a[2] + b[2] + c[2]])
}

fn face_normal(t: Triangle) -> [u32; 3] {
    let a = xyz(t.a);
    bits3(normalize(cross(sub(xyz(t.b), a), sub(xyz(t.c), a))))
}

fn surface_area(min: [f32; 3], max: [f32; 3]) -> f32 {
    let d = sub(max, min);
    2.0 * (d[0] * d[1] + d[0] * d[2] + d[1] * d[2])
}

fn fmin3(a: [f32; 3], b: [f32; 3]) -> [f32; 3] {
    [a[0].min(b[0]), a[1].min(b[1]), a[2].min(b[2])]
}

fn fmax3(a: [f32; 3], b: [f32; 3]) -> [f32; 3] {
    [a[0].max(b[0]), a[1].max(b[1]), a[2].max(b[2])]
}

/// Binned surface-area split, as the renderer chooses it.
fn sah_split(tris: &[Triangle], cents: &[[u32; 3]], ids: &[usize], lo: [u32; 3], hi: [u32; 3]) -> (usize, u32) {
    const NUM_BINS: usize = 32;
    let bounds_min = [f(lo[0]), f(lo[1]), f(lo[2])];
    let bounds_max = [f(hi[0]), f(hi[1]), f(hi[2])];
    let mut best_axis = 0;
    let mut best_pos = 0.0f32;
    let mut best_cost = f32::INFINITY;
    for axis in 0..3 {
        let min_val = bounds_min[axis];
        let max_val = bounds_max[axis];
        if (max_val - min_val).abs() < 0.001 {
            continue;
        }
        let bin_size = (max_val - min_val) / NUM_BINS as f32;
        if bin_size <= 0.0 {
            continue;
        }
        let mut counts = [0u32; NUM_BINS];
        let mut bmin = [[f32::INFINITY; 3]; NUM_BINS];
        let mut bmax = [[f32::NEG_INFINITY; 3]; NUM_BINS];
        for &id in ids {
            let center = f(cents[id][axis]);
            let mut bin = ((center - min_val) / bin_size) as isize;
            if bin < 0 {
                bin = 0;
            }
            if bin as usize >= NUM_BINS {
                bin = (NUM_BINS - 1) as isize;
            }
            let bin = bin as usize;
            counts[bin] += 1;
            let t = &tris[id];
            let (a, b, c) = (xyz(t.a), xyz(t.b), xyz(t.c));
            bmin[bin] = fmin3(bmin[bin], fmin3(fmin3(a, b), c));
            bmax[bin] = fmax3(bmax[bin], fmax3(fmax3(a, b), c));
        }
        let mut left = [(0u32, [0.0f32; 3], [0.0f32; 3]); NUM_BINS];
        let (mut n, mut mn, mut mx) = (0u32, [f32::INFINITY; 3], [f32::NEG_INFINITY; 3]);
        for i in 0..NUM_BINS {
            n += counts[i];
            mn = fmin3(mn, bmin[i]);
            mx = fmax3(mx, bmax[i]);
            left[i] = (n, mn, mx);
        }
        let mut right = [(0u32, [0.0f32; 3], [0.0f32; 3]); NUM_BINS];
        let (mut n, mut mn, mut mx) = (0u32, [f32::INFINITY; 3], [f32::NEG_INFINITY; 3]);
        for i in (0..NUM_BINS).rev() {
            n += counts[i];
            mn = fmin3(mn, bmin[i]);
            mx = fmax3(mx, bmax[i]);
            right[i] = (n, mn, mx);
        }
        let parent_area = surface_area(bounds_min, bounds_max);
        for i in 0..(NUM_BINS - 1) {
            let (lc, lmin, lmax) = left[i];
            let (rc, rmin, rmax) = right[i + 1];
            if lc == 0 || rc == 0 {
                continue;
            }
            let cost = 1.0 + 1.0 * (lc as f32 * surface_area(lmin, lmax) + rc as f32 * surface_area(rmin, rmax)) / parent_area;
            if cost < best_cost {
                best_cost = cost;
                best_axis = axis;
                best_pos = min_val + bin_size * (i + 1) as f32;
            }
        }
    }
    (best_axis, best_pos.to_bits())
}

fn build_sah<M>(tree: &mut Tree<M>) {
    let tris = tree.triangles.clone();
    let cents = tree.centroids.clone();
    tree.build(&move |ids: Vec<usize>, lo: [u32; 3], hi: [u32; 3]| sah_split(&tris, &cents, &ids, lo, hi), &face_normal);
}

fn push_triangle<M>(tree: &mut Tree<M>, a: [u32; 4], b: [u32; 4], c: [u32; 4], material: u32) {
    let center = centroid_sum(a, b, c);
    tree.triangles.push(Triangle { a, b, c, material, custom: center });
    tree.centroids.push(center);
}

/// Walks the flattened tree and checks that its leaves cover `0..n` in
/// order and that every box holds its triangles; returns the covered count.
fn check_subtree(nodes: &[Node], tris: &[Triangle], i: usize, start: usize) -> usize {
    let node = nodes[i];
    let lo = [f(node.bound_min[0]), f(node.bound_min[1]), f(node.bound_min[2])];
    let hi = [f(node.bound_max[0]), f(node.bound_max[1]), f(node.bound_max[2])];
    let count = if node.is_leaf() {
        assert_eq!(node.first_triangle() as usize, start);
        node.tri_count as usize
    } else {
        assert_eq!(node.left_first as usize, i + 1);
        let l = check_subtree(nodes, tris, i + 1, start);
        let r = check_subtree(nodes, tris, node.tri_count as usize, start + l);
        assert!(l + r > 4);
        l + r
    };
    for t in &tris[start..start + count] {
        for p in [t.a, t.b, t.c] {
            let p = xyz(p);
            for k in 0..3 {
                assert!(lo[k] <= p[k] && p[k] <= hi[k]);
            }
        }
    }
    count
}

#[test]
fn build_without_triangles_changes_nothing() {
    let mut tree: Tree<u32> = Tree::new();
    tree.sizes = [5, 6];
    build_sah(&mut tree);
    assert_eq!(tree.sizes, [5, 6]);
    assert!(tree.nodes.is_empty());
}

#[test]
fn few_triangles_make_one_leaf() {
    let mut tree: Tree<u32> = Tree::new();
    push_triangle(&mut tree, v4(0.0, 0.0, 0.0), v4(1.0, 0.0, 0.0), v4(0.0, 1.0, 0.0), 0);
    push_triangle(&mut tree, v4(-2.0, 0.5, 3.0), v4(1.0, 4.0, 0.0), v4(0.0, 1.0, -1.0), 0);
    push_triangle(&mut tree, v4(0.0, 0.0, 5.0), v4(1.0, 0.0, 5.0), v4(0.0, 1.0, 5.0), 0);
    build_sah(&mut tree);
    assert_eq!(tree.nodes.len(), 1);
    let root = tree.nodes[0];
    assert!(root.is_leaf());
    assert_eq!(root.first_triangle(), 0);
    assert_eq!(root.tri_count, 3);
    assert_eq!(root.bound_min, bits3([-2.0, 0.0, -1.0]));
    assert_eq!(root.bound_max, bits3([1.0, 4.0, 5.0]));
    assert_eq!(tree.sizes, [1, 3]);
    assert_eq!(tree.triangles[0].custom, bits3([0.0, 0.0, 1.0]));
}

#[test]
fn long_runs_are_split_and_boxes_are_exact() {
    let mut tree: Tree<u32> = Tree::new();
    for i in 0..10 {
        let x = (9 - i) as f32 * 3.0;
        push_triangle(&mut tree, v4(x, 0.0, 0.0), v4(x + 1.0, 0.0, 0.0), v4(x, 1.0, 0.0), i);
    }
    build_sah(&mut tree);
    assert!(!tree.nodes[0].is_leaf());
    assert_eq!(check_subtree(&tree.nodes, &tree.triangles, 0, 0), 10);
    assert_eq!(tree.nodes[0].bound_min, bits3([0.0, 0.0, 0.0]));
    assert_eq!(tree.nodes[0].bound_max, bits3([28.0, 1.0, 0.0]));
    let mut materials: Vec<u32> = tree.triangles.iter().map(|t| t.material).collect();
    materials.sort();
    assert_eq!(materials, (0..10).collect::<Vec<u32>>());
    for (t, c) in tree.triangles.iter().zip(tree.centroids.iter()) {
        assert_eq!(*c, centroid_sum(t.a, t.b, t.c));
        assert_eq!(t.custom, bits3([0.0, 0.0, 1.0]));
    }
    assert_eq!(tree.sizes, [tree.nodes.len() as u32, 10]);
}

#[test]
fn split_that_separates_nothing_gives_a_leaf() {
    let mut tree: Tree<u32> = Tree::new();
    for i in 0..9 {
        let x = i as f32;
        push_triangle(&mut tree, v4(x, 0.0, 0.0), v4(x + 1.0, 0.0, 0.0), v4(x, 1.0, 0.0), 0);
    }
    let below_all = (-100.0f32).to_bits();
    tree.build(&|_ids: Vec<usize>, _lo: [u32; 3], _hi: [u32; 3]| (0usize, below_all), &face_normal);
    assert_eq!(tree.nodes.len(), 1);
    assert!(tree.nodes[0].is_leaf());
    assert_eq!(tree.nodes[0].tri_count, 9);
}

#[test]
fn split_position_decides_the_children() {
    let mut tree: Tree<u32> = Tree::new();
    for i in 0..8 {
        let x = i as f32;
        push_triangle(&mut tree, v4(x, 0.0, 0.0), v4(x, 1.0, 0.0), v4(x, 0.0, 1.0), i);
    }
    // centroid sums along x are 3 * i; the split at 7.5 sends i = 0, 1, 2 left
    let split = 7.5f32.to_bits();
    tree.build(&|_ids: Vec<usize>, _lo: [u32; 3], _hi: [u32; 3]| (0usize, split), &face_normal);
    let root = tree.nodes[0];
    assert!(!root.is_leaf());
    let left = tree.nodes[1];
    assert!(left.is_leaf());
    assert_eq!(left.tri_count, 3);
    let mut left_materials: Vec<u32> = tree.triangles[0..3].iter().map(|t| t.material).collect();
    left_materials.sort();
    assert_eq!(left_materials, vec![0, 1, 2]);
    let right = tree.nodes[root.tri_count as usize];
    assert!(right.is_leaf());
    assert_eq!(right.first_triangle(), 3);
    assert_eq!(right.tri_count, 5);
}

#[test]
fn add_mesh_appends_triangles_and_material() {
    let mut tree: Tree<&str> = Tree::new();
    tree.materials.push("first");
    let mesh = Mesh {
        positions: vec![v4(0.0, 0.0, 0.0), v4(1.0, 0.0, 0.0), v4(1.0, 1.0, 0.0), v4(0.0, 1.0, 0.0)],
        indices: vec![0, 1, 2, 0, 2, 3, 1],
        material: "second",
    };
    tree.add_mesh(mesh, &centroid_sum);
    assert_eq!(tree.materials, vec!["first", "second"]);
    assert_eq!(tree.triangles.len(), 2);
    assert_eq!(tree.centroids.len(), 2);
    let t = tree.triangles[1];
    assert_eq!(t.a, v4(0.0, 0.0, 0.0));
    assert_eq!(t.b, v4(1.0, 1.0, 0.0));
    assert_eq!(t.c, v4(0.0, 1.0, 0.0));
    assert_eq!(t.material, 1);
    assert_eq!(t.custom, bits3([1.0, 2.0, 0.0]));
    assert_eq!(tree.centroids[1], t.custom);
}

fn cube_mesh() -> Mesh<u32> {
    let p = |x: f32, y: f32, z: f32| v4(x, y, z);
    Mesh {
        positions: vec![
            p(1.0, 1.0, -1.0),
            p(1.0, -1.0, -1.0),
            p(1.0, 1.0, 1.0),
            p(1.0, -1.0, 1.0),
            p(-1.0, 1.0, -1.0),
            p(-1.0, -1.0, -1.0),
            p(-1.0, 1.0, 1.0),
            p(-1.0, -1.0, 1.0),
        ],
        indices: vec![
            4, 2, 0, 2, 7, 3, 6, 5, 7, 1, 7, 5, 0, 3, 1, 4, 1, 5, 4, 6, 2, 2, 6, 7, 6, 4, 5, 1, 3, 7, 0, 2, 3, 4, 0, 1,
        ],
        material: 0,
    }
}

#[test]
fn from_mesh_holds_only_that_mesh() {
    let tree = Tree::from_mesh(cube_mesh(), &centroid_sum);
    assert_eq!(tree.materials, vec![0]);
    assert_eq!(tree.triangles.len(), 12);
    assert_eq!(tree.centroids.len(), 12);
    assert!(tree.nodes.is_empty());
    assert_eq!(tree.sizes, [0, 0]);
    assert_eq!(tree.triangles[0].a, v4(-1.0, 1.0, -1.0));
    assert_eq!(tree.triangles[0].custom, bits3([1.0, 3.0, -1.0]));
    assert!(tree.triangles.iter().all(|t| t.material == 0));
}

#[test]
fn tree_simple_cube() {
    let mut tree: Tree<u32> = Tree::new();
    tree.add_mesh(cube_mesh(), &centroid_sum);
    build_sah(&mut tree);
    assert_eq!(tree.triangles.len(), 12);
    assert_eq!(tree.materials.len(), 1);
    assert!(tree.nodes.len() < 16);
    assert_eq!(check_subtree(&tree.nodes, &tree.triangles, 0, 0), 12);
}

// Ray tests as the shader performs them.

fn intersect_node(origin: [f32; 3], dir: [f32; 3], node: &Node) -> bool {
    if !f(node.bound_min[0]).is_finite() || !f(node.bound_max[0]).is_finite() {
        return false;
    }
    let inv = [1.0 / dir[0], 1.0 / dir[1], 1.0 / dir[2]];
    let mut tmin = f32::NEG_INFINITY;
    let mut tmax = f32::INFINITY;
    for k in 0..3 {
        let t0 = (f(node.bound_min[k]) - origin[k]) * inv[k];
        let t1 = (f(node.bound_max[k]) - origin[k]) * inv[k];
        tmin = tmin.max(t0.min(t1));
        tmax = tmax.min(t0.max(t1));
    }
    tmin <= tmax && tmax >= 0.0
}

fn intersect_triangle(origin: [f32; 3], dir: [f32; 3], t: &Triangle) -> Option<u32> {
    let (a, b, c) = (xyz(t.a), xyz(t.b), xyz(t.c));
    let e1 = sub(b, a);
    let e2 = sub(c, a);
    let h = cross(dir, e2);
    let det = dot(e1, h);
    if det.abs() < 0.0001 {
        return None;
    }
    let inv = 1.0 / det;
    let s = sub(origin, a);
    let u = inv * dot(s, h);
    if u < 0.0 || u > 1.0 {
        return None;
    }
    let q = cross(s, e1);
    let v = inv * dot(dir, q);
    if v < 0.0 || u + v > 1.0 {
        return None;
    }
    let d = inv * dot(e2, q);
    if d < 0.0001 {
        return None;
    }
    Some(d.to_bits())
}

fn trace<M>(tree: &Tree<M>, origin: [f32; 3], dir: [f32; 3]) -> TraversalStats {
    let dir = normalize(dir);
    let node_hit: Vec<bool> = tree.nodes.iter().map(|n| intersect_node(origin, dir, n)).collect();
    let tri_hit: Vec<Option<u32>> = tree.triangles.iter().map(|t| intersect_triangle(origin, dir, t)).collect();
    traverse_bvh(&tree.nodes, &node_hit, &tri_hit)
}

#[test]
fn traversal_of_empty_tree_does_nothing() {
    let stats = traverse_bvh(&vec![], &vec![], &vec![]);
    assert_eq!((stats.steps, stats.nodes_visited, stats.triangles_tested, stats.hit), (0, 0, 0, false));
}

#[test]
fn traversal_missing_the_root_stops_at_once() {
    let mut tree: Tree<u32> = Tree::new();
    tree.add_mesh(cube_mesh(), &centroid_sum);
    build_sah(&mut tree);
    let stats = trace(&tree, [10.0, 10.0, 10.0], [0.0, 0.0, -1.0]);
    assert_eq!((stats.steps, stats.nodes_visited, stats.triangles_tested, stats.hit), (1, 1, 0, false));
}

#[test]
fn traversal_hits_the_cube() {
    let mut tree: Tree<u32> = Tree::new();
    tree.add_mesh(cube_mesh(), &centroid_sum);
    build_sah(&mut tree);
    let stats = trace(&tree, [0.0, 0.0, -5.0], [0.0, 0.0, 1.0]);
    assert!(stats.hit);
    assert!(stats.triangles_tested >= 1);
    assert!(stats.nodes_visited <= stats.steps && stats.steps <= 100);
}

#[test]
fn traversal_counts_by_hand() {
    // root internal over two leaves; the right child is pushed first and the
    // left one popped first
    let b = [0u32; 3];
    let nodes = vec![Node::make_internal(b, b, 1, 2), Node::make_leaf(b, b, 0, 2), Node::make_leaf(b, b, 2, 3)];
    let far = 5.0f32.to_bits();
    let near = 2.0f32.to_bits();
    let tri_hit = vec![None, Some(far), Some(near), None, None];
    let stats = traverse_bvh(&nodes, &vec![true, true, true], &tri_hit);
    assert_eq!((stats.steps, stats.nodes_visited, stats.triangles_tested, stats.hit), (3, 3, 5, true));
    let stats = traverse_bvh(&nodes, &vec![true, false, true], &tri_hit);
    assert_eq!((stats.steps, stats.nodes_visited, stats.triangles_tested, stats.hit), (3, 3, 3, true));
    // a leaf run past the triangle array is cut at its end
    let short = vec![Node::make_leaf(b, b, 3, 10)];
    let stats = traverse_bvh(&short, &vec![true], &tri_hit);
    assert_eq!((stats.steps, stats.nodes_visited, stats.triangles_tested, stats.hit), (1, 1, 2, false));
    // a child index past the node array is popped and skipped
    let dangling = vec![Node::make_internal(b, b, 7, 9)];
    let stats = traverse_bvh(&dangling, &vec![true], &tri_hit);
    assert_eq!((stats.steps, stats.nodes_visited, stats.triangles_tested, stats.hit), (3, 1, 0, false));
}

#[test]
fn traversal_stops_after_step_limit() {
    // every node points back to itself: the stack never empties
    let b = [0u32; 3];
    let nodes = vec![Node::make_internal(b, b, 0, 0)];
    let stats = traverse_bvh(&nodes, &vec![true], &vec![]);
    assert_eq!(stats.steps, 100);
    assert_eq!(stats.nodes_visited, 100);
    assert!(!stats.hit);
}

#[test]
fn test_bvh_traversal_stress() {
    let mut tree: Tree<u32> = Tree::new();
    let grid_size = 32;
    let layers = 3;
    for layer in 0..layers {
        let z = layer as f32 * 2.0;
        for i in 0..grid_size {
            for j in 0..grid_size {
                let x = i as f32 - grid_size as f32 / 2.0;
                let y = j as f32 - grid_size as f32 / 2.0;
                let a = v4(x, y, z);
                let b = v4(x + 1.0, y, z);
                let c = v4(x + 1.0, y + 1.0, z);
                let d = v4(x, y + 1.0, z);
                let centroid = bits3([x + 0.5, y + 0.5, z]);
                tree.triangles.push(Triangle { a, b, c, material: 0, custom: centroid });
                tree.centroids.push(centroid);
                tree.triangles.push(Triangle { a, b: c, c: d, material: 0, custom: centroid });
                tree.centroids.push(centroid);
            }
        }
    }
    tree.materials.push(0);
    build_sah(&mut tree);
    println!("Created mesh with {} triangles", tree.sizes[1]);
    println!("BVH tree size: {} nodes", tree.sizes[0]);
    assert_eq!(tree.sizes[1], 6144);
    assert_eq!(check_subtree(&tree.nodes, &tree.triangles, 0, 0), 6144);
    let rays = [
        ([0.0, 0.0, -100.0], [0.0, 1.0, 0.0]),
        ([-20.0, 0.0, 3.0], [1.0, 0.0, 0.0]),
        ([0.0, 0.0, -10.0], [0.0, 0.0, 1.0]),
        ([-20.0, -20.0, -5.0], [1.0, 1.0, 0.5]),
    ];
    for (i, (o, d)) in rays.iter().enumerate() {
        let stats = trace(&tree, *o, *d);
        println!(
            "Ray {}: steps={:4}, nodes={:4}, triangles={:3}, hit={}",
            i + 1,
            stats.steps,
            stats.nodes_visited,
            stats.triangles_tested,
            stats.hit
        );
        assert!(stats.steps <= 100);
        assert!(stats.nodes_visited <= stats.steps);
    }
}

#[test]
fn test_bvh_traversal_simple_cube() {
    let mut tree: Tree<u32> = Tree::new();
    tree.add_mesh(cube_mesh(), &centroid_sum);
    build_sah(&mut tree);
    let s = 1.0 / (0.25f32 + 0.25 + 0.49).sqrt();
    let test_rays = [
        ([0.0, 0.0, -5.0], [0.0, 0.0, 1.0]),
        ([5.0, 0.0, 0.0], [-1.0, 0.0, 0.0]),
        ([0.0, 5.0, 0.0], [0.0, -1.0, 0.0]),
        ([2.0, 2.0, -2.0], [-0.5 * s, -0.5 * s, 0.7 * s]),
        ([10.0, 10.0, 10.0], [0.0, 0.0, -1.0]),
    ];
    println!("\nCube BVH Traversal Stats (12 triangles):");
    println!("Tree sizes: n={}, m={}", tree.sizes[0], tree.sizes[1]);
    for (i, (o, d)) in test_rays.iter().enumerate() {
        let stats = trace(&tree, *o, *d);
        println!(
            "Ray {}: steps={}, nodes={}, triangles={}, hit={}",
            i + 1,
            stats.steps,
            stats.nodes_visited,
            stats.triangles_tested,
            stats.hit
        );
        assert!(stats.steps <= 100);
    }
    assert!(trace(&tree, [0.0, 0.0, -5.0], [0.0, 0.0, 1.0]).hit);
    assert!(!trace(&tree, [10.0, 10.0, 10.0], [0.0, 0.0, -1.0]).hit);
}

#[test]
fn negative_zero_centroid_is_not_below_positive_zero_split() {
    // centroid sums along x: -0.0 once, about -0.0009 four times
    let mut tree: Tree<u32> = Tree::new();
    let small = -0.0003f32;
    for i in 0..5 {
        let (a, b, c) = if i == 0 {
            (v4(-0.0, 0.0, 0.0), v4(-0.0, 0.0001, 0.0), v4(-0.0, 0.0, 0.0001))
        } else {
            (v4(small, 0.0, 0.0), v4(small, 0.0001, 0.0), v4(small, 0.0, 0.0001))
        };
        let center = centroid_sum(a, b, c);
        tree.triangles.push(Triangle { a, b, c, material: i, custom: center });
        tree.centroids.push(center);
    }
    assert_eq!(tree.centroids[0][0], (-0.0f32).to_bits());
    build_sah(&mut tree);
    let root = tree.nodes[0];
    assert!(!root.is_leaf());
    let left = tree.nodes[1];
    let right = tree.nodes[root.tri_count as usize];
    assert_eq!((left.tri_count, right.tri_count), (4, 1));
    assert_eq!(tree.triangles[4].material, 0);
}

#[test]
fn nan_coordinates_are_skipped_by_the_box() {
    let mut tree: Tree<u32> = Tree::new();
    push_triangle(&mut tree, v4(f32::NAN, 0.0, 0.0), v4(1.0, 2.0, 0.0), v4(-1.0, 0.0, 3.0), 0);
    push_triangle(&mut tree, v4(0.5, -f32::NAN, 0.0), v4(1.0, 0.0, 0.0), v4(0.0, 1.0, 0.0), 0);
    build_sah(&mut tree);
    let root = tree.nodes[0];
    assert_eq!(root.bound_min, bits3([-1.0, 0.0, 0.0]));
    assert_eq!(root.bound_max, bits3([1.0, 2.0, 3.0]));
}

#[test]
fn nan_centroid_never_goes_left() {
    let mut tree: Tree<u32> = Tree::new();
    for i in 0..6 {
        let x = if i == 0 { f32::NAN } else { i as f32 };
        let a = v4(x, 0.0, 0.0);
        let b = v4(i as f32, 1.0, 0.0);
        let c = v4(i as f32, 0.0, 1.0);
        let center = centroid_sum(a, b, c);
        tree.triangles.push(Triangle { a, b, c, material: i, custom: center });
        tree.centroids.push(center);
    }
    let split = 100.0f32.to_bits();
    tree.build(&|_ids: Vec<usize>, _lo: [u32; 3], _hi: [u32; 3]| (0usize, split), &face_normal);
    let root = tree.nodes[0];
    assert!(!root.is_leaf());
    let right = tree.nodes[root.tri_count as usize];
    assert_eq!(right.tri_count, 1);
    assert_eq!(tree.triangles[5].material, 0);
}

#[test]
fn traversal_finds_every_hit_of_the_cube() {
    let mut tree: Tree<u32> = Tree::new();
    tree.add_mesh(cube_mesh(), &centroid_sum);
    build_sah(&mut tree);
    for ox in [-3.0f32, -0.5, 0.0, 0.7, 3.0] {
        for oy in [-2.0f32, 0.25, 2.0] {
            for d in [[0.0f32, 0.0, 1.0], [0.3, -0.2, 1.0], [1.0, 1.0, 1.0], [0.0, 1.0, 0.0]] {
                let origin = [ox, oy, -5.0];
                let dir = normalize(d);
                let any_hit = tree.triangles.iter().any(|t| intersect_triangle(origin, dir, t).is_some());
                let stats = trace(&tree, origin, d);
                assert!(stats.steps < 100);
                assert_eq!(stats.hit, any_hit, "origin {:?} dir {:?}", origin, d);
            }
        }
    }
}
