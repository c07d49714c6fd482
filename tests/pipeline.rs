use splashsurf_lib::grid::{GridIndex, SubdomainGrid, UniformGrid};
use splashsurf_lib::mesh::{SurfacePatch, TriMesh3d};
use splashsurf_lib::octree::{
    particles_in_box, Aabb, DecompositionGeometry, NodeData, Octree, SubdivisionCriterion,
};
use splashsurf_lib::reconstruction::{
    append_local_meshes, computes_global_densities, reconstruction_mode, resize_and_fill,
    write_back_node_densities, Parameters, ParticleDensityComputationStrategy,
    ReconstructionMode, SpatialDecompositionParameters, SurfaceReconstructionOctreeVisitor,
};
use splashsurf_lib::stitching::{find_key, merge_patch_into, stitch_surface_patches};

fn geometry(cells: i64, units: i64, margin: i64) -> DecompositionGeometry {
    DecompositionGeometry {
        grid: UniformGrid::new([cells, cells, cells]).unwrap(),
        units_per_cell: units,
        margin,
    }
}

fn decomposition(max_particles: usize, stitching: bool) -> SpatialDecompositionParameters<f64> {
    SpatialDecompositionParameters {
        subdivision_criterion: SubdivisionCriterion {
            max_particles_per_leaf: max_particles,
            max_depth: 1,
        },
        ghost_particle_safety_factor: Some(1.0),
        enable_stitching: stitching,
        particle_density_computation: ParticleDensityComputationStrategy::SynchronizeSubdomains,
    }
}

fn parameters(decomp: Option<SpatialDecompositionParameters<f64>>) -> Parameters<f64> {
    Parameters {
        particle_radius: 0.1,
        rest_density: 1000.0,
        compact_support_radius: 0.4,
        cube_size: 0.05,
        iso_surface_threshold: 0.6,
        enable_multi_threading: true,
        subdomain_num_cubes_per_dim: None,
        spatial_decomposition: decomp,
    }
}

fn leaf_set(tree: &Octree<[f64; 3]>, i: usize) -> Vec<usize> {
    match &tree.nodes[i].data {
        NodeData::ParticleSet(s) => s.clone(),
        _ => panic!("node {} holds no particle set", i),
    }
}

fn patch(keys: &[i64], tris: &[[usize; 3]]) -> SurfacePatch<[f64; 3]> {
    let sub = SubdomainGrid::new(UniformGrid::new([4, 4, 4]).unwrap(), [2, 2, 2], [0, 0, 0]).unwrap();
    let mut p = SurfacePatch::new_empty(sub);
    for &k in keys {
        p.mesh.vertices.push([k as f64, 0.0, 0.0]);
        p.vertex_keys.push(k);
    }
    p.mesh.triangles.extend_from_slice(tris);
    p
}

fn corner_keys(p: &SurfacePatch<[f64; 3]>) -> Vec<[i64; 3]> {
    p.mesh
        .triangles
        .iter()
        .map(|t| [p.vertex_keys[t[0]], p.vertex_keys[t[1]], p.vertex_keys[t[2]]])
        .collect()
}

#[test]
fn grid_rejects_bad_cell_counts() {
    assert!(UniformGrid::new([0, 1, 1]).is_none());
    assert!(UniformGrid::new([1, 1, -3]).is_none());
    assert!(UniformGrid::new([1048577, 1, 1]).is_none());
    assert!(UniformGrid::new([1048576, 1, 1]).is_some());
}

#[test]
fn flatten_point_index_is_row_major() {
    let g = UniformGrid::new([2, 3, 4]).unwrap();
    assert_eq!(g.points_per_dim(), [3, 4, 5]);
    assert_eq!(g.flatten_point_index([0, 0, 0]), 0);
    assert_eq!(g.flatten_point_index([1, 2, 3]), 33);
    assert_eq!(g.flatten_point_index([2, 3, 4]), 59);
    assert!(g.is_point_in_bounds([2, 3, 4]));
    assert!(!g.is_point_in_bounds([3, 0, 0]));
    assert!(!g.is_point_in_bounds([0, -1, 0]));
}

#[test]
fn subdomain_maps_points_both_ways() {
    let g = UniformGrid::new([8, 8, 8]).unwrap();
    let s = SubdomainGrid::new(g, [4, 4, 4], [4, 0, 2]).unwrap();
    assert_eq!(s.map_point_to_global([1, 2, 3]), [5, 2, 5]);
    assert_eq!(s.map_point_to_local([5, 2, 5]), Some([1, 2, 3]));
    assert_eq!(s.map_point_to_local([3, 2, 5]), None);
    assert_eq!(s.map_point_to_local([8, 4, 6]), Some([4, 4, 4]));
    assert!(SubdomainGrid::new(g, [4, 4, 4], [5, 0, 0]).is_none());
    assert!(SubdomainGrid::new(g, [4, 4, 4], [-1, 0, 0]).is_none());
}

#[test]
fn shared_face_points_coincide() {
    let g = UniformGrid::new([8, 8, 8]).unwrap();
    let a = SubdomainGrid::new(g, [4, 8, 8], [0, 0, 0]).unwrap();
    let b = SubdomainGrid::new(g, [4, 8, 8], [4, 0, 0]).unwrap();
    let la = a.map_point_to_local([4, 3, 7]).unwrap();
    let lb = b.map_point_to_local([4, 3, 7]).unwrap();
    assert_eq!(la, [4, 3, 7]);
    assert_eq!(lb, [0, 3, 7]);
    assert_eq!(
        g.flatten_point_index(a.map_point_to_global(la)),
        g.flatten_point_index(b.map_point_to_global(lb))
    );
}

#[test]
fn aabb_is_half_open() {
    let b = Aabb { min: [0, 0, 0], max: [10, 10, 10] };
    assert!(b.contains_point([0, 0, 0]));
    assert!(b.contains_point([9, 9, 9]));
    assert!(!b.contains_point([10, 5, 5]));
    assert!(!b.contains_point([5, -1, 5]));
}

#[test]
fn empty_input_gives_single_empty_leaf() {
    let tree: Octree<[f64; 3]> = Octree::new_subdivided(
        geometry(4, 10, 5),
        &[],
        SubdivisionCriterion { max_particles_per_leaf: 0, max_depth: 3 },
    );
    assert_eq!(tree.nodes.len(), 1);
    assert!(tree.nodes[0].children.is_none());
    assert!(leaf_set(&tree, 0).is_empty());
    let sub = SubdomainGrid::new(tree.geometry.grid, [4, 4, 4], [0, 0, 0]).unwrap();
    let p: SurfacePatch<[f64; 3]> = SurfacePatch::new_empty(sub);
    assert!(p.mesh.vertices.is_empty());
    assert!(p.mesh.triangles.is_empty());
}

#[test]
fn small_cloud_stays_in_one_leaf() {
    let positions: Vec<GridIndex> = vec![[1, 1, 1], [20, 5, 7], [39, 39, 39]];
    let tree: Octree<[f64; 3]> = Octree::new_subdivided(
        geometry(4, 10, 5),
        &positions,
        SubdivisionCriterion { max_particles_per_leaf: 8, max_depth: 3 },
    );
    assert_eq!(tree.nodes.len(), 1);
    assert_eq!(leaf_set(&tree, 0), vec![0, 1, 2]);
    let mut collected = Vec::new();
    SurfaceReconstructionOctreeVisitor::<f64, [f64; 3]>::collect_node_particle_positions(
        &leaf_set(&tree, 0),
        &positions,
        &mut collected,
    );
    assert_eq!(collected, positions);
}

fn split_cloud() -> Vec<GridIndex> {
    // Grid of 4 cells of 10 units per axis: octant boundaries at 20.
    vec![
        [5, 5, 5],
        [15, 5, 5],
        [22, 5, 5],
        [35, 5, 5],
        [5, 25, 5],
        [5, 5, 35],
        [35, 35, 35],
        [18, 18, 18],
        [-2, 5, 5],
    ]
}

#[test]
fn octree_splits_into_octants_with_ghosts() {
    let positions = split_cloud();
    let geo = geometry(4, 10, 5);
    let tree: Octree<[f64; 3]> = Octree::new_subdivided(
        geo,
        &positions,
        SubdivisionCriterion { max_particles_per_leaf: 3, max_depth: 1 },
    );
    assert_eq!(tree.nodes.len(), 9);
    assert_eq!(tree.nodes[0].children, Some(1));
    assert!(matches!(tree.nodes[0].data, NodeData::Empty));
    assert_eq!(tree.nodes[1].min_corner, [0, 0, 0]);
    assert_eq!(tree.nodes[1].max_corner, [2, 2, 2]);
    assert_eq!(tree.nodes[2].min_corner, [2, 0, 0]);
    assert_eq!(tree.nodes[8].min_corner, [2, 2, 2]);
    assert_eq!(tree.nodes[8].max_corner, [4, 4, 4]);
    // Octant 0 owns [0, 20) and takes in up to 25: particle 2 at x = 22 is a ghost there.
    assert_eq!(leaf_set(&tree, 1), vec![0, 1, 2, 7, 8]);
    // Octant 1 covers [20, 40) and takes in from 15: particles 1 and 7 are ghosts there.
    assert_eq!(leaf_set(&tree, 2), vec![1, 2, 3, 7]);
    for i in 1..9 {
        assert_eq!(tree.nodes[i].depth, 1);
        assert!(tree.nodes[i].children.is_none());
        let b = geo.node_ghost_box(tree.nodes[i].min_corner, tree.nodes[i].max_corner);
        assert_eq!(leaf_set(&tree, i), particles_in_box(&positions, &b));
    }
}

#[test]
fn ghost_density_is_not_written_back() {
    let positions = split_cloud();
    let geo = geometry(4, 10, 5);
    let tree: Octree<[f64; 3]> = Octree::new_subdivided(
        geo,
        &positions,
        SubdivisionCriterion { max_particles_per_leaf: 3, max_depth: 1 },
    );
    let set = leaf_set(&tree, 1);
    assert!(set.contains(&2));
    let owned = geo.node_cell_box(tree.nodes[1].min_corner, tree.nodes[1].max_corner);
    let local: Vec<f64> = set.iter().map(|&i| 100.0 + i as f64).collect();
    let mut global = Vec::new();
    resize_and_fill(&mut global, positions.len(), -1.0);
    write_back_node_densities(&set, &local, &positions, &owned, &mut global);
    assert_eq!(global[0], 100.0);
    assert_eq!(global[1], 101.0);
    assert_eq!(global[2], -1.0);
    assert_eq!(global[7], 107.0);
    assert_eq!(global[8], -1.0);
    assert_eq!(global[3], -1.0);
}

#[test]
fn synchronized_densities_come_from_owning_leaves() {
    let positions = split_cloud();
    let geo = geometry(4, 10, 5);
    let params = parameters(Some(decomposition(3, false)));
    let visitor: SurfaceReconstructionOctreeVisitor<f64, [f64; 3]> =
        SurfaceReconstructionOctreeVisitor::new(geo, &positions, &params).unwrap();
    let node_densities: Vec<Vec<f64>> = (0..visitor.octree.nodes.len())
        .map(|i| match &visitor.octree.nodes[i].data {
            NodeData::ParticleSet(s) => s.iter().map(|&p| (10 * i + p) as f64).collect(),
            _ => Vec::new(),
        })
        .collect();
    let global = visitor.compute_particle_densities_local(geo, &positions, &node_densities, 0.0);
    // Owning leaves: particles 0, 1, 7 in octant 0 (node 1), 2 and 3 in octant 1 (node 2),
    // 4 in octant 2 (node 3), 5 in octant 4 (node 5), 6 in octant 7 (node 8).
    assert_eq!(global, vec![10.0, 11.0, 22.0, 23.0, 34.0, 55.0, 86.0, 17.0, 0.0]);
}

#[test]
fn collect_node_particle_densities_gathers_in_order() {
    let global = vec![0.5, 1.5, 2.5, 3.5];
    let mut out = vec![9.0; 7];
    SurfaceReconstructionOctreeVisitor::<f64, [f64; 3]>::collect_node_particle_densities(
        &[3, 0, 3],
        &global,
        &mut out,
    );
    assert_eq!(out, vec![3.5, 0.5, 3.5]);
    SurfaceReconstructionOctreeVisitor::<f64, [f64; 3]>::collect_node_particle_densities(
        &[],
        &global,
        &mut out,
    );
    assert!(out.is_empty());
}

#[test]
fn resize_and_fill_replaces_contents() {
    let mut v = vec![1u32, 2, 3];
    resize_and_fill(&mut v, 5, 7);
    assert_eq!(v, vec![7, 7, 7, 7, 7]);
    resize_and_fill(&mut v, 0, 7);
    assert!(v.is_empty());
}

#[test]
fn mesh_append_shifts_triangles() {
    let mut a: TriMesh3d<u8> = TriMesh3d::new();
    a.vertices.extend_from_slice(&[1, 2, 3]);
    a.triangles.push([0, 1, 2]);
    let mut b: TriMesh3d<u8> = TriMesh3d::new();
    b.vertices.extend_from_slice(&[4, 5, 6, 7]);
    b.triangles.push([0, 1, 2]);
    b.triangles.push([3, 2, 1]);
    a.append(&mut b);
    assert_eq!(a.vertices, vec![1, 2, 3, 4, 5, 6, 7]);
    assert_eq!(a.triangles, vec![[0, 1, 2], [3, 4, 5], [6, 5, 4]]);
    assert!(b.vertices.is_empty() && b.triangles.is_empty());
    a.clear();
    assert!(a.vertices.is_empty() && a.triangles.is_empty());
}

#[test]
fn local_meshes_are_concatenated_in_order() {
    let mut global: TriMesh3d<u8> = TriMesh3d::new();
    global.vertices.push(0);
    let mut locals = Vec::new();
    for w in 0..3u8 {
        let mut m = TriMesh3d::new();
        m.vertices.extend_from_slice(&[10 * w + 1, 10 * w + 2, 10 * w + 3]);
        m.triangles.push([2, 1, 0]);
        locals.push(m);
    }
    locals.push(TriMesh3d::new());
    append_local_meshes(&mut global, &mut locals);
    assert_eq!(global.vertices, vec![0, 1, 2, 3, 11, 12, 13, 21, 22, 23]);
    assert_eq!(global.triangles, vec![[3, 2, 1], [6, 5, 4], [9, 8, 7]]);
    assert_eq!(locals.len(), 4);
    assert!(locals.iter().all(|m| m.vertices.is_empty() && m.triangles.is_empty()));
}

#[test]
fn find_key_finds_first_position() {
    let keys = vec![4i64, 9, 4];
    assert_eq!(find_key(&keys, 9), Some(1));
    assert_eq!(find_key(&keys, 4), Some(0));
    assert_eq!(find_key(&keys, 5), None);
}

#[test]
fn stitching_keeps_shared_vertices_once() {
    // Two patches that meet on a face: keys 7 and 8 lie on it.
    let left = patch(&[1, 7, 8], &[[0, 1, 2]]);
    let right = patch(&[8, 7, 3], &[[0, 1, 2], [2, 1, 0]]);
    let sub = left.subdomain;
    let merged = stitch_surface_patches(&vec![left, right], sub);
    assert_eq!(merged.vertex_keys, vec![1, 7, 8, 3]);
    assert_eq!(merged.mesh.vertices.len(), 4);
    assert_eq!(merged.mesh.triangles, vec![[0, 1, 2], [2, 1, 3], [3, 1, 2]]);
    assert_eq!(corner_keys(&merged), vec![[1, 7, 8], [8, 7, 3], [3, 7, 8]]);
    assert_eq!(merged.mesh.vertices[2], [8.0, 0.0, 0.0]);
    for t in &merged.mesh.triangles {
        assert!(t[0] != t[1] && t[0] != t[2] && t[1] != t[2]);
    }
}

#[test]
fn merge_into_empty_patch_copies() {
    let p = patch(&[5, 6, 7], &[[0, 1, 2]]);
    let mut merged = SurfacePatch::new_empty(p.subdomain);
    merge_patch_into(&mut merged, &p);
    assert_eq!(merged.vertex_keys, vec![5, 6, 7]);
    assert_eq!(merged.mesh.triangles, vec![[0, 1, 2]]);
}

#[test]
fn stitch_node_merges_children() {
    let positions = split_cloud();
    let geo = geometry(4, 10, 5);
    let mut tree: Octree<[f64; 3]> = Octree::new_subdivided(
        geo,
        &positions,
        SubdivisionCriterion { max_particles_per_leaf: 3, max_depth: 1 },
    );
    for i in 1..9 {
        let k = i as i64;
        // Each child shares key 100 (the centre of the root) with all its siblings.
        tree.nodes[i].data = NodeData::SurfacePatch(patch(&[100, 10 * k, 10 * k + 1], &[[0, 1, 2]]));
    }
    tree.stitch_node(0);
    for i in 1..9 {
        assert!(matches!(tree.nodes[i].data, NodeData::Empty));
    }
    match &tree.nodes[0].data {
        NodeData::SurfacePatch(p) => {
            assert_eq!(p.mesh.vertices.len(), 17);
            assert_eq!(p.vertex_keys.iter().filter(|&&k| k == 100).count(), 1);
            assert_eq!(p.mesh.triangles.len(), 8);
            assert_eq!(p.subdomain.offset, [0, 0, 0]);
            assert_eq!(p.subdomain.subdomain.n_cells_per_dim, [4, 4, 4]);
            assert_eq!(corner_keys(p)[7], [100, 80, 81]);
        }
        _ => panic!("root holds no patch"),
    }
}

#[test]
fn stitch_all_fills_the_root() {
    let positions = split_cloud();
    let geo = geometry(4, 10, 5);
    let mut tree: Octree<[f64; 3]> = Octree::new_subdivided(
        geo,
        &positions,
        SubdivisionCriterion { max_particles_per_leaf: 2, max_depth: 2 },
    );
    let mut leaves = 0;
    for i in 0..tree.nodes.len() {
        if tree.nodes[i].children.is_none() {
            leaves += 1;
            let k = i as i64;
            tree.nodes[i].data = NodeData::SurfacePatch(patch(&[-1, k], &[[0, 1, 0]]));
        }
    }
    assert!(tree.nodes.len() > 9);
    tree.stitch_all();
    match &tree.nodes[0].data {
        NodeData::SurfacePatch(p) => {
            assert_eq!(p.mesh.triangles.len(), leaves);
            assert_eq!(p.vertex_keys.len(), leaves + 1);
            assert_eq!(p.vertex_keys[0], -1);
        }
        _ => panic!("root holds no patch"),
    }
    for i in 1..tree.nodes.len() {
        assert!(matches!(tree.nodes[i].data, NodeData::Empty));
    }
}

#[test]
fn mode_follows_decomposition_parameters() {
    assert_eq!(reconstruction_mode(&parameters(None)), ReconstructionMode::Global);
    let mut with_hint = parameters(None);
    with_hint.subdomain_num_cubes_per_dim = Some(32);
    assert_eq!(reconstruction_mode(&with_hint), ReconstructionMode::Global);
    assert_eq!(
        reconstruction_mode(&parameters(Some(decomposition(3, false)))),
        ReconstructionMode::DecomposedInplace
    );
    assert_eq!(
        reconstruction_mode(&parameters(Some(decomposition(3, true)))),
        ReconstructionMode::DecomposedStitched
    );
    assert!(computes_global_densities(ParticleDensityComputationStrategy::Global));
    assert!(computes_global_densities(ParticleDensityComputationStrategy::SynchronizeSubdomains));
    assert!(!computes_global_densities(ParticleDensityComputationStrategy::IndependentSubdomains));
}

#[test]
fn visitor_needs_decomposition_parameters() {
    let positions = split_cloud();
    let geo = geometry(4, 10, 5);
    let none: Option<SurfaceReconstructionOctreeVisitor<f64, [f64; 3]>> =
        SurfaceReconstructionOctreeVisitor::new(geo, &positions, &parameters(None));
    assert!(none.is_none());
    let v: SurfaceReconstructionOctreeVisitor<f64, [f64; 3]> =
        SurfaceReconstructionOctreeVisitor::new(geo, &positions, &parameters(Some(decomposition(3, true))))
            .unwrap();
    assert!(!v.parameters.enable_multi_threading);
    assert!(v.spatial_decomposition.enable_stitching);
    assert_eq!(v.octree.nodes.len(), 9);
}

#[test]
fn node_subdomain_is_offset_at_min_corner() {
    let positions = split_cloud();
    let geo = geometry(4, 10, 5);
    let v: SurfaceReconstructionOctreeVisitor<f64, [f64; 3]> =
        SurfaceReconstructionOctreeVisitor::new(geo, &positions, &parameters(Some(decomposition(3, true))))
            .unwrap();
    let s = v.extract_node_subdomain(&v.octree.nodes[6]);
    assert_eq!(s.offset, [2, 0, 2]);
    assert_eq!(s.subdomain.n_cells_per_dim, [2, 2, 2]);
    assert_eq!(s.global.n_cells_per_dim, [4, 4, 4]);
    assert_eq!(s.map_point_to_global([2, 2, 2]), [4, 2, 4]);
}

#[test]
fn repeated_runs_give_identical_results() {
    let positions = split_cloud();
    let geo = geometry(4, 10, 5);
    let crit = SubdivisionCriterion { max_particles_per_leaf: 2, max_depth: 3 };
    let a: Octree<[f64; 3]> = Octree::new_subdivided(geo, &positions, crit);
    let b: Octree<[f64; 3]> = Octree::new_subdivided(geo, &positions, crit);
    assert_eq!(a.nodes.len(), b.nodes.len());
    for i in 0..a.nodes.len() {
        assert_eq!(a.nodes[i].min_corner, b.nodes[i].min_corner);
        assert_eq!(a.nodes[i].max_corner, b.nodes[i].max_corner);
        assert_eq!(a.nodes[i].children, b.nodes[i].children);
        if let NodeData::ParticleSet(s) = &a.nodes[i].data {
            assert_eq!(Some(s), match &b.nodes[i].data {
                NodeData::ParticleSet(t) => Some(t),
                _ => None,
            });
        }
    }
    let p1 = stitch_surface_patches(&vec![patch(&[1, 2, 3], &[[0, 1, 2]]), patch(&[3, 4, 1], &[[2, 1, 0]])], patch(&[], &[]).subdomain);
    let p2 = stitch_surface_patches(&vec![patch(&[1, 2, 3], &[[0, 1, 2]]), patch(&[3, 4, 1], &[[2, 1, 0]])], p1.subdomain);
    assert_eq!(p1.vertex_keys, p2.vertex_keys);
    assert_eq!(p1.mesh.triangles, p2.mesh.triangles);
    assert_eq!(p1.mesh.vertices, p2.mesh.vertices);
}

fn stitched_tree(max_particles: usize, depth: usize) -> Octree<[f64; 3]> {
    Octree::new_subdivided(
        geometry(4, 10, 5),
        &split_cloud(),
        SubdivisionCriterion { max_particles_per_leaf: max_particles, max_depth: depth },
    )
}

#[test]
fn stitch_all_is_the_stitch_of_the_leaves_in_tree_order() {
    let mut tree = stitched_tree(3, 1);
    // Depth one: the leaves are nodes 1..9, in octant order.
    let mut leaf_patches = Vec::new();
    for i in 1..9 {
        let k = i as i64;
        let p = patch(&[100, 10 * k, 10 * (k + 1)], &[[0, 1, 2]]);
        leaf_patches.push(patch(&[100, 10 * k, 10 * (k + 1)], &[[0, 1, 2]]));
        tree.install_patch(i, p);
    }
    let expected = stitch_surface_patches(&leaf_patches, leaf_patches[0].subdomain);
    tree.stitch_all();
    let root = tree.take_patch(0).unwrap();
    assert!(matches!(tree.nodes[0].data, NodeData::Empty));
    assert_eq!(root.vertex_keys, expected.vertex_keys);
    assert_eq!(root.mesh.vertices, expected.mesh.vertices);
    assert_eq!(root.mesh.triangles, expected.mesh.triangles);
    assert_eq!(root.vertex_keys, vec![100, 10, 20, 30, 40, 50, 60, 70, 80, 90]);
    assert_eq!(corner_keys(&root)[0], [100, 10, 20]);
    assert_eq!(corner_keys(&root)[7], [100, 80, 90]);
    assert_eq!(root.mesh.triangles[7], [0, 8, 9]);
}

#[test]
fn stitch_all_of_empty_leaves_is_empty() {
    let mut tree = stitched_tree(2, 2);
    for i in 0..tree.nodes.len() {
        if tree.nodes[i].children.is_none() {
            let sub = SubdomainGrid::new(tree.geometry.grid, [1, 1, 1], [0, 0, 0]).unwrap();
            tree.install_patch(i, SurfacePatch::new_empty(sub));
        }
    }
    tree.stitch_all();
    let root = tree.take_patch(0).unwrap();
    assert!(root.vertex_keys.is_empty());
    assert!(root.mesh.vertices.is_empty());
    assert!(root.mesh.triangles.is_empty());
    assert!(tree.take_patch(0).is_none());
}

#[test]
fn leaves_with_particles_skips_empty_and_internal_nodes() {
    let tree = stitched_tree(3, 1);
    let leaves = tree.leaves_with_particles();
    for &i in &leaves {
        assert!(!leaf_set(&tree, i).is_empty());
    }
    let expected: Vec<usize> = (1..9).filter(|&i| !leaf_set(&tree, i).is_empty()).collect();
    assert_eq!(leaves, expected);
    assert!(!leaves.contains(&0));
    let empty: Octree<[f64; 3]> = Octree::new_subdivided(
        geometry(4, 10, 5),
        &[],
        SubdivisionCriterion { max_particles_per_leaf: 1, max_depth: 1 },
    );
    assert!(empty.leaves_with_particles().is_empty());
}

#[test]
fn independent_densities_are_never_stitched() {
    let mut d = decomposition(3, true);
    d.particle_density_computation = ParticleDensityComputationStrategy::IndependentSubdomains;
    assert_eq!(reconstruction_mode(&parameters(Some(d))), ReconstructionMode::DecomposedInplace);
    d.particle_density_computation = ParticleDensityComputationStrategy::Global;
    assert_eq!(reconstruction_mode(&parameters(Some(d))), ReconstructionMode::DecomposedStitched);
}
