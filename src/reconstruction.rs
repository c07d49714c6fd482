//! The reconstruction pipeline around the octree: its parameters and the
//! choice of pipeline, the subdomain grid of a node, the moves of particle
//! positions and densities between the global arrays and the subdomains,
//! the synchronization of densities between subdomains, and the merge of
//! per-worker meshes.

use vstd::pervasive::VecAdditionalExecFns;
use vstd::prelude::*;

use crate::grid::{GridIndex, SubdomainGrid, UniformGrid};
use crate::mesh::{shifted_all, TriMesh3d, Triangle};
use crate::octree::{
    aabb_contains, corners_in_grid, lemma_cell_box_within_ghost_box, lemma_owner_in_root,
    lemma_particles_in_complete, lemma_particles_in_increasing, lemma_unique_owning_leaf, Aabb,
    DecompositionGeometry, NodeData, Octree, OctreeNode, SubdivisionCriterion,
};

verus! {

/// The values of `global` picked out by `indices`, in the order of `indices`.
pub open spec fn gathered<T>(indices: Seq<usize>, global: Seq<T>) -> Seq<T> {
    Seq::new(indices.len(), |i: int| global[indices[i] as int])
}

/// Every index of `indices` addresses an element of a sequence of length `len`.
pub open spec fn indices_in_bounds(indices: Seq<usize>, len: nat) -> bool {
    forall|i: int| 0 <= i < indices.len() ==> (#[trigger] indices[i]) < len
}

/// Replaces the contents of `out` by the values of `global` at `indices`.
fn gather_into<T: Copy>(indices: &[usize], global: &[T], out: &mut Vec<T>)
    requires
        indices_in_bounds(indices@, global@.len()),
    ensures
        final(out)@ == gathered(indices@, global@),
{
    out.clear();
    out.reserve(indices.len());
    let mut i: usize = 0;
    while i < indices.len()
        invariant
            i <= indices.len(),
            indices_in_bounds(indices@, global@.len()),
            out@ == gathered(indices@.take(i as int), global@),
        decreases indices.len() - i,
    {
        out.push(global[indices[i]]);
        i = i + 1;
        proof {
            assert(gathered(indices@.take(i as int), global@) =~= gathered(
                indices@.take((i - 1) as int),
                global@,
            ).push(global@[indices@[i - 1] as int]));
        }
    }
    proof {
        assert(indices@.take(i as int) =~= indices@);
    }
}

/// How particle densities are shared between subdomains.
#[derive(Clone, Copy, Debug, PartialEq, Eq, Structural)]
pub enum ParticleDensityComputationStrategy {
    /// Computed once over all particles before the decomposition.
    Global,
    /// Computed per subdomain; each particle's value is taken from the
    /// subdomain that owns it.
    SynchronizeSubdomains,
    /// Computed per subdomain and used there alone.
    IndependentSubdomains,
}

/// How the particle set is split into subdomains.
#[derive(Clone, Copy, Debug)]
pub struct SpatialDecompositionParameters<R> {
    pub subdivision_criterion: SubdivisionCriterion,
    pub ghost_particle_safety_factor: Option<R>,
    pub enable_stitching: bool,
    pub particle_density_computation: ParticleDensityComputationStrategy,
}

/// The parameters of a reconstruction. `R` is the scalar type of the
/// world-space quantities, which this crate carries but does not compute
/// with.
#[derive(Clone, Copy, Debug)]
pub struct Parameters<R> {
    pub particle_radius: R,
    pub rest_density: R,
    pub compact_support_radius: R,
    pub cube_size: R,
    pub iso_surface_threshold: R,
    pub enable_multi_threading: bool,
    pub subdomain_num_cubes_per_dim: Option<u32>,
    pub spatial_decomposition: Option<SpatialDecompositionParameters<R>>,
}

/// The reconstruction over the subdomains of an octree.
#[derive(Debug)]
pub struct SurfaceReconstructionOctreeVisitor<R, V> {
    pub parameters: Parameters<R>,
    pub spatial_decomposition: SpatialDecompositionParameters<R>,
    pub grid: UniformGrid,
    pub octree: Octree<V>,
}

/// `p` with multi-threading switched off.
pub open spec fn single_threaded<R>(p: Parameters<R>) -> Parameters<R> {
    Parameters { enable_multi_threading: false, ..p }
}

impl<R: Copy, V> SurfaceReconstructionOctreeVisitor<R, V> {
    /// The visitor's octree is built from `geometry`, `positions` and its
    /// decomposition parameters.
    pub open spec fn built_from(&self, geometry: DecompositionGeometry, positions: Seq<GridIndex>) -> bool {
        &&& self.octree.wf()
        &&& self.octree.all_reachable()
        &&& self.octree.geometry == geometry
        &&& self.grid == geometry.grid
        &&& forall|i: int|
            0 <= i < self.octree.nodes@.len() ==> #[trigger] self.octree.node_subdivided(
                positions,
                self.spatial_decomposition.subdivision_criterion,
                i,
            )
    }

    /// Sets up a decomposed reconstruction: builds the octree of the
    /// particles over `geometry`, whose ghost margin the caller derived from
    /// the compact support radius and the safety factor. There is none
    /// without decomposition parameters. The subdomains are processed side
    /// by side, so each of them runs single-threaded.
    pub fn new(
        geometry: DecompositionGeometry,
        global_particle_positions: &[GridIndex],
        parameters: &Parameters<R>,
    ) -> (r: Option<Self>)
        requires
            geometry.wf(),
        ensures
            r is None <==> parameters.spatial_decomposition is None,
            r is Some ==> {
                let v = r->0;
                &&& v.built_from(geometry, global_particle_positions@)
                &&& v.spatial_decomposition == parameters.spatial_decomposition->0
                &&& v.parameters == single_threaded(*parameters)
            },
    {
        let decomposition = match parameters.spatial_decomposition {
            Some(d) => d,
            None => {
                return None;
            },
        };
        let octree = Octree::new_subdivided(
            geometry,
            global_particle_positions,
            decomposition.subdivision_criterion,
        );
        let mut p = *parameters;
        p.enable_multi_threading = false;
        Some(
            SurfaceReconstructionOctreeVisitor {
                parameters: p,
                spatial_decomposition: decomposition,
                grid: geometry.grid,
                octree,
            },
        )
    }

    /// The subdomain grid of an octree node: the cells of the node, offset
    /// at its lower corner in the global grid.
    pub fn extract_node_subdomain(&self, octree_node: &OctreeNode<V>) -> (r: SubdomainGrid)
        requires
            self.grid.wf(),
            corners_in_grid(self.grid, octree_node.min_corner, octree_node.max_corner),
        ensures
            r.wf(),
            r.global == self.grid,
            r.offset == octree_node.min_corner,
            r.subdomain.n_cells_per_dim[0] == octree_node.max_corner[0] - octree_node.min_corner[0],
            r.subdomain.n_cells_per_dim[1] == octree_node.max_corner[1] - octree_node.min_corner[1],
            r.subdomain.n_cells_per_dim[2] == octree_node.max_corner[2] - octree_node.min_corner[2],
    {
        let lo = octree_node.min_corner;
        let hi = octree_node.max_corner;
        SubdomainGrid {
            global: self.grid,
            subdomain: UniformGrid { n_cells_per_dim: [hi[0] - lo[0], hi[1] - lo[1], hi[2] - lo[2]] },
            offset: lo,
        }
    }

    /// Collects the positions of the particles of a node from the global
    /// position array, in the order of the node's particle indices.
    pub fn collect_node_particle_positions<P: Copy>(
        node_particles: &[usize],
        global_particle_positions: &[P],
        node_particle_positions: &mut Vec<P>,
    )
        requires
            indices_in_bounds(node_particles@, global_particle_positions@.len()),
        ensures
            final(node_particle_positions)@ == gathered(node_particles@, global_particle_positions@),
    {
        gather_into(node_particles, global_particle_positions, node_particle_positions);
    }

    /// Collects the densities of the particles of a node from the global
    /// density array, in the order of the node's particle indices.
    pub fn collect_node_particle_densities(
        node_particles: &[usize],
        global_particle_densities: &[R],
        node_particle_densities: &mut Vec<R>,
    )
        requires
            indices_in_bounds(node_particles@, global_particle_densities@.len()),
        ensures
            final(node_particle_densities)@ == gathered(node_particles@, global_particle_densities@),
    {
        gather_into(node_particles, global_particle_densities, node_particle_densities);
    }
}

/// `global` after a node has written back, in order, the densities `dens`
/// of those of its particles `idx` whose position lies in the box `owned`
/// that the node owns; the densities of its ghost particles are dropped.
pub open spec fn written_back<R>(
    global: Seq<R>,
    idx: Seq<usize>,
    dens: Seq<R>,
    pos: Seq<GridIndex>,
    owned: Aabb,
) -> Seq<R>
    decreases idx.len(),
{
    if idx.len() == 0 {
        global
    } else {
        let prev = written_back(global, idx.drop_last(), dens, pos, owned);
        let k = idx.len() - 1;
        if aabb_contains(owned, pos[idx[k] as int]) {
            prev.update(idx[k] as int, dens[k])
        } else {
            prev
        }
    }
}

/// `len` copies of `value`.
pub open spec fn filled<R>(value: R, len: nat) -> Seq<R> {
    Seq::new(len, |i: int| value)
}

/// Makes `v` hold `len` copies of `value`.
pub fn resize_and_fill<R: Copy>(v: &mut Vec<R>, len: usize, value: R)
    ensures
        final(v)@ == filled(value, len as nat),
{
    v.clear();
    let mut i: usize = 0;
    while i < len
        invariant
            i <= len,
            v@ == filled(value, i as nat),
        decreases len - i,
    {
        v.push(value);
        i = i + 1;
        assert(v@ =~= filled(value, i as nat));
    }
}

/// Writes the densities that a node computed for its particles into the
/// global density array, for those particles alone whose position lies in
/// the box `owned` that the node owns (not inflated by the ghost margin).
pub fn write_back_node_densities<R: Copy>(
    node_particles: &[usize],
    node_densities: &[R],
    global_particle_positions: &[GridIndex],
    owned: &Aabb,
    global_densities: &mut Vec<R>,
)
    requires
        node_densities@.len() == node_particles@.len(),
        indices_in_bounds(node_particles@, global_particle_positions@.len()),
        indices_in_bounds(node_particles@, old(global_densities)@.len()),
    ensures
        final(global_densities)@ == written_back(
            old(global_densities)@,
            node_particles@,
            node_densities@,
            global_particle_positions@,
            *owned,
        ),
{
    let ghost idx = node_particles@;
    let ghost dens = node_densities@;
    let ghost pos = global_particle_positions@;
    let mut k: usize = 0;
    while k < node_particles.len()
        invariant
            k <= idx.len(),
            idx == node_particles@,
            dens == node_densities@,
            pos == global_particle_positions@,
            dens.len() == idx.len(),
            indices_in_bounds(idx, pos.len()),
            indices_in_bounds(idx, global_densities@.len()),
            global_densities@.len() == old(global_densities)@.len(),
            global_densities@ == written_back(
                old(global_densities)@,
                idx.take(k as int),
                dens,
                pos,
                *owned,
            ),
        decreases idx.len() - k,
    {
        let g = node_particles[k];
        assert(idx[k as int] == g);
        assert(indices_in_bounds(idx.take(k as int), old(global_densities)@.len()));
        assert(idx.take(k + 1).drop_last() =~= idx.take(k as int));
        assert(idx.take(k + 1)[k as int] == g);
        proof {
            lemma_written_back_len(old(global_densities)@, idx.take(k as int), dens, pos, *owned);
        }
        if owned.contains_point(global_particle_positions[g]) {
            global_densities.set(g, node_densities[k]);
        }
        k = k + 1;
    }
    assert(idx.take(k as int) =~= idx);
}

/// Writing back keeps the length of the global array.
proof fn lemma_written_back_len<R>(
    global: Seq<R>,
    idx: Seq<usize>,
    dens: Seq<R>,
    pos: Seq<GridIndex>,
    owned: Aabb,
)
    requires
        indices_in_bounds(idx, global.len()),
    ensures
        written_back(global, idx, dens, pos, owned).len() == global.len(),
    decreases idx.len(),
{
    if idx.len() > 0 {
        lemma_written_back_len(global, idx.drop_last(), dens, pos, owned);
    }
}

/// A particle whose position lies outside the box that a node owns keeps
/// its global density when the node writes back: a ghost particle never
/// overwrites the value of the subdomain that owns it.
pub proof fn lemma_ghost_density_untouched<R>(
    global: Seq<R>,
    idx: Seq<usize>,
    dens: Seq<R>,
    pos: Seq<GridIndex>,
    owned: Aabb,
    g: int,
)
    requires
        indices_in_bounds(idx, global.len()),
        0 <= g < global.len(),
        0 <= g < pos.len(),
        !aabb_contains(owned, pos[g]),
    ensures
        written_back(global, idx, dens, pos, owned)[g] == global[g],
    decreases idx.len(),
{
    if idx.len() > 0 {
        lemma_ghost_density_untouched(global, idx.drop_last(), dens, pos, owned, g);
        lemma_written_back_len(global, idx.drop_last(), dens, pos, owned);
    }
}

/// A particle of the node whose position lies in the box that the node
/// owns gets the density that the node computed for it, where the node
/// lists each particle once.
pub proof fn lemma_owned_density_written<R>(
    global: Seq<R>,
    idx: Seq<usize>,
    dens: Seq<R>,
    pos: Seq<GridIndex>,
    owned: Aabb,
    k: int,
)
    requires
        indices_in_bounds(idx, global.len()),
        0 <= k < idx.len(),
        idx[k] < pos.len(),
        aabb_contains(owned, pos[idx[k] as int]),
        forall|a: int, b: int| 0 <= a < b < idx.len() ==> idx[a] != idx[b],
    ensures
        written_back(global, idx, dens, pos, owned)[idx[k] as int] == dens[k],
    decreases idx.len(),
{
    let last = idx.len() - 1;
    let prev = idx.drop_last();
    lemma_written_back_len(global, prev, dens, pos, owned);
    if k < last {
        lemma_owned_density_written(global, prev, dens, pos, owned, k);
        assert(idx[last] != idx[k]);
    }
}

/// Which pipeline a reconstruction runs.
#[derive(Clone, Copy, Debug, PartialEq, Eq, Structural)]
pub enum ReconstructionMode {
    /// One density map and one extraction over the whole domain.
    Global,
    /// One patch per leaf, appended to per-worker meshes that are
    /// concatenated afterwards.
    DecomposedInplace,
    /// One patch per leaf, stitched bottom-up into one watertight mesh.
    DecomposedStitched,
}

/// The pipeline that `p` selects: without decomposition parameters the
/// global one, whatever else is set. Stitching needs densities that agree
/// across subdomains, so subdomains that compute their densities each on
/// their own are always reconstructed in place.
pub open spec fn mode_of<R>(p: Parameters<R>) -> ReconstructionMode {
    match p.spatial_decomposition {
        None => ReconstructionMode::Global,
        Some(d) => if d.enable_stitching && d.particle_density_computation
            != ParticleDensityComputationStrategy::IndependentSubdomains {
            ReconstructionMode::DecomposedStitched
        } else {
            ReconstructionMode::DecomposedInplace
        },
    }
}

/// The pipeline that `parameters` select.
pub fn reconstruction_mode<R>(parameters: &Parameters<R>) -> (r: ReconstructionMode)
    ensures
        r == mode_of(*parameters),
{
    match &parameters.spatial_decomposition {
        None => ReconstructionMode::Global,
        Some(d) => if d.enable_stitching && computes_global_densities(
            d.particle_density_computation,
        ) {
            ReconstructionMode::DecomposedStitched
        } else {
            ReconstructionMode::DecomposedInplace
        },
    }
}

/// Whether `strategy` fills one global density array before the
/// subdomains are reconstructed, which the subdomains then read.
pub fn computes_global_densities(strategy: ParticleDensityComputationStrategy) -> (r: bool)
    ensures
        r <==> strategy != ParticleDensityComputationStrategy::IndependentSubdomains,
{
    match strategy {
        ParticleDensityComputationStrategy::Global => true,
        ParticleDensityComputationStrategy::SynchronizeSubdomains => true,
        ParticleDensityComputationStrategy::IndependentSubdomains => false,
    }
}

/// The vertices of all `meshes`, mesh after mesh.
pub open spec fn concat_vertices<V>(meshes: Seq<TriMesh3d<V>>) -> Seq<V>
    decreases meshes.len(),
{
    if meshes.len() == 0 {
        seq![]
    } else {
        concat_vertices(meshes.drop_last()) + meshes.last().vertices@
    }
}

/// The triangles of all `meshes`, mesh after mesh, each shifted past the
/// `base` vertices before the first mesh and the vertices of the meshes
/// before its own.
pub open spec fn concat_triangles<V>(base: int, meshes: Seq<TriMesh3d<V>>) -> Seq<Triangle>
    decreases meshes.len(),
{
    if meshes.len() == 0 {
        seq![]
    } else {
        let prev = meshes.drop_last();
        concat_triangles(base, prev) + shifted_all(
            meshes.last().triangles@,
            base + concat_vertices(prev).len(),
        )
    }
}

/// Appends the per-worker meshes to `global_mesh`, in worker order; the
/// worker meshes are left empty.
pub fn append_local_meshes<V>(global_mesh: &mut TriMesh3d<V>, local_meshes: &mut Vec<TriMesh3d<V>>)
    requires
        forall|w: int| 0 <= w < old(local_meshes)@.len() ==> (#[trigger] old(local_meshes)@[w]).wf(),
        old(global_mesh).vertices@.len() + concat_vertices(old(local_meshes)@).len() <= usize::MAX,
    ensures
        final(global_mesh).vertices@ == old(global_mesh).vertices@ + concat_vertices(
            old(local_meshes)@,
        ),
        final(global_mesh).triangles@ == old(global_mesh).triangles@ + concat_triangles(
            old(global_mesh).vertices@.len() as int,
            old(local_meshes)@,
        ),
        old(global_mesh).wf() ==> final(global_mesh).wf(),
        final(local_meshes)@.len() == old(local_meshes)@.len(),
        forall|w: int|
            0 <= w < final(local_meshes)@.len() ==> (#[trigger] final(local_meshes)@[w]).vertices@.len()
                == 0 && final(local_meshes)@[w].triangles@.len() == 0,
{
    let ghost locals = local_meshes@;
    let ghost v0 = global_mesh.vertices@;
    let ghost t0 = global_mesh.triangles@;
    let mut w: usize = 0;
    while w < local_meshes.len()
        invariant
            w <= locals.len(),
            local_meshes@.len() == locals.len(),
            forall|q: int| w <= q < locals.len() ==> #[trigger] local_meshes@[q] == locals[q],
            forall|q: int|
                0 <= q < w ==> (#[trigger] local_meshes@[q]).vertices@.len() == 0
                    && local_meshes@[q].triangles@.len() == 0,
            forall|q: int| 0 <= q < locals.len() ==> (#[trigger] locals[q]).wf(),
            v0.len() + concat_vertices(locals).len() <= usize::MAX,
            global_mesh.vertices@ == v0 + concat_vertices(locals.take(w as int)),
            global_mesh.triangles@ == t0 + concat_triangles(v0.len() as int, locals.take(w as int)),
            old(global_mesh).vertices@ == v0,
            old(global_mesh).triangles@ == t0,
            old(global_mesh).wf() ==> global_mesh.wf(),
        decreases locals.len() - w,
    {
        let ghost next = locals.take(w + 1);
        assert(next.drop_last() =~= locals.take(w as int));
        assert(next.last() == locals[w as int]);
        proof {
            lemma_concat_vertices_prefix(locals, w + 1);
        }
        let mut local = TriMesh3d::new();
        local_meshes.set_and_swap(w, &mut local);
        assert(local == locals[w as int]);
        let ghost before_v = global_mesh.vertices@;
        let ghost before_t = global_mesh.triangles@;
        global_mesh.append(&mut local);
        assert(global_mesh.vertices@ =~= v0 + concat_vertices(next));
        assert(global_mesh.triangles@ =~= t0 + concat_triangles(v0.len() as int, next));
        w = w + 1;
    }
    assert(locals.take(w as int) =~= locals);
}

/// The vertices of a prefix of the meshes are no more than those of all.
proof fn lemma_concat_vertices_prefix<V>(meshes: Seq<TriMesh3d<V>>, n: int)
    requires
        0 <= n <= meshes.len(),
    ensures
        concat_vertices(meshes.take(n)).len() <= concat_vertices(meshes).len(),
    decreases meshes.len() - n,
{
    if n < meshes.len() {
        lemma_concat_vertices_prefix(meshes, n + 1);
        assert(meshes.take(n + 1).drop_last() =~= meshes.take(n));
    } else {
        assert(meshes.take(n) =~= meshes);
    }
}

/// The global densities after the first `n` nodes of `nodes`, in order,
/// wrote back the densities `dens[i]` they computed for their particles;
/// a node without a particle set writes nothing.
pub open spec fn synchronized<R, V>(
    global: Seq<R>,
    geometry: DecompositionGeometry,
    nodes: Seq<OctreeNode<V>>,
    dens: Seq<Vec<R>>,
    pos: Seq<GridIndex>,
    n: nat,
) -> Seq<R>
    decreases n,
{
    if n == 0 {
        global
    } else {
        let prev = synchronized(global, geometry, nodes, dens, pos, (n - 1) as nat);
        let node = nodes[n - 1];
        match node.data {
            NodeData::ParticleSet(set) => written_back(
                prev,
                set@,
                dens[n - 1]@,
                pos,
                geometry.cell_box(node.min_corner, node.max_corner),
            ),
            _ => prev,
        }
    }
}

impl<V> Octree<V> {
    /// Every particle set of the tree indexes particles of `pos`.
    pub open spec fn particle_sets_in_bounds(&self, len: nat) -> bool {
        forall|i: int|
            0 <= i < self.nodes@.len() && (#[trigger] self.nodes@[i]).data is ParticleSet
                ==> indices_in_bounds(self.nodes@[i].data->ParticleSet_0@, len)
    }

    /// The global densities of the synchronizing strategy: starting from
    /// `len` copies of `fill`, each leaf writes back the densities
    /// `node_densities[i]` that it computed, with its ghost particles, for
    /// the particles that its cells own.
    pub fn synchronize_densities<R: Copy>(
        &self,
        global_particle_positions: &[GridIndex],
        node_densities: &Vec<Vec<R>>,
        fill: R,
    ) -> (r: Vec<R>)
        requires
            self.geometry.wf(),
            self.particle_sets_in_bounds(global_particle_positions@.len()),
            node_densities@.len() == self.nodes@.len(),
            forall|i: int|
                0 <= i < self.nodes@.len() && (#[trigger] self.nodes@[i]).data is ParticleSet
                    ==> node_densities@[i]@.len() == self.nodes@[i].data->ParticleSet_0@.len(),
            forall|i: int|
                0 <= i < self.nodes@.len() ==> corners_in_grid(
                    self.geometry.grid,
                    (#[trigger] self.nodes@[i]).min_corner,
                    self.nodes@[i].max_corner,
                ),
        ensures
            r@ == synchronized(
                filled(fill, global_particle_positions@.len()),
                self.geometry,
                self.nodes@,
                node_densities@,
                global_particle_positions@,
                self.nodes@.len(),
            ),
    {
        let ghost pos = global_particle_positions@;
        let mut global: Vec<R> = Vec::new();
        resize_and_fill(&mut global, global_particle_positions.len(), fill);
        let mut i: usize = 0;
        while i < self.nodes.len()
            invariant
                i <= self.nodes@.len(),
                pos == global_particle_positions@,
                self.geometry.wf(),
                self.particle_sets_in_bounds(pos.len()),
                node_densities@.len() == self.nodes@.len(),
                forall|i: int|
                    0 <= i < self.nodes@.len() && (#[trigger] self.nodes@[i]).data is ParticleSet
                        ==> node_densities@[i]@.len() == self.nodes@[i].data->ParticleSet_0@.len(),
                forall|i: int|
                    0 <= i < self.nodes@.len() ==> corners_in_grid(
                        self.geometry.grid,
                        (#[trigger] self.nodes@[i]).min_corner,
                        self.nodes@[i].max_corner,
                    ),
                global@.len() == pos.len(),
                global@ == synchronized(
                    filled(fill, pos.len()),
                    self.geometry,
                    self.nodes@,
                    node_densities@,
                    pos,
                    i as nat,
                ),
            decreases self.nodes@.len() - i,
        {
            let node = &self.nodes[i];
            assert(corners_in_grid(self.geometry.grid, node.min_corner, node.max_corner));
            match &node.data {
                NodeData::ParticleSet(set) => {
                    let owned = self.geometry.node_cell_box(node.min_corner, node.max_corner);
                    proof {
                        lemma_written_back_len(global@, set@, node_densities@[i as int]@, pos, owned);
                    }
                    write_back_node_densities(
                        set.as_slice(),
                        node_densities[i].as_slice(),
                        global_particle_positions,
                        &owned,
                        &mut global,
                    );
                },
                _ => {},
            }
            i = i + 1;
        }
        global
    }
}

/// A particle that lies within the ghost margin of a leaf but outside its
/// cells is among the particles of the leaf, and keeps its global density
/// when the leaf writes its densities back.
pub proof fn lemma_ghost_margin<R, V>(
    tree: Octree<V>,
    pos: Seq<GridIndex>,
    criterion: SubdivisionCriterion,
    leaf: int,
    j: int,
    global: Seq<R>,
    dens: Seq<R>,
)
    requires
        tree.wf(),
        0 <= leaf < tree.nodes@.len(),
        tree.node_subdivided(pos, criterion, leaf),
        tree.nodes@[leaf].data is ParticleSet,
        pos.len() <= usize::MAX,
        global.len() == pos.len(),
        0 <= j < pos.len(),
        aabb_contains(
            tree.geometry.ghost_box(tree.nodes@[leaf].min_corner, tree.nodes@[leaf].max_corner),
            pos[j],
        ),
        !aabb_contains(
            tree.geometry.cell_box(tree.nodes@[leaf].min_corner, tree.nodes@[leaf].max_corner),
            pos[j],
        ),
    ensures
        tree.nodes@[leaf].data->ParticleSet_0@.contains(j as usize),
        written_back(
            global,
            tree.nodes@[leaf].data->ParticleSet_0@,
            dens,
            pos,
            tree.geometry.cell_box(tree.nodes@[leaf].min_corner, tree.nodes@[leaf].max_corner),
        )[j] == global[j],
{
    let node = tree.nodes@[leaf];
    let b = tree.geometry.ghost_box(node.min_corner, node.max_corner);
    lemma_particles_in_complete(pos, b, pos.len(), j);
    crate::octree::lemma_particles_in_members(pos, b, pos.len());
    lemma_ghost_density_untouched(
        global,
        node.data->ParticleSet_0@,
        dens,
        pos,
        tree.geometry.cell_box(node.min_corner, node.max_corner),
        j,
    );
}

/// The particle sets of an octree built over `pos` index particles of
/// `pos`, and its nodes lie in the grid.
pub proof fn lemma_built_tree_in_bounds<V>(
    tree: Octree<V>,
    pos: Seq<GridIndex>,
    criterion: SubdivisionCriterion,
)
    requires
        tree.wf(),
        pos.len() <= usize::MAX,
        forall|i: int|
            0 <= i < tree.nodes@.len() ==> #[trigger] tree.node_subdivided(pos, criterion, i),
    ensures
        tree.particle_sets_in_bounds(pos.len()),
        forall|i: int|
            0 <= i < tree.nodes@.len() ==> corners_in_grid(
                tree.geometry.grid,
                (#[trigger] tree.nodes@[i]).min_corner,
                tree.nodes@[i].max_corner,
            ),
{
    assert forall|i: int|
        0 <= i < tree.nodes@.len() && (#[trigger] tree.nodes@[i]).data is ParticleSet
            implies indices_in_bounds(tree.nodes@[i].data->ParticleSet_0@, pos.len()) by {
        assert(tree.node_subdivided(pos, criterion, i));
        let node = tree.nodes@[i];
        crate::octree::lemma_particles_in_members(
            pos,
            tree.geometry.ghost_box(node.min_corner, node.max_corner),
            pos.len(),
        );
    }
    assert forall|i: int| 0 <= i < tree.nodes@.len() implies corners_in_grid(
        tree.geometry.grid,
        (#[trigger] tree.nodes@[i]).min_corner,
        tree.nodes@[i].max_corner,
    ) by {
        assert(tree.node_shape_ok(i));
    }
}

/// The density that particle `g` gets from the synchronizing strategy:
/// the one that the leaf owning its position computed for it, or `fill`
/// where no leaf owns it.
pub open spec fn owner_density<R, V>(
    tree: Octree<V>,
    pos: Seq<GridIndex>,
    dens: Seq<Vec<R>>,
    fill: R,
    g: int,
) -> R {
    let p = pos[g];
    if tree.owns(0, p) {
        let l = tree.owning_leaf(0, p);
        let s = tree.nodes@[l].data->ParticleSet_0@;
        let k = choose|k: int| 0 <= k < s.len() && s[k] == g as usize;
        dens[l]@[k]
    } else {
        fill
    }
}

/// After the first `n` nodes of a built tree wrote back, particle `g`
/// holds the density from the leaf that owns it if that leaf is among
/// them, and `fill` otherwise.
proof fn lemma_synchronized_owner<R, V>(
    tree: Octree<V>,
    pos: Seq<GridIndex>,
    criterion: SubdivisionCriterion,
    dens: Seq<Vec<R>>,
    fill: R,
    n: nat,
    g: int,
)
    requires
        tree.wf(),
        tree.all_reachable(),
        pos.len() <= usize::MAX,
        forall|i: int|
            0 <= i < tree.nodes@.len() ==> #[trigger] tree.node_subdivided(pos, criterion, i),
        n <= tree.nodes@.len(),
        0 <= g < pos.len(),
    ensures
        synchronized(filled(fill, pos.len()), tree.geometry, tree.nodes@, dens, pos, n)[g] == if tree.owns(
            0,
            pos[g],
        ) && tree.owning_leaf(0, pos[g]) < n {
            owner_density(tree, pos, dens, fill, g)
        } else {
            fill
        },
    decreases n,
{
    let p = pos[g];
    lemma_built_tree_in_bounds(tree, pos, criterion);
    if n == 0 {
        if tree.owns(0, p) {
            lemma_unique_owning_leaf(tree, p, 0);
        }
    } else {
        lemma_synchronized_owner(tree, pos, criterion, dens, fill, (n - 1) as nat, g);
        let j = n - 1;
        let node = tree.nodes@[j];
        let prev = synchronized(filled(fill, pos.len()), tree.geometry, tree.nodes@, dens, pos, (n - 1) as nat);
        lemma_synchronized_len(tree, pos, criterion, dens, fill, (n - 1) as nat);
        assert(tree.node_subdivided(pos, criterion, j));
        if tree.owns(0, p) {
            lemma_unique_owning_leaf(tree, p, j);
        }
        if node.data is ParticleSet {
            let set = node.data->ParticleSet_0@;
            let owned = tree.geometry.cell_box(node.min_corner, node.max_corner);
            assert(indices_in_bounds(set, pos.len()));
            let cur = synchronized(filled(fill, pos.len()), tree.geometry, tree.nodes@, dens, pos, n);
            assert(cur == written_back(prev, set, dens[j]@, pos, owned));
            if tree.owns(j, p) {
                lemma_owner_in_root(tree, j, p);
                assert(tree.node_shape_ok(j));
                let b = tree.geometry.ghost_box(node.min_corner, node.max_corner);
                lemma_cell_box_within_ghost_box(tree.geometry, node.min_corner, node.max_corner, p);
                lemma_particles_in_complete(pos, b, pos.len(), g);
                lemma_particles_in_increasing(pos, b, pos.len());
                let k = choose|k: int| 0 <= k < set.len() && set[k] == g as usize;
                lemma_owned_density_written(prev, set, dens[j]@, pos, owned, k);
                let l = tree.owning_leaf(0, p);
                assert(l == j);
                let s = tree.nodes@[l].data->ParticleSet_0@;
                assert(s == set);
                let k2 = choose|k: int| 0 <= k < s.len() && s[k] == g as usize;
                assert(0 <= k2 < s.len() && s[k2] == g as usize);
                if k < k2 {
                    assert(set[k] < set[k2]);
                } else if k2 < k {
                    assert(set[k2] < set[k]);
                }
                assert(owner_density(tree, pos, dens, fill, g) == dens[j]@[k]);
            } else {
                lemma_ghost_density_untouched(prev, set, dens[j]@, pos, owned, g);
                assert(tree.owns(0, p) ==> tree.owning_leaf(0, p) != j);
            }
        } else {
            assert(tree.owns(0, p) ==> tree.owning_leaf(0, p) != j);
            assert(synchronized(filled(fill, pos.len()), tree.geometry, tree.nodes@, dens, pos, n) == prev);
        }
    }
}

/// Writing back keeps the number of particles.
proof fn lemma_synchronized_len<R, V>(
    tree: Octree<V>,
    pos: Seq<GridIndex>,
    criterion: SubdivisionCriterion,
    dens: Seq<Vec<R>>,
    fill: R,
    n: nat,
)
    requires
        tree.wf(),
        pos.len() <= usize::MAX,
        forall|i: int|
            0 <= i < tree.nodes@.len() ==> #[trigger] tree.node_subdivided(pos, criterion, i),
        n <= tree.nodes@.len(),
    ensures
        synchronized(filled(fill, pos.len()), tree.geometry, tree.nodes@, dens, pos, n).len() == pos.len(),
    decreases n,
{
    lemma_built_tree_in_bounds(tree, pos, criterion);
    if n > 0 {
        lemma_synchronized_len(tree, pos, criterion, dens, fill, (n - 1) as nat);
        let node = tree.nodes@[n - 1];
        if node.data is ParticleSet {
            let prev = synchronized(filled(fill, pos.len()), tree.geometry, tree.nodes@, dens, pos, (n - 1) as nat);
            lemma_written_back_len(
                prev,
                node.data->ParticleSet_0@,
                dens[n - 1]@,
                pos,
                tree.geometry.cell_box(node.min_corner, node.max_corner),
            );
        }
    }
}

impl<R: Copy, V> SurfaceReconstructionOctreeVisitor<R, V> {
    /// The global densities of the synchronizing strategy over this
    /// visitor's octree, from the densities `node_densities[i]` that each
    /// leaf `i` computed for its particles, ghosts included; particles that
    /// no leaf owns keep `fill`.
    pub fn compute_particle_densities_local(
        &self,
        geometry: DecompositionGeometry,
        global_particle_positions: &[GridIndex],
        node_densities: &Vec<Vec<R>>,
        fill: R,
    ) -> (r: Vec<R>)
        requires
            self.built_from(geometry, global_particle_positions@),
            node_densities@.len() == self.octree.nodes@.len(),
            forall|i: int|
                0 <= i < self.octree.nodes@.len() && (#[trigger] self.octree.nodes@[i]).data is ParticleSet
                    ==> node_densities@[i]@.len() == self.octree.nodes@[i].data->ParticleSet_0@.len(),
        ensures
            r@ == synchronized(
                filled(fill, global_particle_positions@.len()),
                geometry,
                self.octree.nodes@,
                node_densities@,
                global_particle_positions@,
                self.octree.nodes@.len(),
            ),
            r@.len() == global_particle_positions@.len(),
            forall|g: int|
                0 <= g < r@.len() ==> #[trigger] r@[g] == owner_density(
                    self.octree,
                    global_particle_positions@,
                    node_densities@,
                    fill,
                    g,
                ),
    {
        let n = global_particle_positions.len();
        proof {
            lemma_built_tree_in_bounds(
                self.octree,
                global_particle_positions@,
                self.spatial_decomposition.subdivision_criterion,
            );
        }
        let r = self.octree.synchronize_densities(global_particle_positions, node_densities, fill);
        proof {
            let pos = global_particle_positions@;
            let crit = self.spatial_decomposition.subdivision_criterion;
            lemma_synchronized_len(self.octree, pos, crit, node_densities@, fill, self.octree.nodes@.len());
            assert forall|g: int| 0 <= g < r@.len() implies #[trigger] r@[g] == owner_density(
                self.octree,
                pos,
                node_densities@,
                fill,
                g,
            ) by {
                lemma_synchronized_owner(
                    self.octree,
                    pos,
                    crit,
                    node_densities@,
                    fill,
                    self.octree.nodes@.len(),
                    g,
                );
                if self.octree.owns(0, pos[g]) {
                    lemma_unique_owning_leaf(self.octree, pos[g], 0);
                }
            }
        }
        r
    }
}

} // verus!
